//! Per-entity opacity state and its transition driver.
//!
//! An [`Opacity`] holds the entity's own (pre-hierarchy) opacity together
//! with an in-progress interpolation: a `target` value and a signed `speed`
//! in fractions of [`UNIT`] per second. Time is measured in fractions of
//! [`UNIT`] as well, so `UNIT` of elapsed time is one second. Each frame,
//! [`interpolate`] advances every state by the elapsed time and reports the
//! entities whose completed fade-out asks for their removal.

use crate::fixed::UNIT;
use vstd::arithmetic::div_mod::{
    lemma_div_is_ordered, lemma_div_is_ordered_by_denominator, lemma_div_non_zero,
    lemma_div_pos_is_pos,
};
use vstd::arithmetic::mul::lemma_mul_upper_bound;
use vstd::prelude::*;

verus! {

/// Mathematical model of an [`Opacity`]: the same four fields over
/// unbounded integers.
pub ghost struct OpacityView {
    pub current: int,
    pub target: int,
    pub speed: int,
    pub despawns: bool,
}

impl OpacityView {
    /// Well-formedness, kept by every operation: `current` and `target` are
    /// fractions of `UNIT`; an idle state (`speed == 0`) sits exactly on its
    /// target; a moving state moves toward its target; a state that despawns
    /// is fading out to exactly zero; and `speed` is bounded by one full
    /// range per shortest representable duration.
    pub open spec fn wf(self) -> bool {
        &&& 0 <= self.current <= UNIT
        &&& 0 <= self.target <= UNIT
        &&& -((UNIT as int) * (UNIT as int)) <= self.speed <= (UNIT as int) * (UNIT as int)
        &&& (self.speed == 0 ==> self.current == self.target)
        &&& (self.speed > 0 ==> self.current <= self.target)
        &&& (self.speed < 0 ==> self.current >= self.target)
        &&& (self.despawns ==> self.target == 0)
    }
}

/// The state after one tick of `dt` elapsed time: advance `current` by
/// `speed * dt`; on reaching or overshooting `target`, pin `current` to
/// `target` and go idle.
pub open spec fn stepped(v: OpacityView, dt: int) -> OpacityView {
    if v.speed == 0 {
        v
    } else if v.speed > 0 {
        let c = v.current + (v.speed * dt) / (UNIT as int);
        if c >= v.target {
            OpacityView { current: v.target, speed: 0, ..v }
        } else {
            OpacityView { current: c, ..v }
        }
    } else {
        let c = v.current - ((-v.speed) * dt) / (UNIT as int);
        if c <= v.target {
            OpacityView { current: v.target, speed: 0, ..v }
        } else {
            OpacityView { current: c, ..v }
        }
    }
}

/// A tick requests the entity's removal exactly when it was still moving,
/// is marked to despawn, and has just reached fully invisible.
pub open spec fn emits_removal(v: OpacityView, dt: int) -> bool {
    v.speed != 0 && v.despawns && stepped(v, dt).current == 0
}

/// Speed of a fade over the full range in `time`: one `UNIT` of value per
/// `time` of elapsed time, in per-second fixed-point units.
pub open spec fn range_speed(time: int) -> int {
    ((UNIT as int) * (UNIT as int)) / time
}

/// Speed that crosses from `current` to `value` in `time`: the distance per
/// `time`, never zero while some distance remains.
pub open spec fn distance_speed(current: int, value: int, time: int) -> int {
    let mag = (if value >= current {
        (value - current) * (UNIT as int) / time
    } else {
        (current - value) * (UNIT as int) / time
    });
    if value == current {
        0
    } else if value > current {
        if mag == 0 {
            1
        } else {
            mag
        }
    } else {
        if mag == 0 {
            -1
        } else {
            -mag
        }
    }
}

/// Opacity of an entity and, through the resolver, of its descendants.
///
/// All values are fractions of [`UNIT`]. Mutators cancel any transition in
/// progress; [`Opacity::tick`] advances one.
#[derive(Clone, Copy, Debug)]
pub struct Opacity {
    current: u32,
    target: u32,
    speed: i64,
    despawns: bool,
}

impl View for Opacity {
    type V = OpacityView;

    closed spec fn view(&self) -> OpacityView {
        OpacityView {
            current: self.current as int,
            target: self.target as int,
            speed: self.speed as int,
            despawns: self.despawns,
        }
    }
}

impl Opacity {
    /// A steady opacity value: no transition, no despawn.
    pub fn new(opacity: u32) -> (r: Opacity)
        requires
            opacity <= UNIT,
        ensures
            r@ == (OpacityView {
                current: opacity as int,
                target: opacity as int,
                speed: 0,
                despawns: false,
            }),
            r@.wf(),
    {
        Opacity { current: opacity, target: opacity, speed: 0, despawns: false }
    }

    /// The current opacity value.
    pub fn get(&self) -> (r: u32)
        ensures
            r as int == self@.current,
    {
        self.current
    }

    /// The target opacity value of the transition in progress, equal to the
    /// current value when idle.
    pub fn get_target(&self) -> (r: u32)
        ensures
            r as int == self@.target,
    {
        self.target
    }

    /// Pin the opacity to `opacity`, cancelling any interpolation or fade
    /// out in progress.
    pub fn set(&mut self, opacity: u32)
        requires
            opacity <= UNIT,
        ensures
            final(self)@ == (OpacityView {
                current: opacity as int,
                target: opacity as int,
                speed: 0,
                despawns: false,
            }),
            final(self)@.wf(),
    {
        *self = Opacity::new(opacity);
    }

    pub fn is_opaque(&self) -> (r: bool)
        ensures
            r == (self@.current >= UNIT),
    {
        self.current >= UNIT
    }

    pub fn is_visible(&self) -> (r: bool)
        ensures
            r == (self@.current > 0),
    {
        self.current > 0
    }

    pub fn is_invisible(&self) -> (r: bool)
        ensures
            r == (self@.current <= 0),
    {
        self.current == 0
    }

    /// Start fully invisible and interpolate to fully opaque within `time`.
    pub fn new_fade_in(time: u32) -> (r: Opacity)
        requires
            time > 0,
        ensures
            r@ == (OpacityView {
                current: 0,
                target: UNIT as int,
                speed: range_speed(time as int),
                despawns: false,
            }),
            r@.wf(),
    {
        let speed = fade_speed_for(time);
        Opacity { current: 0, target: UNIT, speed: speed as i64, despawns: false }
    }

    /// Interpolate to fully opaque within `time`, from the current value.
    pub fn and_fade_in(self, time: u32) -> (r: Self)
        requires
            time > 0,
            self@.wf(),
        ensures
            r@ == (OpacityView {
                current: self@.current,
                target: UNIT as int,
                speed: range_speed(time as int),
                despawns: false,
            }),
            r@.wf(),
    {
        let mut r = self;
        r.fade_in(time);
        r
    }

    /// Interpolate opacity to fully opaque within `time`, cancelling any
    /// despawn in progress.
    pub fn fade_in(&mut self, time: u32)
        requires
            time > 0,
            old(self)@.wf(),
        ensures
            final(self)@ == (OpacityView {
                current: old(self)@.current,
                target: UNIT as int,
                speed: range_speed(time as int),
                despawns: false,
            }),
            final(self)@.wf(),
    {
        let speed = fade_speed_for(time);
        self.target = UNIT;
        self.despawns = false;
        self.speed = speed as i64;
    }

    /// Interpolate opacity to fully invisible within `time` and request the
    /// entity's removal when that happens.
    ///
    /// The removal can be stopped by a later `set` or `fade_in`.
    pub fn fade_out(&mut self, time: u32)
        requires
            time > 0,
            old(self)@.wf(),
        ensures
            final(self)@ == (OpacityView {
                current: old(self)@.current,
                target: 0,
                speed: -range_speed(time as int),
                despawns: true,
            }),
            final(self)@.wf(),
    {
        let speed = fade_speed_for(time);
        self.target = 0;
        self.despawns = true;
        self.speed = -(speed as i64);
    }

    /// Interpolate opacity to `opacity` within `time`: the speed covers the
    /// remaining distance in `time`.
    pub fn interpolate_to(&mut self, opacity: u32, time: u32)
        requires
            opacity <= UNIT,
            time > 0,
            old(self)@.wf(),
        ensures
            final(self)@ == (OpacityView {
                current: old(self)@.current,
                target: opacity as int,
                speed: distance_speed(old(self)@.current, opacity as int, time as int),
                despawns: false,
            }),
            final(self)@.wf(),
    {
        proof {
            lemma_distance_speed_wf(self@.current, opacity as int, time as int);
        }
        let speed: i64 = if opacity >= self.current {
            let mag = ((opacity - self.current) as u64 * UNIT as u64) / (time as u64);
            if mag == 0 && opacity != self.current {
                1
            } else {
                mag as i64
            }
        } else {
            let mag = ((self.current - opacity) as u64 * UNIT as u64) / (time as u64);
            if mag == 0 {
                -1
            } else {
                -(mag as i64)
            }
        };
        self.target = opacity;
        self.despawns = false;
        self.speed = speed;
    }

    /// Interpolate opacity to `opacity` at the constant speed that would
    /// cross the whole range from invisible to opaque in `time_zero_to_one`.
    pub fn interpolate_by_speed(&mut self, opacity: u32, time_zero_to_one: u32)
        requires
            opacity <= UNIT,
            time_zero_to_one > 0,
            old(self)@.wf(),
        ensures
            final(self)@ == (OpacityView {
                current: old(self)@.current,
                target: opacity as int,
                speed: (if opacity as int >= old(self)@.current {
                    range_speed(time_zero_to_one as int)
                } else {
                    -range_speed(time_zero_to_one as int)
                }),
                despawns: false,
            }),
            final(self)@.wf(),
    {
        let speed = fade_speed_for(time_zero_to_one);
        self.speed = if opacity >= self.current {
            speed as i64
        } else {
            -(speed as i64)
        };
        self.target = opacity;
        self.despawns = false;
    }

    /// Advance the transition in progress by `dt` elapsed time; the result
    /// asks for the entity's removal when a fade-out just completed.
    pub fn tick(&mut self, dt: u32) -> (removed: bool)
        requires
            old(self)@.wf(),
        ensures
            final(self)@ == stepped(old(self)@, dt as int),
            removed == emits_removal(old(self)@, dt as int),
            final(self)@.wf(),
    {
        if self.speed == 0 {
            return false;
        }
        proof {
            lemma_mul_upper_bound(
                (if self.speed > 0 {
                    self.speed as int
                } else {
                    -(self.speed as int)
                }),
                (UNIT as int) * (UNIT as int),
                dt as int,
                u32::MAX as int,
            );
        }
        if self.speed > 0 {
            let delta = (self.speed as u64 * dt as u64) / (UNIT as u64);
            proof {
                lemma_div_pos_is_pos((self.speed as int) * (dt as int), UNIT as int);
            }
            let room = (self.target - self.current) as u64;
            if delta >= room {
                self.current = self.target;
                self.speed = 0;
            } else {
                self.current = self.current + delta as u32;
            }
        } else {
            let mag = ((-self.speed) as u64 * dt as u64) / (UNIT as u64);
            proof {
                lemma_div_pos_is_pos((-(self.speed as int)) * (dt as int), UNIT as int);
            }
            let room = (self.current - self.target) as u64;
            if mag >= room {
                self.current = self.target;
                self.speed = 0;
            } else {
                self.current = self.current - mag as u32;
            }
        }
        self.despawns && self.current == 0
    }
}

/// Entities default to fully opaque: better to show something than to hide
/// it implicitly.
impl Default for Opacity {
    fn default() -> (r: Opacity)
        ensures
            r@ == (OpacityView {
                current: UNIT as int,
                target: UNIT as int,
                speed: 0,
                despawns: false,
            }),
            r@.wf(),
    {
        Opacity::new(UNIT)
    }
}

/// Speed magnitude of a full-range fade over `time`, with its bounds.
fn fade_speed_for(time: u32) -> (speed: u64)
    requires
        time > 0,
    ensures
        speed as int == range_speed(time as int),
        1 <= speed as int <= (UNIT as int) * (UNIT as int),
{
    let unit_sq = UNIT as u64 * UNIT as u64;
    proof {
        lemma_div_non_zero(unit_sq as int, time as int);
        lemma_div_is_ordered_by_denominator(unit_sq as int, 1, time as int);
    }
    unit_sq / (time as u64)
}

/// The distance-per-time speed is bounded by the full-range-per-time speed
/// and is zero exactly on an already-reached target.
proof fn lemma_distance_speed_wf(current: int, value: int, time: int)
    requires
        0 <= current <= UNIT,
        0 <= value <= UNIT,
        time >= 1,
    ensures
        -((UNIT as int) * (UNIT as int)) <= distance_speed(current, value, time) <= (UNIT as int)
            * (UNIT as int),
        distance_speed(current, value, time) == 0 <==> current == value,
        distance_speed(current, value, time) > 0 <==> value > current,
        distance_speed(current, value, time) < 0 <==> value < current,
{
    let u = UNIT as int;
    let dist = if value >= current {
        value - current
    } else {
        current - value
    };
    lemma_mul_upper_bound(dist, u, u, u);
    lemma_div_is_ordered(dist * u, u * u, time);
    lemma_div_is_ordered_by_denominator(u * u, 1, time);
    lemma_div_pos_is_pos(dist * u, time);
    assert(dist * u >= 0) by (nonlinear_arith)
        requires
            dist >= 0,
            u >= 0,
    ;
}

/// The identities of the states in `s` whose tick by `dt` completes a
/// despawning fade-out, in order.
pub open spec fn removal_ids(s: Seq<(u64, OpacityView)>, dt: int) -> Seq<u64>
    decreases s.len(),
{
    if s.len() == 0 {
        Seq::empty()
    } else {
        removal_ids(s.drop_last(), dt) + (if emits_removal(s.last().1, dt) {
            seq![s.last().0]
        } else {
            Seq::<u64>::empty()
        })
    }
}

/// The view of a sequence of per-entity states.
pub open spec fn states_view(s: Seq<(u64, Opacity)>) -> Seq<(u64, OpacityView)> {
    s.map_values(|p: (u64, Opacity)| (p.0, p.1@))
}

/// One frame of the transition driver: tick every entity's state by `dt`
/// and collect, in order, the entities whose fade-out just completed and
/// who are therefore to be removed by the host (with their whole subtree).
pub fn interpolate(states: &mut Vec<(u64, Opacity)>, dt: u32) -> (removals: Vec<u64>)
    requires
        forall|i: int| 0 <= i < old(states)@.len() ==> (#[trigger] old(states)@[i]).1@.wf(),
    ensures
        final(states)@.len() == old(states)@.len(),
        forall|i: int|
            0 <= i < old(states)@.len() ==> (#[trigger] final(states)@[i]).0 == old(states)@[i].0
                && final(states)@[i].1@ == stepped(old(states)@[i].1@, dt as int)
                && final(states)@[i].1@.wf(),
        removals@ == removal_ids(states_view(old(states)@), dt as int),
{
    let ghost orig = states@;
    let mut removals: Vec<u64> = Vec::new();
    let mut i: usize = 0;
    while i < states.len()
        invariant
            states@.len() == orig.len(),
            0 <= i <= orig.len(),
            forall|j: int| 0 <= j < orig.len() ==> (#[trigger] orig[j]).1@.wf(),
            forall|j: int| i <= j < orig.len() ==> #[trigger] states@[j] == orig[j],
            forall|j: int|
                0 <= j < i ==> (#[trigger] states@[j]).0 == orig[j].0 && states@[j].1@ == stepped(
                    orig[j].1@,
                    dt as int,
                ) && states@[j].1@.wf(),
            removals@ == removal_ids(states_view(orig.take(i as int)), dt as int),
        decreases orig.len() - i,
    {
        let (id, op) = states[i];
        let mut op = op;
        let removed = op.tick(dt);
        states.set(i, (id, op));
        if removed {
            removals.push(id);
        }
        proof {
            let pre = states_view(orig.take(i as int));
            let now = states_view(orig.take(i + 1));
            assert(now.drop_last() =~= pre);
            assert(now.last() == (orig[i as int].0, orig[i as int].1@));
        }
        i = i + 1;
    }
    proof {
        assert(orig.take(orig.len() as int) =~= orig);
    }
    removals
}

/// A moving fade-in never goes backward: with positive speed, one tick only
/// raises the current value, and never past the target.
pub proof fn lemma_tick_monotone(v: OpacityView, dt: int)
    requires
        v.wf(),
        v.speed > 0,
        dt >= 0,
    ensures
        stepped(v, dt).current >= v.current,
        stepped(v, dt).current <= v.target,
{
    lemma_div_pos_is_pos(v.speed * dt, UNIT as int);
    assert(v.speed * dt >= 0) by (nonlinear_arith)
        requires
            v.speed > 0,
            dt >= 0,
    ;
}

/// A removal is requested at most once: the tick that completes a fade-out
/// leaves the state idle, and an idle state never requests a removal again,
/// however often it is ticked.
pub proof fn lemma_removal_once(v: OpacityView, dt1: int, dt2: int)
    requires
        v.wf(),
        emits_removal(v, dt1),
    ensures
        stepped(v, dt1).speed == 0,
        stepped(v, dt1).current == 0,
        !emits_removal(stepped(v, dt1), dt2),
{
    let s = stepped(v, dt1);
    if v.speed > 0 {
        assert(s.current == 0);
        assert(v.despawns ==> v.target == 0);
        assert(s.speed == 0);
    } else {
        assert(v.target == 0);
        if s.speed != 0 {
            assert(s.current > v.target);
            assert(false);
        }
    }
}

} // verus!
