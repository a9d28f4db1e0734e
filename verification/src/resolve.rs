//! The hierarchical resolver: once per frame, compose every entity's own
//! opacity multiplicatively with all its ancestors and publish the result as
//! a flat map from entity to effective opacity.
//!
//! The tree is the host's: entities are 64-bit identities, and the host
//! hands the resolver the children lists of its parent-child hierarchy
//! together with every entity that carries an [`Opacity`] state. An entity
//! with no opacity-bearing ancestor (itself included) is out of scope: it
//! never enters the map. An entity without its own opacity state inside an
//! opacity-bearing subtree passes its parent's resolved value through
//! unchanged.
//!
//! [`Opacity`]: crate::fading::Opacity

use crate::fixed::{fixed_mul, fmul, UNIT};
use std::collections::HashMap;
use vstd::prelude::*;

verus! {

broadcast use vstd::std_specs::hash::group_hash_axioms;

/// `c` is a child of `p` in the children lists `ch`.
pub open spec fn child_in(ch: Map<u64, Seq<u64>>, p: u64, c: u64) -> bool {
    ch.contains_key(p) && ch[p].contains(c)
}

/// Every entity has at most one parent.
pub open spec fn forest(ch: Map<u64, Seq<u64>>) -> bool {
    forall|p1: u64, p2: u64, c: u64|
        #[trigger] child_in(ch, p1, c) && #[trigger] child_in(ch, p2, c) ==> p1 == p2
}

/// `d` ranks every child strictly deeper than its parent, so every walk up
/// the parent chain ends.
pub open spec fn parent_ranked(ch: Map<u64, Seq<u64>>, d: Map<u64, nat>) -> bool {
    forall|p: u64, c: u64| #[trigger] child_in(ch, p, c) ==> d[p] < d[c]
}

/// `h` ranks every child strictly lower than its parent, so every walk down
/// the children lists ends.
pub open spec fn child_ranked(ch: Map<u64, Seq<u64>>, h: Map<u64, nat>) -> bool {
    forall|p: u64, c: u64| #[trigger] child_in(ch, p, c) ==> h[c] < h[p]
}

pub open spec fn ranked_up(ch: Map<u64, Seq<u64>>) -> bool {
    exists|d: Map<u64, nat>| parent_ranked(ch, d)
}

pub open spec fn ranked_down(ch: Map<u64, Seq<u64>>) -> bool {
    exists|h: Map<u64, nat>| child_ranked(ch, h)
}

/// The children lists describe a well-founded forest: unique parents and no
/// infinite chains in either direction. Any finite entity tree — in
/// particular any host scene hierarchy, whose depth and height are its
/// witnesses — satisfies this.
pub open spec fn hierarchy(ch: Map<u64, Seq<u64>>) -> bool {
    forest(ch) && ranked_up(ch) && ranked_down(ch)
}

pub open spec fn depth_wit(ch: Map<u64, Seq<u64>>) -> Map<u64, nat> {
    choose|d: Map<u64, nat>| parent_ranked(ch, d)
}

pub open spec fn height_wit(ch: Map<u64, Seq<u64>>) -> Map<u64, nat> {
    choose|h: Map<u64, nat>| child_ranked(ch, h)
}

pub open spec fn has_parent(ch: Map<u64, Seq<u64>>, c: u64) -> bool {
    exists|p: u64| child_in(ch, p, c)
}

pub open spec fn parent_of(ch: Map<u64, Seq<u64>>, c: u64) -> u64 {
    choose|p: u64| child_in(ch, p, c)
}

/// `e` is `a` itself or one of its descendants.
pub open spec fn in_scope_of(ch: Map<u64, Seq<u64>>, roots: Set<u64>, e: u64) -> bool
    decreases depth_wit(ch)[e]
        when ranked_up(ch)
{
    proof {
        if has_parent(ch, e) {
            lemma_parent_depth(ch, e);
        }
    }
    roots.contains(e) || (has_parent(ch, e) && in_scope_of(ch, roots, parent_of(ch, e)))
}

/// `e` is `a` itself or one of `a`'s descendants.
pub open spec fn under(ch: Map<u64, Seq<u64>>, a: u64, e: u64) -> bool {
    in_scope_of(ch, Set::empty().insert(a), e)
}

/// The own opacity of `e`: the value of its opacity state, or full opacity
/// for a pass-through entity that has none.
pub open spec fn loc_or_unit(loc: Map<u64, u32>, e: u64) -> int {
    if loc.contains_key(e) {
        loc[e] as int
    } else {
        UNIT as int
    }
}

/// The effective opacity of `e` over the roots `roots`: its own opacity
/// composed multiplicatively with every ancestor up to (and including) the
/// topmost ancestor-or-self in `roots`. Only meaningful when
/// `in_scope_of(ch, roots, e)` holds.
pub open spec fn eff_of(ch: Map<u64, Seq<u64>>, loc: Map<u64, u32>, roots: Set<u64>, e: u64) -> int
    decreases depth_wit(ch)[e]
        when ranked_up(ch)
{
    proof {
        if has_parent(ch, e) {
            lemma_parent_depth(ch, e);
        }
    }
    if has_parent(ch, e) && in_scope_of(ch, roots, parent_of(ch, e)) {
        fmul(eff_of(ch, loc, roots, parent_of(ch, e)), loc_or_unit(loc, e))
    } else {
        loc[e] as int
    }
}

/// A forest whose children always carry larger identities than their parent
/// — a freshly numbered scene, for one — is a well-founded hierarchy: the
/// identities themselves rank it in both directions.
pub proof fn lemma_hierarchy_from_ordered_ids(ch: Map<u64, Seq<u64>>)
    requires
        forest(ch),
        forall|p: u64, c: u64| #[trigger] child_in(ch, p, c) ==> p < c,
    ensures
        hierarchy(ch),
{
    let d = Map::<u64, nat>::new(|e: u64| true, |e: u64| e as nat);
    assert(parent_ranked(ch, d));
    let h = Map::<u64, nat>::new(|e: u64| true, |e: u64| (u64::MAX - e) as nat);
    assert(child_ranked(ch, h));
}

/// Scope only grows with the root set.
pub proof fn lemma_scope_mono(ch: Map<u64, Seq<u64>>, a: Set<u64>, b: Set<u64>, e: u64)
    requires
        ranked_up(ch),
        a.subset_of(b),
        in_scope_of(ch, a, e),
    ensures
        in_scope_of(ch, b, e),
    decreases depth_wit(ch)[e],
{
    if !a.contains(e) {
        lemma_parent_depth(ch, e);
        lemma_scope_mono(ch, a, b, parent_of(ch, e));
    }
}

/// Scope over one root more splits into the old scope and the subtree of
/// the new root.
pub proof fn lemma_scope_insert(ch: Map<u64, Seq<u64>>, roots: Set<u64>, r: u64, e: u64)
    requires
        ranked_up(ch),
    ensures
        in_scope_of(ch, roots.insert(r), e) <==> (in_scope_of(ch, roots, e) || under(ch, r, e)),
    decreases depth_wit(ch)[e],
{
    if has_parent(ch, e) {
        lemma_parent_depth(ch, e);
        lemma_scope_insert(ch, roots, r, parent_of(ch, e));
    }
}

/// Being under an in-scope entity is being in scope.
pub proof fn lemma_scope_trans(ch: Map<u64, Seq<u64>>, roots: Set<u64>, a: u64, e: u64)
    requires
        ranked_up(ch),
        in_scope_of(ch, roots, a),
        under(ch, a, e),
    ensures
        in_scope_of(ch, roots, e),
    decreases depth_wit(ch)[e],
{
    if e != a {
        lemma_parent_depth(ch, e);
        lemma_scope_trans(ch, roots, a, parent_of(ch, e));
    }
}

/// Everything under `a` sits strictly below `a` in the depth ranking, or is
/// `a` itself.
pub proof fn lemma_under_depth(ch: Map<u64, Seq<u64>>, a: u64, e: u64)
    requires
        ranked_up(ch),
        under(ch, a, e),
    ensures
        e == a || depth_wit(ch)[a] < depth_wit(ch)[e],
    decreases depth_wit(ch)[e],
{
    if e != a {
        lemma_parent_depth(ch, e);
        lemma_under_depth(ch, a, parent_of(ch, e));
    }
}

/// A root whose subtree does not hold `e` leaves `e`'s effective opacity
/// unchanged.
pub proof fn lemma_eff_frame(
    ch: Map<u64, Seq<u64>>,
    loc: Map<u64, u32>,
    roots: Set<u64>,
    r: u64,
    e: u64,
)
    requires
        ranked_up(ch),
        !under(ch, r, e),
    ensures
        eff_of(ch, loc, roots.insert(r), e) == eff_of(ch, loc, roots, e),
        in_scope_of(ch, roots.insert(r), e) == in_scope_of(ch, roots, e),
    decreases depth_wit(ch)[e],
{
    lemma_scope_insert(ch, roots, r, e);
    if has_parent(ch, e) {
        let p = parent_of(ch, e);
        lemma_parent_depth(ch, e);
        lemma_eff_frame(ch, loc, roots, r, p);
    }
}

/// A root already in scope of the others is redundant: adding it changes
/// neither the scope nor any effective opacity.
pub proof fn lemma_root_redundant(
    ch: Map<u64, Seq<u64>>,
    loc: Map<u64, u32>,
    roots: Set<u64>,
    r: u64,
    e: u64,
)
    requires
        ranked_up(ch),
        in_scope_of(ch, roots, r),
    ensures
        in_scope_of(ch, roots.insert(r), e) == in_scope_of(ch, roots, e),
        eff_of(ch, loc, roots.insert(r), e) == eff_of(ch, loc, roots, e),
    decreases depth_wit(ch)[e],
{
    lemma_scope_insert(ch, roots, r, e);
    if under(ch, r, e) {
        lemma_scope_trans(ch, roots, r, e);
    }
    if has_parent(ch, e) {
        lemma_parent_depth(ch, e);
        lemma_root_redundant(ch, loc, roots, r, parent_of(ch, e));
    }
}

/// With no roots at all, nothing is in scope.
pub proof fn lemma_scope_empty(ch: Map<u64, Seq<u64>>, roots: Set<u64>, e: u64)
    requires
        ranked_up(ch),
        forall|x: u64| !roots.contains(x),
    ensures
        !in_scope_of(ch, roots, e),
    decreases depth_wit(ch)[e],
{
    if has_parent(ch, e) {
        lemma_parent_depth(ch, e);
        lemma_scope_empty(ch, roots, parent_of(ch, e));
    }
}

/// In a forest, the parent of a child in `p`'s list is `p` itself.
pub proof fn lemma_parent_is(ch: Map<u64, Seq<u64>>, p: u64, c: u64)
    requires
        forest(ch),
        child_in(ch, p, c),
    ensures
        has_parent(ch, c),
        parent_of(ch, c) == p,
{
    assert(child_in(ch, parent_of(ch, c), c));
}

/// Anything under `e` other than `e` itself is under one of `e`'s children.
pub proof fn lemma_under_child(ch: Map<u64, Seq<u64>>, e: u64, f: u64)
    requires
        ranked_up(ch),
        under(ch, e, f),
        f != e,
    ensures
        ch.contains_key(e),
        exists|i: int| 0 <= i < ch[e].len() && under(ch, #[trigger] ch[e][i], f),
    decreases depth_wit(ch)[f],
{
    lemma_parent_depth(ch, f);
    let p = parent_of(ch, f);
    assert(child_in(ch, p, f));
    if p == e {
        let i = choose|i: int| 0 <= i < ch[e].len() && ch[e][i] == f;
        assert(under(ch, ch[e][i], f));
    } else {
        lemma_under_child(ch, e, p);
        let i = choose|i: int| 0 <= i < ch[e].len() && under(ch, #[trigger] ch[e][i], p);
        assert(under(ch, ch[e][i], f));
    }
}

/// A parent stands strictly above its child in the depth ranking.
pub proof fn lemma_parent_depth(ch: Map<u64, Seq<u64>>, e: u64)
    requires
        ranked_up(ch),
        has_parent(ch, e),
    ensures
        depth_wit(ch)[parent_of(ch, e)] < depth_wit(ch)[e],
{
    let d = depth_wit(ch);
    assert(parent_ranked(ch, d));
    let p = parent_of(ch, e);
    assert(child_in(ch, p, e));
}

/// Size of the subtree rooted at `e`, counting one node per path from `e`;
/// the work one traversal of `e`'s subtree does.
spec fn subtree_size(ch: Map<u64, Seq<u64>>, e: u64) -> nat
    decreases height_wit(ch)[e] + 1, 0int,
        when ranked_down(ch)
{
    1 + (if ch.contains_key(e) {
        kids_size(ch, e, 0)
    } else {
        0
    })
}

/// Combined size of the subtrees of `p`'s children from index `i` on.
spec fn kids_size(ch: Map<u64, Seq<u64>>, p: u64, i: int) -> nat
    decreases height_wit(ch)[p] as int, (if ch.contains_key(p) {
        ch[p].len() - i
    } else {
        0
    }),
        when ranked_down(ch)
{
    if ch.contains_key(p) && 0 <= i < ch[p].len() {
        proof {
            let h = height_wit(ch);
            assert(child_ranked(ch, h));
            assert(child_in(ch, p, ch[p][i]));
        }
        subtree_size(ch, ch[p][i]) + kids_size(ch, p, i + 1)
    } else {
        0
    }
}

/// Work left on a traversal stack: the subtree sizes of all its entries.
spec fn stack_measure(ch: Map<u64, Seq<u64>>, st: Seq<(u64, u32)>) -> nat
    decreases st.len(),
{
    if st.len() == 0 {
        0
    } else {
        subtree_size(ch, st.last().0) + stack_measure(ch, st.drop_last())
    }
}

/// The map that a sequence of key-value pairs describes, later pairs
/// winning.
pub open spec fn locs_of(s: Seq<(u64, u32)>) -> Map<u64, u32>
    decreases s.len(),
{
    if s.len() == 0 {
        Map::empty()
    } else {
        locs_of(s.drop_last()).insert(s.last().0, s.last().1)
    }
}

/// The children lists that a sequence of key-list pairs describes, later
/// pairs winning.
pub open spec fn kids_of(s: Seq<(u64, Vec<u64>)>) -> Map<u64, Seq<u64>>
    decreases s.len(),
{
    if s.len() == 0 {
        Map::empty()
    } else {
        kids_of(s.drop_last()).insert(s.last().0, s.last().1@)
    }
}

/// No two pairs name the same entity.
pub open spec fn distinct_ids<T>(s: Seq<(u64, T)>) -> bool {
    forall|i: int, j: int| 0 <= i < j < s.len() ==> (#[trigger] s[i]).0 != (#[trigger] s[j]).0
}

/// The entities named by the first `n` pairs.
pub open spec fn root_ids(s: Seq<(u64, u32)>, n: int) -> Set<u64> {
    Set::new(|e: u64| exists|j: int| 0 <= j < n && (#[trigger] s[j]).0 == e)
}

/// `locs_of` holds exactly the named keys, each at its pair's value when the
/// keys are distinct.
pub proof fn lemma_locs_of(s: Seq<(u64, u32)>)
    requires
        distinct_ids(s),
    ensures
        forall|k: u64|
            #[trigger] locs_of(s).contains_key(k) <==> exists|j: int|
                0 <= j < s.len() && (#[trigger] s[j]).0 == k,
        forall|j: int| 0 <= j < s.len() ==> locs_of(s)[(#[trigger] s[j]).0] == s[j].1,
    decreases s.len(),
{
    if s.len() > 0 {
        assert(s.drop_last() =~= s.subrange(0, s.len() - 1));
        lemma_locs_of(s.drop_last());
        assert forall|j: int| 0 <= j < s.len() implies locs_of(s)[(#[trigger] s[j]).0]
            == s[j].1 by {
            if j < s.len() - 1 {
                assert(s.drop_last()[j] == s[j]);
                assert(s[j].0 != s.last().0);
            }
        }
        assert forall|k: u64| #[trigger] locs_of(s).contains_key(k) implies exists|j: int|
            0 <= j < s.len() && (#[trigger] s[j]).0 == k by {
            if k != s.last().0 {
                assert(locs_of(s.drop_last()).contains_key(k));
                let j = choose|j: int|
                    0 <= j < s.drop_last().len() && (#[trigger] s.drop_last()[j]).0 == k;
                assert(s.drop_last()[j] == s[j]);
                assert(s[j].0 == k);
            } else {
                assert(s[s.len() - 1].0 == k);
            }
        }
        assert forall|k: u64| (exists|j: int| 0 <= j < s.len() && (#[trigger] s[j]).0 == k)
            implies #[trigger] locs_of(s).contains_key(k) by {
            let j = choose|j: int| 0 <= j < s.len() && (#[trigger] s[j]).0 == k;
            if j < s.len() - 1 {
                assert(s.drop_last()[j] == s[j]);
            }
        }
    }
}

/// Effective opacity is a normalized fraction: over roots that carry their
/// own in-range opacity state, every in-scope entity resolves to a value
/// between fully invisible and fully opaque.
pub proof fn lemma_eff_in_range(
    ch: Map<u64, Seq<u64>>,
    loc: Map<u64, u32>,
    roots: Set<u64>,
    e: u64,
)
    requires
        ranked_up(ch),
        roots.subset_of(loc.dom()),
        forall|k: u64| #[trigger] loc.contains_key(k) ==> loc[k] <= UNIT,
        in_scope_of(ch, roots, e),
    ensures
        0 <= eff_of(ch, loc, roots, e) <= UNIT,
    decreases depth_wit(ch)[e],
{
    if has_parent(ch, e) && in_scope_of(ch, roots, parent_of(ch, e)) {
        lemma_parent_depth(ch, e);
        lemma_eff_in_range(ch, loc, roots, parent_of(ch, e));
        crate::fixed::lemma_fmul_bounds(
            eff_of(ch, loc, roots, parent_of(ch, e)),
            loc_or_unit(loc, e),
        );
    } else {
        assert(roots.contains(e));
    }
}

/// Composition is multiplicative: a child in scope resolves to its parent's
/// effective opacity times its own, whatever roots resolved them.
pub proof fn lemma_multiplicative_composition(
    ch: Map<u64, Seq<u64>>,
    loc: Map<u64, u32>,
    roots: Set<u64>,
    p: u64,
    c: u64,
)
    requires
        forest(ch),
        ranked_up(ch),
        child_in(ch, p, c),
        in_scope_of(ch, roots, p),
    ensures
        in_scope_of(ch, roots, c),
        eff_of(ch, loc, roots, c) == fmul(eff_of(ch, loc, roots, p), loc_or_unit(loc, c)),
{
    lemma_parent_is(ch, p, c);
}

/// A child without its own opacity state resolves to its parent's effective
/// opacity, unchanged.
pub proof fn lemma_pass_through(
    ch: Map<u64, Seq<u64>>,
    loc: Map<u64, u32>,
    roots: Set<u64>,
    p: u64,
    c: u64,
)
    requires
        forest(ch),
        ranked_up(ch),
        child_in(ch, p, c),
        in_scope_of(ch, roots, p),
        !loc.contains_key(c),
    ensures
        in_scope_of(ch, roots, c),
        eff_of(ch, loc, roots, c) == eff_of(ch, loc, roots, p),
{
    lemma_multiplicative_composition(ch, loc, roots, p, c);
    crate::fixed::lemma_fmul_unit(eff_of(ch, loc, roots, p));
}

/// The scope boundary: an entity without its own opacity state, and whose
/// parent (if it has one) the resolver left out, is left out as well — so an
/// entity with no opacity state anywhere in its ancestor chain never appears
/// in the map.
pub proof fn lemma_scope_boundary(
    ch: Map<u64, Seq<u64>>,
    loc: Map<u64, u32>,
    m: Map<u64, u32>,
    e: u64,
)
    requires
        ranked_up(ch),
        resolves(ch, loc, m),
        !loc.contains_key(e),
        has_parent(ch, e) ==> !m.contains_key(parent_of(ch, e)),
    ensures
        !m.contains_key(e),
{
    assert(!loc.dom().contains(e));
}

/// A traversal stack entry carries an entity of `r`'s subtree together with
/// its already-resolved effective opacity.
spec fn entry_ok(
    ch: Map<u64, Seq<u64>>,
    loc: Map<u64, u32>,
    roots: Set<u64>,
    r: u64,
    en: (u64, u32),
) -> bool {
    &&& en.1 <= UNIT
    &&& en.1 as int == eff_of(ch, loc, roots, en.0)
    &&& in_scope_of(ch, roots, en.0)
    &&& under(ch, r, en.0)
}

/// Some stack entry's subtree holds `e`.
spec fn covered_by_stack(ch: Map<u64, Seq<u64>>, st: Seq<(u64, u32)>, e: u64) -> bool {
    exists|k: int| 0 <= k < st.len() && under(ch, (#[trigger] st[k]).0, e)
}

/// One of the children from index `from` on has `e` in its subtree.
spec fn covered_by_kids(ch: Map<u64, Seq<u64>>, ks: Seq<u64>, from: int, e: u64) -> bool {
    exists|i: int| from <= i < ks.len() && under(ch, #[trigger] ks[i], e)
}

/// What the resolver publishes: the map holds exactly the entities inside
/// some opacity-bearing subtree, each at its effective opacity. This pins
/// the map down completely, so rebuilding it without a state change in
/// between cannot yield anything different.
pub open spec fn resolves(ch: Map<u64, Seq<u64>>, loc: Map<u64, u32>, m: Map<u64, u32>) -> bool {
    &&& forall|e: u64|
        #![trigger m.contains_key(e)]
        #![trigger in_scope_of(ch, loc.dom(), e)]
        m.contains_key(e) <==> in_scope_of(ch, loc.dom(), e)
    &&& forall|e: u64| #[trigger] m.contains_key(e) ==> m[e] as int == eff_of(ch, loc, loc.dom(), e)
    &&& forall|e: u64| #[trigger] m.contains_key(e) ==> m[e] <= UNIT
}

/// Two maps that both resolve the same frame are one map.
pub proof fn lemma_resolver_deterministic(
    ch: Map<u64, Seq<u64>>,
    loc: Map<u64, u32>,
    m1: Map<u64, u32>,
    m2: Map<u64, u32>,
)
    requires
        resolves(ch, loc, m1),
        resolves(ch, loc, m2),
    ensures
        m1 == m2,
{
    assert(m1 =~= m2);
}

/// The effective-opacity cache of one frame: entities absent from it are
/// outside every opacity-bearing subtree and are not to be touched.
pub struct OpacityMap {
    map: HashMap<u64, u32>,
}

impl View for OpacityMap {
    type V = Map<u64, u32>;

    closed spec fn view(&self) -> Map<u64, u32> {
        self.map@
    }
}

impl OpacityMap {
    /// An empty cache, resolving nothing.
    pub fn new() -> (r: OpacityMap)
        ensures
            r@ == Map::<u64, u32>::empty(),
    {
        OpacityMap { map: HashMap::new() }
    }

    /// The resolved opacity of `entity`, or `None` for an entity outside
    /// every opacity-bearing subtree.
    pub fn get(&self, entity: u64) -> (r: Option<u32>)
        ensures
            r == (if self@.contains_key(entity) {
                Some(self@[entity])
            } else {
                None::<u32>
            }),
    {
        match self.map.get(&entity) {
            Some(v) => Some(*v),
            None => None,
        }
    }

    /// Whether `entity` lies inside some opacity-bearing subtree.
    pub fn contains(&self, entity: u64) -> (r: bool)
        ensures
            r == self@.contains_key(entity),
    {
        self.map.contains_key(&entity)
    }

    /// How many entities resolved this frame.
    pub fn len(&self) -> (r: usize)
        ensures
            r == self@.dom().len(),
    {
        self.map.len()
    }
}

/// One traversal of the resolver: resolve the whole subtree of the
/// opacity-bearing entity `r` (not itself below any root of `p_set`),
/// writing each entity's effective opacity into the cache — over the value
/// already there, if an earlier root's traversal reached it first.
///
/// `lmap` indexes the opacity states `loc` by entity; `cmap` indexes the
/// children lists of `children` by entity. The traversal is depth-first with
/// an explicit stack: pop an entity with its resolved value, record it,
/// push every child with the product of the resolved value and the child's
/// own opacity.
#[verifier::loop_isolation(false)]
#[verifier::rlimit(100)]
fn resolve_subtree(
    cache: &mut HashMap<u64, u32>,
    r: u64,
    rv: u32,
    children: &Vec<(u64, Vec<u64>)>,
    cmap: &HashMap<u64, usize>,
    lmap: &HashMap<u64, u32>,
    Ghost(ch): Ghost<Map<u64, Seq<u64>>>,
    Ghost(loc): Ghost<Map<u64, u32>>,
    Ghost(p_set): Ghost<Set<u64>>,
)
    requires
        hierarchy(ch),
        lmap@ == loc,
        forall|k: u64| #[trigger] loc.contains_key(k) ==> loc[k] <= UNIT,
        forall|k: u64| #[trigger] cmap@.contains_key(k) <==> ch.contains_key(k),
        forall|k: u64|
            #[trigger] cmap@.contains_key(k) ==> cmap@[k] < children@.len()
                && children@[cmap@[k] as int].0 == k && children@[cmap@[k] as int].1@ == ch[k],
        loc.contains_key(r),
        rv == loc[r],
        !in_scope_of(ch, p_set, r),
        forall|e: u64|
            #[trigger] old(cache)@.contains_key(e) <==> in_scope_of(ch, p_set, e),
        forall|e: u64|
            #[trigger] old(cache)@.contains_key(e) ==> old(cache)@[e] as int == eff_of(
                ch,
                loc,
                p_set,
                e,
            ),
    ensures
        forall|e: u64|
            #[trigger] final(cache)@.contains_key(e) <==> in_scope_of(ch, p_set.insert(r), e),
        forall|e: u64|
            #[trigger] final(cache)@.contains_key(e) ==> final(cache)@[e] as int == eff_of(
                ch,
                loc,
                p_set.insert(r),
                e,
            ),
{
    let ghost pp = p_set.insert(r);
    let ghost mut visited: Set<u64> = Set::empty();
    let mut stack: Vec<(u64, u32)> = Vec::new();
    stack.push((r, rv));
    proof {
        if has_parent(ch, r) && in_scope_of(ch, pp, parent_of(ch, r)) {
            let q = parent_of(ch, r);
            lemma_scope_insert(ch, p_set, r, q);
            if in_scope_of(ch, p_set, q) {
                assert(in_scope_of(ch, p_set, r));
            } else {
                lemma_under_depth(ch, r, q);
                lemma_parent_depth(ch, r);
                if q == r {
                    assert(child_in(ch, parent_of(ch, r), r));
                }
            }
            assert(false);
        }
        assert(eff_of(ch, loc, pp, r) == loc[r] as int);
        assert(entry_ok(ch, loc, pp, r, (r, rv)));
        assert forall|e: u64| #[trigger] under(ch, r, e) implies covered_by_stack(
            ch,
            stack@,
            e,
        ) by {
            assert(stack@[0].0 == r);
            assert(under(ch, stack@[0].0, e));
        }
    }
    while stack.len() > 0
        invariant
            forall|e: u64|
                #[trigger] visited.contains(e) ==> cache@.contains_key(e) && cache@[e] as int
                    == eff_of(ch, loc, pp, e) && under(ch, r, e),
            forall|e: u64|
                !visited.contains(e) ==> (#[trigger] cache@.contains_key(e) <==> in_scope_of(
                    ch,
                    p_set,
                    e,
                )),
            forall|e: u64|
                !visited.contains(e) && #[trigger] cache@.contains_key(e) ==> cache@[e] as int
                    == eff_of(ch, loc, p_set, e),
            forall|k: int|
                0 <= k < stack@.len() ==> entry_ok(ch, loc, pp, r, #[trigger] stack@[k]),
            forall|e: u64|
                #[trigger] under(ch, r, e) ==> visited.contains(e) || covered_by_stack(
                    ch,
                    stack@,
                    e,
                ),
        decreases stack_measure(ch, stack@),
    {
        let ghost m0 = stack_measure(ch, stack@);
        let ghost old_stack = stack@;
        let top = stack.pop().unwrap();
        let e = top.0;
        let v = top.1;
        proof {
            assert(old_stack.drop_last() =~= stack@);
            assert(old_stack.last() == (e, v));
            assert(entry_ok(ch, loc, pp, r, (e, v)));
            assert(stack_measure(ch, old_stack) == subtree_size(ch, e) + stack_measure(
                ch,
                stack@,
            ));
        }
        cache.insert(e, v);
        proof {
            visited = visited.insert(e);
        }
        match cmap.get(&e) {
            Some(ix_ref) => {
                let ix = *ix_ref;
                let kids = &children[ix].1;
                let ghost ks = ch[e];
                proof {
                    assert(cmap@.contains_key(e));
                    assert(kids@ == ks);
                    assert(ch.contains_key(e));
                    // Everything under the popped entity, other than itself,
                    // is under one of its children.
                    assert forall|f: u64| under(ch, e, f) && f != e implies covered_by_kids(
                        ch,
                        ks,
                        0,
                        f,
                    ) by {
                        lemma_under_child(ch, e, f);
                    }
                    assert forall|f: u64|
                        #[trigger] under(ch, r, f) && !visited.contains(f) && !covered_by_kids(
                            ch,
                            ks,
                            0,
                            f,
                        ) implies covered_by_stack(ch, stack@, f) by {
                        assert(covered_by_stack(ch, old_stack, f));
                        let k = choose|k: int|
                            0 <= k < old_stack.len() && under(ch, (#[trigger] old_stack[k]).0, f);
                        if k == old_stack.len() - 1 {
                            assert(under(ch, e, f));
                            assert(f != e);
                            assert(false);
                        } else {
                            assert(stack@[k] == old_stack[k]);
                        }
                    }
                }
                let ghost m1 = stack_measure(ch, stack@);
                let mut j: usize = 0;
                while j < kids.len()
                    invariant
                        j <= ks.len(),
                        stack_measure(ch, stack@) as int == m1 as int + kids_size(
                            ch,
                            e,
                            0,
                        ) as int - kids_size(ch, e, j as int) as int,
                        forall|k: int|
                            0 <= k < stack@.len() ==> entry_ok(
                                ch,
                                loc,
                                pp,
                                r,
                                #[trigger] stack@[k],
                            ),
                        forall|f: u64|
                            #[trigger] under(ch, r, f) ==> visited.contains(f)
                                || covered_by_stack(ch, stack@, f) || covered_by_kids(
                                ch,
                                ks,
                                j as int,
                                f,
                            ),
                    decreases ks.len() - j,
                {
                    let c = kids[j];
                    let lc = match lmap.get(&c) {
                        Some(x) => *x,
                        None => UNIT,
                    };
                    proof {
                        assert(lc as int == loc_or_unit(loc, c) && lc <= UNIT);
                        assert(ks.contains(c)) by {
                            assert(ks[j as int] == c);
                        }
                        assert(child_in(ch, e, c));
                        lemma_parent_is(ch, e, c);
                        assert(in_scope_of(ch, pp, e));
                        assert(under(ch, r, c) && in_scope_of(ch, pp, c));
                        assert(eff_of(ch, loc, pp, c) == fmul(
                            eff_of(ch, loc, pp, e),
                            loc_or_unit(loc, c),
                        ));
                    }
                    let nv = fixed_mul(v, lc);
                    let ghost pre_push = stack@;
                    stack.push((c, nv));
                    proof {
                        assert(entry_ok(ch, loc, pp, r, (c, nv)));
                        assert(stack@.drop_last() =~= pre_push);
                        assert(stack_measure(ch, stack@) == subtree_size(ch, c)
                            + stack_measure(ch, pre_push));
                        assert(kids_size(ch, e, j as int) == subtree_size(ch, ks[j as int])
                            + kids_size(ch, e, j + 1));
                        assert forall|f: u64|
                            #[trigger] under(ch, r, f) && !visited.contains(f)
                                && !covered_by_kids(ch, ks, j + 1, f) implies covered_by_stack(
                            ch,
                            stack@,
                            f,
                        ) by {
                            if covered_by_stack(ch, pre_push, f) {
                                let k = choose|k: int|
                                    0 <= k < pre_push.len() && under(
                                        ch,
                                        (#[trigger] pre_push[k]).0,
                                        f,
                                    );
                                assert(stack@[k] == pre_push[k]);
                                assert(covered_by_stack(ch, stack@, f));
                            } else {
                                let ki = choose|ki: int|
                                    j <= ki < ks.len() && under(ch, #[trigger] ks[ki], f);
                                assert(ki == j);
                                assert(under(ch, (stack@[stack@.len() - 1]).0, f));
                            }
                        }
                    }
                    j = j + 1;
                }
                proof {
                    assert(kids_size(ch, e, ks.len() as int) == 0);
                    assert(subtree_size(ch, e) == 1 + kids_size(ch, e, 0));
                    assert(stack_measure(ch, stack@) == m0 - 1);
                    assert forall|f: u64|
                        #[trigger] under(ch, r, f) && !visited.contains(f) implies covered_by_stack(
                        ch,
                        stack@,
                        f,
                    ) by {
                        assert(!covered_by_kids(ch, ks, ks.len() as int, f));
                    }
                }
            },
            None => {
                proof {
                    assert(!cmap@.contains_key(e));
                    assert(!ch.contains_key(e));
                    assert(subtree_size(ch, e) == 1);
                    assert(stack_measure(ch, stack@) == m0 - 1);
                    assert forall|f: u64|
                        #[trigger] under(ch, r, f) && !visited.contains(f) implies covered_by_stack(
                        ch,
                        stack@,
                        f,
                    ) by {
                        assert(covered_by_stack(ch, old_stack, f));
                        let k = choose|k: int|
                            0 <= k < old_stack.len() && under(
                                ch,
                                (#[trigger] old_stack[k]).0,
                                f,
                            );
                        if k == old_stack.len() - 1 {
                            if f != e {
                                lemma_under_child(ch, e, f);
                                assert(false);
                            }
                            assert(visited.contains(f));
                            assert(false);
                        } else {
                            assert(stack@[k] == old_stack[k]);
                        }
                    }
                }
            },
        }
    }
    proof {
        let sing = Set::<u64>::empty().insert(r);
        assert(sing.subset_of(pp));
        assert forall|e: u64|
            #![trigger cache@.contains_key(e)]
            #![trigger in_scope_of(ch, pp, e)]
            (cache@.contains_key(e) <==> in_scope_of(ch, pp, e)) && (cache@.contains_key(e)
                ==> cache@[e] as int == eff_of(ch, loc, pp, e)) by {
            if visited.contains(e) {
                lemma_scope_mono(ch, sing, pp, e);
            } else {
                assert(!covered_by_stack(ch, stack@, e));
                assert(!under(ch, r, e));
                lemma_scope_insert(ch, p_set, r, e);
                lemma_eff_frame(ch, loc, p_set, r, e);
            }
        }
    }
}

/// One frame of the hierarchical resolver.
///
/// `opacities` lists every entity that carries an opacity state, with its
/// current value; `children` lists the host hierarchy's children per entity.
/// The walk is iterative: every opacity-bearing entity not yet resolved
/// starts a depth-first traversal of its subtree with an explicit stack,
/// multiplying the resolved value into each child — a child with its own
/// state multiplies it in, one without passes the value through. The map is
/// rebuilt from scratch: no state is kept between frames.
#[verifier::loop_isolation(false)]
#[verifier::rlimit(60)]
pub fn calculate_opacity(opacities: &Vec<(u64, u32)>, children: &Vec<(u64, Vec<u64>)>) -> (map:
    OpacityMap)
    requires
        distinct_ids(opacities@),
        forall|i: int| 0 <= i < opacities@.len() ==> (#[trigger] opacities@[i]).1 <= UNIT,
        hierarchy(kids_of(children@)),
    ensures
        resolves(kids_of(children@), locs_of(opacities@), map@),
{
    let ghost ch = kids_of(children@);
    let ghost loc = locs_of(opacities@);
    proof {
        lemma_locs_of(opacities@);
        assert forall|k: u64| #[trigger] loc.contains_key(k) implies loc[k] <= UNIT by {
            let j = choose|j: int| 0 <= j < opacities@.len() && (#[trigger] opacities@[j]).0 == k;
            assert(loc[opacities@[j].0] == opacities@[j].1);
        }
    }
    // Index the opacity states by entity.
    let mut lmap: HashMap<u64, u32> = HashMap::new();
    let mut i: usize = 0;
    while i < opacities.len()
        invariant
            i <= opacities@.len(),
            lmap@ == locs_of(opacities@.take(i as int)),
        decreases opacities@.len() - i,
    {
        let (e, v) = opacities[i];
        lmap.insert(e, v);
        proof {
            assert(opacities@.take(i + 1).drop_last() =~= opacities@.take(i as int));
            assert(opacities@.take(i + 1).last() == opacities@[i as int]);
        }
        i = i + 1;
    }
    proof {
        assert(opacities@.take(opacities@.len() as int) =~= opacities@);
    }
    // Index the children lists by entity.
    let mut cmap: HashMap<u64, usize> = HashMap::new();
    let mut i2: usize = 0;
    while i2 < children.len()
        invariant
            i2 <= children@.len(),
            forall|k: u64|
                #[trigger] cmap@.contains_key(k) <==> kids_of(
                    children@.take(i2 as int),
                ).contains_key(k),
            forall|k: u64|
                #[trigger] cmap@.contains_key(k) ==> cmap@[k] < i2 && children@[cmap@[k] as int].0
                    == k && children@[cmap@[k] as int].1@ == kids_of(children@.take(i2 as int))[k],
        decreases children@.len() - i2,
    {
        let e = children[i2].0;
        cmap.insert(e, i2);
        proof {
            assert(children@.take(i2 + 1).drop_last() =~= children@.take(i2 as int));
            assert(children@.take(i2 + 1).last() == children@[i2 as int]);
        }
        i2 = i2 + 1;
    }
    proof {
        assert(children@.take(children@.len() as int) =~= children@);
    }
    // Resolve: walk down from every opacity-bearing entity not yet reached.
    let mut cache: HashMap<u64, u32> = HashMap::new();
    proof {
        assert forall|e: u64| !in_scope_of(ch, root_ids(opacities@, 0), e) by {
            lemma_scope_empty(ch, root_ids(opacities@, 0), e);
        }
    }
    let mut i3: usize = 0;
    while i3 < opacities.len()
        invariant
            i3 <= opacities@.len(),
            forall|e: u64|
                #![trigger cache@.contains_key(e)]
                #![trigger in_scope_of(ch, root_ids(opacities@, i3 as int), e)]
                cache@.contains_key(e) <==> in_scope_of(ch, root_ids(opacities@, i3 as int), e),
            forall|e: u64|
                #[trigger] cache@.contains_key(e) ==> cache@[e] as int == eff_of(
                    ch,
                    loc,
                    root_ids(opacities@, i3 as int),
                    e,
                ),
        decreases opacities@.len() - i3,
    {
        let ghost p_set = root_ids(opacities@, i3 as int);
        let ghost p_next = root_ids(opacities@, i3 + 1);
        let (r, rv) = opacities[i3];
        proof {
            assert forall|e: u64| p_next.contains(e) implies p_set.insert(r).contains(e) by {
                let j = choose|j: int| 0 <= j < i3 + 1 && (#[trigger] opacities@[j]).0 == e;
                if j < i3 {
                    assert(p_set.contains(e));
                }
            }
            assert forall|e: u64| p_set.insert(r).contains(e) implies p_next.contains(e) by {
                if p_set.contains(e) {
                    let j = choose|j: int| 0 <= j < i3 && (#[trigger] opacities@[j]).0 == e;
                    assert(0 <= j < i3 + 1 && opacities@[j].0 == e);
                } else {
                    assert(opacities@[i3 as int].0 == e);
                }
            }
            assert(p_next =~= p_set.insert(r));
        }
        if cache.contains_key(&r) {
            proof {
                assert(in_scope_of(ch, p_set, r));
                assert forall|e: u64|
                    in_scope_of(ch, p_next, e) == in_scope_of(ch, p_set, e) && eff_of(
                        ch,
                        loc,
                        p_next,
                        e,
                    ) == eff_of(ch, loc, p_set, e) by {
                    lemma_root_redundant(ch, loc, p_set, r, e);
                }
            }
        } else {
            proof {
                assert(loc[opacities@[i3 as int].0] == opacities@[i3 as int].1);
                assert(loc.contains_key(r)) by {
                    assert(opacities@[i3 as int].0 == r);
                }
            }
            resolve_subtree(
                &mut cache,
                r,
                rv,
                children,
                &cmap,
                &lmap,
                Ghost(ch),
                Ghost(loc),
                Ghost(p_set),
            );
        }
        i3 = i3 + 1;
    }
    proof {
        let p_all = root_ids(opacities@, opacities@.len() as int);
        assert forall|e: u64| p_all.contains(e) implies loc.dom().contains(e) by {
            let j = choose|j: int|
                0 <= j < opacities@.len() && (#[trigger] opacities@[j]).0 == e;
            assert(loc.contains_key(e));
        }
        assert forall|e: u64| loc.dom().contains(e) implies p_all.contains(e) by {
            assert(loc.contains_key(e));
            let j = choose|j: int|
                0 <= j < opacities@.len() && (#[trigger] opacities@[j]).0 == e;
        }
        assert(p_all =~= loc.dom());
        assert forall|e: u64| #[trigger] cache@.contains_key(e) implies cache@[e] <= UNIT by {
            lemma_eff_in_range(ch, loc, loc.dom(), e);
        }
    }
    OpacityMap { map: cache }
}

} // verus!
