//! Declarative adapter registration: a target type opts into opacity by
//! naming which of its fields carry an alpha value, plus a classification —
//! a plain component written in place, an asset reached through a store, or
//! an extension over a base material that either extends or masks it.
//!
//! Registration happens once at start-up and is validated there: naming a
//! field the target does not have is a configuration error, surfaced
//! before any frame runs. The per-frame application is total: it writes
//! the resolved value into every declared field and touches nothing else.

use vstd::prelude::*;

verus! {

/// How a registered target consumes opacity. Without a classification a
/// registration is a plain direct-value component.
#[derive(Clone, Copy, Debug, PartialEq, Eq, Structural)]
pub enum Classification {
    /// A component owning its alpha-bearing fields directly.
    Direct,
    /// An asset reached by handle through a keyed store.
    Asset,
    /// An extension whose base carries opacity as well.
    Extends,
    /// An extension that masks its base: the base is left untouched.
    Masks,
}

/// A registered adapter: the classification and the target's alpha-bearing
/// fields, by field index.
#[derive(Clone, Debug)]
pub struct AdapterSpec {
    pub classification: Classification,
    pub alpha_fields: Vec<usize>,
}

/// The alpha-capable fields of one target value, by field index.
#[derive(Clone, Debug)]
pub struct FieldTarget {
    pub fields: Vec<u32>,
}

/// A registration naming a field the target type does not have.
#[derive(Clone, Copy, Debug, PartialEq, Eq, Structural)]
pub enum RegistrationError {
    MissingField,
}

/// Every declared field index exists on a target with `field_count` fields.
pub open spec fn fields_valid(declared: Seq<usize>, field_count: int) -> bool {
    forall|i: int| 0 <= i < declared.len() ==> (#[trigger] declared[i]) < field_count
}

/// Validate a registration against the target type's field count: accepted
/// exactly when every declared alpha field exists.
pub fn validate_registration(adapter: &AdapterSpec, field_count: usize) -> (r: Result<
    (),
    RegistrationError,
>)
    ensures
        r == (if fields_valid(adapter.alpha_fields@, field_count as int) {
            Ok::<(), RegistrationError>(())
        } else {
            Err::<(), RegistrationError>(RegistrationError::MissingField)
        }),
{
    let mut i: usize = 0;
    while i < adapter.alpha_fields.len()
        invariant
            i <= adapter.alpha_fields@.len(),
            forall|j: int| 0 <= j < i ==> (#[trigger] adapter.alpha_fields@[j]) < field_count,
        decreases adapter.alpha_fields@.len() - i,
    {
        if adapter.alpha_fields[i] >= field_count {
            return Err(RegistrationError::MissingField);
        }
        i = i + 1;
    }
    Ok(())
}

/// Some declared field is field `k`.
pub open spec fn declares(declared: Seq<usize>, k: int) -> bool {
    exists|w: int| 0 <= w < declared.len() && (#[trigger] declared[w]) as int == k
}

/// The fields after one application: every declared field holds the value,
/// every other field its prior content.
pub open spec fn written(fields: Seq<u32>, declared: Seq<usize>, value: u32) -> Seq<u32> {
    Seq::new(
        fields.len(),
        |k: int|
            if declares(declared, k) {
                value
            } else {
                fields[k]
            },
    )
}

/// Write `value` into every declared field of the target, overwriting the
/// prior content — the resolved opacity is authoritative, never blended.
pub fn apply_fields(target: &mut FieldTarget, declared: &Vec<usize>, value: u32)
    requires
        fields_valid(declared@, old(target).fields@.len() as int),
    ensures
        final(target).fields@ == written(old(target).fields@, declared@, value),
{
    let ghost orig = target.fields@;
    let mut i: usize = 0;
    while i < declared.len()
        invariant
            i <= declared@.len(),
            target.fields@.len() == orig.len(),
            fields_valid(declared@, orig.len() as int),
            forall|k: int|
                0 <= k < orig.len() ==> #[trigger] target.fields@[k] == (if declares(
                    declared@.take(i as int),
                    k,
                ) {
                    value
                } else {
                    orig[k]
                }),
        decreases declared@.len() - i,
    {
        let idx = declared[i];
        proof {
            assert(declared@[i as int] < orig.len());
        }
        let ghost pre = target.fields@;
        target.fields.set(idx, value);
        proof {
            assert(target.fields@ == pre.update(idx as int, value));
            assert forall|k: int| 0 <= k < orig.len() implies #[trigger] target.fields@[k] == (
            if declares(declared@.take(i + 1), k) {
                value
            } else {
                orig[k]
            }) by {
                if declares(declared@.take(i + 1), k) {
                    let w = choose|w: int|
                        0 <= w < i + 1 && (#[trigger] declared@.take(i + 1)[w]) as int == k;
                    if w < i {
                        assert(declared@.take(i as int)[w] as int == k);
                        assert(declares(declared@.take(i as int), k));
                        assert(pre[k] == value);
                    } else {
                        assert(declared@[i as int] as int == k);
                        assert(k == idx as int);
                    }
                } else {
                    assert(!declares(declared@.take(i as int), k)) by {
                        if declares(declared@.take(i as int), k) {
                            let w = choose|w: int|
                                0 <= w < i && (#[trigger] declared@.take(i as int)[w]) as int
                                    == k;
                            assert(declared@.take(i + 1)[w] as int == k);
                        }
                    }
                    assert(k != idx as int) by {
                        if k == idx as int {
                            assert(declared@.take(i + 1)[i as int] as int == k);
                        }
                    }
                    assert(target.fields@[k] == pre[k]);
                    assert(pre[k] == orig[k]);
                }
            }
        }
        i = i + 1;
    }
    proof {
        assert(declared@.take(declared@.len() as int) =~= declared@);
        assert(target.fields@ =~= written(orig, declared@, value));
    }
}

/// Write `value` through a direct-value registration.
pub fn apply_direct(target: &mut FieldTarget, adapter: &AdapterSpec, value: u32)
    requires
        fields_valid(adapter.alpha_fields@, old(target).fields@.len() as int),
    ensures
        final(target).fields@ == written(old(target).fields@, adapter.alpha_fields@, value),
{
    apply_fields(target, &adapter.alpha_fields, value);
}

/// Write `value` through a compound registration: the extension's declared
/// fields always take the value; the base's declared fields take it only
/// under the `Extends` policy, and are left completely untouched under
/// `Masks`.
pub fn apply_compound(
    base: &mut FieldTarget,
    extension: &mut FieldTarget,
    base_adapter: &AdapterSpec,
    extension_adapter: &AdapterSpec,
    value: u32,
)
    requires
        extension_adapter.classification == Classification::Extends
            || extension_adapter.classification == Classification::Masks,
        fields_valid(base_adapter.alpha_fields@, old(base).fields@.len() as int),
        fields_valid(extension_adapter.alpha_fields@, old(extension).fields@.len() as int),
    ensures
        extension_adapter.classification == Classification::Extends ==> final(base).fields@
            == written(old(base).fields@, base_adapter.alpha_fields@, value),
        extension_adapter.classification == Classification::Masks ==> *final(base) == *old(base),
        final(extension).fields@ == written(
            old(extension).fields@,
            extension_adapter.alpha_fields@,
            value,
        ),
{
    match extension_adapter.classification {
        Classification::Extends => {
            apply_fields(base, &base_adapter.alpha_fields, value);
        },
        _ => {},
    }
    apply_fields(extension, &extension_adapter.alpha_fields, value);
}

} // verus!
