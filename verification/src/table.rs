use vstd::prelude::*;

verus! {

/// Declares fxhash::FxHasher, the hasher behind the digest table, as an
/// opaque outside type.
#[verifier::external_type_specification]
#[verifier::external_body]
pub struct ExFxHasher(fxhash::FxHasher);

/// Declares std::hash::BuildHasherDefault, which fxhash's map alias uses to
/// build its hashers, as an opaque outside type.
#[verifier::reject_recursive_types(H)]
#[verifier::external_type_specification]
#[verifier::external_body]
pub struct ExBuildHasherDefault<H>(std::hash::BuildHasherDefault<H>);

/// The digest table: digest -> (block sequence id, reference count), hashed
/// with fxhash for speed.
pub type BlockTable = fxhash::FxHashMap<u64, (u64, u64)>;

/// Relies on std::collections::HashMap::get (with the fxhash hasher, which
/// builds deterministic, consistent hashers): returns the value stored under
/// the key, if any.
#[verifier::external_body]
pub fn tbl_get(m: &BlockTable, k: u64) -> (r: Option<(u64, u64)>)
    ensures
        r == (if m@.dom().contains(k) {
            Some(m@[k])
        } else {
            None::<(u64, u64)>
        }),
{
    m.get(&k).copied()
}

/// Relies on std::collections::HashMap::insert (with the fxhash hasher):
/// after the call the key maps to the given value and no other entry changed.
#[verifier::external_body]
pub fn tbl_insert(m: &mut BlockTable, k: u64, v: (u64, u64))
    ensures
        final(m)@ == old(m)@.insert(k, v),
{
    m.insert(k, v);
}

} // verus!
