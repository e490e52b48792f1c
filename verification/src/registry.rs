//! Trusted boundary to the durable registry: a sled database mapping
//! program-id bytes to encoded program metadata.
//!
//! The database contents are named by `db_view`; each wrapper states, over
//! that name, what the sled call it relies on does.

use vstd::prelude::*;

verus! {

#[verifier::external_type_specification]
#[verifier::external_body]
pub struct ExDb(sled::Db);

/// The key-value contents of the registry database.
pub uninterp spec fn db_view(db: sled::Db) -> Map<Seq<u8>, Seq<u8>>;

/// Relies on sled's `Tree::insert`: it binds the key to the value through
/// one atomic page update and touches no other key; when it reports an
/// error, whether the binding was applied is left open.
#[verifier::external_body]
pub(crate) fn db_insert(db: &mut sled::Db, key: &Vec<u8>, value: &Vec<u8>) -> (r: Result<
    (),
    String,
>)
    ensures
        r is Ok ==> db_view(*final(db)) == db_view(*old(db)).insert(key@, value@),
        db_view(*final(db)).remove(key@) == db_view(*old(db)).remove(key@),
{
    match db.insert(key.as_slice(), value.as_slice()) {
        Ok(_) => Ok(()),
        Err(e) => Err(e.to_string()),
    }
}

/// Relies on sled's `Tree::remove`: it unbinds the key through one atomic
/// page update and touches no other key; when it reports an error, whether
/// the unbinding was applied is left open.
#[verifier::external_body]
pub(crate) fn db_remove(db: &mut sled::Db, key: &Vec<u8>) -> (r: Result<(), String>)
    ensures
        r is Ok ==> db_view(*final(db)) == db_view(*old(db)).remove(key@),
        db_view(*final(db)).remove(key@) == db_view(*old(db)).remove(key@),
{
    match db.remove(key.as_slice()) {
        Ok(_) => Ok(()),
        Err(e) => Err(e.to_string()),
    }
}

/// Relies on sled's `Tree::contains_key`: it reports whether the key is
/// bound.
#[verifier::external_body]
pub(crate) fn db_contains(db: &sled::Db, key: &Vec<u8>) -> (r: Result<bool, String>)
    ensures
        r matches Ok(present) ==> present == db_view(*db).contains_key(key@),
{
    match db.contains_key(key.as_slice()) {
        Ok(present) => Ok(present),
        Err(e) => Err(e.to_string()),
    }
}

/// Relies on sled's `Tree::iter`: it yields every key-value pair of the
/// tree, each key once.
#[verifier::external_body]
pub(crate) fn db_entries(db: &sled::Db) -> (r: Result<Vec<(Vec<u8>, Vec<u8>)>, String>)
    ensures
        r matches Ok(v) ==> {
            &&& forall|i: int, j: int|
                0 <= i < j < v@.len() ==> (#[trigger] v@[i]).0@ != (#[trigger] v@[j]).0@
            &&& forall|i: int|
                0 <= i < v@.len() ==> db_view(*db).contains_key((#[trigger] v@[i]).0@)
                    && db_view(*db)[v@[i].0@] == v@[i].1@
            &&& forall|k: Seq<u8>|
                db_view(*db).contains_key(k) ==> exists|i: int|
                    0 <= i < v@.len() && (#[trigger] v@[i]).0@ == k
        },
{
    let mut out = Vec::new();
    for kv in db.iter() {
        match kv {
            Ok((k, v)) => out.push((k.to_vec(), v.to_vec())),
            Err(e) => {
                return Err(e.to_string());
            },
        }
    }
    Ok(out)
}

} // verus!
