use vstd::prelude::*;

verus! {

/// The identity of a stored object: the 160 bits of the SHA-1 hash that
/// git computes over the object's kind and bytes.
#[derive(Clone, Copy, Debug, PartialEq, Eq, Structural, Hash)]
pub struct ObjectId {
    pub hi: u128,
    pub lo: u32,
}

/// The three kinds of immutable objects.
#[derive(Clone, Copy, Debug, PartialEq, Eq, Structural)]
pub enum ObjectKind {
    Blob,
    Tree,
    Commit,
}

/// The id git computes for `content` hashed as an object of `kind`. For a
/// blob the bytes are the document itself, so the id is git's blob id; trees
/// and commits are hashed over this library's own encoding of them.
pub uninterp spec fn object_hash(kind: ObjectKind, content: Seq<u8>) -> ObjectId;

/// Whether libgit2 reports an error when hashing `content` as an object of `kind`.
pub uninterp spec fn hash_fails(kind: ObjectKind, content: Seq<u8>) -> bool;

/// Relies on git2::Oid::hash_object: hashes `content` as a loose object of
/// the given kind without storing it; the same kind and bytes give the same id,
/// and whether libgit2 reports an error (passed on as `None`) depends on them alone.
#[verifier::external_body]
pub(crate) fn hash_object(kind: ObjectKind, content: &[u8]) -> (r: Option<ObjectId>)
    ensures
        r is None == hash_fails(kind, content@),
        r matches Some(id) ==> id == object_hash(kind, content@),
{
    let kind = match kind {
        ObjectKind::Blob => git2::ObjectType::Blob,
        ObjectKind::Tree => git2::ObjectType::Tree,
        ObjectKind::Commit => git2::ObjectType::Commit,
    };
    let oid = git2::Oid::hash_object(kind, content).ok()?;
    let raw = oid.as_bytes();
    let hi = u128::from_be_bytes(raw[0..16].try_into().ok()?);
    let lo = u32::from_be_bytes(raw[16..20].try_into().ok()?);
    Some(ObjectId { hi, lo })
}

} // verus!
