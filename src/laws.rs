use vstd::prelude::*;
use vstd::utf8::{decode_utf8, encode_utf8, valid_utf8};
use crate::front_matter::{close_from, header_block, metadata_kind_of, opens, yaml_accepts, MetadataKind};
use crate::object::{object_hash, ObjectId, ObjectKind};
use crate::store::{
    blob_put, deleted, is_blob, lemma_views_has, listed, listing_view, loaded, renamed, saved, views_map, ListEntry, State,
    StoreError,
};

verus! {

/// The listing names every document of the snapshot, in order, whatever its
/// metadata holds.
pub proof fn law_listing_keeps_every_document(s: State)
    ensures
        s.listing().len() == s.snapshot().len(),
        forall|i: int| 0 <= i < s.snapshot().len() ==> (#[trigger] s.listing()[i]).0 == s.snapshot()[i].0,
{
}

/// Writing identical content twice yields the same blob id, and the second
/// write stores nothing.
pub proof fn law_blob_identity(
    s0: State,
    s1: State,
    s2: State,
    content: Seq<u8>,
    r1: Result<ObjectId, StoreError>,
    r2: Result<ObjectId, StoreError>,
)
    requires
        blob_put(s0, s1, content, r1),
        blob_put(s1, s2, content, r2),
        r1 is Ok,
        r2 is Ok,
    ensures
        r1 == r2,
        s2.stored() == s1.stored(),
        s2.object_count() == s1.object_count(),
{
}

/// A save that fails leaves HEAD where it was, and a listing taken after it
/// is the listing from before the save.
pub proof fn law_failed_save_is_invisible(
    s0: State,
    s1: State,
    s2: State,
    path: Seq<char>,
    content: Seq<char>,
    message: Seq<char>,
    now: u64,
    r: Result<(), StoreError>,
    listing: Result<&Vec<ListEntry>, StoreError>,
)
    requires
        saved(s0, s1, path, content, message, now, r),
        r is Err,
        listed(s1, s2, listing),
    ensures
        s1.head() == s0.head(),
        listing matches Ok(data) && listing_view(data@) == s0.listing(),
{
}

/// After a successful save, HEAD has moved, so a slot tagged with the old
/// HEAD is stale; the listing is computed for the new HEAD (the cache slot
/// carries its tag) and names the saved path.
pub proof fn law_listing_follows_save(
    s0: State,
    s1: State,
    s2: State,
    path: Seq<char>,
    content: Seq<char>,
    message: Seq<char>,
    now: u64,
    r: Result<(), StoreError>,
    listing: Result<&Vec<ListEntry>, StoreError>,
)
    requires
        saved(s0, s1, path, content, message, now, r),
        r is Ok,
        listed(s1, s2, listing),
    ensures
        s1.head() != s0.head(),
        s2.cache_tag() == Some(s1.head()),
        s2.cache_tag() != Some(s0.head()),
        listing matches Ok(data) && listing_view(data@) == s1.listing()
            && exists|k: int| 0 <= k < data@.len() && (#[trigger] listing_view(data@)[k]).0 == path,
{
    lemma_views_has(s1.snapshot(), path);
    assert(s1.documents().contains_key(path));
    let i = choose|i: int| 0 <= i < s1.snapshot().len() && s1.snapshot()[i].0 == path;
    let data = listing->Ok_0;
    assert(listing_view(data@)[i].0 == path);
}

/// Saving content whose blob is already stored adds no second copy of it:
/// at most a tree and a commit are added.
pub proof fn law_save_reuses_stored_blob(
    s0: State,
    s1: State,
    path: Seq<char>,
    content: Seq<char>,
    message: Seq<char>,
    now: u64,
    r: Result<(), StoreError>,
)
    requires
        saved(s0, s1, path, content, message, now, r),
        r is Ok,
        s0.object(object_hash(ObjectKind::Blob, encode_utf8(content))) is Some,
    ensures
        s1.object_count() <= s0.object_count() + 2,
        forall|i: ObjectId| #[trigger] is_blob(s1.object(i)) ==> s0.object(i) is Some,
{
}

/// Loading a path right after saving content there returns that content.
pub proof fn law_save_then_load(
    s0: State,
    s1: State,
    path: Seq<char>,
    content: Seq<char>,
    message: Seq<char>,
    now: u64,
    r: Result<(), StoreError>,
    load: Result<(Vec<u8>, Option<String>), StoreError>,
)
    requires
        saved(s0, s1, path, content, message, now, r),
        r is Ok,
        loaded(s1, path, load),
    ensures
        load matches Ok((bytes, _)) && bytes@ == encode_utf8(content),
{
    assert(s1.documents().contains_key(path));
}

/// Renaming a freshly saved document moves its content: the old path is
/// gone and the new one holds what was saved.
pub proof fn law_rename_moves_content(
    s0: State,
    s1: State,
    s2: State,
    from: Seq<char>,
    to: Seq<char>,
    content: Seq<char>,
    message: Seq<char>,
    t1: u64,
    t2: u64,
    r1: Result<(), StoreError>,
    r2: Result<(), StoreError>,
    load_from: Result<(Vec<u8>, Option<String>), StoreError>,
    load_to: Result<(Vec<u8>, Option<String>), StoreError>,
)
    requires
        saved(s0, s1, from, content, message, t1, r1),
        r1 is Ok,
        renamed(s1, s2, from, to, t2, r2),
        r2 is Ok,
        from != to,
        loaded(s2, from, load_from),
        loaded(s2, to, load_to),
    ensures
        load_from == Err::<(Vec<u8>, Option<String>), StoreError>(StoreError::NotFound),
        load_to matches Ok((bytes, _)) && bytes@ == encode_utf8(content),
{
    assert(s1.documents().contains_key(from));
    assert(s2.documents().contains_key(to));
    assert(!s2.documents().contains_key(from));
    let id = s1.documents()[from].1;
    assert(s1.object(id) is Some);
}

/// A document whose header is never closed is listed without metadata.
pub proof fn law_unclosed_header_is_absent(c: Seq<u8>)
    requires
        opens(c),
        close_from(c, 0) is None,
    ensures
        metadata_kind_of(c) == MetadataKind::Absent,
{
}

/// A document whose header is not UTF-8 or does not parse is listed with
/// an error.
pub proof fn law_bad_header_is_malformed(c: Seq<u8>, b: Seq<u8>)
    requires
        header_block(c) == Some(b),
        !valid_utf8(b) || !yaml_accepts(decode_utf8(b)),
    ensures
        metadata_kind_of(c) == MetadataKind::Malformed,
{
}

/// Deleting the only document empties the snapshot and its listing, and
/// deleting it again fails with `NotFound`.
pub proof fn law_delete_last_document(
    s0: State,
    s1: State,
    s2: State,
    path: Seq<char>,
    t1: u64,
    t2: u64,
    r1: Result<(), StoreError>,
    r2: Result<(), StoreError>,
)
    requires
        s0.documents().dom() == set![path],
        deleted(s0, s1, path, t1, r1),
        r1 is Ok,
        deleted(s1, s2, path, t2, r2),
    ensures
        s1.documents() == Map::<Seq<char>, (u32, ObjectId)>::empty(),
        s1.listing().len() == 0,
        r2 == Err::<(), StoreError>(StoreError::NotFound),
{
    assert(s0.documents().contains_key(path));
    assert(s1.documents() =~= Map::<Seq<char>, (u32, ObjectId)>::empty());
    let es = s1.snapshot();
    if es.len() > 0 {
        assert(views_map(es).contains_key(es.last().0));
    }
}

} // verus!
