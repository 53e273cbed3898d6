use vstd::prelude::*;
use vstd::utf8::encode_utf8;
use crate::bytes::{append_bytes, append_decimal, decimal};
use crate::front_matter::{metadata_kind_of, parse_front_matter, FrontMatter, MetadataKind};
use crate::index::{entries_map, key_of, seq_lt, Entry, Index, REGULAR_FILE};
use crate::object::{hash_fails, hash_object, object_hash, ObjectId, ObjectKind};

verus! {

/// A commit: a snapshot's tree, the commit it follows, who made it, why and when.
pub struct Commit {
    pub tree: ObjectId,
    pub parent: Option<ObjectId>,
    pub author: String,
    pub message: Vec<u8>,
    pub time: u64,
}

/// An immutable stored object.
pub enum Object {
    Blob(Vec<u8>),
    Tree(Vec<Entry>),
    Commit(Commit),
}

/// What a tree entry holds: path, mode and id.
pub type EntryView = (Seq<char>, u32, ObjectId);

/// What a commit holds: tree, parent, author, message and time.
pub type CommitView = (ObjectId, Option<ObjectId>, Seq<char>, Seq<u8>, u64);

/// The content of an object, as values.
pub enum ObjectView {
    Blob(Seq<u8>),
    Tree(Seq<EntryView>),
    Commit(CommitView),
}

pub open spec fn entry_view(e: Entry) -> EntryView {
    (e.path@, e.mode, e.id)
}

pub open spec fn entries_view(es: Seq<Entry>) -> Seq<EntryView> {
    es.map_values(|e: Entry| entry_view(e))
}

pub open spec fn commit_view(c: Commit) -> CommitView {
    (c.tree, c.parent, c.author@, c.message@, c.time)
}

impl Object {
    pub open spec fn view(&self) -> ObjectView {
        match self {
            Object::Blob(b) => ObjectView::Blob(b@),
            Object::Tree(es) => ObjectView::Tree(entries_view(es@)),
            Object::Commit(c) => ObjectView::Commit(commit_view(*c)),
        }
    }
}

pub open spec fn kind_of(o: ObjectView) -> ObjectKind {
    match o {
        ObjectView::Blob(_) => ObjectKind::Blob,
        ObjectView::Tree(_) => ObjectKind::Tree,
        ObjectView::Commit(_) => ObjectKind::Commit,
    }
}

/// The bytes of an object id in an encoding: its two halves in decimal.
pub open spec fn id_bytes(id: ObjectId) -> Seq<u8> {
    decimal(id.hi as nat) + seq![32u8] + decimal(id.lo as nat) + seq![10u8]
}

pub open spec fn entry_bytes(e: EntryView) -> Seq<u8> {
    decimal(e.1 as nat) + seq![32u8] + encode_utf8(e.0) + seq![0u8] + id_bytes(e.2)
}

/// The encoding of a tree that its id is the hash of.
pub open spec fn tree_bytes(es: Seq<EntryView>) -> Seq<u8>
    decreases es.len(),
{
    if es.len() == 0 {
        Seq::empty()
    } else {
        tree_bytes(es.drop_last()) + entry_bytes(es.last())
    }
}

/// The encoding of a commit that its id is the hash of.
pub open spec fn commit_bytes(c: CommitView) -> Seq<u8> {
    id_bytes(c.0) + match c.1 {
        None => seq![45u8, 10u8],
        Some(p) => id_bytes(p),
    } + encode_utf8(c.2) + seq![10u8] + decimal(c.4 as nat) + seq![10u8] + c.3
}

/// The bytes that an object's id is the hash of.
pub open spec fn object_bytes(o: ObjectView) -> Seq<u8> {
    match o {
        ObjectView::Blob(b) => b,
        ObjectView::Tree(es) => tree_bytes(es),
        ObjectView::Commit(c) => commit_bytes(c),
    }
}

fn append_id(out: &mut Vec<u8>, id: ObjectId)
    ensures
        final(out)@ == old(out)@ + id_bytes(id),
{
    let ghost start = out@;
    append_decimal(out, id.hi);
    out.push(32u8);
    append_decimal(out, id.lo as u128);
    out.push(10u8);
    assert(out@ =~= start + id_bytes(id));
}

fn append_text(out: &mut Vec<u8>, s: &String)
    ensures
        final(out)@ == old(out)@ + encode_utf8(s@),
{
    append_bytes(out, s.as_str().as_bytes());
}

fn encode_tree(es: &Vec<Entry>) -> (r: Vec<u8>)
    ensures
        r@ == tree_bytes(entries_view(es@)),
{
    let mut out: Vec<u8> = Vec::new();
    let mut i: usize = 0;
    while i < es.len()
        invariant
            i <= es@.len(),
            out@ == tree_bytes(entries_view(es@.subrange(0, i as int))),
        decreases es@.len() - i,
    {
        let ghost before = out@;
        let e = &es[i];
        append_decimal(&mut out, e.mode as u128);
        out.push(32u8);
        append_text(&mut out, &e.path);
        out.push(0u8);
        append_id(&mut out, e.id);
        let ghost v = entries_view(es@.subrange(0, i + 1 as int));
        assert(v.drop_last() =~= entries_view(es@.subrange(0, i as int)));
        assert(v.last() == entry_view(es@[i as int]));
        assert(out@ =~= before + entry_bytes(entry_view(es@[i as int])));
        i = i + 1;
    }
    assert(es@.subrange(0, i as int) == es@);
    out
}

fn encode_commit(c: &Commit) -> (r: Vec<u8>)
    ensures
        r@ == commit_bytes(commit_view(*c)),
{
    let mut out: Vec<u8> = Vec::new();
    append_id(&mut out, c.tree);
    match c.parent {
        None => {
            out.push(45u8);
            out.push(10u8);
        },
        Some(p) => append_id(&mut out, p),
    }
    append_text(&mut out, &c.author);
    out.push(10u8);
    append_decimal(&mut out, c.time as u128);
    out.push(10u8);
    append_bytes(&mut out, c.message.as_slice());
    assert(out@ =~= commit_bytes(commit_view(*c)));
    out
}

fn bytes_equal(a: &[u8], b: &[u8]) -> (r: bool)
    ensures
        r == (a@ == b@),
{
    if a.len() != b.len() {
        return false;
    }
    let mut i: usize = 0;
    while i < a.len()
        invariant
            i <= a@.len(),
            a@.len() == b@.len(),
            forall|k: int| 0 <= k < i ==> a@[k] == b@[k],
        decreases a@.len() - i,
    {
        if a[i] != b[i] {
            return false;
        }
        i = i + 1;
    }
    assert(a@ =~= b@);
    true
}

fn entries_equal(a: &Vec<Entry>, b: &Vec<Entry>) -> (r: bool)
    ensures
        r == (entries_view(a@) == entries_view(b@)),
{
    if a.len() != b.len() {
        assert(entries_view(a@).len() != entries_view(b@).len());
        return false;
    }
    let mut i: usize = 0;
    while i < a.len()
        invariant
            i <= a@.len(),
            a@.len() == b@.len(),
            forall|k: int| 0 <= k < i ==> entry_view(a@[k]) == entry_view(b@[k]),
        decreases a@.len() - i,
    {
        if !(a[i].path == b[i].path && a[i].mode == b[i].mode && a[i].id == b[i].id) {
            assert(entries_view(a@)[i as int] != entries_view(b@)[i as int]);
            return false;
        }
        i = i + 1;
    }
    assert(entries_view(a@) =~= entries_view(b@));
    true
}

fn same_parent(a: Option<ObjectId>, b: Option<ObjectId>) -> (r: bool)
    ensures
        r == (a == b),
{
    match (a, b) {
        (None, None) => true,
        (Some(x), Some(y)) => x == y,
        _ => false,
    }
}

fn same_object(a: &Object, b: &Object) -> (r: bool)
    ensures
        r == (a.view() == b.view()),
{
    match (a, b) {
        (Object::Blob(x), Object::Blob(y)) => bytes_equal(x.as_slice(), y.as_slice()),
        (Object::Tree(x), Object::Tree(y)) => entries_equal(x, y),
        (Object::Commit(x), Object::Commit(y)) => {
            x.tree == y.tree && same_parent(x.parent, y.parent) && x.author == y.author
                && bytes_equal(x.message.as_slice(), y.message.as_slice()) && x.time == y.time
        },
        _ => false,
    }
}

/// An object together with the id it is stored under.
pub struct Stored {
    pub id: ObjectId,
    pub object: Object,
}

/// The object stored under `id`: the most recent one, should there be several.
pub open spec fn lookup(s: Seq<Stored>, id: ObjectId) -> Option<ObjectView>
    decreases s.len(),
{
    if s.len() == 0 {
        None
    } else if s.last().id == id {
        Some(s.last().object.view())
    } else {
        lookup(s.drop_last(), id)
    }
}

/// Errors of the store's operations.
#[derive(Clone, Copy, Debug, PartialEq, Eq, Structural)]
pub enum StoreError {
    /// The path or object named is absent.
    NotFound,
    /// HEAD is no longer the commit that a transaction started from.
    Conflict,
    /// Hashing failed, or two different objects hashed to the same id.
    Internal,
    /// A document path or file name was empty.
    InvalidPath,
}

/// One document of a listing: its path and its parsed metadata.
pub struct ListEntry {
    pub path: String,
    pub metadata: FrontMatter,
}

pub open spec fn listing_view(data: Seq<ListEntry>) -> Seq<(Seq<char>, MetadataKind)> {
    data.map_values(|l: ListEntry| (l.path@, l.metadata.kind()))
}

/// The single cache slot: a listing tagged with the commit it was computed from.
pub enum Cached {
    Empty,
    Computed { commit_id: Option<ObjectId>, data: Vec<ListEntry> },
}

impl Cached {
    /// The cached listing, if the slot holds one computed for `head`.
    pub fn get(&self, head: Option<ObjectId>) -> (r: Option<&Vec<ListEntry>>)
        ensures
            match self {
                Cached::Empty => r is None,
                Cached::Computed { commit_id, data } => if *commit_id == head {
                    r == Some(data)
                } else {
                    r is None
                },
            },
    {
        match self {
            Cached::Empty => None,
            Cached::Computed { commit_id, data } => {
                if same_parent(*commit_id, head) {
                    Some(data)
                } else {
                    None
                }
            },
        }
    }
}

/// The document store: an append-only object arena, HEAD, and the listing cache.
pub struct State {
    objects: Vec<Stored>,
    head: Option<ObjectId>,
    cache: Cached,
    author: String,
}

/// The path mapping that a sequence of tree entries describes.
pub open spec fn views_map(es: Seq<EntryView>) -> Map<Seq<char>, (u32, ObjectId)>
    decreases es.len(),
{
    if es.len() == 0 {
        Map::empty()
    } else {
        views_map(es.drop_last()).insert(es.last().0, (es.last().1, es.last().2))
    }
}

pub proof fn lemma_views_map(es: Seq<Entry>)
    ensures
        entries_map(es) == views_map(entries_view(es)),
    decreases es.len(),
{
    if es.len() > 0 {
        lemma_views_map(es.drop_last());
        assert(entries_view(es).drop_last() =~= entries_view(es.drop_last()));
    }
}

/// No path occurs twice, and paths strictly increase in byte order.
pub open spec fn ordered_view_paths(es: Seq<EntryView>) -> bool {
    forall|i: int, j: int| #![trigger es[i], es[j]]
        0 <= i < j < es.len() ==> es[i].0 != es[j].0 && seq_lt(key_of(es[i].0), key_of(es[j].0))
}

/// Commit `c` is stored, and so are its tree and every blob that the tree names.
pub open spec fn complete(objs: Seq<Stored>, c: ObjectId) -> bool {
    match lookup(objs, c) {
        Some(ObjectView::Commit(cv)) => match lookup(objs, cv.0) {
            Some(ObjectView::Tree(es)) => ordered_view_paths(es) && forall|i: int|
                0 <= i < es.len() ==> (#[trigger] lookup(objs, es[i].2) matches Some(ObjectView::Blob(_))),
            _ => false,
        },
        _ => false,
    }
}

/// The entries of the snapshot that commit `c` records; none for no commit.
pub open spec fn tree_at(objs: Seq<Stored>, c: Option<ObjectId>) -> Seq<EntryView> {
    match c {
        None => Seq::empty(),
        Some(c) => match lookup(objs, c) {
            Some(ObjectView::Commit(cv)) => match lookup(objs, cv.0) {
                Some(ObjectView::Tree(es)) => es,
                _ => Seq::empty(),
            },
            _ => Seq::empty(),
        },
    }
}

/// The bytes of the blob stored under `id`.
pub open spec fn blob_at(objs: Seq<Stored>, id: ObjectId) -> Seq<u8> {
    match lookup(objs, id) {
        Some(ObjectView::Blob(b)) => b,
        _ => Seq::empty(),
    }
}

/// The listing of a snapshot: each path with the shape of its metadata.
pub open spec fn listing_at(objs: Seq<Stored>, es: Seq<EntryView>) -> Seq<(Seq<char>, MetadataKind)> {
    es.map_values(|e: EntryView| (e.0, metadata_kind_of(blob_at(objs, e.2))))
}

/// No stored commit names itself as its parent.
pub open spec fn no_self_parent(objs: Seq<Stored>) -> bool {
    forall|id: ObjectId| #[trigger] not_own_parent(lookup(objs, id), id)
}

/// `o`, stored under `id`, is not a commit whose parent is `id`.
pub open spec fn not_own_parent(o: Option<ObjectView>, id: ObjectId) -> bool {
    match o {
        Some(ObjectView::Commit(cv)) => cv.1 != Some(id),
        _ => true,
    }
}

/// Every object stored in `old` is stored unchanged in `new`.
pub open spec fn extends(new: Seq<Stored>, old: Seq<Stored>) -> bool {
    forall|id: ObjectId| #[trigger] lookup(old, id) is Some ==> lookup(new, id) == lookup(old, id)
}

proof fn lemma_push_extends(objs: Seq<Stored>, x: Stored)
    requires
        lookup(objs, x.id) is None,
    ensures
        extends(objs.push(x), objs),
        lookup(objs.push(x), x.id) == Some(x.object.view()),
{
    assert(objs.push(x).drop_last() =~= objs);
}

proof fn lemma_extends_keeps(new: Seq<Stored>, old: Seq<Stored>, c: ObjectId)
    requires
        extends(new, old),
        complete(old, c),
    ensures
        complete(new, c),
        tree_at(new, Some(c)) == tree_at(old, Some(c)),
        listing_at(new, tree_at(new, Some(c))) == listing_at(old, tree_at(old, Some(c))),
{
    assert(lookup(old, c) is Some);
    let cv = lookup(old, c)->0->Commit_0;
    assert(lookup(old, cv.0) is Some);
    let es = lookup(old, cv.0)->0->Tree_0;
    assert forall|i: int| 0 <= i < es.len() implies blob_at(new, es[i].2) == blob_at(old, es[i].2) by {
        assert(lookup(old, es[i].2) is Some);
    }
    assert forall|i: int| 0 <= i < es.len() implies
        (#[trigger] lookup(new, es[i].2) matches Some(ObjectView::Blob(_))) by {
        assert(lookup(old, es[i].2) is Some);
    }
    assert(listing_at(new, es) =~= listing_at(old, es));
}

impl State {
    pub closed spec fn stored(&self) -> Seq<Stored> {
        self.objects@
    }

    /// The current tip commit; none before the first commit.
    pub closed spec fn head(&self) -> Option<ObjectId> {
        self.head
    }

    /// The commit that the cache slot is tagged with, if it is filled.
    pub closed spec fn cache_tag(&self) -> Option<Option<ObjectId>> {
        match self.cache {
            Cached::Empty => None,
            Cached::Computed { commit_id, .. } => Some(commit_id),
        }
    }

    /// The listing held in the cache slot, if it is filled.
    pub closed spec fn cached_listing(&self) -> Option<Seq<ListEntry>> {
        match self.cache {
            Cached::Empty => None,
            Cached::Computed { data, .. } => Some(data@),
        }
    }

    /// In a well-formed store the snapshot's paths are distinct and in byte
    /// order, and every document names a stored blob.
    pub proof fn lemma_snapshot_facts(&self)
        requires
            self.wf(),
        ensures
            ordered_view_paths(self.snapshot()),
            self.backed(self.documents()),
    {
        let es = self.snapshot();
        assert forall|p: Seq<char>| #[trigger] self.documents().contains_key(p) implies
            self.object(self.documents()[p].1) matches Some(ObjectView::Blob(_)) by {
            lemma_views_has(es, p);
            let i = choose|i: int| 0 <= i < es.len() && es[i].0 == p;
            lemma_views_value(es, i);
        }
    }

    pub closed spec fn author(&self) -> Seq<char> {
        self.author@
    }

    /// The object stored under `id`.
    pub open spec fn object(&self, id: ObjectId) -> Option<ObjectView> {
        lookup(self.stored(), id)
    }

    /// How many objects the store holds.
    pub open spec fn object_count(&self) -> nat {
        self.stored().len()
    }

    /// The entries of the current snapshot.
    pub open spec fn snapshot(&self) -> Seq<EntryView> {
        tree_at(self.stored(), self.head())
    }

    /// The current snapshot as a map from path to (mode, blob id).
    pub open spec fn documents(&self) -> Map<Seq<char>, (u32, ObjectId)> {
        views_map(self.snapshot())
    }

    /// The content of the blob stored under `id`.
    pub open spec fn blob(&self, id: ObjectId) -> Seq<u8> {
        blob_at(self.stored(), id)
    }

    /// The current listing: each document's path with the shape of its metadata.
    pub open spec fn listing(&self) -> Seq<(Seq<char>, MetadataKind)> {
        listing_at(self.stored(), self.snapshot())
    }

    /// The store's invariant: ids are content hashes, HEAD names a complete
    /// commit, and a filled cache slot holds the listing of the commit it is
    /// tagged with.
    pub closed spec fn wf(&self) -> bool {
        &&& forall|i: int| 0 <= i < self.objects@.len() ==> (#[trigger] self.objects@[i]).id
            == object_hash(kind_of(self.objects@[i].object.view()), object_bytes(self.objects@[i].object.view()))
        &&& no_self_parent(self.objects@)
        &&& self.head matches Some(h) ==> complete(self.objects@, h)
        &&& self.cache matches Cached::Computed { commit_id, data } ==>
            (commit_id matches Some(c) ==> complete(self.objects@, c))
            && listing_view(data@) == listing_at(self.objects@, tree_at(self.objects@, commit_id))
    }

    /// An empty store whose commits carry `author`.
    pub fn new(author: String) -> (r: State)
        ensures
            r.wf(),
            r.head() is None,
            r.cache_tag() is None,
            r.object_count() == 0,
            r.author() == author@,
            r.documents() == Map::<Seq<char>, (u32, ObjectId)>::empty(),
    {
        State { objects: Vec::new(), head: None, cache: Cached::Empty, author }
    }

    /// The object stored under `id`.
    fn get(&self, id: ObjectId) -> (r: Option<&Object>)
        ensures
            match r {
                None => self.object(id) is None,
                Some(o) => self.object(id) == Some(o.view()),
            },
    {
        let mut i: usize = self.objects.len();
        assert(self.objects@.subrange(0, i as int) == self.objects@);
        while i > 0
            invariant
                i <= self.objects@.len(),
                lookup(self.objects@, id) == lookup(self.objects@.subrange(0, i as int), id),
            decreases i,
        {
            let ghost sub = self.objects@.subrange(0, i as int);
            assert(sub.drop_last() =~= self.objects@.subrange(0, i - 1 as int));
            if self.objects[i - 1].id == id {
                return Some(&self.objects[i - 1].object);
            }
            i = i - 1;
        }
        None
    }

    /// The current tip commit.
    pub fn get_head(&self) -> (r: Option<ObjectId>)
        ensures
            r == self.head(),
    {
        self.head
    }

    /// The commit that the listing cache slot is tagged with, if it is filled.
    pub fn cached_commit(&self) -> (r: Option<Option<ObjectId>>)
        ensures
            r == self.cache_tag(),
    {
        match &self.cache {
            Cached::Empty => None,
            Cached::Computed { commit_id, .. } => Some(*commit_id),
        }
    }

    /// The content of the blob stored under `id`; `NotFound` when no blob is.
    pub fn get_blob(&self, id: ObjectId) -> (r: Result<Vec<u8>, StoreError>)
        ensures
            match self.object(id) {
                Some(ObjectView::Blob(b)) => r matches Ok(v) && v@ == b,
                _ => r == Err::<Vec<u8>, StoreError>(StoreError::NotFound),
            },
    {
        match self.get(id) {
            Some(Object::Blob(b)) => Ok(vstd::slice::slice_to_vec(b.as_slice())),
            _ => Err(StoreError::NotFound),
        }
    }

    /// The entries of the tree stored under `id`; `NotFound` when no tree is.
    pub fn get_tree(&self, id: ObjectId) -> (r: Result<Vec<Entry>, StoreError>)
        ensures
            match self.object(id) {
                Some(ObjectView::Tree(es)) => r matches Ok(v) && entries_view(v@) == es,
                _ => r == Err::<Vec<Entry>, StoreError>(StoreError::NotFound),
            },
    {
        match self.get(id) {
            Some(Object::Tree(es)) => Ok(Index::from_entries(es).entries),
            _ => Err(StoreError::NotFound),
        }
    }

    /// The commit stored under `id`; `NotFound` when no commit is.
    pub fn get_commit(&self, id: ObjectId) -> (r: Result<Commit, StoreError>)
        ensures
            match self.object(id) {
                Some(ObjectView::Commit(cv)) => r matches Ok(c) && commit_view(c) == cv,
                _ => r == Err::<Commit, StoreError>(StoreError::NotFound),
            },
    {
        match self.get(id) {
            Some(Object::Commit(c)) => Ok(Commit {
                tree: c.tree,
                parent: c.parent,
                author: c.author.clone(),
                message: vstd::slice::slice_to_vec(c.message.as_slice()),
                time: c.time,
            }),
            _ => Err(StoreError::NotFound),
        }
    }

    /// Stores `obj` under its content hash, unless an equal object is already
    /// stored there; an unequal one there is a collision and an error.
    fn put(&mut self, obj: Object) -> (r: Result<ObjectId, StoreError>)
        requires
            old(self).wf(),
            obj.view() matches ObjectView::Commit(cv) ==> (cv.1 matches Some(p) ==> old(self).object(p) is Some),
        ensures
            r is Err <==> write_fails(*old(self), obj.view()),
            final(self).object_count() <= old(self).object_count() + 1,
            forall|i: ObjectId| #[trigger] lookup(final(self).stored(), i) is Some && old(self).object(i) is None
                ==> r == Ok::<ObjectId, StoreError>(i) && final(self).object(i) == Some(obj.view()),
            final(self).wf(),
            final(self).head() == old(self).head(),
            final(self).cache == old(self).cache,
            final(self).cache_tag() == old(self).cache_tag(),
            final(self).author() == old(self).author(),
            extends(final(self).stored(), old(self).stored()),
            r is Err ==> r == Err::<ObjectId, StoreError>(StoreError::Internal) && final(self).stored() == old(self).stored(),
            r matches Ok(id) ==> id == object_hash(kind_of(obj.view()), object_bytes(obj.view()))
                && final(self).object(id) == Some(obj.view())
                && (old(self).object(id) is Some ==> final(self).stored() == old(self).stored())
                && (old(self).object(id) is None ==> final(self).object_count() == old(self).object_count() + 1),
    {
        let h = match &obj {
            Object::Blob(b) => hash_object(ObjectKind::Blob, b.as_slice()),
            Object::Tree(es) => {
                let enc = encode_tree(es);
                hash_object(ObjectKind::Tree, enc.as_slice())
            },
            Object::Commit(c) => {
                let enc = encode_commit(c);
                hash_object(ObjectKind::Commit, enc.as_slice())
            },
        };
        let id = match h {
            None => return Err(StoreError::Internal),
            Some(id) => id,
        };
        match self.get(id) {
            Some(existing) => {
                if same_object(existing, &obj) {
                    Ok(id)
                } else {
                    Err(StoreError::Internal)
                }
            },
            None => {
                let ghost before = self.objects@;
                let x = Stored { id, object: obj };
                proof {
                    lemma_push_extends(before, x);
                }
                self.objects.push(x);
                proof {
                    assert(self.objects@.drop_last() =~= before);
                    assert forall|i: ObjectId| #[trigger] not_own_parent(lookup(self.objects@, i), i) by {
                        assert(not_own_parent(lookup(before, i), i));
                        if i == id {
                            if let ObjectView::Commit(cv) = x.object.view() {
                                if let Some(p) = cv.1 {
                                    assert(lookup(before, p) is Some);
                                }
                            }
                        }
                    }
                    if let Some(hd) = self.head {
                        lemma_extends_keeps(self.objects@, before, hd);
                    }
                    if let Cached::Computed { commit_id: Some(c), data } = &self.cache {
                        lemma_extends_keeps(self.objects@, before, *c);
                    }
                    assert(listing_at(self.objects@, Seq::empty()) =~= listing_at(before, Seq::empty()));
                }
                Ok(id)
            },
        }
    }

    /// Stores a blob holding `content` and returns its id, the content hash.
    /// Identical content is stored once.
    pub fn put_blob(&mut self, content: &[u8]) -> (r: Result<ObjectId, StoreError>)
        requires
            old(self).wf(),
        ensures
            final(self).wf(),
            blob_put(*old(self), *final(self), content@, r),
    {
        let ghost old_store = *self;
        let r = self.put(Object::Blob(vstd::slice::slice_to_vec(content)));
        proof {
            self.lemma_same_view(&old_store);
        }
        r
    }

    proof fn lemma_same_view(&self, prev: &State)
        requires
            prev.wf(),
            self.wf(),
            self.head() == prev.head(),
            extends(self.stored(), prev.stored()),
        ensures
            self.snapshot() == prev.snapshot(),
            self.listing() == prev.listing(),
    {
        if let Some(h) = self.head {
            lemma_extends_keeps(self.objects@, prev.objects@, h);
        }
    }

    /// Every path of `m` maps to a stored blob.
    pub open spec fn backed(&self, m: Map<Seq<char>, (u32, ObjectId)>) -> bool {
        forall|p: Seq<char>| #[trigger] m.contains_key(p) ==> self.object(m[p].1) matches Some(ObjectView::Blob(_))
    }

    /// HEAD is a commit that follows `parent` with this message and time.
    pub open spec fn head_commit_is(&self, parent: Option<ObjectId>, message: Seq<u8>, now: u64) -> bool {
        &&& self.head() is Some
        &&& self.object(self.head()->0) matches Some(ObjectView::Commit(cv))
        &&& cv.1 == parent && cv.2 == self.author() && cv.3 == message && cv.4 == now
        &&& cv.0 == object_hash(ObjectKind::Tree, tree_bytes(self.snapshot()))
    }

    /// An index holding the current snapshot.
    fn base_index(&self) -> (r: Index)
        requires
            self.wf(),
        ensures
            r.wf(),
            r@ == self.documents(),
            entries_view(r.entries@) == self.snapshot(),
            self.backed(r@),
    {
        let empty = Index { entries: Vec::new() };
        let r = match self.head {
            None => empty,
            Some(h) => match self.get(h) {
                Some(Object::Commit(c)) => match self.get(c.tree) {
                    Some(Object::Tree(es)) => Index::from_entries(es),
                    _ => empty,
                },
                _ => empty,
            },
        };
        proof {
            let es = r.entries@;
            assert(entries_view(es).len() == es.len());
            assert forall|i: int, j: int| 0 <= i < j < es.len() implies es[i].path@ != es[j].path@ by {
                assert(entries_view(es)[i].0 == es[i].path@);
                assert(entries_view(es)[j].0 == es[j].path@);
            }
            assert forall|i: int, j: int| 0 <= i < j < es.len() implies
                seq_lt(key_of(es[i].path@), key_of(es[j].path@)) by {
                assert(entries_view(es)[i].0 == es[i].path@);
                assert(entries_view(es)[j].0 == es[j].path@);
            }
            assert(r.wf());
            lemma_views_map(es);
            assert forall|p: Seq<char>| #[trigger] r@.contains_key(p) implies
                self.object(r@[p].1) matches Some(ObjectView::Blob(_)) by {
                crate::index::lemma_map_has(es, p);
                let i = choose|i: int| 0 <= i < es.len() && es[i].path@ == p;
                crate::index::lemma_map_value(es, i);
                assert(entries_view(es)[i].2 == es[i].id);
            }
        }
        if self.head.is_none() {
            assert(entries_view(r.entries@) =~= Seq::<EntryView>::empty());
        }
        r
    }

    /// Moves HEAD from `base` to `new`; fails if HEAD is not `base`.
    fn advance_head(&mut self, base: Option<ObjectId>, new: ObjectId) -> (r: Result<(), StoreError>)
        requires
            old(self).wf(),
            complete(old(self).stored(), new),
        ensures
            final(self).wf(),
            final(self).stored() == old(self).stored(),
            final(self).author() == old(self).author(),
            final(self).cache_tag() == old(self).cache_tag(),
            final(self).cached_listing() == old(self).cached_listing(),
            r is Err <==> old(self).head() != base,
            r is Err ==> r == Err::<(), StoreError>(StoreError::Conflict) && final(self).head() == old(self).head(),
            r is Ok ==> final(self).head() == Some(new),
    {
        if !same_parent(self.head, base) {
            return Err(StoreError::Conflict);
        }
        self.head = Some(new);
        Ok(())
    }

    /// Writes `index` as a tree, commits it on top of `base` and publishes
    /// the commit as HEAD. On failure HEAD and the listing stay as they were.
    fn commit_index(&mut self, base: Option<ObjectId>, index: Index, message: Vec<u8>, now: u64) -> (r: Result<(), StoreError>)
        requires
            old(self).wf(),
            old(self).head() == base,
            index.wf(),
            old(self).backed(index@),
        ensures
            final(self).wf(),
            final(self).author() == old(self).author(),
            extends(final(self).stored(), old(self).stored()),
            final(self).cache_tag() == old(self).cache_tag(),
            final(self).cached_listing() == old(self).cached_listing(),
            final(self).object_count() <= old(self).object_count() + 2,
            new_blobs_within(*old(self), *final(self), Set::empty()),
            r is Ok ==> final(self).documents() == index@ && final(self).head_commit_is(base, message@, now)
                && final(self).head() != old(self).head(),
            r is Err ==> commit_fails(*final(self), index@, base, message@, now),
            r is Err ==> r == Err::<(), StoreError>(StoreError::Internal) && final(self).head() == old(self).head()
                && final(self).snapshot() == old(self).snapshot() && final(self).listing() == old(self).listing(),
    {
        let ghost old_store = *self;
        let ghost es = index.entries@;
        let ghost view = entries_view(es);
        proof {
            lemma_views_map(es);
            assert forall|i: int, j: int| #![trigger view[i], view[j]] 0 <= i < j < view.len() implies view[i].0 != view[j].0
                && seq_lt(key_of(view[i].0), key_of(view[j].0)) by {
                assert(view[i].0 == es[i].path@);
                assert(view[j].0 == es[j].path@);
            }
            assert(ordered_view_paths(view) && views_map(view) == index@);
            let chosen = ordered_entries(index@);
            lemma_ordered_unique(chosen, view);
            assert(ordered_entries(index@) == view);
            assert forall|i: int| 0 <= i < view.len() implies
                (#[trigger] lookup(self.objects@, view[i].2) matches Some(ObjectView::Blob(_))) by {
                crate::index::lemma_map_value(es, i);
                assert(index@.contains_key(es[i].path@));
            }
        }
        let tree_id = match self.put(Object::Tree(index.entries)) {
            Ok(id) => id,
            Err(e) => {
                proof { self.lemma_same_view(&old_store); }
                return Err(e);
            },
        };
        let ghost mid = self.objects@;
        let commit = Commit { tree: tree_id, parent: base, author: self.author.clone(), message, time: now };
        let commit_id = match self.put(Object::Commit(commit)) {
            Ok(id) => id,
            Err(e) => {
                proof { self.lemma_same_view(&old_store); }
                return Err(e);
            },
        };
        proof {
            assert(lookup(mid, tree_id) is Some);
            assert forall|i: int| 0 <= i < view.len() implies
                (#[trigger] lookup(self.objects@, view[i].2) matches Some(ObjectView::Blob(_))) by {
                assert(lookup(old_store.objects@, view[i].2) is Some);
                assert(lookup(mid, view[i].2) is Some);
            }
            assert forall|i: int, j: int| 0 <= i < j < view.len() implies view[i].0 != view[j].0
                && seq_lt(key_of(view[i].0), key_of(view[j].0)) by {
                assert(view[i].0 == es[i].path@);
                assert(view[j].0 == es[j].path@);
            }
            assert(complete(self.objects@, commit_id));
        }
        match self.advance_head(base, commit_id) {
            Ok(()) => {},
            Err(e) => {
                proof { self.lemma_same_view(&old_store); }
                return Err(e);
            },
        }
        assert(self.snapshot() == view);
        assert(not_own_parent(lookup(self.objects@, commit_id), commit_id));
        Ok(())
    }

    /// Saves `content` under `path` in one new commit with `message` made at
    /// time `now`. On failure HEAD and the listing are unchanged.
    pub fn save_document(&mut self, path: &str, content: &str, message: &str, now: u64) -> (r: Result<(), StoreError>)
        requires
            old(self).wf(),
        ensures
            final(self).wf(),
            saved(*old(self), *final(self), path@, content@, message@, now, r),
    {
        let ghost old_store = *self;
        if path.is_empty() {
            return Err(StoreError::InvalidPath);
        }
        let base = self.head;
        let mut index = self.base_index();
        let blob = match self.put_blob(content.as_bytes()) {
            Ok(id) => id,
            Err(e) => return Err(e),
        };
        let ghost docs = index@;
        index.add(path.to_owned(), REGULAR_FILE, blob);
        proof {
            assert forall|p: Seq<char>| #[trigger] index@.contains_key(p) implies
                self.object(index@[p].1) matches Some(ObjectView::Blob(_)) by {
                if p != path@ {
                    assert(docs.contains_key(p));
                    assert(old_store.object(docs[p].1) is Some);
                }
            }
        }
        let ghost mid = self.objects@;
        let r = self.commit_index(base, index, vstd::slice::slice_to_vec(message.as_bytes()), now);
        proof {
            if r is Ok {
                assert(lookup(mid, blob) is Some);
            }
        }
        r
    }

    /// Moves the document at `from` to `to` in one new commit whose message
    /// is `Rename {from} to {to}`. Fails with `NotFound`, writing nothing,
    /// when there is no document at `from`.
    pub fn rename_document(&mut self, from: &str, to: &str, now: u64) -> (r: Result<(), StoreError>)
        requires
            old(self).wf(),
        ensures
            final(self).wf(),
            renamed(*old(self), *final(self), from@, to@, now, r),
    {
        let base = self.head;
        let mut index = self.base_index();
        let entry = match index.lookup(from) {
            None => return Err(StoreError::NotFound),
            Some(e) => e,
        };
        if to.is_empty() {
            return Err(StoreError::InvalidPath);
        }
        let ghost docs = index@;
        index.remove(from);
        index.add(to.to_owned(), entry.mode, entry.id);
        proof {
            assert forall|p: Seq<char>| #[trigger] index@.contains_key(p) implies
                self.object(index@[p].1) matches Some(ObjectView::Blob(_)) by {
                if p != to@ {
                    assert(docs.contains_key(p));
                } else {
                    assert(docs.contains_key(from@));
                }
            }
        }
        let mut message: Vec<u8> = Vec::new();
        append_bytes(&mut message, "Rename ".as_bytes());
        append_bytes(&mut message, from.as_bytes());
        append_bytes(&mut message, " to ".as_bytes());
        append_bytes(&mut message, to.as_bytes());
        assert(message@ =~= rename_message(from@, to@));
        self.commit_index(base, index, message, now)
    }

    /// Removes the document at `path` in one new commit whose message is
    /// `Delete {path}`. Fails with `NotFound`, writing nothing, when there is
    /// no document at `path`.
    pub fn delete_document(&mut self, path: &str, now: u64) -> (r: Result<(), StoreError>)
        requires
            old(self).wf(),
        ensures
            final(self).wf(),
            deleted(*old(self), *final(self), path@, now, r),
    {
        let base = self.head;
        let mut index = self.base_index();
        let ghost docs = index@;
        if !index.remove(path) {
            return Err(StoreError::NotFound);
        }
        proof {
            assert forall|p: Seq<char>| #[trigger] index@.contains_key(p) implies
                self.object(index@[p].1) matches Some(ObjectView::Blob(_)) by {
                assert(docs.contains_key(p));
            }
        }
        let mut message: Vec<u8> = Vec::new();
        append_bytes(&mut message, "Delete ".as_bytes());
        append_bytes(&mut message, path.as_bytes());
        assert(message@ =~= delete_message(path@));
        self.commit_index(base, index, message, now)
    }

    /// Stores every `(name, content)` of `files` under its name, all in one
    /// new commit whose message is `Upload {n} files`. A failure on any file
    /// commits nothing.
    pub fn upload_documents(&mut self, files: &Vec<(String, Vec<u8>)>, now: u64) -> (r: Result<(), StoreError>)
        requires
            old(self).wf(),
        ensures
            final(self).wf(),
            uploaded(*old(self), *final(self), files@, now, r),
    {
        let ghost old_store = *self;
        let mut n: usize = 0;
        while n < files.len()
            invariant
                *self == old_store,
                *old(self) == old_store,
                self.wf(),
                n <= files@.len(),
                forall|k: int| 0 <= k < n ==> (#[trigger] files@[k]).0@.len() > 0,
            decreases files@.len() - n,
        {
            if files[n].0.as_str().is_empty() {
                return Err(StoreError::InvalidPath);
            }
            n = n + 1;
        }
        let base = self.head;
        let mut index = self.base_index();
        let mut i: usize = 0;
        while i < files.len()
            invariant
                *old(self) == old_store,
                forall|k: int| 0 <= k < files@.len() ==> (#[trigger] files@[k]).0@.len() > 0,
                self.cache_tag() == old_store.cache_tag(),
                self.cached_listing() == old_store.cached_listing(),
                new_blobs_within(old_store, *self, upload_blob_ids(files@)),
                self.object_count() <= old_store.object_count() + i,
                self.wf(),
                index.wf(),
                self.backed(index@),
                self.head() == base,
                old_store.head() == base,
                self.author() == old_store.author(),
                i <= files@.len(),
                extends(self.stored(), old_store.stored()),
                self.snapshot() == old_store.snapshot(),
                self.listing() == old_store.listing(),
                index@ == upload_map(old_store.documents(), files@.subrange(0, i as int)),
                forall|k: int| 0 <= k < i ==>
                    self.object(object_hash(ObjectKind::Blob, (#[trigger] files@[k]).1@))
                        == Some(ObjectView::Blob(files@[k].1@)),
            decreases files@.len() - i,
        {
            let ghost prev = *self;
            let ghost docs = index@;
            let blob = match self.put_blob(files[i].1.as_slice()) {
                Ok(id) => id,
                Err(e) => {
                    assert(self.stored() == prev.stored());
                    assert(write_fails(*self, ObjectView::Blob(files@[i as int].1@)));
                    return Err(e);
                },
            };
            index.add(files[i].0.clone(), REGULAR_FILE, blob);
            proof {
                assert forall|p: Seq<char>| #[trigger] index@.contains_key(p) implies
                    self.object(index@[p].1) matches Some(ObjectView::Blob(_)) by {
                    if p != files@[i as int].0@ {
                        assert(docs.contains_key(p));
                        assert(prev.object(docs[p].1) is Some);
                    }
                }
                assert forall|j: ObjectId| #[trigger] is_blob(self.object(j)) && old_store.object(j) is None
                    implies upload_blob_ids(files@).contains(j) by {
                    if prev.object(j) is None {
                        assert(j == blob);
                        assert(files@[i as int].1@ == files@[i as int].1@);
                    }
                }
                assert forall|k: int| 0 <= k < i + 1 implies
                    self.object(object_hash(ObjectKind::Blob, (#[trigger] files@[k]).1@))
                        == Some(ObjectView::Blob(files@[k].1@)) by {
                    if k < i {
                        assert(prev.object(object_hash(ObjectKind::Blob, files@[k].1@)) is Some);
                    }
                }
                assert(files@.subrange(0, i + 1 as int).drop_last() =~= files@.subrange(0, i as int));
            }
            i = i + 1;
        }
        assert(files@.subrange(0, i as int) =~= files@);
        let mut message: Vec<u8> = Vec::new();
        append_bytes(&mut message, "Upload ".as_bytes());
        append_decimal(&mut message, files.len() as u128);
        append_bytes(&mut message, " files".as_bytes());
        assert(message@ =~= upload_message(files@.len()));
        let ghost mid = *self;
        let r = self.commit_index(base, index, message, now);
        proof {
            assert forall|j: ObjectId| #[trigger] is_blob(self.object(j)) && old_store.object(j) is None
                implies upload_blob_ids(files@).contains(j) by {
                if mid.object(j) is None {
                    assert(is_blob(self.object(j)) && mid.object(j) is None);
                } else {
                    assert(lookup(mid.stored(), j) is Some);
                    assert(is_blob(mid.object(j)));
                }
            }
            if r is Ok {
                assert forall|k: int| 0 <= k < files@.len() implies
                    self.object(object_hash(ObjectKind::Blob, (#[trigger] files@[k]).1@))
                        == Some(ObjectView::Blob(files@[k].1@)) by {
                    assert(mid.object(object_hash(ObjectKind::Blob, files@[k].1@)) is Some);
                }
            }
        }
        r
    }

    /// The content of the document at `path` and the media type suggested
    /// for it; `NotFound` when there is none.
    pub fn load_document(&self, path: &str) -> (r: Result<(Vec<u8>, Option<String>), StoreError>)
        requires
            self.wf(),
        ensures
            loaded(*self, path@, r),
    {
        let index = self.base_index();
        match index.lookup(path) {
            None => Err(StoreError::NotFound),
            Some(e) => {
                assert(index@.contains_key(path@));
                match self.get(e.id) {
                    Some(Object::Blob(b)) => Ok((vstd::slice::slice_to_vec(b.as_slice()), guess_mime(path))),
                    _ => Err(StoreError::NotFound),
                }
            },
        }
    }

    /// Parses the metadata of every document of the current snapshot.
    fn build_listing(&self) -> (r: Vec<ListEntry>)
        requires
            self.wf(),
        ensures
            listing_view(r@) == self.listing(),
    {
        let index = self.base_index();
        let es = &index.entries;
        assert(es@ == index.entries@);
        let ghost view = entries_view(es@);
        let mut out: Vec<ListEntry> = Vec::new();
        let mut i: usize = 0;
        while i < es.len()
            invariant
                self.wf(),
                view == entries_view(es@),
                view == self.snapshot(),
                self.backed(index@),
                index.wf(),
                es@ == index.entries@,
                i <= es@.len(),
                out@.len() == i,
                listing_view(out@) == listing_at(self.stored(), view.subrange(0, i as int)),
            decreases es@.len() - i,
        {
            let e = &es[i];
            proof {
                crate::index::lemma_map_value(es@, i as int);
                assert(index@.contains_key(es@[i as int].path@));
                assert(view[i as int].2 == e.id && view[i as int].0 == e.path@);
            }
            let metadata = match self.get(e.id) {
                Some(Object::Blob(b)) => parse_front_matter(b.as_slice()),
                _ => FrontMatter::Absent,
            };
            assert(metadata.kind() == metadata_kind_of(self.blob(e.id)));
            let ghost before = out@;
            out.push(ListEntry { path: e.path.clone(), metadata });
            proof {
                assert(out@.drop_last() == before);
                let lv = listing_view(out@);
                let la = listing_at(self.stored(), view.subrange(0, i + 1 as int));
                let pv = listing_view(before);
                let pa = listing_at(self.stored(), view.subrange(0, i as int));
                assert(lv.len() == la.len());
                assert forall|k: int| 0 <= k < lv.len() implies lv[k] == la[k] by {
                    if k < i {
                        assert(out@[k] == before[k]);
                        assert(lv[k] == pv[k]);
                        assert(pa[k] == la[k]);
                    }
                }
                assert(lv =~= la);
            }
            i = i + 1;
        }
        assert(view.subrange(0, i as int) =~= view);
        out
    }

    /// The listing of the current snapshot, served from the cache slot when
    /// it is tagged with HEAD and recomputed (and stored there) otherwise.
    pub fn list_documents(&mut self) -> (r: Result<&Vec<ListEntry>, StoreError>)
        requires
            old(self).wf(),
        ensures
            final(self).wf(),
            listed(*old(self), *final(self), r),
    {
        let fresh = self.cache.get(self.head).is_none();
        if fresh {
            let data = self.build_listing();
            self.cache = Cached::Computed { commit_id: self.head, data };
        }
        proof {
            self.lemma_snapshot_facts();
        }
        match &self.cache {
            Cached::Computed { data, .. } => Ok(data),
            Cached::Empty => Err(StoreError::Internal),
        }
    }
}

/// `o` is a blob.
pub open spec fn is_blob(o: Option<ObjectView>) -> bool {
    o matches Some(ObjectView::Blob(_))
}

/// Every blob that `after` holds and `before` did not has an id in `ids`.
pub open spec fn new_blobs_within(before: State, after: State, ids: Set<ObjectId>) -> bool {
    forall|i: ObjectId| #[trigger] is_blob(after.object(i)) && before.object(i) is None ==> ids.contains(i)
}

/// The ids of the blobs holding the contents of `files`.
pub open spec fn upload_blob_ids(files: Seq<(String, Vec<u8>)>) -> Set<ObjectId> {
    Set::new(|i: ObjectId| exists|k: int| 0 <= k < files.len() && i == object_hash(ObjectKind::Blob, (#[trigger] files[k]).1@))
}

/// Writing object `o` into store `s` fails: hashing fails, or the hash
/// already names a different stored object.
pub open spec fn write_fails(s: State, o: ObjectView) -> bool {
    hash_fails(kind_of(o), object_bytes(o)) || (s.object(object_hash(kind_of(o), object_bytes(o))) matches Some(
        x,
    ) && x != o)
}

/// The entries, in byte order of their paths, that describe mapping `m`.
pub open spec fn ordered_entries(m: Map<Seq<char>, (u32, ObjectId)>) -> Seq<EntryView> {
    choose|es: Seq<EntryView>| ordered_view_paths(es) && views_map(es) == m
}

/// Committing mapping `m` on top of `parent` fails in store `s`: writing
/// its tree fails, or writing the commit that names that tree fails.
pub open spec fn commit_fails(
    s: State,
    m: Map<Seq<char>, (u32, ObjectId)>,
    parent: Option<ObjectId>,
    message: Seq<u8>,
    now: u64,
) -> bool {
    let es = ordered_entries(m);
    write_fails(s, ObjectView::Tree(es)) || write_fails(
        s,
        ObjectView::Commit((object_hash(ObjectKind::Tree, tree_bytes(es)), parent, s.author(), message, now)),
    )
}

/// What `put_blob` guarantees, given the store before and after it and its result.
pub open spec fn blob_put(before: State, after: State, content: Seq<u8>, r: Result<ObjectId, StoreError>) -> bool {
    &&& (r is Err <==> write_fails(before, ObjectView::Blob(content)))
    &&& after.cache_tag() == before.cache_tag()
    &&& after.cached_listing() == before.cached_listing()
    &&& r matches Ok(id) ==> new_blobs_within(before, after, set![id])
    &&& after.head() == before.head()
    &&& after.author() == before.author()
    &&& after.snapshot() == before.snapshot()
    &&& after.listing() == before.listing()
    &&& extends(after.stored(), before.stored())
    &&& r is Err ==> r == Err::<ObjectId, StoreError>(StoreError::Internal) && after.stored() == before.stored()
    &&& r matches Ok(id) ==> id == object_hash(ObjectKind::Blob, content)
        && after.object(id) == Some(ObjectView::Blob(content))
        && after.object_count() <= before.object_count() + 1
        && (before.object(id) is Some ==> after.stored() == before.stored())
}

/// Nothing visible changed: HEAD, the snapshot and its listing are as they were.
pub open spec fn unchanged(before: State, after: State) -> bool {
    &&& after.head() == before.head()
    &&& after.snapshot() == before.snapshot()
    &&& after.listing() == before.listing()
}

/// What `save_document` guarantees, given the store before and after it and its result.
pub open spec fn saved(
    before: State,
    after: State,
    path: Seq<char>,
    content: Seq<char>,
    message: Seq<char>,
    now: u64,
    r: Result<(), StoreError>,
) -> bool {
    let id = object_hash(ObjectKind::Blob, encode_utf8(content));
    let m = before.documents().insert(path, (REGULAR_FILE, id));
    &&& extends(after.stored(), before.stored())
    &&& after.cache_tag() == before.cache_tag()
    &&& after.cached_listing() == before.cached_listing()
    &&& (r == Err::<(), StoreError>(StoreError::InvalidPath) <==> path.len() == 0)
    &&& r == Err::<(), StoreError>(StoreError::InvalidPath) ==> after.stored() == before.stored()
    &&& r is Ok ==> after.documents() == m
        && after.object(id) == Some(ObjectView::Blob(encode_utf8(content)))
        && after.head_commit_is(before.head(), encode_utf8(message), now)
        && after.head() != before.head()
        && after.object_count() <= before.object_count() + if before.object(id) is Some { 2nat } else { 3nat }
        && new_blobs_within(before, after, set![id])
    &&& r is Err ==> unchanged(before, after)
    &&& (r is Err && path.len() > 0) ==> r == Err::<(), StoreError>(StoreError::Internal) && (write_fails(
        after,
        ObjectView::Blob(encode_utf8(content)),
    ) || commit_fails(after, m, before.head(), encode_utf8(message), now))
}

/// What `rename_document` guarantees, given the store before and after it and its result.
pub open spec fn renamed(
    before: State,
    after: State,
    from: Seq<char>,
    to: Seq<char>,
    now: u64,
    r: Result<(), StoreError>,
) -> bool {
    let m = before.documents().remove(from).insert(to, before.documents()[from]);
    &&& extends(after.stored(), before.stored())
    &&& after.cache_tag() == before.cache_tag()
    &&& after.cached_listing() == before.cached_listing()
    &&& (r == Err::<(), StoreError>(StoreError::NotFound) <==> !before.documents().contains_key(from))
    &&& (r == Err::<(), StoreError>(StoreError::InvalidPath) <==> before.documents().contains_key(from) && to.len() == 0)
    &&& (r == Err::<(), StoreError>(StoreError::InvalidPath) || r == Err::<(), StoreError>(StoreError::NotFound))
        ==> after.stored() == before.stored()
    &&& r is Ok ==> after.documents() == m && after.head_commit_is(before.head(), rename_message(from, to), now)
        && after.head() != before.head()
    &&& r is Err ==> unchanged(before, after)
    &&& (r is Err && to.len() > 0 && before.documents().contains_key(from)) ==> r == Err::<(), StoreError>(
        StoreError::Internal,
    ) && commit_fails(after, m, before.head(), rename_message(from, to), now)
}

/// What `delete_document` guarantees, given the store before and after it and its result.
pub open spec fn deleted(before: State, after: State, path: Seq<char>, now: u64, r: Result<(), StoreError>) -> bool {
    let m = before.documents().remove(path);
    &&& extends(after.stored(), before.stored())
    &&& after.cache_tag() == before.cache_tag()
    &&& after.cached_listing() == before.cached_listing()
    &&& (r == Err::<(), StoreError>(StoreError::NotFound) <==> !before.documents().contains_key(path))
    &&& r == Err::<(), StoreError>(StoreError::NotFound) ==> after.stored() == before.stored()
    &&& r is Ok ==> after.documents() == m && after.head_commit_is(before.head(), delete_message(path), now)
        && after.head() != before.head()
    &&& r is Err ==> unchanged(before, after)
    &&& (r is Err && before.documents().contains_key(path)) ==> r == Err::<(), StoreError>(StoreError::Internal)
        && commit_fails(after, m, before.head(), delete_message(path), now)
}

/// What `upload_documents` guarantees, given the store before and after it and its result.
pub open spec fn uploaded(
    before: State,
    after: State,
    files: Seq<(String, Vec<u8>)>,
    now: u64,
    r: Result<(), StoreError>,
) -> bool {
    let m = upload_map(before.documents(), files);
    let unnamed = exists|k: int| 0 <= k < files.len() && (#[trigger] files[k]).0@.len() == 0;
    &&& extends(after.stored(), before.stored())
    &&& after.cache_tag() == before.cache_tag()
    &&& after.cached_listing() == before.cached_listing()
    &&& (r == Err::<(), StoreError>(StoreError::InvalidPath) <==> unnamed)
    &&& r == Err::<(), StoreError>(StoreError::InvalidPath) ==> after.stored() == before.stored()
    &&& r is Ok ==> after.documents() == m
        && (forall|k: int| 0 <= k < files.len() ==>
            after.object(object_hash(ObjectKind::Blob, (#[trigger] files[k]).1@))
                == Some(ObjectView::Blob(files[k].1@)))
        && after.head_commit_is(before.head(), upload_message(files.len()), now)
        && after.head() != before.head()
        && after.object_count() <= before.object_count() + files.len() + 2
        && new_blobs_within(before, after, upload_blob_ids(files))
    &&& r is Err ==> unchanged(before, after)
    &&& (r is Err && !unnamed) ==> r == Err::<(), StoreError>(StoreError::Internal) && ((exists|k: int|
        0 <= k < files.len() && write_fails(after, ObjectView::Blob((#[trigger] files[k]).1@)))
        || commit_fails(after, m, before.head(), upload_message(files.len()), now))
}

/// What `load_document` guarantees of its result.
pub open spec fn loaded(s: State, path: Seq<char>, r: Result<(Vec<u8>, Option<String>), StoreError>) -> bool {
    &&& (r is Err <==> !s.documents().contains_key(path))
    &&& r is Err ==> r == Err::<(Vec<u8>, Option<String>), StoreError>(StoreError::NotFound)
    &&& r matches Ok((content, mime)) ==> content@ == s.blob(s.documents()[path].1) && match mime {
        None => mime_of(path) is None,
        Some(m) => mime_of(path) == Some(m@),
    }
}

/// What `list_documents` guarantees, given the store before and after it and its result.
pub open spec fn listed(before: State, after: State, r: Result<&Vec<ListEntry>, StoreError>) -> bool {
    &&& after.stored() == before.stored()
    &&& after.head() == before.head()
    &&& after.cache_tag() == Some(after.head())
    &&& r matches Ok(data) && listing_view(data@) == after.listing() && after.cached_listing() == Some(data@)
    &&& ordered_view_paths(after.snapshot())
    &&& before.cache_tag() == Some(before.head()) ==> after.cached_listing() == before.cached_listing()
}

/// The media type registered first for the extension of `path`, if any.
pub uninterp spec fn mime_of(path: Seq<char>) -> Option<Seq<char>>;

/// Relies on mime_guess::from_path(..).first_raw(): the first media type
/// known for the path's extension, decided by the path alone.
#[verifier::external_body]
fn guess_mime(path: &str) -> (r: Option<String>)
    ensures
        match r {
            None => mime_of(path@) is None,
            Some(m) => mime_of(path@) == Some(m@),
        },
{
    mime_guess::from_path(path).first_raw().map(|m| m.to_string())
}

/// The documents after uploading `files` onto `m`, later files winning.
pub open spec fn upload_map(m: Map<Seq<char>, (u32, ObjectId)>, files: Seq<(String, Vec<u8>)>) -> Map<Seq<char>, (u32, ObjectId)>
    decreases files.len(),
{
    if files.len() == 0 {
        m
    } else {
        upload_map(m, files.drop_last()).insert(
            files.last().0@,
            (REGULAR_FILE, object_hash(ObjectKind::Blob, files.last().1@)),
        )
    }
}

/// The message of an upload commit: `Upload {n} files`.
pub open spec fn upload_message(n: nat) -> Seq<u8> {
    encode_utf8("Upload "@) + decimal(n) + encode_utf8(" files"@)
}

/// The message of a rename commit: `Rename {from} to {to}`.
pub open spec fn rename_message(from: Seq<char>, to: Seq<char>) -> Seq<u8> {
    encode_utf8("Rename "@) + encode_utf8(from) + encode_utf8(" to "@) + encode_utf8(to)
}

/// The message of a delete commit: `Delete {path}`.
pub open spec fn delete_message(path: Seq<char>) -> Seq<u8> {
    encode_utf8("Delete "@) + encode_utf8(path)
}

pub proof fn lemma_views_has(es: Seq<EntryView>, p: Seq<char>)
    ensures
        views_map(es).contains_key(p) <==> exists|i: int| 0 <= i < es.len() && es[i].0 == p,
    decreases es.len(),
{
    if es.len() > 0 {
        let init = es.drop_last();
        lemma_views_has(init, p);
        if views_map(init).contains_key(p) {
            let i = choose|i: int| 0 <= i < init.len() && init[i].0 == p;
            assert(es[i].0 == p);
        }
        if exists|i: int| 0 <= i < es.len() && es[i].0 == p {
            let i = choose|i: int| 0 <= i < es.len() && es[i].0 == p;
            if i < es.len() - 1 {
                assert(init[i].0 == p);
            }
        }
    }
}

pub proof fn lemma_views_value(es: Seq<EntryView>, i: int)
    requires
        ordered_view_paths(es),
        0 <= i < es.len(),
    ensures
        views_map(es).contains_key(es[i].0),
        views_map(es)[es[i].0] == (es[i].1, es[i].2),
    decreases es.len(),
{
    if i < es.len() - 1 {
        let init = es.drop_last();
        assert(init[i] == es[i]);
        assert forall|p: int, q: int| #![trigger init[p], init[q]] 0 <= p < q < init.len() implies
            init[p].0 != init[q].0 && seq_lt(key_of(init[p].0), key_of(init[q].0)) by {
            assert(init[p] == es[p] && init[q] == es[q]);
        }
        lemma_views_value(init, i);
    }
}

proof fn lemma_ordered_unique(a: Seq<EntryView>, b: Seq<EntryView>)
    requires
        ordered_view_paths(a),
        ordered_view_paths(b),
        views_map(a) == views_map(b),
    ensures
        a == b,
    decreases a.len(),
{
    if a.len() == 0 {
        if b.len() > 0 {
            assert(views_map(b).contains_key(b.last().0));
        }
        assert(b =~= a);
    } else {
        assert(views_map(a).contains_key(a.last().0));
        assert(b.len() > 0);
        let x = a.last().0;
        let y = b.last().0;
        lemma_views_has(b, x);
        lemma_views_has(a, y);
        let j = choose|j: int| 0 <= j < b.len() && b[j].0 == x;
        let i = choose|i: int| 0 <= i < a.len() && a[i].0 == y;
        if x != y {
            assert(j < b.len() - 1);
            assert(i < a.len() - 1);
            assert(seq_lt(key_of(x), key_of(y)));
            assert(seq_lt(key_of(y), key_of(x)));
            crate::index::lemma_lt_trans(key_of(x), key_of(y), key_of(x));
            crate::index::lemma_lt_irrefl(key_of(x));
        }
        assert(views_map(a)[x] == (a.last().1, a.last().2));
        assert(views_map(b)[y] == (b.last().1, b.last().2));
        assert(a.last() == b.last());
        let ia = a.drop_last();
        let ib = b.drop_last();
        lemma_views_has(ia, x);
        lemma_views_has(ib, x);
        assert(!views_map(ia).contains_key(x)) by {
            if views_map(ia).contains_key(x) {
                let k = choose|k: int| 0 <= k < ia.len() && ia[k].0 == x;
                assert(a[k].0 == a[a.len() - 1].0);
            }
        }
        assert(!views_map(ib).contains_key(x)) by {
            if views_map(ib).contains_key(x) {
                let k = choose|k: int| 0 <= k < ib.len() && ib[k].0 == x;
                assert(b[k].0 == b[b.len() - 1].0);
            }
        }
        assert(views_map(ia) =~= views_map(a).remove(x));
        assert(views_map(ib) =~= views_map(b).remove(x));
        assert forall|p: int, q: int| #![trigger ia[p], ia[q]] 0 <= p < q < ia.len() implies
            ia[p].0 != ia[q].0 && seq_lt(key_of(ia[p].0), key_of(ia[q].0)) by {
            assert(ia[p] == a[p] && ia[q] == a[q]);
        }
        assert forall|p: int, q: int| #![trigger ib[p], ib[q]] 0 <= p < q < ib.len() implies
            ib[p].0 != ib[q].0 && seq_lt(key_of(ib[p].0), key_of(ib[q].0)) by {
            assert(ib[p] == b[p] && ib[q] == b[q]);
        }
        lemma_ordered_unique(ia, ib);
        assert(a =~= ia.push(a.last()));
        assert(b =~= ib.push(b.last()));
    }
}

/// Two stores that hold the same documents hold the same snapshot, entry
/// for entry, and so the same tree: the tree's id depends on the path
/// mapping alone, not on the edits that produced it.
pub proof fn law_snapshot_determined_by_documents(s1: State, s2: State)
    requires
        s1.wf(),
        s2.wf(),
        s1.documents() == s2.documents(),
    ensures
        s1.snapshot() == s2.snapshot(),
        object_hash(ObjectKind::Tree, tree_bytes(s1.snapshot())) == object_hash(
            ObjectKind::Tree,
            tree_bytes(s2.snapshot()),
        ),
{
    lemma_ordered_unique(s1.snapshot(), s2.snapshot());
}

} // verus!
