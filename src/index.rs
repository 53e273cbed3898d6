use vstd::prelude::*;
use crate::object::ObjectId;
use vstd::utf8::{encode_utf8, encode_utf8_decode_utf8};

verus! {

/// The mode of a regular, non-executable file (octal 100644).
pub const REGULAR_FILE: u32 = 33188;

/// One document of a snapshot: its full path, file mode and blob id.
pub struct Entry {
    pub path: String,
    pub mode: u32,
    pub id: ObjectId,
}

impl Entry {
    pub fn duplicate(&self) -> (r: Entry)
        ensures
            r == *self,
    {
        Entry { path: self.path.clone(), mode: self.mode, id: self.id }
    }
}

/// The path mapping that a sequence of entries describes; a later entry
/// for a path overrides an earlier one.
pub open spec fn entries_map(es: Seq<Entry>) -> Map<Seq<char>, (u32, ObjectId)>
    decreases es.len(),
{
    if es.len() == 0 {
        Map::empty()
    } else {
        entries_map(es.drop_last()).insert(es.last().path@, (es.last().mode, es.last().id))
    }
}

/// The bytes a path is ordered by: its UTF-8 encoding.
pub open spec fn key_of(p: Seq<char>) -> Seq<u8> {
    encode_utf8(p)
}

/// Byte-wise lexicographic order, a proper prefix first.
pub open spec fn seq_lt(a: Seq<u8>, b: Seq<u8>) -> bool
    decreases a.len(),
{
    if a.len() == 0 {
        b.len() > 0
    } else if b.len() == 0 {
        false
    } else if a[0] != b[0] {
        a[0] < b[0]
    } else {
        seq_lt(a.drop_first(), b.drop_first())
    }
}

/// Paths strictly increase in byte order.
pub open spec fn sorted_paths(es: Seq<Entry>) -> bool {
    forall|i: int, j: int| 0 <= i < j < es.len() ==> seq_lt(key_of(es[i].path@), key_of(es[j].path@))
}

pub proof fn lemma_key_injective(p: Seq<char>, q: Seq<char>)
    requires
        p != q,
    ensures
        key_of(p) != key_of(q),
{
    encode_utf8_decode_utf8(p);
    encode_utf8_decode_utf8(q);
}

pub proof fn lemma_lt_total(a: Seq<u8>, b: Seq<u8>)
    requires
        a != b,
    ensures
        seq_lt(a, b) || seq_lt(b, a),
    decreases a.len(),
{
    if a.len() > 0 && b.len() > 0 && a[0] == b[0] {
        if a.drop_first() == b.drop_first() {
            assert(a =~= seq![a[0]] + a.drop_first());
            assert(b =~= seq![b[0]] + b.drop_first());
        }
        lemma_lt_total(a.drop_first(), b.drop_first());
    } else if a.len() == 0 && b.len() == 0 {
        assert(a =~= b);
    }
}

pub proof fn lemma_lt_trans(a: Seq<u8>, b: Seq<u8>, c: Seq<u8>)
    requires
        seq_lt(a, b),
        seq_lt(b, c),
    ensures
        seq_lt(a, c),
    decreases a.len(),
{
    if a.len() > 0 && a[0] == b[0] && b[0] == c[0] {
        lemma_lt_trans(a.drop_first(), b.drop_first(), c.drop_first());
    }
}

/// Whether `a` comes before `b` in byte order.
pub fn bytes_lt(a: &[u8], b: &[u8]) -> (r: bool)
    ensures
        r == seq_lt(a@, b@),
{
    let mut i: usize = 0;
    assert(a@.subrange(0, a@.len() as int) =~= a@);
    assert(b@.subrange(0, b@.len() as int) =~= b@);
    while i < a.len() && i < b.len()
        invariant
            i <= a@.len(),
            i <= b@.len(),
            seq_lt(a@, b@) == seq_lt(a@.subrange(i as int, a@.len() as int), b@.subrange(i as int, b@.len() as int)),
        decreases a@.len() - i,
    {
        let ghost sa = a@.subrange(i as int, a@.len() as int);
        let ghost sb = b@.subrange(i as int, b@.len() as int);
        if a[i] != b[i] {
            return a[i] < b[i];
        }
        assert(sa.drop_first() =~= a@.subrange(i + 1 as int, a@.len() as int));
        assert(sb.drop_first() =~= b@.subrange(i + 1 as int, b@.len() as int));
        i = i + 1;
    }
    i == a.len() && i < b.len()
}

/// No path occurs twice.
pub open spec fn unique_paths(es: Seq<Entry>) -> bool {
    forall|i: int, j: int| 0 <= i < j < es.len() ==> es[i].path@ != es[j].path@
}

pub proof fn lemma_map_has(es: Seq<Entry>, p: Seq<char>)
    ensures
        entries_map(es).contains_key(p) <==> exists|i: int| 0 <= i < es.len() && es[i].path@ == p,
    decreases es.len(),
{
    if es.len() > 0 {
        let init = es.drop_last();
        lemma_map_has(init, p);
        if entries_map(init).contains_key(p) {
            let i = choose|i: int| 0 <= i < init.len() && init[i].path@ == p;
            assert(es[i].path@ == p);
        }
        if exists|i: int| 0 <= i < es.len() && es[i].path@ == p {
            let i = choose|i: int| 0 <= i < es.len() && es[i].path@ == p;
            if i < es.len() - 1 {
                assert(init[i].path@ == p);
            }
        }
    }
}

pub proof fn lemma_map_value(es: Seq<Entry>, i: int)
    requires
        unique_paths(es),
        0 <= i < es.len(),
    ensures
        entries_map(es).contains_key(es[i].path@),
        entries_map(es)[es[i].path@] == (es[i].mode, es[i].id),
    decreases es.len(),
{
    if i < es.len() - 1 {
        let init = es.drop_last();
        assert(init[i] == es[i]);
        lemma_map_value(init, i);
    }
}

/// The transient staging structure of one transaction: entries keyed by
/// their full path.
pub struct Index {
    pub entries: Vec<Entry>,
}

impl Index {
    pub open spec fn view(&self) -> Map<Seq<char>, (u32, ObjectId)> {
        entries_map(self.entries@)
    }

    pub open spec fn wf(&self) -> bool {
        unique_paths(self.entries@) && sorted_paths(self.entries@)
    }

    /// An index holding a copy of the given snapshot entries.
    pub fn from_entries(es: &Vec<Entry>) -> (r: Index)
        ensures
            r.entries@ == es@,
    {
        let mut out: Vec<Entry> = Vec::new();
        let mut i: usize = 0;
        while i < es.len()
            invariant
                i <= es@.len(),
                out@ == es@.subrange(0, i as int),
            decreases es@.len() - i,
        {
            out.push(es[i].duplicate());
            i = i + 1;
            assert(out@ == es@.subrange(0, i as int));
        }
        assert(es@.subrange(0, i as int) == es@);
        Index { entries: out }
    }

    /// The entry stored under `path`, if any.
    pub fn lookup(&self, path: &str) -> (r: Option<Entry>)
        requires
            self.wf(),
        ensures
            r is Some == self@.contains_key(path@),
            r matches Some(e) ==> e.path@ == path@ && self@[path@] == (e.mode, e.id),
    {
        proof {
            lemma_map_has(self.entries@, path@);
        }
        let key = path.to_owned();
        let mut i: usize = 0;
        while i < self.entries.len()
            invariant
                i <= self.entries@.len(),
                self.wf(),
                key@ == path@,
                forall|k: int| 0 <= k < i ==> self.entries@[k].path@ != path@,
            decreases self.entries@.len() - i,
        {
            if self.entries[i].path == key {
                proof {
                    lemma_map_value(self.entries@, i as int);
                }
                return Some(self.entries[i].duplicate());
            }
            i = i + 1;
        }
        None
    }

    /// Deletes the entry under `path`; returns whether there was one.
    pub fn remove(&mut self, path: &str) -> (r: bool)
        requires
            old(self).wf(),
        ensures
            final(self).wf(),
            r == old(self)@.contains_key(path@),
            final(self)@ == old(self)@.remove(path@),
    {
        let ghost es = self.entries@;
        proof {
            lemma_map_has(es, path@);
        }
        let key = path.to_owned();
        let mut kept: Vec<Entry> = Vec::new();
        let mut found = false;
        let mut i: usize = 0;
        while i < self.entries.len()
            invariant
                self.entries@ == es,
                key@ == path@,
                unique_paths(es),
                i <= es.len(),
                unique_paths(kept@),
                sorted_paths(es),
                sorted_paths(kept@),
                forall|k: int| 0 <= k < kept@.len() ==>
                    exists|j: int| 0 <= j < i && #[trigger] kept@[k] == es[j],
                entries_map(kept@) == entries_map(es.subrange(0, i as int)).remove(path@),
                found == exists|j: int| 0 <= j < i && es[j].path@ == path@,
            decreases es.len() - i,
        {
            let ghost prefix = es.subrange(0, i as int);
            assert(es.subrange(0, i + 1 as int).drop_last() == prefix);
            if self.entries[i].path == key {
                found = true;
                assert(entries_map(kept@) =~= entries_map(es.subrange(0, i + 1 as int)).remove(path@));
            } else {
                let ghost before = kept@;
                kept.push(self.entries[i].duplicate());
                assert(kept@.drop_last() == before);
                assert(entries_map(kept@) =~= entries_map(es.subrange(0, i + 1 as int)).remove(path@));
                assert forall|a: int, b: int| 0 <= a < b < kept@.len() implies kept@[a].path@ != kept@[b].path@
                    && seq_lt(key_of(kept@[a].path@), key_of(kept@[b].path@)) by {
                    if b == kept@.len() - 1 {
                        assert(kept@[a] == before[a]);
                        let j = choose|j: int| 0 <= j < i && #[trigger] before[a] == es[j];
                        assert(es[j].path@ != es[i as int].path@);
                    } else {
                        assert(kept@[a] == before[a]);
                        assert(kept@[b] == before[b]);
                    }
                }
                assert forall|k: int| 0 <= k < kept@.len() implies
                    exists|j: int| 0 <= j < i + 1 && #[trigger] kept@[k] == es[j] by {
                    if k < kept@.len() - 1 {
                        assert(kept@[k] == before[k]);
                    } else {
                        assert(kept@[k] == es[i as int]);
                    }
                }
            }
            i = i + 1;
        }
        assert(es.subrange(0, i as int) == es);
        self.entries = kept;
        found
    }

    /// Stores `(mode, id)` under `path`, replacing any entry already there;
    /// entries stay in byte order of their paths.
    pub fn add(&mut self, path: String, mode: u32, id: ObjectId)
        requires
            old(self).wf(),
        ensures
            final(self).wf(),
            final(self)@ == old(self)@.insert(path@, (mode, id)),
    {
        self.remove(path.as_str());
        let ghost es = self.entries@;
        let ghost m = self@;
        proof {
            lemma_map_has(es, path@);
        }
        let mut k: usize = 0;
        let mut found = false;
        while k < self.entries.len() && !found
            invariant
                self.entries@ == es,
                k <= es.len(),
                found ==> k < es.len() && !seq_lt(key_of(es[k as int].path@), key_of(path@)),
                forall|a: int| 0 <= a < k ==> seq_lt(key_of(#[trigger] es[a].path@), key_of(path@)),
            decreases es.len() - k + (if found { 0int } else { 1int }),
        {
            if bytes_lt(self.entries[k].path.as_str().as_bytes(), path.as_str().as_bytes()) {
                k = k + 1;
            } else {
                found = true;
            }
        }
        let ghost p = path@;
        let ne = Entry { path, mode, id };
        self.entries.insert(k, ne);
        let ghost s2 = self.entries@;
        proof {
            assert(s2 == es.insert(k as int, ne));
            assert forall|a: int, b: int| 0 <= a < b < s2.len() implies
                s2[a].path@ != s2[b].path@ && seq_lt(key_of(s2[a].path@), key_of(s2[b].path@)) by {
                if b < k {
                    assert(s2[a] == es[a] && s2[b] == es[b]);
                } else if b == k {
                    assert(s2[a] == es[a]);
                } else if a < k {
                    assert(s2[a] == es[a] && s2[b] == es[b - 1]);
                } else if a == k {
                    assert(s2[b] == es[b - 1]);
                    assert(es[k as int].path@ != p);
                    lemma_key_injective(es[k as int].path@, p);
                    lemma_lt_total(key_of(es[k as int].path@), key_of(p));
                    if b - 1 > k {
                        lemma_lt_trans(key_of(p), key_of(es[k as int].path@), key_of(es[b - 1].path@));
                    }
                } else {
                    assert(s2[a] == es[a - 1] && s2[b] == es[b - 1]);
                }
                if seq_lt(key_of(s2[a].path@), key_of(s2[b].path@)) && s2[a].path@ == s2[b].path@ {
                    lemma_lt_irrefl(key_of(s2[a].path@));
                }
            }
            assert forall|q: Seq<char>| #[trigger] self@.contains_key(q) == m.insert(p, (mode, id)).contains_key(q) by {
                lemma_map_has(s2, q);
                lemma_map_has(es, q);
                if q != p {
                    if exists|i: int| 0 <= i < es.len() && es[i].path@ == q {
                        let i = choose|i: int| 0 <= i < es.len() && es[i].path@ == q;
                        if i < k {
                            assert(s2[i] == es[i]);
                        } else {
                            assert(s2[i + 1] == es[i]);
                        }
                    }
                    if exists|i: int| 0 <= i < s2.len() && s2[i].path@ == q {
                        let i = choose|i: int| 0 <= i < s2.len() && s2[i].path@ == q;
                        if i < k {
                            assert(s2[i] == es[i]);
                        } else if i > k {
                            assert(s2[i] == es[i - 1]);
                        }
                    }
                } else {
                    assert(s2[k as int].path@ == p);
                }
            }
            assert forall|q: Seq<char>| #[trigger] self@.contains_key(q) implies self@[q] == m.insert(p, (mode, id))[q] by {
                lemma_map_has(s2, q);
                let i = choose|i: int| 0 <= i < s2.len() && s2[i].path@ == q;
                lemma_map_value(s2, i);
                if i < k {
                    assert(s2[i] == es[i]);
                    lemma_map_value(es, i);
                } else if i > k {
                    assert(s2[i] == es[i - 1]);
                    lemma_map_value(es, i - 1);
                }
            }
            assert(self@ =~= m.insert(p, (mode, id)));
        }
    }
}

pub proof fn lemma_lt_irrefl(a: Seq<u8>)
    ensures
        !seq_lt(a, a),
    decreases a.len(),
{
    if a.len() > 0 {
        lemma_lt_irrefl(a.drop_first());
    }
}

} // verus!
