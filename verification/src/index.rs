//! The in-memory index: a mapping from key (raw bytes) to the offset of
//! the newest log record written for that key. The index is derived
//! state, rebuilt from the log on recovery and never itself persisted.

use vstd::prelude::*;

use crate::codec::bytes_range;

verus! {

/// One index entry: a key and the log offset of its newest record.
pub struct IndexEntry {
    pub key: Vec<u8>,
    pub pos: usize,
}

/// The mapping an entry list denotes: later entries win.
pub open spec fn map_of_entries(s: Seq<IndexEntry>) -> Map<Seq<u8>, int>
    decreases s.len(),
{
    if s.len() == 0 {
        Map::empty()
    } else {
        map_of_entries(s.drop_last()).insert(s.last().key@, s.last().pos as int)
    }
}

/// Offset index over keys, with at most one entry per key.
pub struct Index {
    entries: Vec<IndexEntry>,
}

impl Index {
    /// The mapping this index holds, from key bytes to offset.
    pub closed spec fn view(self) -> Map<Seq<u8>, int> {
        map_of_entries(self.entries@)
    }

    /// The entries in order, as (key, offset) pairs.
    pub closed spec fn seq_view(self) -> Seq<(Seq<u8>, int)> {
        self.entries@.map_values(|e: IndexEntry| (e.key@, e.pos as int))
    }

    /// Keys are pairwise distinct, so each key has exactly one entry.
    pub closed spec fn wf(self) -> bool {
        forall|i: int, j: int|
            0 <= i < j < self.entries@.len() ==> self.entries@[i].key@ != self.entries@[j].key@
    }

    /// Every entry is the binding its key has in the map, and every key
    /// in the map comes from some entry.
    pub proof fn lemma_denotes(self)
        requires
            self.wf(),
        ensures
            forall|i: int|
                0 <= i < self.seq_view().len() ==> #[trigger] self@.dom().contains(
                    self.seq_view()[i].0,
                ) && self@[self.seq_view()[i].0] == self.seq_view()[i].1,
            forall|k: Seq<u8>|
                self@.dom().contains(k) ==> exists|i: int|
                    0 <= i < self.seq_view().len() && #[trigger] self.seq_view()[i].0 == k,
    {
        lemma_entries_denote(self.entries@);
        assert forall|k: Seq<u8>| self@.dom().contains(k) implies exists|i: int|
            0 <= i < self.seq_view().len() && #[trigger] self.seq_view()[i].0 == k by {
            let i = choose|i: int|
                0 <= i < self.entries@.len() && self.entries@[i].key@ == k;
            assert(self.seq_view()[i].0 == k);
        }
    }

    /// An index that denotes the empty map holds no entries at all,
    /// so it is well-formed.
    pub proof fn lemma_empty_wf(self)
        requires
            self@ == Map::<Seq<u8>, int>::empty(),
        ensures
            self.wf(),
    {
        if self.entries@.len() > 0 {
            assert(map_of_entries(self.entries@).dom().contains(self.entries@.last().key@));
        }
    }

    /// Distinct entry keys, read off the (key, offset) pairs.
    pub proof fn lemma_seq_distinct(self)
        requires
            self.wf(),
        ensures
            forall|i: int, j: int|
                0 <= i < j < self.seq_view().len() ==> self.seq_view()[i].0
                    != self.seq_view()[j].0,
    {
    }

    pub fn new() -> (r: Index)
        ensures
            r.wf(),
            r@ == Map::<Seq<u8>, int>::empty(),
            r.seq_view() == Seq::<(Seq<u8>, int)>::empty(),
    {
        let r = Index { entries: Vec::new() };
        proof {
            assert(r.seq_view() =~= Seq::<(Seq<u8>, int)>::empty());
        }
        r
    }

    pub fn num_entries(&self) -> (n: usize)
        ensures
            n == self.seq_view().len(),
    {
        self.entries.len()
    }

    /// The key of the entry at position `i`, as an owned copy.
    pub fn key_at(&self, i: usize) -> (k: Vec<u8>)
        requires
            i < self.seq_view().len(),
        ensures
            k@ == self.seq_view()[i as int].0,
    {
        let e = &self.entries[i];
        bytes_range(&e.key, 0, e.key.len())
    }

    /// The offset of the entry at position `i`.
    pub fn pos_at(&self, i: usize) -> (p: usize)
        requires
            i < self.seq_view().len(),
        ensures
            p as int == self.seq_view()[i as int].1,
    {
        self.entries[i].pos
    }

    /// The position of the entry holding `key`, if there is one.
    fn find_key(&self, key: &[u8]) -> (r: Option<usize>)
        ensures
            match r {
                Some(i) => i < self.entries@.len() && self.entries@[i as int].key@ == key@,
                None => forall|j: int| 0 <= j < self.entries@.len() ==> self.entries@[j].key@ != key@,
            },
    {
        let n = self.entries.len();
        let mut i: usize = 0;
        while i < n
            invariant
                i <= n == self.entries@.len(),
                forall|j: int| 0 <= j < i ==> self.entries@[j].key@ != key@,
            decreases n - i,
        {
            if bytes_eq(self.entries[i].key.as_slice(), key) {
                return Some(i);
            }
            i = i + 1;
        }
        None
    }

    /// Looks a key up: the offset of its newest record, if any.
    pub fn lookup(&self, key: &[u8]) -> (r: Option<usize>)
        requires
            self.wf(),
        ensures
            match r {
                Some(p) => self@.dom().contains(key@) && self@[key@] == p as int,
                None => !self@.dom().contains(key@),
            },
    {
        proof {
            lemma_entries_denote(self.entries@);
        }
        match self.find_key(key) {
            Some(i) => {
                proof {
                    assert(map_of_entries(self.entries@).dom().contains(
                        self.entries@[i as int].key@,
                    ));
                }
                Some(self.entries[i].pos)
            },
            None => None,
        }
    }

    /// Binds `key` to `pos`, overwriting any prior offset for that key.
    pub fn set(&mut self, key: Vec<u8>, pos: usize)
        requires
            old(self).wf(),
        ensures
            final(self).wf(),
            final(self)@ == old(self)@.insert(key@, pos as int),
    {
        let found = self.find_key(key.as_slice());
        match found {
            Some(i) => {
                let ghost pre = self.entries@;
                self.entries[i] = IndexEntry { key, pos };
                proof {
                    lemma_update_same_key(pre, i as int, self.entries@[i as int]);
                }
            },
            None => {
                let ghost pre = self.entries@;
                self.entries.push(IndexEntry { key, pos });
                proof {
                    assert(self.entries@.drop_last() =~= pre);
                }
            },
        }
    }
}

/// Compares two byte strings for equality.
pub(crate) fn bytes_eq(a: &[u8], b: &[u8]) -> (r: bool)
    ensures
        r == (a@ == b@),
{
    if a.len() != b.len() {
        return false;
    }
    let n = a.len();
    let mut i: usize = 0;
    while i < n
        invariant
            i <= n == a@.len() == b@.len(),
            forall|j: int| 0 <= j < i ==> a@[j] == b@[j],
        decreases n - i,
    {
        if a[i] != b[i] {
            return false;
        }
        i = i + 1;
    }
    proof {
        assert(a@ =~= b@);
    }
    true
}

/// With pairwise-distinct keys, each entry is the binding its key has in
/// the denoted map, and every key in the map comes from some entry.
proof fn lemma_entries_denote(s: Seq<IndexEntry>)
    requires
        forall|i: int, j: int| 0 <= i < j < s.len() ==> s[i].key@ != s[j].key@,
    ensures
        forall|i: int|
            0 <= i < s.len() ==> #[trigger] map_of_entries(s).dom().contains(s[i].key@)
                && map_of_entries(s)[s[i].key@] == s[i].pos as int,
        forall|k: Seq<u8>|
            map_of_entries(s).dom().contains(k) ==> exists|i: int|
                0 <= i < s.len() && #[trigger] s[i].key@ == k,
    decreases s.len(),
{
    if s.len() > 0 {
        let sdl = s.drop_last();
        lemma_entries_denote(sdl);
        assert forall|i: int| 0 <= i < s.len() implies #[trigger] map_of_entries(s).dom().contains(
            s[i].key@,
        ) && map_of_entries(s)[s[i].key@] == s[i].pos as int by {
            if i < s.len() - 1 {
                assert(sdl[i] == s[i]);
                assert(map_of_entries(sdl).dom().contains(sdl[i].key@));
                assert(map_of_entries(sdl)[sdl[i].key@] == sdl[i].pos as int);
                assert(s[i].key@ != s.last().key@);
            } else {
                assert(s[i] == s.last());
            }
        }
        assert forall|k: Seq<u8>| map_of_entries(s).dom().contains(k) implies exists|i: int|
            0 <= i < s.len() && #[trigger] s[i].key@ == k by {
            if k != s.last().key@ {
                assert(map_of_entries(sdl).dom().contains(k));
                assert(exists|i: int| 0 <= i < sdl.len() && #[trigger] sdl[i].key@ == k);
                let i = choose|i: int| 0 <= i < sdl.len() && #[trigger] sdl[i].key@ == k;
                assert(s[i].key@ == k);
            } else {
                assert(s[(s.len() - 1) as int].key@ == k);
            }
        }
    }
}

/// Replacing the entry at `i` with one bearing the same key replaces
/// that key's binding in the denoted map.
proof fn lemma_update_same_key(s: Seq<IndexEntry>, i: int, e: IndexEntry)
    requires
        forall|p: int, q: int| 0 <= p < q < s.len() ==> s[p].key@ != s[q].key@,
        0 <= i < s.len(),
        e.key@ == s[i].key@,
    ensures
        map_of_entries(s.update(i, e)) == map_of_entries(s).insert(e.key@, e.pos as int),
        forall|p: int, q: int|
            0 <= p < q < s.update(i, e).len() ==> s.update(i, e)[p].key@ != s.update(i, e)[q].key@,
    decreases s.len(),
{
    let t = s.update(i, e);
    if i == s.len() - 1 {
        assert(t.drop_last() =~= s.drop_last());
        assert(t.last() == e);
        assert(map_of_entries(s.drop_last()).insert(e.key@, e.pos as int) =~= map_of_entries(
            s,
        ).insert(e.key@, e.pos as int));
    } else {
        assert(t.drop_last() =~= s.drop_last().update(i, e));
        assert(t.last() == s.last());
        lemma_update_same_key(s.drop_last(), i, e);
        assert(s[i].key@ != s.last().key@);
        assert(map_of_entries(t) == map_of_entries(s.drop_last()).insert(e.key@, e.pos as int).insert(
            s.last().key@,
            s.last().pos as int,
        ));
        assert(map_of_entries(s.drop_last()).insert(e.key@, e.pos as int).insert(
            s.last().key@,
            s.last().pos as int,
        ) =~= map_of_entries(s).insert(e.key@, e.pos as int));
    }
}

} // verus!
