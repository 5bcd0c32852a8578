//! The store facade: the append-only log, held as its sequence of
//! bytes, composed with the in-memory index. Reading the log file into
//! bytes and writing appended suffixes back out is the embedding
//! application's part; everything the store decides happens here.

use vstd::prelude::*;

use crate::codec::decode_at;
use crate::codec::encode;
use crate::codec::frame_fits;
use crate::codec::own_bytes;
use crate::codec::rec_len;
use crate::codec::rec_ok;
use crate::codec::spec_decode;
use crate::codec::spec_frame;
use crate::codec::KeyValuePair;
use crate::codec::KvError;
use crate::index::Index;
use crate::replay::is_boundary;
use crate::replay::lemma_append_frame;
use crate::replay::lemma_boundary_lens_bound;
use crate::replay::lemma_recover_boundaries;
use crate::replay::lemma_recover_offsets;
use crate::replay::lemma_scan_truncate;
use crate::replay::log_valid;
use crate::replay::num_records;
use crate::replay::recover;
use crate::replay::recover_from;
use crate::replay::recover_view;
use crate::replay::replay_clean;
use crate::replay::scan_end;
use crate::replay::sum_rec_lens;

verus! {

/// A log-structured key-value store: an append-only log of checksummed
/// records, and an index from each key to its newest record's offset.
pub struct KvStore {
    log: Vec<u8>,
    index: Index,
}

impl KvStore {
    /// The log bytes: the store's only durable state.
    pub closed spec fn log_view(self) -> Seq<u8> {
        self.log@
    }

    /// The index: each key mapped to the offset of its newest record.
    pub closed spec fn index_view(self) -> Map<Seq<u8>, int> {
        self.index@
    }

    /// The index holds at most one entry per key.
    pub closed spec fn index_wf(self) -> bool {
        self.index.wf()
    }

    /// Well-formed: every byte of the log belongs to a checksum-valid
    /// record, and the index is exactly what replaying the log builds.
    pub closed spec fn inv(self) -> bool {
        &&& self.index.wf()
        &&& log_valid(self.log@)
        &&& self.index@ == recover(self.log@)
    }

    /// The visible contents: each live key to its newest value.
    pub open spec fn view(self) -> Map<Seq<u8>, Seq<u8>> {
        recover_view(self.log_view())
    }

    /// What well-formedness says of the store's parts: every byte of
    /// the log belongs to a checksum-valid record, and the index is
    /// exactly replay's index.
    pub proof fn lemma_inv_parts(self)
        requires
            self.inv(),
        ensures
            log_valid(self.log_view()),
            self.index_view() == recover(self.log_view()),
    {
    }

    /// Opens a store over the given log bytes (the current contents of
    /// the log file; empty for a fresh store). The index starts empty:
    /// `load` must run before lookups to rebuild it by replay.
    pub fn open(log: Vec<u8>) -> (s: KvStore)
        ensures
            s.log_view() == log@,
            s.index_view() == Map::<Seq<u8>, int>::empty(),
            log@.len() == 0 ==> s.inv() && s@ == Map::<Seq<u8>, Seq<u8>>::empty(),
    {
        let s = KvStore { log, index: Index::new() };
        proof {
            if s.log@.len() == 0 {
                assert(recover(s.log@) =~= Map::<Seq<u8>, int>::empty());
                assert(s@ =~= Map::<Seq<u8>, Seq<u8>>::empty());
            }
        }
        s
    }

    /// Rebuilds the index by replaying the log from the start. Replay
    /// stops cleanly at the end of the log or at a truncated tail (a
    /// crash mid-append); a truncated tail is then dropped, so that the
    /// log ends at its last complete record and later appends start on
    /// a record boundary. A complete record whose checksum does not
    /// match stops replay with `CorruptRecord` instead.
    #[verifier::loop_isolation(false)]
    pub fn load(&mut self) -> (r: Result<(), KvError>)
        requires
            old(self).index_view() == Map::<Seq<u8>, int>::empty(),
        ensures
            match r {
                Ok(()) => {
                    &&& replay_clean(old(self).log_view())
                    &&& final(self).inv()
                    &&& final(self)@ == recover_view(old(self).log_view())
                    &&& final(self).log_view() == old(self).log_view().subrange(
                        0,
                        scan_end(old(self).log_view(), 0),
                    )
                },
                Err(e) => {
                    &&& e == KvError::CorruptRecord
                    &&& !replay_clean(old(self).log_view())
                    &&& final(self).log_view() == old(self).log_view()
                },
            },
    {
        proof {
            self.index.lemma_empty_wf();
        }
        let ghost orig = self.log@;
        let _len: usize = self.log.len();
        let mut pos: usize = 0;
        loop
            invariant
                pos <= self.log@.len(),
                self.log@ == orig,
                self.index.wf(),
                scan_end(orig, 0) == scan_end(orig, pos as int),
                recover(orig) == self.index@.union_prefer_right(recover_from(orig, pos as int)),
            decreases self.log@.len() - pos,
        {
            match decode_at(&self.log, pos) {
                Ok(kv) => {
                    let ghost k = kv.key@;
                    let ghost rest = recover_from(orig, pos + rec_len(orig, pos as int));
                    proof {
                        assert(rec_ok(orig, pos as int));
                    }
                    let next = pos + 12 + kv.key.len() + kv.value.len();
                    proof {
                        assert(next == pos + rec_len(orig, pos as int));
                        assert(self.index@.union_prefer_right(recover_from(orig, pos as int))
                            =~= self.index@.insert(k, pos as int).union_prefer_right(rest));
                    }
                    self.index.set(kv.key, pos);
                    pos = next;
                },
                Err(e) => {
                    if matches!(e, KvError::CorruptRecord) {
                        proof {
                            assert(frame_fits(orig, pos as int) && !rec_ok(orig, pos as int));
                            assert(scan_end(orig, pos as int) == pos as int);
                            assert(!replay_clean(orig));
                        }
                        return Err(KvError::CorruptRecord);
                    }
                    proof {
                        assert(!frame_fits(orig, pos as int));
                        assert(!rec_ok(orig, pos as int));
                        assert(scan_end(orig, 0) == pos as int);
                        assert(recover_from(orig, pos as int) =~= Map::<Seq<u8>, int>::empty());
                        assert(recover(orig) =~= self.index@);
                    }
                    break ;
                },
            }
        }
        self.log.truncate(pos);
        proof {
            lemma_scan_truncate(orig);
        }
        Ok(())
    }

    /// Looks `key` up: `None` if the index has no entry for it, else
    /// the value of its newest record, read back from the log.
    pub fn get(&self, key: &[u8]) -> (r: Result<Option<Vec<u8>>, KvError>)
        requires
            self.inv(),
        ensures
            match r {
                Ok(Some(v)) => self@.dom().contains(key@) && v@ == self@[key@],
                Ok(None) => !self@.dom().contains(key@),
                Err(_) => false,
            },
    {
        let pos = match self.index.lookup(key) {
            None => {
                return Ok(None);
            },
            Some(p) => p,
        };
        proof {
            lemma_recover_offsets(self.log@, 0);
            assert(recover(self.log@).dom().contains(key@));
            assert(rec_ok(self.log@, pos as int));
        }
        match decode_at(&self.log, pos) {
            Ok(kv) => Ok(Some(kv.value)),
            Err(e) => {
                proof {
                    assert(false);
                }
                Err(e)
            },
        }
    }

    /// Reads and decodes the single record starting at `position`.
    pub fn get_at(&self, position: usize) -> (r: Result<KeyValuePair, KvError>)
        ensures
            match r {
                Ok(kv) => spec_decode(self.log_view(), position as int) == Ok::<
                    (Seq<u8>, Seq<u8>),
                    KvError,
                >((kv.key@, kv.value@)),
                Err(e) => spec_decode(self.log_view(), position as int) == Err::<
                    (Seq<u8>, Seq<u8>),
                    KvError,
                >(e),
            },
    {
        decode_at(&self.log, position)
    }

    /// Appends one framed record for `key` and `value` at the true end
    /// of the log and returns the offset where it starts — what the
    /// index must record for the key — without touching the index.
    pub fn insert_but_ignore_index(&mut self, key: &[u8], value: &[u8]) -> (position: usize)
        requires
            key@.len() < 0x1_0000_0000,
            value@.len() < 0x1_0000_0000,
            old(self).log_view().len() + 12 + key@.len() + value@.len() <= usize::MAX,
        ensures
            position == old(self).log_view().len(),
            final(self).log_view() == old(self).log_view() + spec_frame(key@, value@),
            final(self).index_view() == old(self).index_view(),
            final(self).index_wf() == old(self).index_wf(),
    {
        let position = self.log.len();
        let mut frame = encode(key, value);
        self.log.append(&mut frame);
        position
    }

    /// Appends a record for `key` and `value`, then points the index at
    /// it. The previous record for the key, if any, stays behind in the
    /// log as unreachable garbage, reclaimable only by `compact`.
    pub fn insert(&mut self, key: &[u8], value: &[u8])
        requires
            old(self).inv(),
            key@.len() < 0x1_0000_0000,
            value@.len() < 0x1_0000_0000,
            old(self).log_view().len() + 12 + key@.len() + value@.len() <= usize::MAX,
        ensures
            final(self).inv(),
            final(self)@ == old(self)@.insert(key@, value@),
            final(self).log_view() == old(self).log_view() + spec_frame(key@, value@),
    {
        let position = self.insert_but_ignore_index(key, value);
        let key_owned = own_bytes(key);
        self.index.set(key_owned, position);
        proof {
            lemma_append_frame(old(self).log@, key@, value@);
        }
    }

    /// `insert` under its other name: overwrites by appending afresh.
    pub fn update(&mut self, key: &[u8], value: &[u8])
        requires
            old(self).inv(),
            key@.len() < 0x1_0000_0000,
            value@.len() < 0x1_0000_0000,
            old(self).log_view().len() + 12 + key@.len() + value@.len() <= usize::MAX,
        ensures
            final(self).inv(),
            final(self)@ == old(self)@.insert(key@, value@),
            final(self).log_view() == old(self).log_view() + spec_frame(key@, value@),
    {
        self.insert(key, value)
    }

    /// Deletion by convention: appends a record with an empty value for
    /// the key. The key stays visible, bound to the empty value; the
    /// wire format has no distinct deletion marker.
    pub fn delete(&mut self, key: &[u8])
        requires
            old(self).inv(),
            key@.len() < 0x1_0000_0000,
            old(self).log_view().len() + 12 + key@.len() <= usize::MAX,
        ensures
            final(self).inv(),
            final(self)@ == old(self)@.insert(key@, Seq::<u8>::empty()),
            final(self).log_view() == old(self).log_view() + spec_frame(key@, Seq::<u8>::empty()),
    {
        let empty: Vec<u8> = Vec::new();
        self.insert(key, empty.as_slice())
    }

    /// The log bytes as they stand: what must be persisted. After an
    /// append, the new suffix is what has to reach the log file.
    pub fn log_bytes(&self) -> (r: &Vec<u8>)
        ensures
            r@ == self.log_view(),
    {
        &self.log
    }

    /// How many bytes the log holds.
    pub fn log_len(&self) -> (n: usize)
        ensures
            n == self.log_view().len(),
    {
        self.log.len()
    }

    /// Rewrites the log to hold exactly one freshly framed record per
    /// live key and rebuilds the index to match. The visible contents
    /// do not change; records superseded before compaction are gone,
    /// since afterwards the log holds as many records as live keys,
    /// and the log never grows by being compacted.
    #[verifier::loop_isolation(false)]
    pub fn compact(&mut self)
        requires
            old(self).inv(),
        ensures
            final(self).inv(),
            final(self)@ == old(self)@,
            num_records(final(self).log_view()) == final(self)@.dom().len(),
            final(self).log_view().len() <= old(self).log_view().len(),
    {
        proof {
            lemma_recover_offsets(self.log@, 0);
            lemma_recover_boundaries(self.log@, 0);
            self.index.lemma_denotes();
            self.index.lemma_seq_distinct();
        }
        let ghost sv = self.index.seq_view();
        let ghost offs = sv.map_values(|p: (Seq<u8>, int)| p.1);
        proof {
            assert forall|j: int, j2: int| 0 <= j < j2 < offs.len() implies offs[j]
                != offs[j2] by {
                assert(self.index@.dom().contains(sv[j].0));
                assert(self.index@.dom().contains(sv[j2].0));
                assert(recover(self.log@)[sv[j].0] == sv[j].1);
                assert(recover(self.log@)[sv[j2].0] == sv[j2].1);
            }
            assert forall|j: int| 0 <= j < offs.len() implies is_boundary(
                self.log@,
                0,
                #[trigger] offs[j],
            ) && rec_ok(self.log@, offs[j]) by {
                assert(self.index@.dom().contains(sv[j].0));
                assert(recover(self.log@)[sv[j].0] == sv[j].1);
            }
        }
        let n = self.index.num_entries();
        let mut new_log: Vec<u8> = Vec::new();
        let mut new_index = Index::new();
        let mut i: usize = 0;
        while i < n
            invariant
                i <= n,
                new_index.wf(),
                log_valid(new_log@),
                recover(new_log@) == new_index@,
                num_records(new_log@) == i,
                new_log@.len() == sum_rec_lens(old(self).log_view(), offs.subrange(0, i as int)),
                new_index@.dom().len() == i,
                new_index@.dom().finite(),
                forall|j: int|
                    0 <= j < i ==> #[trigger] new_index@.dom().contains(sv[j].0)
                        && recover_view(new_log@)[sv[j].0] == old(self)@[sv[j].0],
                forall|k: Seq<u8>|
                    new_index@.dom().contains(k) ==> exists|j: int|
                        0 <= j < i && #[trigger] sv[j].0 == k,
            decreases n - i,
        {
            let key = self.index.key_at(i);
            let pos = self.index.pos_at(i);
            proof {
                assert(self.index@.dom().contains(sv[i as int].0));
                assert(recover(self.log@)[key@] == pos as int);
                assert(rec_ok(self.log@, pos as int));
            }
            let kv = match decode_at(&self.log, pos) {
                Ok(kv) => kv,
                Err(_) => {
                    proof {
                        assert(false);
                    }
                    return ;
                },
            };
            let new_pos = new_log.len();
            proof {
                lemma_append_frame(new_log@, kv.key@, kv.value@);
                if new_index@.dom().contains(kv.key@) {
                    let j = choose|j: int| 0 <= j < i && #[trigger] sv[j].0 == kv.key@;
                    assert(sv[j].0 == sv[i as int].0);
                    assert(false);
                }
            }
            let mut frame = encode(kv.key.as_slice(), kv.value.as_slice());
            new_log.append(&mut frame);
            new_index.set(kv.key, new_pos);
            proof {
                assert(offs[i as int] == sv[i as int].1);
                assert(offs.subrange(0, i + 1).drop_last() =~= offs.subrange(0, i as int));
                assert(offs.subrange(0, i + 1).last() == offs[i as int]);
            }
            i = i + 1;
        }
        proof {
            assert(offs.subrange(0, n as int) =~= offs);
            lemma_boundary_lens_bound(old(self).log_view(), 0, offs);
            assert forall|k: Seq<u8>| #[trigger]
                old(self)@.dom().contains(k) implies new_index@.dom().contains(k) by {
                let j = choose|j: int| 0 <= j < sv.len() && #[trigger] sv[j].0 == k;
                assert(new_index@.dom().contains(sv[j].0));
            }
            assert(recover_view(new_log@) =~= old(self)@);
            assert(recover_view(new_log@).dom() =~= new_index@.dom());
        }
        self.log = new_log;
        self.index = new_index;
    }
}

} // verus!
