//! Replay: rebuilding the index by walking the log from its start,
//! record by record. These specifications say where replay stops, which
//! index it builds (later records win), and how appending, truncating
//! and rewriting the log change that index.

use vstd::prelude::*;

use crate::checksum::crc32_of;
use crate::codec::frame_fits;
use crate::codec::header_fits;
use crate::codec::lemma_frame_parses;
use crate::codec::rec_checksum;
use crate::codec::rec_key;
use crate::codec::rec_key_len;
use crate::codec::rec_len;
use crate::codec::rec_ok;
use crate::codec::rec_val;
use crate::codec::rec_val_len;
use crate::codec::spec_frame;

verus! {

/// Replay's stopping point: the first offset, walking record by record
/// from `off`, where no complete, checksum-valid record starts.
pub open spec fn scan_end(log: Seq<u8>, off: int) -> int
    decreases log.len() - off
        when 0 <= off <= log.len()
{
    if !rec_ok(log, off) {
        off
    } else {
        scan_end(log, off + rec_len(log, off))
    }
}

/// The log replays cleanly: replay stops at the end of the log or at a
/// truncated tail, never at a complete record with a bad checksum.
pub open spec fn replay_clean(log: Seq<u8>) -> bool {
    !frame_fits(log, scan_end(log, 0))
}

/// The index that replay builds from `off` on: each valid record binds
/// its key to its own offset, and later records win.
pub open spec fn recover_from(log: Seq<u8>, off: int) -> Map<Seq<u8>, int>
    decreases log.len() - off
        when 0 <= off <= log.len()
{
    if !rec_ok(log, off) {
        Map::empty()
    } else {
        let rest = recover_from(log, off + rec_len(log, off));
        if rest.dom().contains(rec_key(log, off)) {
            rest
        } else {
            rest.insert(rec_key(log, off), off)
        }
    }
}

/// The index replay builds from the start of the log.
pub open spec fn recover(log: Seq<u8>) -> Map<Seq<u8>, int> {
    recover_from(log, 0)
}

/// The visible contents a log denotes: each live key mapped to the
/// value of its newest record.
pub open spec fn recover_view(log: Seq<u8>) -> Map<Seq<u8>, Seq<u8>> {
    Map::new(
        |k: Seq<u8>| recover(log).dom().contains(k),
        |k: Seq<u8>| rec_val(log, recover(log)[k]),
    )
}

/// Every byte from `off` on belongs to a complete, checksum-valid
/// record: replay consumes the rest of the log exactly.
pub open spec fn log_valid_from(log: Seq<u8>, off: int) -> bool
    decreases log.len() - off
        when 0 <= off <= log.len()
{
    if off == log.len() {
        true
    } else if !rec_ok(log, off) {
        false
    } else {
        log_valid_from(log, off + rec_len(log, off))
    }
}

/// Every byte of the log belongs to a complete, checksum-valid record.
pub open spec fn log_valid(log: Seq<u8>) -> bool {
    log_valid_from(log, 0)
}

/// How many records replay sees from `off`.
pub open spec fn num_records_from(log: Seq<u8>, off: int) -> nat
    decreases log.len() - off
        when 0 <= off <= log.len()
{
    if !rec_ok(log, off) {
        0
    } else {
        1 + num_records_from(log, off + rec_len(log, off))
    }
}

/// How many records replay sees in the whole log.
pub open spec fn num_records(log: Seq<u8>) -> nat {
    num_records_from(log, 0)
}

/// Replay never stops before `off`, nor past the end of the log.
pub proof fn lemma_scan_end_bounds(log: Seq<u8>, off: int)
    requires
        0 <= off <= log.len(),
    ensures
        off <= scan_end(log, off) <= log.len(),
    decreases log.len() - off,
{
    if rec_ok(log, off) {
        lemma_scan_end_bounds(log, off + rec_len(log, off));
    }
}

/// On a fully valid log tail, replay stops exactly at the end of the
/// log, and stops there cleanly.
pub proof fn lemma_valid_scan_end(log: Seq<u8>, off: int)
    requires
        0 <= off <= log.len(),
        log_valid_from(log, off),
    ensures
        scan_end(log, off) == log.len(),
    decreases log.len() - off,
{
    if off < log.len() {
        lemma_valid_scan_end(log, off + rec_len(log, off));
    }
}

/// A fully valid log replays cleanly.
pub proof fn lemma_valid_replay_clean(log: Seq<u8>)
    requires
        log_valid(log),
    ensures
        replay_clean(log),
        scan_end(log, 0) == log.len(),
{
    lemma_valid_scan_end(log, 0);
}

/// Parsing a record is local to its bytes: extending the log beyond a
/// complete record leaves all of that record's fields unchanged.
pub proof fn lemma_parse_extend(log: Seq<u8>, ext: Seq<u8>, off: int)
    requires
        frame_fits(log, off),
    ensures
        rec_checksum(log + ext, off) == rec_checksum(log, off),
        rec_key_len(log + ext, off) == rec_key_len(log, off),
        rec_val_len(log + ext, off) == rec_val_len(log, off),
        rec_len(log + ext, off) == rec_len(log, off),
        frame_fits(log + ext, off),
        rec_key(log + ext, off) == rec_key(log, off),
        rec_val(log + ext, off) == rec_val(log, off),
        rec_ok(log + ext, off) == rec_ok(log, off),
{
    let l2 = log + ext;
    assert(l2.subrange(off, off + 4) =~= log.subrange(off, off + 4));
    assert(l2.subrange(off + 4, off + 8) =~= log.subrange(off + 4, off + 8));
    assert(l2.subrange(off + 8, off + 12) =~= log.subrange(off + 8, off + 12));
    assert(l2.subrange(off + 12, off + 12 + rec_key_len(log, off)) =~= log.subrange(
        off + 12,
        off + 12 + rec_key_len(log, off),
    ));
    assert(l2.subrange(off + 12 + rec_key_len(log, off), off + rec_len(log, off)) =~= log.subrange(
        off + 12 + rec_key_len(log, off),
        off + rec_len(log, off),
    ));
}

/// Parsing is local: a record lying wholly inside a prefix of the log
/// parses the same in the prefix as in the full log.
pub proof fn lemma_parse_prefix(log: Seq<u8>, t: int, off: int)
    requires
        frame_fits(log, off),
        off + rec_len(log, off) <= t <= log.len(),
    ensures
        frame_fits(log.subrange(0, t), off),
        rec_len(log.subrange(0, t), off) == rec_len(log, off),
        rec_key(log.subrange(0, t), off) == rec_key(log, off),
        rec_val(log.subrange(0, t), off) == rec_val(log, off),
        rec_ok(log.subrange(0, t), off) == rec_ok(log, off),
{
    let p = log.subrange(0, t);
    assert(p.subrange(off, off + 4) =~= log.subrange(off, off + 4));
    assert(p.subrange(off + 4, off + 8) =~= log.subrange(off + 4, off + 8));
    assert(p.subrange(off + 8, off + 12) =~= log.subrange(off + 8, off + 12));
    assert(p.subrange(off + 12, off + 12 + rec_key_len(log, off)) =~= log.subrange(
        off + 12,
        off + 12 + rec_key_len(log, off),
    ));
    assert(p.subrange(off + 12 + rec_key_len(log, off), off + rec_len(log, off)) =~= log.subrange(
        off + 12 + rec_key_len(log, off),
        off + rec_len(log, off),
    ));
}

/// A record framed and appended at the end of the log parses there,
/// and occupies exactly the rest of the extended log.
pub proof fn lemma_frame_at_end(log: Seq<u8>, key: Seq<u8>, value: Seq<u8>)
    requires
        key.len() < 0x1_0000_0000,
        value.len() < 0x1_0000_0000,
    ensures
        rec_ok(log + spec_frame(key, value), log.len() as int),
        rec_len(log + spec_frame(key, value), log.len() as int) == 12 + key.len() + value.len(),
        log.len() + rec_len(log + spec_frame(key, value), log.len() as int) == (log
            + spec_frame(key, value)).len(),
        rec_key(log + spec_frame(key, value), log.len() as int) == key,
        rec_val(log + spec_frame(key, value), log.len() as int) == value,
{
    let f = spec_frame(key, value);
    let l2 = log + f;
    let off = log.len() as int;
    lemma_frame_parses(key, value);
    assert(l2.subrange(off, off + 4) =~= f.subrange(0, 4));
    assert(l2.subrange(off + 4, off + 8) =~= f.subrange(4, 8));
    assert(l2.subrange(off + 8, off + 12) =~= f.subrange(8, 12));
    assert(l2.subrange(off + 12, off + 12 + rec_key_len(f, 0)) =~= f.subrange(
        12,
        12 + rec_key_len(f, 0),
    ));
    assert(l2.subrange(off + 12 + rec_key_len(f, 0), off + rec_len(f, 0)) =~= f.subrange(
        12 + rec_key_len(f, 0),
        rec_len(f, 0),
    ));
}

/// Every offset the replay index binds points at a checksum-valid
/// record bearing that key, at or after the replay start.
pub proof fn lemma_recover_offsets(log: Seq<u8>, off: int)
    requires
        0 <= off <= log.len(),
    ensures
        forall|k: Seq<u8>| #[trigger]
            recover_from(log, off).dom().contains(k) ==> off <= recover_from(log, off)[k]
                && rec_ok(log, recover_from(log, off)[k]) && rec_key(
                log,
                recover_from(log, off)[k],
            ) == k,
    decreases log.len() - off,
{
    if rec_ok(log, off) {
        let off2 = off + rec_len(log, off);
        lemma_recover_offsets(log, off2);
        let m = recover_from(log, off);
        let rest = recover_from(log, off2);
        assert forall|k: Seq<u8>| #[trigger] m.dom().contains(k) implies off <= m[k] && rec_ok(
            log,
            m[k],
        ) && rec_key(log, m[k]) == k by {
            if rest.dom().contains(k) {
                assert(m[k] == rest[k]);
            } else {
                assert(k == rec_key(log, off) && m[k] == off);
            }
        }
    }
}

/// Appending one freshly framed record to a fully valid log tail keeps
/// it fully valid, re-binds exactly that record's key to the old log
/// length, and adds one record.
pub proof fn lemma_append_frame_from(log: Seq<u8>, key: Seq<u8>, value: Seq<u8>, off: int)
    requires
        key.len() < 0x1_0000_0000,
        value.len() < 0x1_0000_0000,
        0 <= off <= log.len(),
        log_valid_from(log, off),
    ensures
        log_valid_from(log + spec_frame(key, value), off),
        recover_from(log + spec_frame(key, value), off) == recover_from(log, off).insert(
            key,
            log.len() as int,
        ),
        num_records_from(log + spec_frame(key, value), off) == num_records_from(log, off) + 1,
    decreases log.len() - off,
{
    let f = spec_frame(key, value);
    let l2 = log + f;
    let fl = log.len() as int;
    lemma_frame_parses(key, value);
    lemma_frame_at_end(log, key, value);
    if off == fl {
        assert(!rec_ok(log, off));
        assert(!rec_ok(l2, l2.len() as int));
        assert(log_valid_from(l2, l2.len() as int));
        assert(recover_from(l2, l2.len() as int) == Map::<Seq<u8>, int>::empty());
        assert(num_records_from(l2, l2.len() as int) == 0);
        assert(log_valid_from(l2, off));
        assert(recover_from(l2, off) =~= recover_from(log, off).insert(key, fl));
    } else {
        assert(rec_ok(log, off));
        lemma_parse_extend(log, f, off);
        let off2 = off + rec_len(log, off);
        lemma_append_frame_from(log, key, value, off2);
        let k0 = rec_key(log, off);
        let rest = recover_from(log, off2);
        let rest2 = recover_from(l2, off2);
        assert(rest2 == rest.insert(key, fl));
        if k0 == key {
            if rest.dom().contains(k0) {
                assert(recover_from(l2, off) =~= recover_from(log, off).insert(key, fl));
            } else {
                assert(rest.insert(k0, off).insert(key, fl) =~= rest.insert(key, fl));
                assert(recover_from(l2, off) =~= recover_from(log, off).insert(key, fl));
            }
        } else {
            if rest.dom().contains(k0) {
                assert(recover_from(l2, off) =~= recover_from(log, off).insert(key, fl));
            } else {
                assert(rest.insert(key, fl).insert(k0, off) =~= rest.insert(k0, off).insert(
                    key,
                    fl,
                ));
                assert(recover_from(l2, off) =~= recover_from(log, off).insert(key, fl));
            }
        }
    }
}

/// `lemma_append_frame_from` at the start of the log, together with the
/// effect on the visible contents: appending a record for `key` updates
/// exactly that key's value.
pub proof fn lemma_append_frame(log: Seq<u8>, key: Seq<u8>, value: Seq<u8>)
    requires
        key.len() < 0x1_0000_0000,
        value.len() < 0x1_0000_0000,
        log_valid(log),
    ensures
        log_valid(log + spec_frame(key, value)),
        recover(log + spec_frame(key, value)) == recover(log).insert(key, log.len() as int),
        recover_view(log + spec_frame(key, value)) == recover_view(log).insert(key, value),
        num_records(log + spec_frame(key, value)) == num_records(log) + 1,
{
    let f = spec_frame(key, value);
    let l2 = log + f;
    lemma_append_frame_from(log, key, value, 0);
    lemma_frame_at_end(log, key, value);
    lemma_recover_offsets(log, 0);
    assert forall|k: Seq<u8>| #[trigger]
        recover(log).dom().contains(k) && k != key implies rec_val(l2, recover(l2)[k]) == rec_val(
        log,
        recover(log)[k],
    ) by {
        lemma_parse_extend(log, f, recover(log)[k]);
    }
    assert(recover_view(l2) =~= recover_view(log).insert(key, value));
}

/// `o` is one of the record boundaries replay walks through from `off`.
pub open spec fn is_boundary(log: Seq<u8>, off: int, o: int) -> bool
    decreases log.len() - off
        when 0 <= off <= log.len()
{
    o == off || (rec_ok(log, off) && is_boundary(log, off + rec_len(log, off), o))
}

/// Every offset replay binds is such a boundary.
pub proof fn lemma_recover_boundaries(log: Seq<u8>, off: int)
    requires
        0 <= off <= log.len(),
    ensures
        forall|k: Seq<u8>| #[trigger]
            recover_from(log, off).dom().contains(k) ==> is_boundary(
                log,
                off,
                recover_from(log, off)[k],
            ),
    decreases log.len() - off,
{
    if rec_ok(log, off) {
        let off2 = off + rec_len(log, off);
        lemma_recover_boundaries(log, off2);
        let m = recover_from(log, off);
        let rest = recover_from(log, off2);
        assert forall|k: Seq<u8>| #[trigger] m.dom().contains(k) implies is_boundary(
            log,
            off,
            m[k],
        ) by {
            if rest.dom().contains(k) {
                assert(m[k] == rest[k]);
                assert(is_boundary(log, off2, rest[k]));
            } else {
                assert(m[k] == off);
            }
        }
    }
}

/// The sum of the record lengths at the given offsets.
pub open spec fn sum_rec_lens(log: Seq<u8>, offs: Seq<int>) -> int
    decreases offs.len(),
{
    if offs.len() == 0 {
        0
    } else {
        sum_rec_lens(log, offs.drop_last()) + rec_len(log, offs.last())
    }
}

/// Taking one offset out takes exactly its record's length out of the sum.
proof fn lemma_sum_remove(log: Seq<u8>, offs: Seq<int>, i: int)
    requires
        0 <= i < offs.len(),
    ensures
        sum_rec_lens(log, offs.remove(i)) == sum_rec_lens(log, offs) - rec_len(log, offs[i]),
    decreases offs.len(),
{
    if i == offs.len() - 1 {
        assert(offs.remove(i) =~= offs.drop_last());
    } else {
        assert(offs.remove(i).drop_last() =~= offs.drop_last().remove(i));
        assert(offs.remove(i).last() == offs.last());
        lemma_sum_remove(log, offs.drop_last(), i);
    }
}

/// Distinct record boundaries carry disjoint records, so their lengths
/// sum to at most the log bytes that remain past the walk's start.
pub proof fn lemma_boundary_lens_bound(log: Seq<u8>, off: int, offs: Seq<int>)
    requires
        0 <= off <= log.len(),
        forall|j: int| 0 <= j < offs.len() ==> is_boundary(log, off, #[trigger] offs[j]),
        forall|j: int| 0 <= j < offs.len() ==> rec_ok(log, #[trigger] offs[j]),
        forall|j: int, j2: int| 0 <= j < j2 < offs.len() ==> offs[j] != offs[j2],
    ensures
        sum_rec_lens(log, offs) <= log.len() - off,
    decreases log.len() - off,
{
    if offs.len() > 0 {
        if !rec_ok(log, off) {
            assert(offs[0] == off);
            assert(false);
        } else {
            let off2 = off + rec_len(log, off);
            if exists|j: int| 0 <= j < offs.len() && offs[j] == off {
                let j = choose|j: int| 0 <= j < offs.len() && offs[j] == off;
                let rest = offs.remove(j);
                lemma_sum_remove(log, offs, j);
                assert forall|m: int| 0 <= m < rest.len() implies is_boundary(
                    log,
                    off2,
                    #[trigger] rest[m],
                ) && rec_ok(log, rest[m]) by {
                    if m < j {
                        assert(rest[m] == offs[m]);
                        assert(offs[m] != offs[j]);
                    } else {
                        assert(rest[m] == offs[m + 1]);
                        assert(offs[m + 1] != offs[j]);
                    }
                }
                assert forall|m: int, m2: int| 0 <= m < m2 < rest.len() implies rest[m]
                    != rest[m2] by {
                    if m < j {
                        assert(rest[m] == offs[m]);
                    } else {
                        assert(rest[m] == offs[m + 1]);
                    }
                    if m2 < j {
                        assert(rest[m2] == offs[m2]);
                    } else {
                        assert(rest[m2] == offs[m2 + 1]);
                    }
                }
                lemma_boundary_lens_bound(log, off2, rest);
            } else {
                assert forall|j: int| 0 <= j < offs.len() implies is_boundary(
                    log,
                    off2,
                    #[trigger] offs[j],
                ) by {
                    assert(offs[j] != off);
                }
                lemma_boundary_lens_bound(log, off2, offs);
            }
        }
    }
}

/// Truncating the log at replay's stopping point preserves everything
/// replay sees: the prefix replays to the same index and the same
/// visible contents, and every byte of the prefix belongs to a record.
pub proof fn lemma_scan_truncate(log: Seq<u8>)
    ensures
        0 <= scan_end(log, 0) <= log.len(),
        log_valid(log.subrange(0, scan_end(log, 0))),
        recover(log.subrange(0, scan_end(log, 0))) == recover(log),
        recover_view(log.subrange(0, scan_end(log, 0))) == recover_view(log),
        num_records(log.subrange(0, scan_end(log, 0))) == num_records(log),
{
    let t = scan_end(log, 0);
    lemma_scan_end_bounds(log, 0);
    lemma_truncate_from(log, 0, t);
    let p = log.subrange(0, t);
    lemma_recover_offsets(log, 0);
    lemma_recover_offsets(p, 0);
    assert forall|k: Seq<u8>| #[trigger]
        recover(log).dom().contains(k) implies rec_val(p, recover(p)[k]) == rec_val(
        log,
        recover(log)[k],
    ) by {
        lemma_rec_inside_scan(log, 0, k);
        lemma_parse_prefix(log, t, recover(log)[k]);
    }
    assert(recover_view(p) =~= recover_view(log));
}

/// A record bound by replay lies wholly before replay's stopping point.
proof fn lemma_rec_inside_scan(log: Seq<u8>, off: int, k: Seq<u8>)
    requires
        0 <= off <= log.len(),
        recover_from(log, off).dom().contains(k),
    ensures
        recover_from(log, off)[k] + rec_len(log, recover_from(log, off)[k]) <= scan_end(log, off),
    decreases log.len() - off,
{
    assert(rec_ok(log, off));
    let off2 = off + rec_len(log, off);
    let rest = recover_from(log, off2);
    lemma_scan_end_bounds(log, off2);
    if rest.dom().contains(k) {
        lemma_rec_inside_scan(log, off2, k);
    } else {
        assert(recover_from(log, off)[k] == off);
    }
}

/// Replay of a prefix cut at replay's stopping point sees record for
/// record what replay of the whole log sees.
proof fn lemma_truncate_from(log: Seq<u8>, off: int, t: int)
    requires
        0 <= off <= t <= log.len(),
        scan_end(log, off) == t,
    ensures
        log_valid_from(log.subrange(0, t), off),
        recover_from(log.subrange(0, t), off) == recover_from(log, off),
        num_records_from(log.subrange(0, t), off) == num_records_from(log, off),
    decreases log.len() - off,
{
    let p = log.subrange(0, t);
    if off == t {
        if rec_ok(log, off) {
            lemma_scan_end_bounds(log, off + rec_len(log, off));
        }
        assert(!rec_ok(log, off));
        assert(!header_fits(p, off));
        assert(!rec_ok(p, off));
    } else {
        assert(rec_ok(log, off));
        let off2 = off + rec_len(log, off);
        lemma_scan_end_bounds(log, off2);
        lemma_parse_prefix(log, t, off);
        lemma_truncate_from(log, off2, t);
    }
}

} // verus!
