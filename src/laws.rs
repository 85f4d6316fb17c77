//! Laws of the store, stated over the model of its log files.
//!
//! A store's `logs()` are the files on disk; `set` and `remove` append one
//! record to the last of them, and `open` replays them and adds a new empty
//! file. What a lookup of a key answers is `lookup_in(logs, k)`: the value in
//! the record that the replayed key directory points to.
use vstd::prelude::*;

use crate::codec::{
    all_records, decimal, entries_from, frame_of, is_digit, lemma_decimal, lemma_digits_end_at,
    lemma_entries_append, parse_frame, payload_of, record_of, shift_entries, Entry, Op,
};
use crate::engine::{
    appended, lemma_lookup_replay, lemma_replay_append, lemma_store_dir, logs_ordered,
    next_generation, record_value, replay, slice_at, KvStore, LogFile,
};

verus! {

/// Logs that a store can stand on: ordered generations, and an active file
/// that is a whole number of records.
pub open spec fn valid_logs(logs: Seq<LogFile>) -> bool {
    &&& logs.len() >= 1
    &&& logs_ordered(logs)
    &&& all_records(logs.last().1)
}

/// What a lookup of `k` answers over `logs`.
pub open spec fn lookup_in(logs: Seq<LogFile>, k: Seq<char>) -> Option<Seq<char>> {
    if replay(logs).dir.contains_key(k) {
        record_value(k, slice_at(logs, replay(logs).dir[k]))
    } else {
        None
    }
}

/// The logs as a fresh `open` leaves them: a new empty active file follows.
pub open spec fn reopened(logs: Seq<LogFile>) -> Seq<LogFile> {
    logs.push((next_generation(logs) as u32, Seq::<u8>::empty()))
}

/// The value that the last write of `op` leaves for `k`, over what was there.
pub open spec fn after_write(op: Op, k: Seq<char>, before: Option<Seq<char>>) -> Option<Seq<char>> {
    match op {
        Op::Put(k2, v) => if k2 == k {
            Some(v)
        } else {
            before
        },
        Op::Rm(k2) => if k2 == k {
            None
        } else {
            before
        },
        Op::Get(_) => before,
    }
}

/// A lookup answers what the replayed store holds.
proof fn lemma_lookup_in(logs: Seq<LogFile>, k: Seq<char>)
    requires
        logs_ordered(logs),
    ensures
        lookup_in(logs, k) == (if replay(logs).vals.contains_key(k) {
            Some(replay(logs).vals[k])
        } else {
            None
        }),
{
    lemma_lookup_replay(logs, k);
}

proof fn lemma_appended_valid(logs: Seq<LogFile>, op: Op)
    requires
        valid_logs(logs),
        logs.last().1.len() + record_of(op).len() <= u64::MAX,
    ensures
        valid_logs(appended(logs, record_of(op))),
{
    lemma_replay_append(logs, op);
    let l2 = appended(logs, record_of(op));
    assert forall|a: int| 0 <= a < l2.len() implies #[trigger] l2[a].1.len() <= u64::MAX by {
        if a < l2.len() - 1 {
            assert(l2[a] == logs[a]);
        }
    }
}

/// Every lookup after a write answers what the last write of each key left:
/// a `Put` of `k` gives its value, an `Rm` of `k` gives nothing, and every
/// other key keeps its answer.
pub proof fn law_last_write_wins(logs: Seq<LogFile>, op: Op, k: Seq<char>)
    requires
        valid_logs(logs),
        logs.last().1.len() + record_of(op).len() <= u64::MAX,
    ensures
        lookup_in(appended(logs, record_of(op)), k) == after_write(op, k, lookup_in(logs, k)),
{
    lemma_appended_valid(logs, op);
    lemma_replay_append(logs, op);
    lemma_lookup_in(logs, k);
    lemma_lookup_in(appended(logs, record_of(op)), k);
}

/// Setting `k` to `v` and then reading `k` gives `v`.
pub proof fn law_get_after_set(logs: Seq<LogFile>, k: Seq<char>, v: Seq<char>)
    requires
        valid_logs(logs),
        logs.last().1.len() + record_of(Op::Put(k, v)).len() <= u64::MAX,
    ensures
        lookup_in(appended(logs, record_of(Op::Put(k, v))), k) == Some(v),
{
    law_last_write_wins(logs, Op::Put(k, v), k);
}

/// Setting `k` to `v1`, then to `v2`, and then reading `k` gives `v2`.
pub proof fn law_second_set_wins(logs: Seq<LogFile>, k: Seq<char>, v1: Seq<char>, v2: Seq<char>)
    requires
        valid_logs(logs),
        logs.last().1.len() + record_of(Op::Put(k, v1)).len() + record_of(Op::Put(k, v2)).len()
            <= u64::MAX,
    ensures
        lookup_in(
            appended(appended(logs, record_of(Op::Put(k, v1))), record_of(Op::Put(k, v2))),
            k,
        ) == Some(v2),
{
    lemma_appended_valid(logs, Op::Put(k, v1));
    law_get_after_set(appended(logs, record_of(Op::Put(k, v1))), k, v2);
}

/// Setting `k` and then removing it leaves nothing to read for `k`.
pub proof fn law_get_after_remove(logs: Seq<LogFile>, k: Seq<char>, v: Seq<char>)
    requires
        valid_logs(logs),
        logs.last().1.len() + record_of(Op::Put(k, v)).len() + record_of(Op::Rm(k)).len()
            <= u64::MAX,
    ensures
        lookup_in(appended(appended(logs, record_of(Op::Put(k, v))), record_of(Op::Rm(k))), k)
            == None::<Seq<char>>,
{
    lemma_appended_valid(logs, Op::Put(k, v));
    law_last_write_wins(appended(logs, record_of(Op::Put(k, v))), Op::Rm(k), k);
}

/// Opening the log files again answers every lookup as before.
pub proof fn law_reopen(logs: Seq<LogFile>, k: Seq<char>)
    requires
        logs_ordered(logs),
        next_generation(logs) <= u32::MAX,
    ensures
        lookup_in(reopened(logs), k) == lookup_in(logs, k),
{
    let l2 = reopened(logs);
    assert(l2.drop_last() =~= logs);
    assert(entries_from(Seq::<u8>::empty(), 0) =~= Seq::<Entry>::empty());
    assert(replay(l2) == replay(logs));
    assert(logs_ordered(l2)) by {
        assert forall|a: int, b: int| 0 <= a < b < l2.len() implies l2[a].0 < l2[b].0 by {
            if b == logs.len() {
                assert(logs[a].0 <= logs[logs.len() - 1].0);
            }
        }
        assert forall|a: int| 0 <= a < l2.len() implies #[trigger] l2[a].1.len() <= u64::MAX by {
            if a < logs.len() {
                assert(l2[a] == logs[a]);
            }
        }
    }
    lemma_lookup_in(logs, k);
    lemma_lookup_in(l2, k);
}

/// No frame can be read from a strict prefix of a frame.
proof fn lemma_torn_frame(p: Seq<u8>, m: int)
    requires
        0 < m < frame_of(p).len(),
    ensures
        parse_frame(frame_of(p).take(m)) is None,
{
    let f = frame_of(p);
    let t = f.take(m);
    let d = decimal(p.len());
    lemma_decimal(p.len());
    if m <= d.len() {
        assert forall|x: int| 0 <= x < m implies is_digit(#[trigger] t[x]) by {
            assert(t[x] == d[x]);
        }
        lemma_digits_end_at(t, 0, m);
    } else {
        assert forall|x: int| 0 <= x < d.len() implies is_digit(#[trigger] t[x]) by {
            assert(t[x] == d[x]);
        }
        assert(t[d.len() as int] == 10u8);
        lemma_digits_end_at(t, 0, d.len() as int);
        assert(t.subrange(0, d.len() as int) =~= d);
    }
}

/// A record that a crash cut short leaves the store, once reopened, either
/// as it was before the write or as the whole write leaves it.
pub proof fn law_torn_write(logs: Seq<LogFile>, op: Op, m: int, k: Seq<char>)
    requires
        valid_logs(logs),
        0 <= m <= record_of(op).len(),
        logs.last().1.len() + record_of(op).len() <= u64::MAX,
        logs.last().0 < u32::MAX,
    ensures
        ({
            let torn = reopened(appended(logs, record_of(op).take(m)));
            lookup_in(torn, k) == lookup_in(logs, k) || lookup_in(torn, k) == lookup_in(
                appended(logs, record_of(op)),
                k,
            )
        }),
{
    let rec = record_of(op);
    let t = rec.take(m);
    let l1 = appended(logs, t);
    let f = logs.last().1;
    assert(l1.last().0 == logs.last().0);
    assert(logs_ordered(l1)) by {
        assert forall|a: int, b: int| 0 <= a < b < l1.len() implies l1[a].0 < l1[b].0 by {}
        assert forall|a: int| 0 <= a < l1.len() implies #[trigger] l1[a].1.len() <= u64::MAX by {
            if a < l1.len() - 1 {
                assert(l1[a] == logs[a]);
            }
        }
    }
    law_reopen(l1, k);
    if m == rec.len() {
        assert(t =~= rec);
    } else {
        if m == 0 {
            assert(f + t =~= f);
        } else {
            lemma_torn_frame(payload_of(op), m);
            assert(t.subrange(0, t.len() as int) =~= t);
            assert(parse_frame(t.subrange(0, t.len() as int)) is None);
            assert(entries_from(t, 0) =~= Seq::<Entry>::empty());
        }
        lemma_entries_append(f, t, 0);
        assert(shift_entries(entries_from(t, 0), f.len() as int) =~= Seq::<Entry>::empty());
        assert(entries_from(f + t, 0) =~= entries_from(f, 0));
        assert(l1.drop_last() =~= logs.drop_last());
        assert(replay(l1) == replay(logs));
        lemma_lookup_in(logs, k);
        lemma_lookup_in(l1, k);
    }
}

/// A lookup on a well-formed store answers through the replay of its logs.
pub proof fn law_store_lookup(s: &KvStore, k: Seq<char>)
    requires
        s.wf(),
    ensures
        s.lookup(k) == lookup_in(s.logs(), k),
        valid_logs(s.logs()),
{
    lemma_store_dir(s);
}

} // verus!
