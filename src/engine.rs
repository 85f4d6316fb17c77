//! The log-structured store.
//!
//! The store is a set of append-only log files, each named by a generation
//! number, and a key directory that maps each live key to the position of
//! the record that holds its value. The files themselves are read and
//! written by the caller: the store says which bytes to append, which
//! ranges to copy, and which generations to drop, and keeps a model of the
//! files' contents (`logs`) that its contracts speak of.
//!
//! The central invariant is that the key directory and the count of stale
//! bytes are exactly what replaying the log files from scratch produces.
use dashmap::DashMap;
use vstd::prelude::*;

use crate::codec::{
    all_records, copy_range, decode_payload, entry_holds, lemma_entries_facts, deserialize, entries_end, entries_from, lemma_entries_append, lemma_one_record, lemma_record_entries, record_of, serialize, shift_entries, frame_payload, lemma_parse_number_bounds,
    parse_payload, Decoded, Entry, Op, RecordParser, Request,
};
use crate::error::KvsError;
use crate::server::TxMessage;
use crate::keydir::{dir_contents, dir_entries, dir_get, dir_insert, dir_new, dir_remove};

verus! {

/// The default number of stale bytes above which compaction is due.
pub const COMPACTION_THRESHOLD: u64 = 1048576;

/// A key/value engine that many threads share through clones of one
/// handle.
pub trait KvsEngine: Clone + Send + 'static {
    /// Sets `key` to `value`.
    fn set(&self, key: String, value: String) -> Result<(), KvsError>;

    /// The value of `key`, if it is live.
    fn get(&self, key: String) -> Result<Option<String>, KvsError>;

    /// Removes `key`; `KeyNotFound` when it is not live.
    fn remove(&self, key: String) -> Result<(), KvsError>;
}

/// Where a record lies: its generation, its first byte, its length.
#[derive(Debug, Clone, Copy, PartialEq, Eq)]
pub struct CommandPos {
    pub log_idx: u32,
    pub starting_pos: u64,
    pub len: u64,
}

/// A log file: its generation and its bytes.
pub type LogFile = (u32, Seq<u8>);

/// What replaying logs produces: the position and value of each live key,
/// and the count of stale bytes.
pub struct Index {
    pub dir: Map<Seq<char>, CommandPos>,
    pub vals: Map<Seq<char>, Seq<char>>,
    pub uncompacted: u64,
}

pub open spec fn sat_add(a: u64, b: u64) -> u64 {
    if a + b > u64::MAX {
        u64::MAX
    } else {
        (a + b) as u64
    }
}

pub open spec fn empty_index() -> Index {
    Index { dir: Map::empty(), vals: Map::empty(), uncompacted: 0 }
}

/// The stale bytes that a record of `k` leaves behind when it is replaced.
pub open spec fn superseded(ix: Index, k: Seq<char>) -> u64 {
    if ix.dir.contains_key(k) {
        sat_add(ix.uncompacted, ix.dir[k].len)
    } else {
        ix.uncompacted
    }
}

/// The position of an entry of generation `g`.
pub open spec fn pos_of(g: u32, e: Entry) -> CommandPos {
    CommandPos { log_idx: g, starting_pos: e.start as u64, len: e.len as u64 }
}

/// Replays one record of generation `g`.
pub open spec fn apply_entry(ix: Index, g: u32, e: Entry) -> Index {
    match e.op {
        Op::Put(k, v) => Index {
            dir: ix.dir.insert(k, pos_of(g, e)),
            vals: ix.vals.insert(k, v),
            uncompacted: superseded(ix, k),
        },
        Op::Rm(k) => Index {
            dir: ix.dir.remove(k),
            vals: ix.vals.remove(k),
            uncompacted: sat_add(superseded(ix, k), e.len as u64),
        },
        Op::Get(_) => ix,
    }
}

/// Replays records of generation `g`, in order.
pub open spec fn apply_entries(ix: Index, g: u32, es: Seq<Entry>) -> Index
    decreases es.len(),
{
    if es.len() == 0 {
        ix
    } else {
        apply_entry(apply_entries(ix, g, es.drop_last()), g, es.last())
    }
}

/// Replays log files, oldest first; each file up to the first place where
/// no record can be read.
pub open spec fn replay(logs: Seq<LogFile>) -> Index
    decreases logs.len(),
{
    if logs.len() == 0 {
        empty_index()
    } else {
        apply_entries(replay(logs.drop_last()), logs.last().0, entries_from(logs.last().1, 0))
    }
}

/// The generations strictly increase, and every file fits a `u64` offset.
pub open spec fn logs_ordered(logs: Seq<LogFile>) -> bool {
    &&& forall|i: int, j: int| 0 <= i < j < logs.len() ==> logs[i].0 < logs[j].0
    &&& forall|i: int| 0 <= i < logs.len() ==> #[trigger] logs[i].1.len() <= u64::MAX
}

/// The bytes of the file of generation `g`.
pub open spec fn file_of(logs: Seq<LogFile>, g: u32) -> Seq<u8> {
    logs[choose|i: int| 0 <= i < logs.len() && logs[i].0 == g].1
}

/// The bytes at a position.
pub open spec fn slice_at(logs: Seq<LogFile>, pos: CommandPos) -> Seq<u8> {
    file_of(logs, pos.log_idx).subrange(
        pos.starting_pos as int,
        pos.starting_pos + pos.len,
    )
}

/// The value that a record gives `k`: `Some` when the bytes are one record
/// that sets `k`.
pub open spec fn record_value(k: Seq<char>, b: Seq<u8>) -> Option<Seq<char>> {
    match frame_payload(b) {
        Some(p) => match parse_payload(p) {
            Decoded::Req(Op::Put(k2, v)) => if k2 == k {
                Some(v)
            } else {
                None
            },
            _ => None,
        },
        None => None,
    }
}

/// The bytes are one record that decodes to a request.
pub open spec fn record_decodes(b: Seq<u8>) -> bool {
    frame_payload(b) matches Some(p) && parse_payload(p) is Req
}

/// The view of the files handed to `open`.
pub open spec fn files_view(files: Seq<(u32, Vec<u8>)>) -> Seq<LogFile> {
    files.map_values(|f: (u32, Vec<u8>)| (f.0, f.1@))
}

/// The store: its key directory, the generation and length of the active
/// file, the count of stale bytes, and the threshold of compaction.
pub struct KvStore {
    key_dir: DashMap<String, CommandPos>,
    log_idx: u32,
    writer_pos: u64,
    uncompacted: u64,
    threshold: u64,
    logs: Ghost<Seq<LogFile>>,
}

impl KvStore {
    /// The log files, oldest first; the last is the active one.
    pub closed spec fn logs(&self) -> Seq<LogFile> {
        self.logs@
    }

    /// The key directory.
    pub closed spec fn dir(&self) -> Map<Seq<char>, CommandPos> {
        dir_contents(self.key_dir)
    }

    pub closed spec fn spec_log_idx(&self) -> u32 {
        self.log_idx
    }

    pub closed spec fn spec_uncompacted(&self) -> u64 {
        self.uncompacted
    }

    pub closed spec fn spec_threshold(&self) -> u64 {
        self.threshold
    }

    /// What the store holds: each live key with its value.
    pub open spec fn contents(&self) -> Map<Seq<char>, Seq<char>> {
        replay(self.logs()).vals
    }

    /// What a lookup of `k` answers: the value in the record at the key's
    /// position, read from the log files.
    pub open spec fn lookup(&self, k: Seq<char>) -> Option<Seq<char>> {
        if self.dir().contains_key(k) {
            record_value(k, slice_at(self.logs(), self.dir()[k]))
        } else {
            None
        }
    }

    pub closed spec fn wf(&self) -> bool {
        let logs = self.logs@;
        &&& logs.len() >= 1
        &&& logs_ordered(logs)
        &&& logs.last().0 == self.log_idx
        &&& logs.last().1.len() == self.writer_pos
        &&& all_records(logs.last().1)
        &&& dir_contents(self.key_dir) == replay(logs).dir
        &&& self.uncompacted == replay(logs).uncompacted
    }
}

/// The generations strictly increase.
pub open spec fn gens_increasing(logs: Seq<LogFile>) -> bool {
    forall|i: int, j: int| 0 <= i < j < logs.len() ==> logs[i].0 < logs[j].0
}

/// The generation of the active file that opening `logs` creates.
pub open spec fn next_generation(logs: Seq<LogFile>) -> int {
    if logs.len() == 0 {
        1
    } else {
        logs.last().0 + 1
    }
}

/// Opening `logs` succeeds: their generations increase, and one more fits.
pub open spec fn can_open(logs: Seq<LogFile>) -> bool {
    gens_increasing(logs) && next_generation(logs) <= u32::MAX
}

proof fn lemma_replay_step(logs: Seq<LogFile>, i: int)
    requires
        0 <= i < logs.len(),
    ensures
        replay(logs.take(i + 1)) == apply_entries(
            replay(logs.take(i)),
            logs[i].0,
            entries_from(logs[i].1, 0),
        ),
{
    assert(logs.take(i + 1).drop_last() =~= logs.take(i));
}

/// What replay does to the key directory and the stale count does not
/// depend on the values.
proof fn lemma_apply_entries_dir(a: Index, b: Index, g: u32, es: Seq<Entry>)
    requires
        a.dir == b.dir,
        a.uncompacted == b.uncompacted,
    ensures
        apply_entries(a, g, es).dir == apply_entries(b, g, es).dir,
        apply_entries(a, g, es).uncompacted == apply_entries(b, g, es).uncompacted,
    decreases es.len(),
{
    if es.len() > 0 {
        lemma_apply_entries_dir(a, b, g, es.drop_last());
    }
}

/// `logs` with `b` appended to the active (last) file.
pub open spec fn appended(logs: Seq<LogFile>, b: Seq<u8>) -> Seq<LogFile> {
    logs.update(logs.len() - 1, (logs.last().0, logs.last().1 + b))
}

/// Appending one record to a whole number of records replays as one more
/// entry.
pub proof fn lemma_replay_append(logs: Seq<LogFile>, op: Op)
    requires
        logs.len() >= 1,
        all_records(logs.last().1),
    ensures
        replay(appended(logs, record_of(op))) == apply_entry(
            replay(logs),
            logs.last().0,
            Entry { op, start: logs.last().1.len() as int, len: record_of(op).len() as int },
        ),
        all_records(appended(logs, record_of(op)).last().1),
{
    let f = logs.last().1;
    let rec = record_of(op);
    let l2 = appended(logs, rec);
    let e = Entry { op, start: f.len() as int, len: rec.len() as int };
    lemma_record_entries(op);
    lemma_entries_append(f, rec, 0);
    assert(shift_entries(entries_from(rec, 0), f.len() as int) =~= seq![e]);
    assert(entries_from(f + rec, 0) =~= entries_from(f, 0).push(e));
    assert(l2.drop_last() =~= logs.drop_last());
    assert(entries_from(f, 0).push(e).drop_last() =~= entries_from(f, 0));
}

/// Every key of `ix` has a value, and leads to a record in one of `logs`
/// that sets it to that value.
pub open spec fn points_into(logs: Seq<LogFile>, ix: Index) -> bool {
    &&& ix.dir.dom() == ix.vals.dom()
    &&& forall|k: Seq<char>|
        #![trigger ix.dir[k]]
        ix.dir.contains_key(k) ==> exists|i: int|
            0 <= i < logs.len() && logs[i].0 == ix.dir[k].log_idx && #[trigger] entry_holds(
                logs[i].1,
                Entry {
                    op: Op::Put(k, ix.vals[k]),
                    start: ix.dir[k].starting_pos as int,
                    len: ix.dir[k].len as int,
                },
            )
}

proof fn lemma_points_apply(logs: Seq<LogFile>, n: int, ix: Index, es: Seq<Entry>)
    requires
        0 <= n < logs.len(),
        logs[n].1.len() <= u64::MAX,
        points_into(logs, ix),
        forall|j: int| 0 <= j < es.len() ==> #[trigger] entry_holds(logs[n].1, es[j]),
    ensures
        points_into(logs, apply_entries(ix, logs[n].0, es)),
    decreases es.len(),
{
    if es.len() > 0 {
        let g = logs[n].0;
        let prev = apply_entries(ix, g, es.drop_last());
        assert forall|j: int| 0 <= j < es.drop_last().len() implies #[trigger] entry_holds(
            logs[n].1,
            es.drop_last()[j],
        ) by {
            assert(es.drop_last()[j] == es[j]);
        }
        lemma_points_apply(logs, n, ix, es.drop_last());
        let e = es.last();
        assert(entry_holds(logs[n].1, es[es.len() - 1]));
        let next = apply_entry(prev, g, e);
        match e.op {
            Op::Put(k, v) => {
                assert(next.dir.dom() =~= next.vals.dom());
                assert forall|k2: Seq<char>| #![trigger next.dir[k2]] next.dir.contains_key(k2) implies exists|i: int|
                    0 <= i < logs.len() && logs[i].0 == next.dir[k2].log_idx && #[trigger] entry_holds(
                        logs[i].1,
                        Entry {
                            op: Op::Put(k2, next.vals[k2]),
                            start: next.dir[k2].starting_pos as int,
                            len: next.dir[k2].len as int,
                        },
                    ) by {
                    if k2 == k {
                        assert(e.start as u64 as int == e.start);
                        assert(e.len as u64 as int == e.len);
                        assert(Entry {
                            op: Op::Put(k2, next.vals[k2]),
                            start: next.dir[k2].starting_pos as int,
                            len: next.dir[k2].len as int,
                        } == e);
                    } else {
                        assert(prev.dir.contains_key(k2));
                        assert(next.dir[k2] == prev.dir[k2]);
                    }
                }
            },
            Op::Rm(k) => {
                assert(next.dir.dom() =~= next.vals.dom());
                assert forall|k2: Seq<char>| #![trigger next.dir[k2]] next.dir.contains_key(k2) implies exists|i: int|
                    0 <= i < logs.len() && logs[i].0 == next.dir[k2].log_idx && #[trigger] entry_holds(
                        logs[i].1,
                        Entry {
                            op: Op::Put(k2, next.vals[k2]),
                            start: next.dir[k2].starting_pos as int,
                            len: next.dir[k2].len as int,
                        },
                    ) by {
                    assert(prev.dir.contains_key(k2));
                    assert(next.dir[k2] == prev.dir[k2]);
                }
            },
            Op::Get(_) => {},
        }
    }
}

/// Replay leaves every key leading to a record that sets it.
proof fn lemma_replay_points(logs: Seq<LogFile>)
    requires
        logs_ordered(logs),
    ensures
        points_into(logs, replay(logs)),
    decreases logs.len(),
{
    if logs.len() == 0 {
        assert(empty_index().dir.dom() =~= empty_index().vals.dom());
    } else {
        let init = logs.drop_last();
        lemma_replay_points(init);
        let r0 = replay(init);
        let n = logs.len() - 1;
        assert forall|k: Seq<char>| #![trigger r0.dir[k]] r0.dir.contains_key(k) implies exists|i: int|
            0 <= i < logs.len() && logs[i].0 == r0.dir[k].log_idx && #[trigger] entry_holds(
                logs[i].1,
                Entry {
                    op: Op::Put(k, r0.vals[k]),
                    start: r0.dir[k].starting_pos as int,
                    len: r0.dir[k].len as int,
                },
            ) by {
            let i = choose|i: int|
                0 <= i < init.len() && init[i].0 == r0.dir[k].log_idx && #[trigger] entry_holds(
                    init[i].1,
                    Entry {
                        op: Op::Put(k, r0.vals[k]),
                        start: r0.dir[k].starting_pos as int,
                        len: r0.dir[k].len as int,
                    },
                );
            assert(logs[i] == init[i]);
        }
        lemma_entries_facts(logs[n].1, 0);
        assert(logs[n].1.len() <= u64::MAX);
        lemma_points_apply(logs, n, r0, entries_from(logs[n].1, 0));
    }
}

/// The bytes at a position lie in the one file of its generation.
pub proof fn lemma_file_of(logs: Seq<LogFile>, i: int)
    requires
        logs_ordered(logs),
        0 <= i < logs.len(),
    ensures
        file_of(logs, logs[i].0) == logs[i].1,
{
    let j = choose|j: int| 0 <= j < logs.len() && logs[j].0 == logs[i].0;
    assert(0 <= j < logs.len() && logs[j].0 == logs[i].0);
    if j < i {
        assert(logs[j].0 < logs[i].0);
    } else if i < j {
        assert(logs[i].0 < logs[j].0);
    }
}

/// Over well-ordered logs, a lookup through the replayed key directory
/// answers what replay says the store holds.
pub proof fn lemma_lookup_replay(logs: Seq<LogFile>, k: Seq<char>)
    requires
        logs_ordered(logs),
    ensures
        replay(logs).dir.contains_key(k) <==> replay(logs).vals.contains_key(k),
        replay(logs).dir.contains_key(k) ==> record_value(
            k,
            slice_at(logs, replay(logs).dir[k]),
        ) == Some(replay(logs).vals[k]),
{
    let ix = replay(logs);
    lemma_replay_points(logs);
    assert(ix.dir.dom().contains(k) == ix.vals.dom().contains(k));
    if ix.dir.contains_key(k) {
        let pos = ix.dir[k];
        let e = Entry { op: Op::Put(k, ix.vals[k]), start: pos.starting_pos as int, len: pos.len as int };
        let i = choose|i: int| 0 <= i < logs.len() && logs[i].0 == pos.log_idx && #[trigger] entry_holds(logs[i].1, e);
        lemma_file_of(logs, i);
    }
}

/// What a well-formed store stands on: its key directory and stale count
/// are those that replaying its logs produces, the generations increase,
/// and the active file, the last, is a whole number of records.
pub proof fn lemma_store_dir(s: &KvStore)
    requires
        s.wf(),
    ensures
        s.dir() == replay(s.logs()).dir,
        s.spec_uncompacted() == replay(s.logs()).uncompacted,
        s.logs().len() >= 1,
        logs_ordered(s.logs()),
        all_records(s.logs().last().1),
        s.spec_log_idx() == s.logs().last().0,
{
}

/// Every key in the key directory leads to a record that sets it to its
/// current value; so a lookup answers exactly what the store holds.
pub proof fn lemma_dir_points_to_set(s: &KvStore, k: Seq<char>)
    requires
        s.wf(),
    ensures
        s.dir().contains_key(k) <==> s.contents().contains_key(k),
        s.dir().contains_key(k) ==> record_value(k, slice_at(s.logs(), s.dir()[k])) == Some(
            s.contents()[k],
        ),
        s.lookup(k) == (if s.contents().contains_key(k) {
            Some(s.contents()[k])
        } else {
            None
        }),
{
    lemma_lookup_replay(s.logs(), k);
}

/// The total length of the live records of a key directory.
pub open spec fn live_size(m: Map<Seq<char>, CommandPos>) -> nat {
    m.dom().fold(0nat, add_len(m))
}

/// Adds the length of the record of a key.
pub open spec fn add_len(m: Map<Seq<char>, CommandPos>) -> spec_fn(nat, Seq<char>) -> nat {
    |acc: nat, k: Seq<char>| (acc + m[k].len) as nat
}

/// A set that holds exactly the distinct keys of a list is as long as the
/// list.
proof fn lemma_keys_listed_len(es: Seq<(String, CommandPos)>, s: Set<Seq<char>>)
    requires
        forall|a: int, b: int| 0 <= a < b < es.len() ==> es[a].0@ != es[b].0@,
        forall|k: Seq<char>| s.contains(k) <==> exists|a: int| 0 <= a < es.len() && #[trigger] es[a].0@ == k,
    ensures
        s.finite(),
        s.len() == es.len(),
    decreases es.len(),
{
    if es.len() == 0 {
        assert(s =~= Set::empty());
    } else {
        let k = es.last().0@;
        let init = es.drop_last();
        let s2 = s.remove(k);
        assert forall|k2: Seq<char>| s2.contains(k2) <==> exists|a: int| 0 <= a < init.len() && #[trigger] init[a].0@ == k2 by {
            if s2.contains(k2) {
                let a = choose|a: int| 0 <= a < es.len() && #[trigger] es[a].0@ == k2;
                assert(a != es.len() - 1);
                assert(init[a] == es[a]);
            }
            if exists|a: int| 0 <= a < init.len() && #[trigger] init[a].0@ == k2 {
                let a = choose|a: int| 0 <= a < init.len() && #[trigger] init[a].0@ == k2;
                assert(init[a] == es[a]);
                assert(es[a].0@ != es[es.len() - 1].0@);
            }
        }
        lemma_keys_listed_len(init, s2);
        assert(s.contains(k)) by {
            assert(es[es.len() - 1].0@ == k);
        }
        assert(s =~= s2.insert(k));
    }
}

/// The bytes at each of `ps`, one after another.
pub open spec fn concat_slices(logs: Seq<LogFile>, ps: Seq<CommandPos>) -> Seq<u8>
    decreases ps.len(),
{
    if ps.len() == 0 {
        Seq::empty()
    } else {
        concat_slices(logs, ps.drop_last()) + slice_at(logs, ps.last())
    }
}

/// Once every live key is moved, the snapshot and an empty file replay as
/// the moved directory with the old values, and every old key sits where
/// its record landed.
proof fn lemma_compact_done(
    es: Seq<(String, CommandPos)>,
    ix0: Index,
    done: Set<Seq<char>>,
    g: u32,
    snap: Seq<u8>,
    next: u32,
    m: Map<Seq<char>, CommandPos>,
)
    requires
        listed_exactly(es, ix0.dir),
        ix0.dir.dom() == ix0.vals.dom(),
        forall|k: Seq<char>|
            done.contains(k) <==> exists|a: int| 0 <= a < es.len() && #[trigger] es[a].0@ == k,
        m.dom() == ix0.dir.dom(),
        snap_index(g, snap).dir.dom() == done,
        snap_index(g, snap).vals.dom() == done,
        forall|k: Seq<char>|
            #![trigger snap_index(g, snap).dir[k]]
            done.contains(k) ==> snap_index(g, snap).dir[k] == m[k],
        forall|k: Seq<char>|
            #![trigger snap_index(g, snap).vals[k]]
            done.contains(k) ==> snap_index(g, snap).vals[k] == ix0.vals[k],
    ensures
        replay(seq![(g, snap), (next, Seq::<u8>::empty())]) == snap_index(g, snap),
        snap_index(g, snap).dir == m,
        snap_index(g, snap).vals == ix0.vals,
{
    let dir0 = ix0.dir;
    assert(done =~= dir0.dom()) by {
        assert forall|k: Seq<char>| dir0.dom().contains(k) implies done.contains(k) by {
            let a = choose|a: int| 0 <= a < es.len() && #[trigger] es[a].0@ == k;
            assert(0 <= a < es.len() && es[a].0@ == k);
        }
    }
    lemma_replay_two(g, snap, next);
    let ixs = snap_index(g, snap);
    assert(ixs.dir =~= m);
    assert(ixs.vals.dom() =~= ix0.vals.dom());
    assert(ixs.vals =~= ix0.vals);
}


/// The summed lengths of listed positions.
pub open spec fn listed_size(es: Seq<(String, CommandPos)>) -> nat
    decreases es.len(),
{
    if es.len() == 0 {
        0
    } else {
        (listed_size(es.drop_last()) + es.last().1.len) as nat
    }
}

proof fn lemma_listed_size_mono(es: Seq<(String, CommandPos)>, i: int, n: int)
    requires
        0 <= i <= n <= es.len(),
    ensures
        listed_size(es.take(i)) <= listed_size(es.take(n)),
    decreases n - i,
{
    if i < n {
        lemma_listed_size_mono(es, i, n - 1);
        assert(es.take(n).drop_last() =~= es.take(n - 1));
    }
}

/// What the caller does to carry out a compaction: copy the record at each
/// of `copies`, in order, into a new file of generation `snapshot`; create
/// an empty file of generation `next` and append there from then on; and
/// delete every file of a generation below `snapshot`.
pub struct Compaction {
    pub snapshot: u32,
    pub next: u32,
    pub copies: Vec<CommandPos>,
}

/// `es` lists each key of `m` once, with its position.
pub open spec fn listed_exactly(es: Seq<(String, CommandPos)>, m: Map<Seq<char>, CommandPos>) -> bool {
    &&& forall|a: int|
        0 <= a < es.len() ==> m.contains_key(#[trigger] es[a].0@) && m[es[a].0@] == es[a].1
    &&& forall|a: int, b: int| 0 <= a < b < es.len() ==> es[a].0@ != es[b].0@
    &&& forall|k: Seq<char>|
        m.contains_key(k) ==> exists|a: int| 0 <= a < es.len() && #[trigger] es[a].0@ == k
}

/// What replaying a snapshot of generation `g` produces.
pub open spec fn snap_index(g: u32, snap: Seq<u8>) -> Index {
    apply_entries(empty_index(), g, entries_from(snap, 0))
}

/// A snapshot followed by an empty file replays as the snapshot alone.
proof fn lemma_replay_two(g: u32, snap: Seq<u8>, next: u32)
    ensures
        replay(seq![(g, snap), (next, Seq::<u8>::empty())]) == snap_index(g, snap),
{
    let l2 = seq![(g, snap), (next, Seq::<u8>::empty())];
    let l1 = seq![(g, snap)];
    assert(l2.drop_last() =~= l1);
    assert(l1.drop_last() =~= Seq::<LogFile>::empty());
    assert(entries_from(Seq::<u8>::empty(), 0) =~= Seq::<Entry>::empty());
    assert(replay(Seq::<LogFile>::empty()) == empty_index());
    assert(l1.last() == (g, snap));
    assert(replay(l1) == snap_index(g, snap));
}

/// The bytes at the position of a live key are one record that sets it.
proof fn lemma_live_slice(logs0: Seq<LogFile>, k: Seq<char>)
    requires
        logs_ordered(logs0),
        replay(logs0).dir.contains_key(k),
    ensures
        slice_at(logs0, replay(logs0).dir[k]).len() == replay(logs0).dir[k].len,
        frame_payload(slice_at(logs0, replay(logs0).dir[k])) matches Some(p) && parse_payload(p)
            == Decoded::Req(Op::Put(k, replay(logs0).vals[k])),
{
    let ix0 = replay(logs0);
    let pos = ix0.dir[k];
    let v = ix0.vals[k];
    lemma_lookup_replay(logs0, k);
    lemma_replay_points(logs0);
    let i0 = choose|i: int|
        0 <= i < logs0.len() && logs0[i].0 == pos.log_idx && #[trigger] entry_holds(
            logs0[i].1,
            Entry { op: Op::Put(k, v), start: pos.starting_pos as int, len: pos.len as int },
        );
    lemma_file_of(logs0, i0);
}

/// Copying the record of one more live key into a snapshot adds it, with
/// its value, at the end of the snapshot.
proof fn lemma_snapshot_step(
    logs0: Seq<LogFile>,
    g: u32,
    snap: Seq<u8>,
    done: Set<Seq<char>>,
    k: Seq<char>,
)
    requires
        logs_ordered(logs0),
        replay(logs0).dir.contains_key(k),
        !done.contains(k),
        all_records(snap),
        snap_index(g, snap).dir.dom() == done,
        snap.len() + replay(logs0).dir[k].len <= u64::MAX,
    ensures
        ({
            let pos = replay(logs0).dir[k];
            let snap2 = snap + slice_at(logs0, pos);
            &&& slice_at(logs0, pos).len() == pos.len
            &&& all_records(snap2)
            &&& snap_index(g, snap2) == apply_entry(
                snap_index(g, snap),
                g,
                Entry { op: Op::Put(k, replay(logs0).vals[k]), start: snap.len() as int, len: pos.len as int },
            )
            &&& pos_of(g, Entry { op: Op::Put(k, replay(logs0).vals[k]), start: snap.len() as int, len: pos.len as int })
                == CommandPos { log_idx: g, starting_pos: snap.len() as u64, len: pos.len }
        }),
{
    let ix0 = replay(logs0);
    let pos = ix0.dir[k];
    let slice = slice_at(logs0, pos);
    let v = ix0.vals[k];
    lemma_live_slice(logs0, k);
    lemma_one_record(slice, Op::Put(k, v));
    lemma_entries_append(snap, slice, 0);
    let e = Entry { op: Op::Put(k, v), start: snap.len() as int, len: slice.len() as int };
    assert(shift_entries(entries_from(slice, 0), snap.len() as int) =~= seq![e]);
    assert(entries_from(snap + slice, 0) =~= entries_from(snap, 0).push(e));
    assert(entries_from(snap, 0).push(e).drop_last() =~= entries_from(snap, 0));
}

/// Sums the lengths of the listed entries of a key directory.
fn listed_total(es: &Vec<(String, CommandPos)>, Ghost(m): Ghost<Map<Seq<char>, CommandPos>>) -> (r: u128)
    requires
        listed_exactly(es@, m),
    ensures
        r == listed_size(es@),
        r == live_size(m),
        m.dom().finite(),
        m.dom().len() == es@.len(),
{
    let ghost f = add_len(m);
    let n = es.len();
    let mut total: u128 = 0;
    let mut i: usize = 0;
    let ghost mut seen: Set<Seq<char>> = Set::empty();
    proof {
        assert(es@.take(0) =~= Seq::<(String, CommandPos)>::empty());
        vstd::set::fold::lemma_fold_empty(0nat, f);
        assert(vstd::set::fold::is_fun_commutative(f)) by {
            assert forall|a1: Seq<char>, a2: Seq<char>, b: nat|
                #[trigger] f(f(b, a2), a1) == f(f(b, a1), a2) by {
                assert(f(b, a2) == b + m[a2].len);
                assert(f(b, a1) == b + m[a1].len);
            }
        }
    }
    while i < n
        invariant
            n == es@.len(),
            i <= n,
            listed_exactly(es@, m),
            f == add_len(m),
            vstd::set::fold::is_fun_commutative(f),
            seen.finite(),
            forall|k: Seq<char>|
                seen.contains(k) <==> exists|a: int| 0 <= a < i && #[trigger] es@[a].0@ == k,
            total == listed_size(es@.take(i as int)),
            total == seen.fold(0nat, f),
            total <= i * 18446744073709551615u128,
        decreases n - i,
    {
        let l = es[i].1.len;
        proof {
            assert(es@.take(i + 1).drop_last() =~= es@.take(i as int));
            let k = es@[i as int].0@;
            assert(!seen.contains(k)) by {
                if seen.contains(k) {
                    let a = choose|a: int| 0 <= a < i && #[trigger] es@[a].0@ == k;
                    assert(es@[a].0@ != es@[i as int].0@);
                }
            }
            vstd::set::fold::lemma_fold_insert(seen, 0nat, f, k);
            assert(f(seen.fold(0nat, f), k) == seen.fold(0nat, f) + m[k].len);
            assert forall|k2: Seq<char>|
                seen.insert(k).contains(k2) <==> exists|a: int|
                    0 <= a < i + 1 && #[trigger] es@[a].0@ == k2 by {
                if seen.insert(k).contains(k2) && k2 != k {
                    let a = choose|a: int| 0 <= a < i && #[trigger] es@[a].0@ == k2;
                    assert(0 <= a < i + 1 && es@[a].0@ == k2);
                }
                if exists|a: int| 0 <= a < i + 1 && #[trigger] es@[a].0@ == k2 {
                    let a = choose|a: int| 0 <= a < i + 1 && #[trigger] es@[a].0@ == k2;
                    if a < i {
                        assert(seen.contains(k2));
                    }
                }
            }
            seen = seen.insert(k);
        }
        total = total + l as u128;
        i = i + 1;
    }
    proof {
        assert(seen =~= m.dom()) by {
            assert forall|k: Seq<char>| m.dom().contains(k) implies seen.contains(k) by {
                let a = choose|a: int| 0 <= a < es@.len() && #[trigger] es@[a].0@ == k;
                assert(0 <= a < n && es@[a].0@ == k);
            }
        }
        assert(es@.take(n as int) =~= es@);
        lemma_keys_listed_len(es@, m.dom());
    }
    total
}

fn generations_increase(files: &Vec<(u32, Vec<u8>)>) -> (r: bool)
    ensures
        r == gens_increasing(files_view(files@)),
{
    let ghost fv = files_view(files@);
    let mut i: usize = 1;
    if files.len() == 0 {
        return true;
    }
    while i < files.len()
        invariant
            1 <= i <= files@.len(),
            fv == files_view(files@),
            forall|a: int, b: int| 0 <= a < b < i ==> fv[a].0 < fv[b].0,
        decreases files@.len() - i,
    {
        if files[i].0 <= files[i - 1].0 {
            assert(fv[i - 1].0 >= fv[i as int].0);
            return false;
        }
        assert forall|a: int, b: int| 0 <= a < b < i + 1 implies fv[a].0 < fv[b].0 by {
            if b == i && a < i - 1 {
                assert(fv[a].0 < fv[i - 1].0);
            }
        }
        i = i + 1;
    }
    true
}

impl KvStore {
    /// Opens a store over the log files found on disk, oldest first, with
    /// the given threshold of compaction. A new, empty active file of the
    /// next generation follows them.
    ///
    /// Fails with `LogInit` when the generations do not strictly increase,
    /// or when no generation is left for the new file.
    pub fn new(files: &Vec<(u32, Vec<u8>)>, threshold: u64) -> (r: Result<KvStore, KvsError>)
        ensures
            r is Ok <==> can_open(files_view(files@)),
            r is Err ==> r == Err::<KvStore, KvsError>(KvsError::LogInit),
            r matches Ok(s) ==> {
                &&& s.wf()
                &&& s.logs() == files_view(files@).push(
                    (next_generation(files_view(files@)) as u32, Seq::<u8>::empty()),
                )
                &&& s.spec_threshold() == threshold
            },
    {
        let ghost fv = files_view(files@);
        if !generations_increase(files) {
            return Err(KvsError::LogInit);
        }
        let n = files.len();
        let new_gen: u32 = if n == 0 {
            1
        } else if files[n - 1].0 < u32::MAX {
            files[n - 1].0 + 1
        } else {
            return Err(KvsError::LogInit);
        };
        let mut store = KvStore {
            key_dir: dir_new(),
            log_idx: new_gen,
            writer_pos: 0,
            uncompacted: 0,
            threshold,
            logs: Ghost(Seq::empty()),
        };
        proof {
            assert(dir_contents(store.key_dir) =~= Map::<Seq<char>, CommandPos>::empty());
            assert(fv.take(0) =~= Seq::<LogFile>::empty());
        }
        let mut i: usize = 0;
        while i < n
            invariant
                n == files@.len(),
                fv == files_view(files@),
                i <= n,
                dir_contents(store.key_dir) == replay(fv.take(i as int)).dir,
                store.uncompacted == replay(fv.take(i as int)).uncompacted,
                store.log_idx == new_gen,
                store.writer_pos == 0,
                store.threshold == threshold,
                forall|a: int| 0 <= a < i ==> #[trigger] fv[a].1.len() <= u64::MAX,
            decreases n - i,
        {
            let len_i: usize = files[i].1.len();
            assert(fv[i as int].1.len() == len_i);
            let ghost before = Index {
                dir: dir_contents(store.key_dir),
                vals: Map::empty(),
                uncompacted: store.uncompacted,
            };
            store.replay_file(files[i].0, &files[i].1);
            proof {
                lemma_replay_step(fv, i as int);
                lemma_apply_entries_dir(
                    before,
                    replay(fv.take(i as int)),
                    fv[i as int].0,
                    entries_from(fv[i as int].1, 0),
                );
            }
            i = i + 1;
        }
        let ghost logs = fv.push((new_gen, Seq::<u8>::empty()));
        proof {
            assert(fv.take(n as int) =~= fv);
            assert(logs.drop_last() =~= fv);
            assert(entries_from(Seq::<u8>::empty(), 0) =~= Seq::<Entry>::empty());
            assert(entries_end(Seq::<u8>::empty(), 0) == 0);
            assert forall|a: int, b: int| 0 <= a < b < logs.len() implies logs[a].0 < logs[b].0 by {
                if b == n {
                    assert(fv[a].0 <= fv[n - 1].0);
                }
            }
            assert forall|a: int| 0 <= a < logs.len() implies #[trigger] logs[a].1.len() <= u64::MAX by {
                if a < n {
                    assert(logs[a] == fv[a]);
                }
            }
        }
        store.logs = Ghost(logs);
        Ok(store)
    }

    /// Opens a store with the default threshold of compaction.
    pub fn open(files: &Vec<(u32, Vec<u8>)>) -> (r: Result<KvStore, KvsError>)
        ensures
            r is Ok <==> can_open(files_view(files@)),
            r is Err ==> r == Err::<KvStore, KvsError>(KvsError::LogInit),
            r matches Ok(s) ==> {
                &&& s.wf()
                &&& s.logs() == files_view(files@).push(
                    (next_generation(files_view(files@)) as u32, Seq::<u8>::empty()),
                )
                &&& s.spec_threshold() == COMPACTION_THRESHOLD
            },
    {
        KvStore::new(files, COMPACTION_THRESHOLD)
    }

    /// The generation of the active file.
    pub fn log_idx(&self) -> (r: u32)
        ensures
            r == self.spec_log_idx(),
    {
        self.log_idx
    }

    /// The count of stale bytes in the log files.
    pub fn uncompacted(&self) -> (r: u64)
        ensures
            r == self.spec_uncompacted(),
    {
        self.uncompacted
    }

    /// The number of stale bytes above which compaction is due.
    pub fn threshold(&self) -> (r: u64)
        ensures
            r == self.spec_threshold(),
    {
        self.threshold
    }

    /// The length of the active file.
    pub fn writer_pos(&self) -> (r: u64)
        requires
            self.wf(),
        ensures
            r == self.logs().last().1.len(),
    {
        self.writer_pos
    }

    /// Whether the stale bytes exceed the threshold.
    pub fn compaction_due(&self) -> (r: bool)
        ensures
            r == (self.spec_uncompacted() > self.spec_threshold()),
    {
        self.uncompacted > self.threshold
    }

    /// Whether the compactor acts on `msg`: compaction is still due, and no
    /// compaction has happened since the signal was sent.
    pub fn should_compact(&self, msg: &TxMessage) -> (r: bool)
        ensures
            r == (msg.log_idx == self.spec_log_idx() && self.spec_uncompacted()
                > self.spec_threshold()),
    {
        msg.log_idx == self.log_idx && self.uncompacted > self.threshold
    }

    /// The position of the record that holds the value of `key`, if the key
    /// is live.
    pub fn locate(&self, key: &String) -> (r: Option<CommandPos>)
        ensures
            r == (if self.dir().contains_key(key@) {
                Some(self.dir()[key@])
            } else {
                None
            }),
    {
        dir_get(&self.key_dir, key)
    }

    /// Records `key` set to `val`: returns the record that the caller must
    /// append to the active file.
    ///
    /// Fails with `IO`, and changes nothing, when the active file would grow
    /// past what a `u64` offset reaches.
    pub fn set(&mut self, key: String, val: String) -> (r: Result<Vec<u8>, KvsError>)
        requires
            old(self).wf(),
        ensures
            final(self).wf(),
            final(self).spec_threshold() == old(self).spec_threshold(),
            r is Err <==> old(self).logs().last().1.len() + record_of(Op::Put(key@, val@)).len()
                > u64::MAX,
            r is Err ==> r->Err_0 is IO && *final(self) == *old(self),
            r matches Ok(rec) ==> {
                &&& rec@ == record_of(Op::Put(key@, val@))
                &&& final(self).logs() == appended(old(self).logs(), rec@)
                &&& final(self).spec_log_idx() == old(self).spec_log_idx()
                &&& final(self).dir() == old(self).dir().insert(
                    key@,
                    CommandPos {
                        log_idx: old(self).spec_log_idx(),
                        starting_pos: old(self).logs().last().1.len() as u64,
                        len: rec@.len() as u64,
                    },
                )
                &&& final(self).contents() == old(self).contents().insert(key@, val@)
                &&& final(self).spec_uncompacted() == (if old(self).dir().contains_key(key@) {
                    sat_add(old(self).spec_uncompacted(), old(self).dir()[key@].len)
                } else {
                    old(self).spec_uncompacted()
                })
                &&& final(self).spec_uncompacted() >= old(self).spec_uncompacted()
            },
    {
        let ghost k = key@;
        let ghost v = val@;
        let rec = serialize(&Request::Put { key: key.clone(), val });
        let len: usize = rec.len();
        if len as u64 > u64::MAX - self.writer_pos {
            return Err(KvsError::IO("the active log file is full".to_owned()));
        }
        let pos = CommandPos { log_idx: self.log_idx, starting_pos: self.writer_pos, len: len as u64 };
        let ghost before = replay(self.logs@);
        let ghost op = Op::Put(k, v);
        proof {
            lemma_replay_append(self.logs@, op);
        }
        let old_pos = dir_insert(&mut self.key_dir, key, pos);
        if let Some(o) = old_pos {
            self.uncompacted = self.uncompacted.saturating_add(o.len);
        }
        self.writer_pos = self.writer_pos + len as u64;
        self.logs = Ghost(appended(self.logs@, rec@));
        proof {
            let logs = self.logs@;
            assert forall|a: int| 0 <= a < logs.len() implies #[trigger] logs[a].1.len()
                <= u64::MAX by {
                if a < logs.len() - 1 {
                    assert(logs[a] == old(self).logs@[a]);
                }
            }
        }
        Ok(rec)
    }

    /// Records the removal of `key`: returns the record that the caller must
    /// append to the active file.
    ///
    /// Fails with `KeyNotFound`, and changes nothing, when the key is not
    /// live; fails with `IO`, and changes nothing, when the active file would
    /// grow past what a `u64` offset reaches.
    pub fn remove(&mut self, key: String) -> (r: Result<Vec<u8>, KvsError>)
        requires
            old(self).wf(),
        ensures
            final(self).wf(),
            final(self).spec_threshold() == old(self).spec_threshold(),
            !old(self).dir().contains_key(key@) ==> r == Err::<Vec<u8>, KvsError>(
                KvsError::KeyNotFound,
            ),
            old(self).dir().contains_key(key@) ==> (r is Err <==> old(self).logs().last().1.len()
                + record_of(Op::Rm(key@)).len() > u64::MAX),
            old(self).dir().contains_key(key@) && r is Err ==> r->Err_0 is IO,
            r is Err ==> *final(self) == *old(self),
            r matches Ok(rec) ==> {
                &&& rec@ == record_of(Op::Rm(key@))
                &&& final(self).logs() == appended(old(self).logs(), rec@)
                &&& final(self).spec_log_idx() == old(self).spec_log_idx()
                &&& final(self).dir() == old(self).dir().remove(key@)
                &&& final(self).contents() == old(self).contents().remove(key@)
                &&& final(self).spec_uncompacted() == sat_add(
                    sat_add(old(self).spec_uncompacted(), old(self).dir()[key@].len),
                    rec@.len() as u64,
                )
                &&& final(self).spec_uncompacted() >= old(self).spec_uncompacted()
            },
    {
        if dir_get(&self.key_dir, &key).is_none() {
            return Err(KvsError::KeyNotFound);
        }
        let ghost k = key@;
        let rec = serialize(&Request::Rm { key: key.clone() });
        let len: usize = rec.len();
        if len as u64 > u64::MAX - self.writer_pos {
            return Err(KvsError::IO("the active log file is full".to_owned()));
        }
        let ghost op = Op::Rm(k);
        proof {
            lemma_replay_append(self.logs@, op);
        }
        let old_pos = dir_remove(&mut self.key_dir, &key);
        if let Some(o) = old_pos {
            self.uncompacted = self.uncompacted.saturating_add(o.len);
        }
        self.uncompacted = self.uncompacted.saturating_add(len as u64);
        self.writer_pos = self.writer_pos + len as u64;
        self.logs = Ghost(appended(self.logs@, rec@));
        proof {
            let logs = self.logs@;
            assert forall|a: int| 0 <= a < logs.len() implies #[trigger] logs[a].1.len()
                <= u64::MAX by {
                if a < logs.len() - 1 {
                    assert(logs[a] == old(self).logs@[a]);
                }
            }
        }
        Ok(rec)
    }

    /// The answer to a lookup of `key`, given `record`: the bytes that the
    /// caller read at the position that `locate` gave. When the key is not
    /// live, the answer is `None` and `record` is not looked at. Bytes read
    /// from the key's position give the key's value.
    pub fn get(&self, key: &String, record: &[u8]) -> (r: Result<Option<String>, KvsError>)
        requires
            self.wf(),
        ensures
            !self.dir().contains_key(key@) ==> r == Ok::<Option<String>, KvsError>(None),
            self.dir().contains_key(key@) && record@ == slice_at(self.logs(), self.dir()[key@])
                ==> (r matches Ok(Some(v)) && v@ == self.contents()[key@]),
            self.dir().contains_key(key@) ==> (record_value(key@, record@) matches Some(v) ==> (
            r matches Ok(Some(s)) && s@ == v)),
            self.dir().contains_key(key@) && !record_decodes(record@) ==> (r is Err
                && r->Err_0 is KvsDeserializer && r->Err_0->KvsDeserializer_0@ == record@),
            self.dir().contains_key(key@) && record_decodes(record@) && record_value(
                key@,
                record@,
            ) is None ==> (r is Err && r->Err_0 is UnexpectedCommandType
                && r->Err_0->UnexpectedCommandType_0@ == key@),
    {
        if dir_get(&self.key_dir, key).is_none() {
            return Ok(None);
        }
        proof {
            lemma_dir_points_to_set(self, key@);
        }
        match KvStore::value_of_record(key, record) {
            Ok(v) => Ok(Some(v)),
            Err(e) => Err(e),
        }
    }

    /// The value of `key` held by `record`, the bytes that the caller read at
    /// the key's position.
    ///
    /// Bytes that are not one record give `KvsDeserializer` with those bytes
    /// and the decoder's message; a record other than a `Put` of `key` gives
    /// `UnexpectedCommandType` with the key.
    pub fn value_of_record(key: &String, record: &[u8]) -> (r: Result<String, KvsError>)
        ensures
            record_value(key@, record@) matches Some(v) ==> (r matches Ok(s) && s@ == v),
            !record_decodes(record@) ==> (r is Err && r->Err_0 is KvsDeserializer
                && r->Err_0->KvsDeserializer_0@ == record@),
            record_decodes(record@) && record_value(key@, record@) is None ==> (r is Err
                && r->Err_0 is UnexpectedCommandType && r->Err_0->UnexpectedCommandType_0@
                == key@),
    {
        match deserialize(record) {
            Ok(Request::Put { key: k2, val }) => {
                if k2 == *key {
                    Ok(val)
                } else {
                    Err(KvsError::UnexpectedCommandType(key.clone()))
                }
            },
            Ok(_) => Err(KvsError::UnexpectedCommandType(key.clone())),
            Err(e) => {
                let message = match e {
                    KvsError::Parser(m) => m,
                    KvsError::Utf8(m) => m,
                    KvsError::KvsDeserializer(_, m) => m,
                    _ => "undecodable record".to_owned(),
                };
                Err(KvsError::KvsDeserializer(copy_range(record, 0, record.len()), message))
            },
        }
    }

    /// Compacts the store: the live records are copied, in the order of
    /// `copies`, into a snapshot of generation `log_idx + 1`; the key
    /// directory is rewritten to point into it; a new empty active file of
    /// generation `log_idx + 2` follows; the stale count drops to zero; and
    /// no file of an older generation remains.
    ///
    /// Fails with `IO`, and changes nothing, when the generations run out
    /// or the snapshot would outgrow a `u64` offset.
    pub fn compact(&mut self) -> (r: Result<Compaction, KvsError>)
        requires
            old(self).wf(),
        ensures
            final(self).wf(),
            final(self).spec_threshold() == old(self).spec_threshold(),
            r is Err <==> (old(self).spec_log_idx() > u32::MAX - 2 || live_size(old(self).dir())
                > u64::MAX),
            r is Err ==> r->Err_0 is IO && *final(self) == *old(self),
            r matches Ok(c) ==> {
                &&& c.snapshot == old(self).spec_log_idx() + 1
                &&& c.next == old(self).spec_log_idx() + 2
                &&& final(self).spec_log_idx() == c.next
                &&& final(self).logs() == seq![
                    (c.snapshot, concat_slices(old(self).logs(), c.copies@)),
                    (c.next, Seq::<u8>::empty()),
                ]
                &&& final(self).logs()[0].1.len() == live_size(old(self).dir())
                &&& forall|i: int|
                    0 <= i < final(self).logs().len() ==> #[trigger] final(self).logs()[i].0
                        >= c.snapshot
                &&& c.copies@.len() == old(self).dir().len()
                &&& forall|i: int|
                    0 <= i < c.copies@.len() ==> exists|k: Seq<char>|
                        old(self).dir().contains_key(k) && old(self).dir()[k]
                            == #[trigger] c.copies@[i]
                &&& final(self).dir().dom() == old(self).dir().dom()
                &&& final(self).contents() == old(self).contents()
                &&& final(self).spec_uncompacted() == 0
            },
    {
        if self.log_idx > u32::MAX - 2 {
            return Err(KvsError::IO("no generation is left for compaction".to_owned()));
        }
        let ghost logs0 = self.logs@;
        let ghost dir0 = dir_contents(self.key_dir);
        let ghost ix0 = replay(logs0);
        let es = dir_entries(&self.key_dir);
        let n = es.len();
        let total = listed_total(&es, Ghost(dir0));
        if total > u64::MAX as u128 {
            return Err(KvsError::IO("the live records outgrow a log file".to_owned()));
        }
        let snapshot = self.log_idx + 1;
        let next = self.log_idx + 2;
        let mut copies: Vec<CommandPos> = Vec::new();
        let mut off: u64 = 0;
        let mut j: usize = 0;
        let ghost mut snap: Seq<u8> = Seq::empty();
        let ghost mut done: Set<Seq<char>> = Set::empty();
        proof {
            lemma_replay_points(logs0);
            assert(entries_from(snap, 0) =~= Seq::<Entry>::empty());
            assert(entries_end(snap, 0) == 0);
            assert(es@.take(0) =~= Seq::<(String, CommandPos)>::empty());
            assert(snap_index(snapshot, snap).dir.dom() =~= done);
            assert(snap_index(snapshot, snap).vals.dom() =~= done);
        }
        while j < n
            invariant
                n == es@.len(),
                j <= n,
                total == listed_size(es@),
                total <= u64::MAX,
                off == listed_size(es@.take(j as int)),
                snap.len() == off,
                logs0 == self.logs@,
                logs_ordered(logs0),
                ix0 == replay(logs0),
                dir0 == ix0.dir,
                points_into(logs0, ix0),
                listed_exactly(es@, dir0),
                snapshot == self.log_idx + 1,
                self.threshold == old(self).threshold,
                copies@ == es@.take(j as int).map_values(|e: (String, CommandPos)| e.1),
                snap == concat_slices(logs0, copies@),
                all_records(snap),
                forall|k: Seq<char>|
                    done.contains(k) <==> exists|a: int| 0 <= a < j && #[trigger] es@[a].0@ == k,
                dir_contents(self.key_dir).dom() == dir0.dom(),
                forall|k: Seq<char>|
                    #![trigger dir_contents(self.key_dir)[k]]
                    dir0.contains_key(k) && !done.contains(k) ==> dir_contents(self.key_dir)[k]
                        == dir0[k],
                snap_index(snapshot, snap).uncompacted == 0,
                snap_index(snapshot, snap).dir.dom() == done,
                snap_index(snapshot, snap).vals.dom() == done,
                forall|k: Seq<char>|
                    #![trigger snap_index(snapshot, snap).dir[k]]
                    done.contains(k) ==> snap_index(snapshot, snap).dir[k] == dir_contents(
                        self.key_dir,
                    )[k],
                forall|k: Seq<char>|
                    #![trigger snap_index(snapshot, snap).vals[k]]
                    done.contains(k) ==> snap_index(snapshot, snap).vals[k] == ix0.vals[k],
            decreases n - j,
        {
            let key = es[j].0.clone();
            let pos = es[j].1;
            let ghost k = key@;
            proof {
                lemma_listed_size_mono(es@, j + 1, n as int);
                assert(es@.take(j + 1).drop_last() =~= es@.take(j as int));
                assert(es@.take(n as int) =~= es@);
                assert(dir0.contains_key(k) && dir0[k] == pos);
                assert(!done.contains(k)) by {
                    if done.contains(k) {
                        let a = choose|a: int| 0 <= a < j && #[trigger] es@[a].0@ == k;
                        assert(es@[a].0@ != es@[j as int].0@);
                    }
                }
                lemma_snapshot_step(logs0, snapshot, snap, done, k);
            }
            let new_pos = CommandPos { log_idx: snapshot, starting_pos: off, len: pos.len };
            let ghost before = dir_contents(self.key_dir);
            dir_insert(&mut self.key_dir, key, new_pos);
            copies.push(pos);
            off = off + pos.len;
            proof {
                let snap2 = snap + slice_at(logs0, pos);
                assert(copies@ =~= es@.take(j + 1).map_values(|e: (String, CommandPos)| e.1));
                assert(copies@.drop_last() =~= es@.take(j as int).map_values(
                    |e: (String, CommandPos)| e.1,
                ));
                assert(dir_contents(self.key_dir).dom() =~= dir0.dom());
                assert(snap_index(snapshot, snap2).dir.dom() =~= done.insert(k));
                assert(snap_index(snapshot, snap2).vals.dom() =~= done.insert(k));
                assert forall|k2: Seq<char>|
                    done.insert(k).contains(k2) <==> exists|a: int|
                        0 <= a < j + 1 && #[trigger] es@[a].0@ == k2 by {
                    if done.insert(k).contains(k2) && k2 != k {
                        let a = choose|a: int| 0 <= a < j && #[trigger] es@[a].0@ == k2;
                        assert(0 <= a < j + 1 && es@[a].0@ == k2);
                    }
                    if exists|a: int| 0 <= a < j + 1 && #[trigger] es@[a].0@ == k2 {
                        let a = choose|a: int| 0 <= a < j + 1 && #[trigger] es@[a].0@ == k2;
                        if a < j {
                            assert(done.contains(k2));
                        }
                    }
                }
                snap = snap2;
                done = done.insert(k);
            }
            j = j + 1;
        }
        let ghost logs1 = seq![(snapshot, snap), (next, Seq::<u8>::empty())];
        proof {
            assert(es@.take(n as int) =~= es@);
            lemma_compact_done(es@, ix0, done, snapshot, snap, next, dir_contents(self.key_dir));
            assert forall|a: int| 0 <= a < copies@.len() implies exists|k: Seq<char>|
                dir0.contains_key(k) && dir0[k] == #[trigger] copies@[a] by {
                assert(copies@[a] == es@[a].1);
                assert(dir0.contains_key(es@[a].0@) && dir0[es@[a].0@] == es@[a].1);
            }
        }
        self.log_idx = next;
        self.writer_pos = 0;
        self.uncompacted = 0;
        self.logs = Ghost(logs1);
        Ok(Compaction { snapshot, next, copies })
    }

    /// Replays the records of one file of generation `g` into the key
    /// directory, up to the first place where no record can be read.
    fn replay_file(&mut self, g: u32, f: &Vec<u8>)
        ensures
            dir_contents(final(self).key_dir) == apply_entries(
                Index {
                    dir: dir_contents(old(self).key_dir),
                    vals: Map::empty(),
                    uncompacted: old(self).uncompacted,
                },
                g,
                entries_from(f@, 0),
            ).dir,
            final(self).uncompacted == apply_entries(
                Index {
                    dir: dir_contents(old(self).key_dir),
                    vals: Map::empty(),
                    uncompacted: old(self).uncompacted,
                },
                g,
                entries_from(f@, 0),
            ).uncompacted,
            final(self).log_idx == old(self).log_idx,
            final(self).writer_pos == old(self).writer_pos,
            final(self).threshold == old(self).threshold,
            final(self).logs == old(self).logs,
    {
        let ghost ix0 = Index {
            dir: dir_contents(self.key_dir),
            vals: Map::empty(),
            uncompacted: self.uncompacted,
        };
        let mut parser = RecordParser::new(f.as_slice());
        let ghost mut es: Seq<Entry> = Seq::empty();
        proof {
            assert(entries_from(f@, 0) =~= es + entries_from(f@, 0));
        }
        loop
            invariant_except_break
                entries_from(f@, 0) == es + entries_from(f@, parser.consumed()),
            invariant
                parser.wf(),
                parser.bytes() == f@,
                0 <= parser.consumed() <= f@.len(),
                dir_contents(self.key_dir) == apply_entries(ix0, g, es).dir,
                self.uncompacted == apply_entries(ix0, g, es).uncompacted,
                self.log_idx == old(self).log_idx,
                self.writer_pos == old(self).writer_pos,
                self.threshold == old(self).threshold,
                self.logs == old(self).logs,
            ensures
                entries_from(f@, 0) == es,
                dir_contents(self.key_dir) == apply_entries(ix0, g, es).dir,
                self.uncompacted == apply_entries(ix0, g, es).uncompacted,
                self.log_idx == old(self).log_idx,
                self.writer_pos == old(self).writer_pos,
                self.threshold == old(self).threshold,
                self.logs == old(self).logs,
            decreases f@.len() - parser.consumed(),
        {
            let ghost at = parser.consumed();
            let ghost x = f@.subrange(at, f@.len() as int);
            match parser.next() {
                None => {
                    assert(entries_from(f@, at) =~= Seq::<Entry>::empty());
                    assert(es + entries_from(f@, at) =~= es);
                    break;
                },
                Some((a, b, payload)) => {
                    proof {
                        lemma_parse_number_bounds(x);
                    }
                    match decode_payload(payload.as_slice()) {
                        Err(_) => {
                            assert(entries_from(f@, at) =~= Seq::<Entry>::empty());
                            assert(es + entries_from(f@, at) =~= es);
                            break;
                        },
                        Ok(req) => {
                            let ghost e = Entry { op: req@, start: a as int, len: b - a };
                            let ghost prev = apply_entries(ix0, g, es);
                            let pos = CommandPos {
                                log_idx: g,
                                starting_pos: a as u64,
                                len: (b - a) as u64,
                            };
                            match req {
                                Request::Put { key, val } => {
                                    let old_pos = dir_insert(&mut self.key_dir, key, pos);
                                    if let Some(o) = old_pos {
                                        self.uncompacted = self.uncompacted.saturating_add(o.len);
                                    }
                                },
                                Request::Rm { key } => {
                                    let old_pos = dir_remove(&mut self.key_dir, &key);
                                    if let Some(o) = old_pos {
                                        self.uncompacted = self.uncompacted.saturating_add(o.len);
                                    }
                                    self.uncompacted = self.uncompacted.saturating_add(
                                        (b - a) as u64,
                                    );
                                },
                                Request::Get { .. } => {},
                            }
                            proof {
                                assert(entries_from(f@, at) =~= seq![e] + entries_from(f@, b as int));
                                assert(es.push(e).drop_last() =~= es);
                                assert(entries_from(f@, 0) =~= es.push(e) + entries_from(
                                    f@,
                                    b as int,
                                ));
                                es = es.push(e);
                            }
                        },
                    }
                },
            }
        }
    }
}

} // verus!
