//! Recovery as a mathematical function.
//!
//! Opening a directory replays every log generation in ascending order and
//! rebuilds the index and the stale-character count.  This module defines
//! that replay over sequences of characters, the view of a directory as a
//! map from generation to file text, and the lemmas that connect replay to
//! appending records and to the record spans the index ends up holding.

use crate::codec::Parse;
use crate::codec::Record;
use crate::codec::lemma_parse_record_bounds;
use crate::codec::lemma_parse_record_local;
use crate::codec::lemma_parse_record_restrict;
use crate::codec::parse_record;
use crate::index::LocatorModel;
use vstd::prelude::*;

verus! {

/// One log generation: its number and the text of its file.
pub struct LogFile {
    pub gen: usize,
    pub data: Vec<char>,
}

/// The index and stale-character count replay has accumulated.
pub struct ReplayState {
    pub index: Map<Seq<char>, LocatorModel>,
    pub unc: int,
}

/// Replay starts from an empty index and no stale characters.
pub open spec fn init_replay() -> ReplayState {
    ReplayState { index: Map::empty(), unc: 0 }
}

/// Apply one decoded record that occupies `[off, off + n)` of generation
/// `gen`.  A `Put` installs the key and strands any record it displaces; a
/// `Remove` strands both the displaced record and itself.
pub open spec fn apply_record(st: ReplayState, r: Record, gen: int, off: int, n: int) -> ReplayState {
    match r {
        Record::Put { key, value } => ReplayState {
            index: st.index.insert(key, LocatorModel { gen, offset: off, len: n }),
            unc: st.unc + if st.index.contains_key(key) {
                st.index[key].len
            } else {
                0
            },
        },
        Record::Remove { key } => ReplayState {
            index: st.index.remove(key),
            unc: st.unc + n + if st.index.contains_key(key) {
                st.index[key].len
            } else {
                0
            },
        },
    }
}

/// Replay the records of one file from offset `off` on.  `None` means the
/// text from `off` is not a concatenation of complete records.
pub open spec fn replay_data(gen: int, data: Seq<char>, off: int, st: ReplayState) -> Option<
    ReplayState,
>
    decreases data.len() - off,
{
    if off == data.len() {
        Some(st)
    } else if off < 0 || off > data.len() {
        None
    } else {
        match parse_record(data.skip(off)) {
            Parse::Done(r, n) => if 1 <= n && off + n <= data.len() {
                replay_data(gen, data, off + n, apply_record(st, r, gen, off, n))
            } else {
                None
            },
            Parse::More => None,
            Parse::Bad => None,
        }
    }
}

/// Replay a sequence of log files in order.
pub open spec fn replay_logs(logs: Seq<LogFile>, st: ReplayState) -> Option<ReplayState>
    decreases logs.len(),
{
    if logs.len() == 0 {
        Some(st)
    } else {
        match replay_data(logs[0].gen as int, logs[0].data@, 0, st) {
            Some(st1) => replay_logs(logs.drop_first(), st1),
            None => None,
        }
    }
}

/// A directory as a map from generation number to file text.
pub open spec fn disk_of(logs: Seq<LogFile>) -> Map<int, Seq<char>>
    decreases logs.len(),
{
    if logs.len() == 0 {
        Map::empty()
    } else {
        disk_of(logs.drop_last()).insert(logs.last().gen as int, logs.last().data@)
    }
}

/// Characters on disk, over all generations.
pub open spec fn total_len(logs: Seq<LogFile>) -> int
    decreases logs.len(),
{
    if logs.len() == 0 {
        0
    } else {
        total_len(logs.drop_last()) + logs.last().data@.len()
    }
}

/// Generation numbers strictly increase along the sequence.
pub open spec fn gens_sorted(logs: Seq<LogFile>) -> bool {
    forall|i: int, j: int| 0 <= i < j < logs.len() ==> logs[i].gen < logs[j].gen
}

/// The locator `l` points, under directory view `disk`, at a complete
/// `Put` record for key `k`.
pub open spec fn loc_ok_in(disk: Map<int, Seq<char>>, l: LocatorModel, k: Seq<char>) -> bool {
    &&& disk.contains_key(l.gen)
    &&& 0 <= l.offset
    &&& l.offset + l.len <= disk[l.gen].len()
    &&& match parse_record(disk[l.gen].subrange(l.offset, l.offset + l.len)) {
        Parse::Done(r, n) => n == l.len && (r matches Record::Put { key, value } && key == k),
        Parse::More => false,
        Parse::Bad => false,
    }
}

/// The value of the `Put` record the locator points at.
pub open spec fn span_value(disk: Map<int, Seq<char>>, l: LocatorModel) -> Seq<char> {
    match parse_record(disk[l.gen].subrange(l.offset, l.offset + l.len)) {
        Parse::Done(r, n) => match r {
            Record::Put { key, value } => value,
            Record::Remove { key } => Seq::empty(),
        },
        Parse::More => Seq::empty(),
        Parse::Bad => Seq::empty(),
    }
}

/// Locator lengths in the index are never negative.
pub open spec fn lens_nonneg(st: ReplayState) -> bool {
    forall|k: Seq<char>| #[trigger] st.index.contains_key(k) ==> st.index[k].len >= 0
}

/// The stale-character count never shrinks along a replay.
pub proof fn lemma_replay_unc_monotone(gen: int, data: Seq<char>, off: int, st: ReplayState)
    requires
        lens_nonneg(st),
    ensures
        match replay_data(gen, data, off, st) {
            Some(st1) => st1.unc >= st.unc && lens_nonneg(st1),
            None => true,
        },
    decreases data.len() - off,
{
    if off == data.len() {
    } else if off < 0 || off > data.len() {
    } else {
        match parse_record(data.skip(off)) {
            Parse::Done(r, n) => {
                if 1 <= n && off + n <= data.len() {
                    let st2 = apply_record(st, r, gen, off, n);
                    assert(lens_nonneg(st2));
                    assert(st2.unc >= st.unc);
                    lemma_replay_unc_monotone(gen, data, off + n, st2);
                }
            }
            _ => {}
        }
    }
}

/// Appending one complete record to a file extends its replay by one step.
pub proof fn lemma_replay_append(gen: int, d: Seq<char>, e: Seq<char>, r: Record, off: int, st: ReplayState)
    requires
        parse_record(e) == Parse::<Record>::Done(r, e.len() as int),
        e.len() >= 1,
        0 <= off <= d.len(),
    ensures
        match replay_data(gen, d, off, st) {
            Some(st1) => replay_data(gen, d + e, off, st) == Some(
                apply_record(st1, r, gen, d.len() as int, e.len() as int),
            ),
            None => true,
        },
    decreases d.len() - off,
{
    if replay_data(gen, d, off, st) is Some {
        if off == d.len() {
            assert((d + e).skip(off) =~= e);
            let st2 = apply_record(st, r, gen, off, e.len() as int);
            assert(replay_data(gen, d + e, off + e.len(), st2) == Some(st2));
        } else {
            match parse_record(d.skip(off)) {
                Parse::Done(r0, n) => {
                    lemma_parse_record_bounds(d.skip(off));
                    assert((d + e).skip(off) =~= d.skip(off) + e);
                    lemma_parse_record_local(d.skip(off), e);
                    lemma_replay_append(gen, d, e, r, off + n, apply_record(st, r0, gen, off, n));
                }
                _ => {
                    assert(false);
                }
            }
        }
    }
}

/// Replaying one more file after a sequence of files.
pub proof fn lemma_replay_logs_snoc(logs: Seq<LogFile>, f: LogFile, st: ReplayState)
    ensures
        replay_logs(logs.push(f), st) == match replay_logs(logs, st) {
            Some(st1) => replay_data(f.gen as int, f.data@, 0, st1),
            None => None,
        },
    decreases logs.len(),
{
    if logs.len() == 0 {
        assert(logs.push(f)[0] == f);
        assert(logs.push(f).drop_first() =~= Seq::<LogFile>::empty());
        match replay_data(f.gen as int, f.data@, 0, st) {
            Some(st1) => {
                assert(replay_logs(Seq::<LogFile>::empty(), st1) == Some(st1));
            }
            None => {}
        }
    } else {
        assert(logs.push(f)[0] == logs[0]);
        assert(logs.push(f).drop_first() =~= logs.drop_first().push(f));
        match replay_data(logs[0].gen as int, logs[0].data@, 0, st) {
            Some(st1) => {
                lemma_replay_logs_snoc(logs.drop_first(), f, st1);
            }
            None => {}
        }
    }
}

/// Whether a file replays, and the index it leaves, depend only on the
/// incoming index, never on the incoming stale count.
pub proof fn lemma_replay_index_same(
    gen: int,
    data: Seq<char>,
    off: int,
    st1: ReplayState,
    st2: ReplayState,
)
    requires
        st1.index == st2.index,
    ensures
        match (replay_data(gen, data, off, st1), replay_data(gen, data, off, st2)) {
            (Some(a), Some(b)) => a.index == b.index,
            (None, None) => true,
            _ => false,
        },
    decreases data.len() - off,
{
    if off == data.len() {
    } else if off < 0 || off > data.len() {
    } else {
        match parse_record(data.skip(off)) {
            Parse::Done(r, n) => {
                if 1 <= n && off + n <= data.len() {
                    lemma_replay_index_same(
                        gen,
                        data,
                        off + n,
                        apply_record(st1, r, gen, off, n),
                        apply_record(st2, r, gen, off, n),
                    );
                }
            }
            _ => {}
        }
    }
}

/// A malformed tail after a run of complete records loses none of them:
/// replay still processes every complete record and only then reports
/// the failure, deterministically.  A tail that happens to be one more
/// complete record is instead absorbed as a record of its own.
pub proof fn lemma_replay_partial_tail(
    gen: int,
    d: Seq<char>,
    t: Seq<char>,
    off: int,
    st: ReplayState,
)
    requires
        0 <= off <= d.len(),
        replay_data(gen, d, off, st) is Some,
        t.len() > 0,
        parse_record(t) is More || parse_record(t) is Bad,
    ensures
        replay_data(gen, d + t, off, st) is None,
    decreases d.len() - off,
{
    if off == d.len() {
        assert((d + t).skip(off) =~= t);
    } else {
        match parse_record(d.skip(off)) {
            Parse::Done(r, n) => {
                lemma_parse_record_bounds(d.skip(off));
                assert((d + t).skip(off) =~= d.skip(off) + t);
                lemma_parse_record_local(d.skip(off), t);
                lemma_replay_partial_tail(gen, d, t, off + n, apply_record(st, r, gen, off, n));
            }
            _ => {
                assert(false);
            }
        }
    }
}

/// Replay of a file sequence splits at any point.
pub proof fn lemma_replay_logs_prefix(logs: Seq<LogFile>, st: ReplayState, i: int)
    requires
        0 <= i <= logs.len(),
    ensures
        replay_logs(logs, st) == match replay_logs(logs.take(i), st) {
            Some(st1) => replay_logs(logs.skip(i), st1),
            None => None,
        },
    decreases i,
{
    if i == 0 {
        assert(logs.take(0) =~= Seq::<LogFile>::empty());
        assert(logs.skip(0) =~= logs);
    } else {
        assert(logs.take(i)[0] == logs[0]);
        match replay_data(logs[0].gen as int, logs[0].data@, 0, st) {
            Some(st1) => {
                assert(logs.take(i).drop_first() =~= logs.drop_first().take(i - 1));
                assert(logs.skip(i) =~= logs.drop_first().skip(i - 1));
                lemma_replay_logs_prefix(logs.drop_first(), st1, i - 1);
            }
            None => {}
        }
    }
}

/// The stale-character count never shrinks over a sequence of files.
pub proof fn lemma_replay_logs_unc_monotone(logs: Seq<LogFile>, st: ReplayState)
    requires
        lens_nonneg(st),
    ensures
        match replay_logs(logs, st) {
            Some(st1) => st1.unc >= st.unc && lens_nonneg(st1),
            None => true,
        },
    decreases logs.len(),
{
    if logs.len() > 0 {
        lemma_replay_unc_monotone(logs[0].gen as int, logs[0].data@, 0, st);
        match replay_data(logs[0].gen as int, logs[0].data@, 0, st) {
            Some(st1) => {
                lemma_replay_logs_unc_monotone(logs.drop_first(), st1);
            }
            None => {}
        }
    }
}

/// Entry `i` of a sequence with pairwise distinct generations is what the
/// directory view holds for its generation.
pub proof fn lemma_disk_of_entry(logs: Seq<LogFile>, i: int)
    requires
        gens_sorted(logs),
        0 <= i < logs.len(),
    ensures
        disk_of(logs).contains_key(logs[i].gen as int),
        disk_of(logs)[logs[i].gen as int] == logs[i].data@,
    decreases logs.len(),
{
    if i < logs.len() - 1 {
        assert(gens_sorted(logs.drop_last())) by {
            assert(forall|p: int, q: int| 0 <= p < q < logs.len() - 1
                ==> logs.drop_last()[p] == logs[p] && logs.drop_last()[q] == logs[q]);
        }
        assert(logs.drop_last()[i] == logs[i]);
        lemma_disk_of_entry(logs.drop_last(), i);
        assert(logs[i].gen < logs.last().gen);
    }
}

/// Every generation the directory view knows belongs to some file.
pub proof fn lemma_disk_of_covered(logs: Seq<LogFile>, g: int)
    requires
        disk_of(logs).contains_key(g),
    ensures
        exists|i: int| 0 <= i < logs.len() && logs[i].gen as int == g,
    decreases logs.len(),
{
    if logs.len() > 0 {
        if logs.last().gen as int == g {
            assert(logs[logs.len() - 1].gen as int == g);
        } else {
            lemma_disk_of_covered(logs.drop_last(), g);
            let i = choose|i: int|
                0 <= i < logs.drop_last().len() && logs.drop_last()[i].gen as int == g;
            assert(logs[i].gen as int == g);
        }
    }
}

/// Every locator a replay leaves in the index points at a complete `Put`
/// record for its key, within the directory view `disk`, in a generation
/// no later than the one replayed.
pub proof fn lemma_replay_spans(
    gen: int,
    data: Seq<char>,
    off: int,
    st: ReplayState,
    disk: Map<int, Seq<char>>,
)
    requires
        disk.contains_key(gen),
        disk[gen] == data,
        forall|k: Seq<char>| #[trigger] st.index.contains_key(k) ==> loc_ok_in(
            disk,
            st.index[k],
            k,
        ) && st.index[k].gen <= gen,
    ensures
        match replay_data(gen, data, off, st) {
            Some(st1) => forall|k: Seq<char>| #[trigger] st1.index.contains_key(k) ==> loc_ok_in(
                disk,
                st1.index[k],
                k,
            ) && st1.index[k].gen <= gen,
            None => true,
        },
    decreases data.len() - off,
{
    if off == data.len() {
    } else if off < 0 || off > data.len() {
    } else {
        match parse_record(data.skip(off)) {
            Parse::Done(r, n) => {
                if 1 <= n && off + n <= data.len() {
                    let st2 = apply_record(st, r, gen, off, n);
                    assert forall|k: Seq<char>| #[trigger] st2.index.contains_key(k) implies loc_ok_in(
                        disk,
                        st2.index[k],
                        k,
                    ) && st2.index[k].gen <= gen by {
                        match r {
                            Record::Put { key, value } => {
                                if k == key {
                                    lemma_parse_record_restrict(data.skip(off), n);
                                    assert(data.skip(off).take(n) =~= data.subrange(off, off + n));
                                }
                            }
                            Record::Remove { key } => {}
                        }
                    }
                    lemma_replay_spans(gen, data, off + n, st2, disk);
                }
            }
            _ => {}
        }
    }
}

} // verus!
