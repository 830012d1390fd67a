//! Laws that relate several operations.
//!
//! Each law is stated over the abstract live contents that the operation
//! contracts speak of, so it holds of every run of the store; the record
//! stream round trip lives with the codec and the response ordering law
//! with the server.

use crate::kv::COMPACTION_THRESHOLD;
use crate::kv::KvStore;
use crate::kv::KvsEngine;
use crate::kv::next_gen;
use crate::kv::spec_open_ok;
use crate::replay::disk_of;
use crate::replay::LogFile;
use crate::replay::init_replay;
use crate::replay::lemma_disk_of_covered;
use crate::replay::loc_ok_in;
use crate::replay::replay_data;
use crate::replay::replay_logs;
use vstd::prelude::*;

verus! {

/// After a store operation succeeds, reading the same key yields exactly
/// the stored value, however the backend is implemented.
pub proof fn lemma_set_then_get<E: KvsEngine>(pre: E, post: E, key: Seq<char>, value: Seq<char>)
    requires
        post.abs() == pre.abs().insert(key, value),
    ensures
        post.abs().contains_key(key),
        post.abs()[key] == value,
{
}

/// After a removal succeeds the key reads as absent, and stays absent
/// under any later operation on a different key.
pub proof fn lemma_remove_then_get<E: KvsEngine>(pre: E, post: E, key: Seq<char>)
    requires
        post.abs() == pre.abs().remove(key),
    ensures
        !post.abs().contains_key(key),
        forall|k2: Seq<char>, v: Seq<char>|
            k2 != key ==> !(#[trigger] post.abs().insert(k2, v)).contains_key(key),
        forall|k2: Seq<char>| k2 != key ==> !(#[trigger] post.abs().remove(k2)).contains_key(key),
{
}

/// One operation's footprint on the live contents, when it stays away
/// from `key`: a successful store of another key, a successful removal of
/// another key, or no change at all (a read, or a refused mutation).
pub open spec fn step_avoiding(
    m0: Map<Seq<char>, Seq<char>>,
    m1: Map<Seq<char>, Seq<char>>,
    key: Seq<char>,
) -> bool {
    ||| m1 == m0
    ||| exists|k2: Seq<char>, v: Seq<char>| k2 != key && m1 == #[trigger] m0.insert(k2, v)
    ||| exists|k2: Seq<char>| k2 != key && m1 == #[trigger] m0.remove(k2)
}

/// Any number of operations on other keys leaves a key's binding exactly
/// as it stood: still present with the same value, or still absent.
/// Together with each operation's own contract this closes the
/// store-then-read and remove-then-read laws over whole histories.
pub proof fn lemma_other_keys_preserved(ms: Seq<Map<Seq<char>, Seq<char>>>, key: Seq<char>)
    requires
        ms.len() >= 1,
        forall|i: int| 0 <= i < ms.len() - 1 ==> step_avoiding(ms[i], #[trigger] ms[i + 1], key),
    ensures
        ms.last().contains_key(key) == ms[0].contains_key(key),
        ms.last().contains_key(key) ==> ms.last()[key] == ms[0][key],
    decreases ms.len(),
{
    if ms.len() > 1 {
        assert(forall|i: int| 0 <= i < ms.drop_last().len() - 1 ==> step_avoiding(
            ms.drop_last()[i],
            #[trigger] ms.drop_last()[i + 1],
            key,
        )) by {
            assert(forall|i: int| 0 <= i < ms.len() - 1 ==> ms.drop_last()[i] == ms[i]);
        }
        lemma_other_keys_preserved(ms.drop_last(), key);
        assert(ms.drop_last().last() == ms[ms.len() - 2]);
        let a = ms[ms.len() - 2];
        let b = ms[ms.len() - 1];
        assert(ms[ms.len() - 2 + 1] == b);
        assert(step_avoiding(a, b, key));
        if b == a {
        } else if exists|k2: Seq<char>, v: Seq<char>| k2 != key && b == #[trigger] a.insert(
            k2,
            v,
        ) {
            let (k2, v) = choose|k2: Seq<char>, v: Seq<char>|
                k2 != key && b == #[trigger] a.insert(k2, v);
            assert(b.contains_key(key) == a.contains_key(key));
        } else {
            let k2 = choose|k2: Seq<char>| k2 != key && b == #[trigger] a.remove(k2);
            assert(b.contains_key(key) == a.contains_key(key));
        }
    }
}

/// Durability: closing a well-formed store and reopening its directory
/// succeeds and rebuilds exactly the same live contents.  `t` stands for
/// the store `open` builds from the files `s` left behind.
pub proof fn lemma_reopen_preserves_live(s: KvStore, t: KvStore)
    requires
        s.wf(),
        s.current_gen < usize::MAX,
        t.wf(),
        replay_logs(s.logs@, init_replay()) == Some(t.as_replay()),
        t.disk() == disk_of(s.logs@).insert(next_gen(s.logs@), Seq::<char>::empty()),
    ensures
        spec_open_ok(s.logs@),
        t.live() == s.live(),
{
    assert(t.index@ == s.index@);
    assert(next_gen(s.logs@) == s.current_gen + 1);
    assert forall|k: Seq<char>| #[trigger] s.index@.contains_key(k) implies t.live()[k]
        == s.live()[k] by {
        let l = s.index@[k];
        assert(loc_ok_in(s.disk(), l, k));
        lemma_disk_of_covered(s.logs@, l.gen);
        let i = choose|i: int| 0 <= i < s.logs@.len() && s.logs@[i].gen as int == l.gen;
        assert(s.logs@[i].gen <= s.logs@[s.logs@.len() - 1].gen);
        assert(l.gen != next_gen(s.logs@));
        assert(t.disk()[l.gen] == s.disk()[l.gen]);
    }
    assert(t.live() =~= s.live());
}

/// A directory whose one log file is empty opens (its generation
/// permitting) as an empty store writing to the next generation; with
/// `open`'s contract, every lookup then finds nothing.
pub proof fn lemma_open_single_empty_log(f: LogFile)
    requires
        f.data@.len() == 0,
        f.gen >= 1,
        f.gen < usize::MAX,
    ensures
        spec_open_ok(seq![f]),
        replay_logs(seq![f], init_replay()) == Some(init_replay()),
        next_gen(seq![f]) == f.gen + 1,
{
    assert(seq![f][0] == f);
    assert(replay_data(f.gen as int, f.data@, 0, init_replay()) == Some(init_replay()));
    assert(seq![f].drop_first() =~= Seq::<LogFile>::empty());
    assert(replay_logs(Seq::<LogFile>::empty(), init_replay()) == Some(init_replay()));
    assert(replay_logs(seq![f], init_replay()) == Some(init_replay()));
    assert(seq![f].last() == f);
    assert(next_gen(seq![f]) == f.gen + 1);
}

/// Space bound: between operations the stale text never exceeds the
/// threshold, so the directory holds less than the live data plus twice
/// the threshold.
pub proof fn lemma_space_bound(s: KvStore)
    requires
        s.wf(),
        s.uncompacted <= COMPACTION_THRESHOLD,
    ensures
        s.disk_len() < s.index.live_len() + 2 * COMPACTION_THRESHOLD,
{
}

} // verus!
