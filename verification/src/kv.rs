//! The log-structured store.
//!
//! `KvStore` holds the text of every live log generation, the index from
//! keys to record spans, and the count of stale characters.  Opening
//! replays the given files in order; every mutation appends one record to
//! the current generation; compaction rewrites the live records into a
//! fresh generation when enough characters have gone stale.  The file
//! system work each mutation implies is reported as pending effects, which
//! the caller applies to the real directory in order.

use crate::codec::Command;
use crate::codec::Parse;
use crate::codec::Record;
use crate::codec::Scan;
use crate::codec::chars_to_string;
use crate::codec::decode_record;
use crate::codec::enc_record;
use crate::codec::encode_command;
use crate::codec::lemma_enc_record_parses;
use crate::codec::lemma_parse_record_bounds;
use crate::codec::lemma_parse_record_local;
use crate::codec::parse_record;
use crate::codec::is_digit_exec;
use crate::codec::str_to_chars;
use crate::digits::all_digits;
use crate::digits::dec_rep;
use crate::digits::digits_val;
use crate::digits::lemma_digits_val_monotone;
use crate::digits::lemma_digits_val_nonneg;
use crate::digits::push_dec_rep;
use crate::index::Index;
use crate::index::LocatorModel;
use crate::index::RecordLocator;
use crate::index::as_map;
use crate::index::distinct_keys;
use crate::index::sum_locs;
use crate::index::IndexEntry;
use crate::index::lemma_as_map_absent;
use crate::index::lemma_as_map_covered;
use crate::index::lemma_as_map_entry;
use crate::index::lemma_as_map_fields;
use crate::replay::LogFile;
use crate::replay::ReplayState;
use crate::replay::apply_record;
use crate::replay::disk_of;
use crate::replay::gens_sorted;
use crate::replay::init_replay;
use crate::replay::lemma_disk_of_covered;
use crate::replay::lemma_disk_of_entry;
use crate::replay::lemma_replay_index_same;
use crate::replay::lemma_replay_logs_prefix;
use crate::replay::lemma_replay_logs_snoc;
use crate::replay::lemma_replay_unc_monotone;
use crate::replay::lemma_replay_append;
use crate::replay::lemma_replay_spans;
use crate::replay::loc_ok_in;
use crate::replay::replay_data;
use crate::replay::replay_logs;
use crate::replay::span_value;
use crate::replay::total_len;
use vstd::prelude::*;
use vstd::string::StringExecFns;

verus! {

broadcast use vstd::std_specs::vec::group_vec_axioms;

/// Compaction runs once more than this many characters are stale.
pub const COMPACTION_THRESHOLD: usize = 1048576;

/// Everything that can go wrong in the store or on the wire.
#[derive(Debug)]
pub enum KvsError {
    /// The underlying file or socket gave out, or a size counter cannot
    /// grow any further.
    Io(String),
    /// Text on disk or on the wire does not decode.
    Codec(String),
    /// A removal named a key that is not live.
    KeyNotFound,
    /// A locator resolved to a record that is not a `Put`.
    UnexpectedCommandType,
    /// A response had a shape the client cannot interpret.
    UnexpectedResponseType,
    /// The server answered a request with a failure message.
    StringErr(String),
}

impl KvsError {
    /// The short description a server sends back in a failure response.
    pub open spec fn spec_message(&self) -> Seq<char> {
        match self {
            KvsError::Io(m) => m@,
            KvsError::Codec(m) => m@,
            KvsError::KeyNotFound => "Key not found"@,
            KvsError::UnexpectedCommandType => "Unexpected command type"@,
            KvsError::UnexpectedResponseType => "Unexpected response type"@,
            KvsError::StringErr(m) => m@,
        }
    }

    /// Render the description.
    pub fn message(&self) -> (m: String)
        ensures
            m@ == self.spec_message(),
    {
        match self {
            KvsError::Io(m) => m.clone(),
            KvsError::Codec(m) => m.clone(),
            KvsError::KeyNotFound => String::from_str("Key not found"),
            KvsError::UnexpectedCommandType => String::from_str("Unexpected command type"),
            KvsError::UnexpectedResponseType => String::from_str("Unexpected response type"),
            KvsError::StringErr(m) => m.clone(),
        }
    }
}

/// One step of file-system work the store asks its caller to mirror onto
/// the real directory, in order: create `{gen}.log` empty, append text to
/// it, or delete it.
pub enum FsEffect {
    Create { gen: usize },
    Append { gen: usize, data: String },
    Delete { gen: usize },
}

/// An effect as the specifications see it.
pub enum FsEffectView {
    Create { gen: int },
    Append { gen: int, data: Seq<char> },
    Delete { gen: int },
}

impl View for FsEffect {
    type V = FsEffectView;

    open spec fn view(&self) -> FsEffectView {
        match self {
            FsEffect::Create { gen } => FsEffectView::Create { gen: *gen as int },
            FsEffect::Append { gen, data } => FsEffectView::Append {
                gen: *gen as int,
                data: data@,
            },
            FsEffect::Delete { gen } => FsEffectView::Delete { gen: *gen as int },
        }
    }
}

/// What a directory view becomes after one effect.
pub open spec fn apply_effect(disk: Map<int, Seq<char>>, e: FsEffect) -> Map<int, Seq<char>> {
    match e {
        FsEffect::Create { gen } => disk.insert(gen as int, Seq::empty()),
        FsEffect::Append { gen, data } => disk.insert(
            gen as int,
            (if disk.contains_key(gen as int) {
                disk[gen as int]
            } else {
                Seq::empty()
            }) + data@,
        ),
        FsEffect::Delete { gen } => disk.remove(gen as int),
    }
}

/// What a directory view becomes after a list of effects, in order.
pub open spec fn apply_effects(disk: Map<int, Seq<char>>, effs: Seq<FsEffect>) -> Map<
    int,
    Seq<char>,
>
    decreases effs.len(),
{
    if effs.len() == 0 {
        disk
    } else {
        apply_effects(apply_effect(disk, effs[0]), effs.drop_first())
    }
}

/// Applying a concatenation of effect lists applies them in turn.
pub proof fn lemma_apply_effects_concat(disk: Map<int, Seq<char>>, a: Seq<FsEffect>, b: Seq<FsEffect>)
    ensures
        apply_effects(disk, a + b) == apply_effects(apply_effects(disk, a), b),
    decreases a.len(),
{
    if a.len() == 0 {
        assert(a + b =~= b);
    } else {
        assert((a + b)[0] == a[0]);
        assert((a + b).drop_first() =~= a.drop_first() + b);
        lemma_apply_effects_concat(apply_effect(disk, a[0]), a.drop_first(), b);
    }
}

/// One more effect at the end applies last.
pub proof fn lemma_apply_effects_snoc(disk: Map<int, Seq<char>>, effs: Seq<FsEffect>, e: FsEffect)
    ensures
        apply_effects(disk, effs.push(e)) == apply_effect(apply_effects(disk, effs), e),
{
    assert(effs.push(e) =~= effs + seq![e]);
    lemma_apply_effects_concat(disk, effs, seq![e]);
    let d1 = apply_effects(disk, effs);
    assert(seq![e][0] == e);
    assert(seq![e].drop_first() =~= Seq::<FsEffect>::empty());
    assert(apply_effects(apply_effect(d1, e), Seq::<FsEffect>::empty()) == apply_effect(d1, e));
}

/// Append the characters `data[off .. off + len)` to `out`.
fn push_span(out: &mut Vec<char>, data: &Vec<char>, off: usize, len: usize)
    requires
        off + len <= data@.len(),
    ensures
        final(out)@ == old(out)@ + data@.subrange(off as int, off as int + len as int),
{
    let dlen = data.len();
    let mut j: usize = 0;
    while j < len
        invariant
            dlen == data@.len(),
            off + len <= dlen,
            j <= len,
            out@ == old(out)@ + data@.subrange(off as int, off as int + j as int),
        decreases len - j,
    {
        out.push(data[off + j]);
        j += 1;
        proof {
            assert(out@ =~= old(out)@ + data@.subrange(off as int, off as int + j as int));
        }
    }
}

/// Copy a character buffer.
fn clone_chars(v: &Vec<char>) -> (out: Vec<char>)
    ensures
        out@ == v@,
{
    let mut out: Vec<char> = Vec::new();
    push_span(&mut out, v, 0, v.len());
    proof {
        assert(v@.subrange(0, v@.len() as int) =~= v@);
        assert(out@ =~= v@);
    }
    out
}

/// The store.
pub struct KvStore {
    pub logs: Vec<LogFile>,
    pub index: Index,
    pub current_gen: usize,
    pub uncompacted: usize,
    pub pending: Vec<FsEffect>,
}

/// The text compaction writes: the live record spans, in index order, end
/// to end.
pub open spec fn spans_concat(disk: Map<int, Seq<char>>, entries: Seq<IndexEntry>) -> Seq<char>
    decreases entries.len(),
{
    if entries.len() == 0 {
        Seq::<char>::empty()
    } else {
        spans_concat(disk, entries.drop_last()) + disk[entries.last().loc@.gen].subrange(
            entries.last().loc@.offset,
            entries.last().loc@.offset + entries.last().loc@.len,
        )
    }
}

/// One record has been appended to the current generation: the logs gain
/// exactly that text at the end of the last file, and every other file
/// and every earlier character is untouched.
pub open spec fn appended_once(pre: KvStore, post: KvStore, e: Seq<char>) -> bool {
    &&& pre.logs@.len() >= 1
    &&& post.logs@.len() == pre.logs@.len()
    &&& forall|i: int| 0 <= i < pre.logs@.len() - 1 ==> post.logs@[i] == pre.logs@[i]
    &&& post.logs@.last().gen == pre.logs@.last().gen
    &&& post.logs@.last().data@ == pre.logs@.last().data@ + e
}

/// `post` is `pre` compacted: the live spans rewritten into the next
/// generation, packed end to end in index order with keys and lengths
/// unchanged, the writer on the empty generation past it, nothing older
/// left, and nothing stale.
pub open spec fn compacted_from(pre: KvStore, post: KvStore) -> bool {
    let cgen = pre.current_gen as int + 1;
    let ngen = pre.current_gen as int + 2;
    &&& post.current_gen as int == ngen
    &&& post.uncompacted == 0
    &&& post.logs@.len() == 2
    &&& post.logs@[0].gen as int == cgen
    &&& post.logs@[0].data@ == spans_concat(pre.disk(), pre.index.entries_seq())
    &&& post.logs@[1].gen as int == ngen
    &&& post.logs@[1].data@ == Seq::<char>::empty()
    &&& post.index.entries_seq().len() == pre.index.entries_seq().len()
    &&& forall|j: int|
        0 <= j < pre.index.entries_seq().len() ==> {
            let oe = pre.index.entries_seq()[j];
            let ne = #[trigger] post.index.entries_seq()[j];
            &&& ne.key@ == oe.key@
            &&& ne.loc@.gen == cgen
            &&& ne.loc@.len == oe.loc@.len
            &&& ne.loc@.offset == sum_locs(pre.index.entries_seq().take(j))
        }
}

/// The effects one compaction emits, in order: create the writer's fresh
/// generation and the compaction generation, append the compacted text,
/// and only after that append delete each old generation.
pub open spec fn compaction_delta(pre: KvStore, delta: Seq<FsEffect>) -> bool {
    let cgen = pre.current_gen as int + 1;
    let ngen = pre.current_gen as int + 2;
    &&& delta.len() == 3 + pre.logs@.len()
    &&& delta[0]@ == FsEffectView::Create { gen: ngen }
    &&& delta[1]@ == FsEffectView::Create { gen: cgen }
    &&& delta[2]@ == FsEffectView::Append {
        gen: cgen,
        data: spans_concat(pre.disk(), pre.index.entries_seq()),
    }
    &&& forall|i: int|
        3 <= i < delta.len() ==> (#[trigger] delta[i]@) == FsEffectView::Delete {
            gen: pre.logs@[i - 3].gen as int,
        }
}

/// The next writable generation for a directory: one past the highest, or
/// one for an empty directory.
pub open spec fn next_gen(files: Seq<LogFile>) -> int {
    if files.len() == 0 {
        1
    } else {
        files.last().gen + 1
    }
}

/// Opening succeeds exactly when replay succeeds and the counters fit the
/// machine.
pub open spec fn spec_open_ok(files: Seq<LogFile>) -> bool {
    match replay_logs(files, init_replay()) {
        Some(st) => st.unc <= usize::MAX && next_gen(files) <= usize::MAX,
        None => false,
    }
}

impl KvStore {
    /// The directory as the store believes it to be.
    pub open spec fn disk(self) -> Map<int, Seq<char>> {
        disk_of(self.logs@)
    }

    /// Characters on disk, over all generations.
    pub open spec fn disk_len(self) -> int {
        total_len(self.logs@)
    }

    /// The replay state the store's fields claim to equal.
    pub open spec fn as_replay(self) -> ReplayState {
        ReplayState { index: self.index@, unc: self.uncompacted as int }
    }

    /// The live contents: each key the index knows, mapped to the value of
    /// the record its locator points at.
    pub open spec fn live(self) -> Map<Seq<char>, Seq<char>> {
        self.index@.map_values(|l: LocatorModel| span_value(self.disk(), l))
    }

    /// Well-formed: generations ascend and end at the current one, the
    /// fields are exactly what replaying the files yields, every locator
    /// points at a complete `Put` record for its key, and every character
    /// on disk is either live or counted stale.
    pub open spec fn wf(self) -> bool {
        &&& self.index.wf()
        &&& self.logs@.len() >= 1
        &&& gens_sorted(self.logs@)
        &&& forall|i: int| 0 <= i < self.logs@.len() ==> (#[trigger] self.logs@[i].gen) >= 1
        &&& self.logs@.last().gen == self.current_gen
        &&& replay_logs(self.logs@, init_replay()) == Some(self.as_replay())
        &&& forall|k: Seq<char>| #[trigger] self.index@.contains_key(k) ==> loc_ok_in(
            self.disk(),
            self.index@[k],
            k,
        )
        &&& self.disk_len() == self.index.live_len() + self.uncompacted
    }

    /// Position of the generation `gen` file among the logs.
    fn find_log(&self, gen: usize) -> (r: Option<usize>)
        ensures
            match r {
                Some(i) => i < self.logs@.len() && self.logs@[i as int].gen == gen,
                None => forall|i: int| 0 <= i < self.logs@.len()
                    ==> (#[trigger] self.logs@[i].gen) != gen,
            },
    {
        let n = self.logs.len();
        let mut i: usize = 0;
        while i < n
            invariant
                n == self.logs@.len(),
                i <= n,
                forall|j: int| 0 <= j < i ==> (#[trigger] self.logs@[j].gen) != gen,
            decreases n - i,
        {
            if self.logs[i].gen == gen {
                return Some(i);
            }
            i += 1;
        }
        None
    }

    /// Hand the accumulated file-system effects to the caller.
    pub fn take_effects(&mut self) -> (effs: Vec<FsEffect>)
        ensures
            effs@ == old(self).pending@,
            final(self).pending@ == Seq::<FsEffect>::empty(),
            final(self).logs == old(self).logs,
            final(self).index == old(self).index,
            final(self).current_gen == old(self).current_gen,
            final(self).uncompacted == old(self).uncompacted,
            old(self).wf() ==> final(self).wf(),
    {
        let mut out: Vec<FsEffect> = Vec::new();
        core::mem::swap(&mut out, &mut self.pending);
        out
    }

    /// Replay one directory's log files, in ascending generation order,
    /// into a store that appends to a fresh generation.
    pub fn open(files: Vec<LogFile>) -> (r: Result<KvStore, KvsError>)
        requires
            gens_sorted(files@),
            forall|i: int| 0 <= i < files@.len() ==> (#[trigger] files@[i].gen) >= 1,
        ensures
            match r {
                Ok(s) => {
                    &&& s.wf()
                    &&& spec_open_ok(files@)
                    &&& replay_logs(files@, init_replay()) == Some(s.as_replay())
                    &&& s.current_gen as int == next_gen(files@)
                    &&& s.logs@.len() == files@.len() + 1
                    &&& forall|i: int| 0 <= i < files@.len() ==> s.logs@[i] == files@[i]
                    &&& s.logs@.last().data@ == Seq::<char>::empty()
                    &&& s.disk() == disk_of(files@).insert(next_gen(files@), Seq::<char>::empty())
                    &&& s.pending@.len() == 1
                    &&& s.pending@[0] matches FsEffect::Create { gen } && gen as int == next_gen(
                        files@,
                    )
                },
                Err(e) => {
                    &&& !spec_open_ok(files@)
                    &&& (e matches KvsError::Codec(_) <==> replay_logs(files@, init_replay())
                        is None)
                },
            },
            spec_open_ok(files@) ==> r is Ok,
    {
        let mut index = Index::new();
        let mut unc: usize = 0;
        let mut over = false;
        let n = files.len();
        let mut i: usize = 0;
        while i < n
            invariant
                n == files@.len(),
                i <= n,
                gens_sorted(files@),
                forall|p: int| 0 <= p < files@.len() ==> (#[trigger] files@[p].gen) >= 1,
                index.wf(),
                !over ==> replay_logs(files@.take(i as int), init_replay()) == Some(
                    ReplayState { index: index@, unc: unc as int },
                ) && index.live_len() + unc == total_len(files@.take(i as int)),
                over ==> (match replay_logs(files@.take(i as int), init_replay()) {
                    Some(st) => st.index == index@ && st.unc > usize::MAX,
                    None => false,
                }),
                forall|k: Seq<char>| #[trigger] index@.contains_key(k) ==> loc_ok_in(
                    disk_of(files@),
                    index@[k],
                    k,
                ) && i > 0 && index@[k].gen <= files@[i - 1].gen,
            decreases n - i,
        {
            let ghost pre_entries = index.entries_seq();
            let ghost st_pre = ReplayState { index: index@, unc: unc as int };
            let ghost st_chain = match replay_logs(files@.take(i as int), init_replay()) {
                Some(st) => st,
                None => init_replay(),
            };
            let f = &files[i];
            proof {
                lemma_disk_of_entry(files@, i as int);
                lemma_replay_spans(f.gen as int, f.data@, 0, st_pre, disk_of(files@));
                lemma_as_map_fields(pre_entries);
            }
            match Self::load(f.gen, &f.data, &mut index, unc) {
                Ok((u, f_over)) => {
                    proof {
                        lemma_replay_logs_snoc(
                            files@.take(i as int),
                            files@[i as int],
                            init_replay(),
                        );
                        assert(files@.take(i as int + 1) =~= files@.take(i as int).push(
                            files@[i as int],
                        ));
                        assert(files@.take(i as int + 1).drop_last() =~= files@.take(i as int));
                        if over {
                            // the chain's count differs from the running one,
                            // but the index each leaves is the same
                            lemma_replay_index_same(f.gen as int, f.data@, 0, st_pre, st_chain);
                            lemma_replay_unc_monotone(f.gen as int, f.data@, 0, st_chain);
                        }
                    }
                    over = over || f_over;
                    unc = u;
                }
                Err(e) => {
                    proof {
                        lemma_replay_logs_prefix(files@, init_replay(), i as int);
                        let rest = files@.skip(i as int);
                        assert(rest[0] == files@[i as int]);
                        if over {
                            lemma_replay_index_same(f.gen as int, f.data@, 0, st_pre, st_chain);
                        }
                        assert(replay_logs(files@, init_replay()) is None);
                    }
                    return Err(e);
                }
            }
            i += 1;
        }
        proof {
            assert(files@.take(n as int) =~= files@);
        }
        if over {
            return Err(KvsError::Io(String::from_str("stale byte counter overflow")));
        }
        let cg: usize;
        if n == 0 {
            cg = 1;
        } else {
            match files[n - 1].gen.checked_add(1) {
                Some(g) => {
                    cg = g;
                }
                None => {
                    return Err(KvsError::Io(String::from_str("generation counter overflow")));
                }
            }
        }
        let mut logs = files;
        let ghost files_v = logs@;
        let fresh = LogFile { gen: cg, data: Vec::new() };
        let ghost fresh_v = fresh;
        logs.push(fresh);
        let mut pending: Vec<FsEffect> = Vec::new();
        pending.push(FsEffect::Create { gen: cg });
        let s = Self { logs, index, current_gen: cg, uncompacted: unc, pending };
        proof {
            assert(s.logs@ =~= files_v.push(fresh_v));
            lemma_replay_logs_snoc(files_v, fresh_v, init_replay());
            assert(replay_data(cg as int, fresh_v.data@, 0, s.as_replay()) == Some(s.as_replay()));
            assert(gens_sorted(s.logs@)) by {
                assert(forall|p: int| 0 <= p < files_v.len() ==> (#[trigger] files_v[p].gen)
                    <= files_v[files_v.len() - 1].gen);
            }
            assert(s.logs@.drop_last() =~= files_v);
            assert(s.disk() == disk_of(files_v).insert(cg as int, Seq::<char>::empty()));
            assert forall|k: Seq<char>| #[trigger] s.index@.contains_key(k) implies loc_ok_in(
                s.disk(),
                s.index@[k],
                k,
            ) by {
                assert(s.index@[k].gen < cg as int);
            }
            assert(s.wf());
        }
        Ok(s)
    }

    /// Look the current value of a key up: decode the record span the
    /// index points at.  On a well-formed store this never fails and never
    /// changes anything.
    pub fn get(&mut self, key: String) -> (r: Result<Option<String>, KvsError>)
        requires
            old(self).wf(),
        ensures
            *final(self) == *old(self),
            final(self).wf(),
            match r {
                Ok(Some(v)) => old(self).live().contains_key(key@) && old(self).live()[key@]
                    == v@,
                Ok(None) => !old(self).live().contains_key(key@),
                Err(_) => false,
            },
    {
        let keyc = str_to_chars(key.as_str());
        match self.index.get(&keyc) {
            None => Ok(None),
            Some(loc) => {
                proof {
                    assert(loc_ok_in(self.disk(), self.index@[keyc@], keyc@));
                    lemma_disk_of_covered(self.logs@, loc@.gen);
                }
                let li = match self.find_log(loc.gen) {
                    Some(i) => i,
                    None => {
                        proof {
                            assert(false);
                        }
                        return Err(KvsError::UnexpectedCommandType);
                    }
                };
                proof {
                    lemma_disk_of_entry(self.logs@, li as int);
                    let data = self.logs@[li as int].data@;
                    let l = self.index@[keyc@];
                    let span = data.subrange(l.offset, l.offset + l.len);
                    assert(data.skip(l.offset) =~= span + data.skip(l.offset + l.len));
                    lemma_parse_record_local(span, data.skip(l.offset + l.len));
                }
                let f = &self.logs[li];
                match decode_record(&f.data, loc.offset) {
                    Scan::Hit(cmd, _next) => match cmd {
                        Command::Put(_k, v) => {
                            proof {
                                assert(old(self).live()[key@] == v@);
                            }
                            Ok(Some(v))
                        }
                        Command::Remove(_k) => {
                            proof {
                                assert(false);
                            }
                            Err(KvsError::UnexpectedCommandType)
                        }
                    },
                    Scan::More => {
                        proof {
                            assert(false);
                        }
                        Err(KvsError::Codec(String::from_str("log ends inside a record")))
                    }
                    Scan::Bad => {
                        proof {
                            assert(false);
                        }
                        Err(KvsError::Codec(String::from_str("log text is not a record")))
                    }
                }
            }
        }
    }

    /// Length of the record the key's current locator points at, or zero.
    pub open spec fn displaced_len(self, k: Seq<char>) -> int {
        if self.index@.contains_key(k) {
            self.index@[k].len
        } else {
            0
        }
    }

    /// A `set` is owed success when the stale counter and, should
    /// compaction follow, the generation counter still fit the machine.
    pub open spec fn set_ok(self, k: Seq<char>) -> bool {
        &&& self.uncompacted + self.displaced_len(k) <= usize::MAX
        &&& self.uncompacted + self.displaced_len(k) > COMPACTION_THRESHOLD
            ==> self.current_gen + 2 <= usize::MAX
    }

    /// A `remove` of a live key is owed success under the same counter
    /// conditions, with the removal record itself also counted stale.
    pub open spec fn remove_ok(self, k: Seq<char>) -> bool {
        let step = enc_record(Record::Remove { key: k }).len() + self.displaced_len(k);
        &&& step <= usize::MAX
        &&& self.uncompacted + step <= usize::MAX
        &&& self.uncompacted + step > COMPACTION_THRESHOLD ==> self.current_gen + 2 <= usize::MAX
    }

    /// Append one encoded record to the current generation's file, mirror
    /// it in the pending effects, and report where it landed.
    #[verifier::loop_isolation(false)]
    fn append_to_current(&mut self, enc: Vec<char>) -> (start: usize)
        requires
            old(self).wf(),
        ensures
            final(self).logs@ == old(self).logs@.update(
                old(self).logs@.len() - 1,
                final(self).logs@.last(),
            ),
            final(self).logs@.len() == old(self).logs@.len(),
            final(self).logs@.last().gen == old(self).current_gen,
            final(self).logs@.last().data@ == old(self).logs@.last().data@ + enc@,
            start == old(self).logs@.last().data@.len(),
            final(self).index == old(self).index,
            final(self).current_gen == old(self).current_gen,
            final(self).uncompacted == old(self).uncompacted,
            final(self).pending@.len() == old(self).pending@.len() + 1,
            final(self).pending@.take(old(self).pending@.len() as int) == old(self).pending@,
            final(self).pending@.last() matches FsEffect::Append { gen, data } && gen == old(
                self,
            ).current_gen && data@ == enc@,
            final(self).disk() == old(self).disk().insert(
                old(self).current_gen as int,
                old(self).logs@.last().data@ + enc@,
            ),
            total_len(final(self).logs@) == total_len(old(self).logs@) + enc@.len(),
    {
        let mut enc = enc;
        let ghost e0 = enc@;
        let data_string = chars_to_string(&enc);
        let ghost old_logs = self.logs@;
        let mut f = match self.logs.pop() {
            Some(f) => f,
            None => vstd::pervasive::unreached(),
        };
        let start = f.data.len();
        f.data.append(&mut enc);
        let gen = f.gen;
        self.logs.push(f);
        self.pending.push(FsEffect::Append { gen, data: data_string });
        proof {
            assert(self.logs@ =~= old_logs.update(old_logs.len() - 1, self.logs@.last()));
            assert(self.logs@.drop_last() =~= old_logs.drop_last());
            assert(self.pending@.take(old(self).pending@.len() as int) =~= old(self).pending@);
            assert(self.logs@.last().data@ == old_logs.last().data@ + e0);
            assert(total_len(self.logs@) == total_len(old_logs.drop_last())
                + self.logs@.last().data@.len());
            assert(total_len(old_logs) == total_len(old_logs.drop_last())
                + old_logs.last().data@.len());
            assert(self.disk() =~= old(self).disk().insert(
                old(self).current_gen as int,
                old_logs.last().data@ + e0,
            ));
        }
        start
    }

    /// Store `value` under `key`: append a `Put` record, install its span
    /// in the index, and compact when too much has gone stale.
    #[verifier::loop_isolation(false)]
    pub fn set(&mut self, key: String, value: String) -> (r: Result<(), KvsError>)
        requires
            old(self).wf(),
        ensures
            final(self).wf(),
            r is Ok <==> old(self).set_ok(key@),
            r is Ok ==> final(self).live() == old(self).live().insert(key@, value@),
            r is Ok ==> final(self).uncompacted <= COMPACTION_THRESHOLD,
            r is Ok ==> ({
                let e = enc_record(Record::Put { key: key@, value: value@ });
                let delta = final(self).pending@.skip(old(self).pending@.len() as int);
                let compacting = old(self).uncompacted + old(self).displaced_len(key@)
                    > COMPACTION_THRESHOLD;
                let loc = LocatorModel {
                    gen: old(self).current_gen as int,
                    offset: old(self).logs@.last().data@.len() as int,
                    len: e.len() as int,
                };
                &&& delta.len() >= 1
                &&& delta[0]@ == (FsEffectView::Append {
                    gen: old(self).current_gen as int,
                    data: e,
                })
                &&& (compacting <==> final(self).current_gen as int == old(self).current_gen
                    + 2)
                &&& (!compacting ==> final(self).current_gen == old(self).current_gen
                    && delta.len() == 1 && appended_once(*old(self), *final(self), e)
                    && final(self).index@ == old(self).index@.insert(key@, loc)
                    && final(self).uncompacted as int == old(self).uncompacted + old(
                        self,
                    ).displaced_len(key@))
                &&& (compacting ==> exists|mid: KvStore|
                    {
                        &&& #[trigger] compacted_from(mid, *final(self))
                        &&& appended_once(*old(self), mid, e)
                        &&& mid.current_gen == old(self).current_gen
                        &&& mid.index@ == old(self).index@.insert(key@, loc)
                        &&& mid.uncompacted as int == old(self).uncompacted + old(
                            self,
                        ).displaced_len(key@)
                        &&& compaction_delta(mid, delta.skip(1))
                    })
            }),
            r is Err ==> *final(self) == *old(self) && (r matches Err(e) && e matches
                KvsError::Io(_)),
            old(self).pending@.is_prefix_of(final(self).pending@),
            apply_effects(
                old(self).disk(),
                final(self).pending@.skip(old(self).pending@.len() as int),
            ) == final(self).disk(),
    {
        let keyc = str_to_chars(key.as_str());
        let dlen: usize = match self.index.get(&keyc) {
            Some(l) => l.len,
            None => 0,
        };
        let new_unc = match self.uncompacted.checked_add(dlen) {
            Some(u) => u,
            None => {
                proof {
                    assert(self.pending@.skip(self.pending@.len() as int) =~= Seq::<
                        FsEffect,
                    >::empty());
                }
                return Err(KvsError::Io(String::from_str("stale byte counter overflow")));
            }
        };
        let will_compact = new_unc > COMPACTION_THRESHOLD;
        if will_compact && self.current_gen > usize::MAX - 2 {
            proof {
                assert(self.pending@.skip(self.pending@.len() as int) =~= Seq::<
                    FsEffect,
                >::empty());
            }
            return Err(KvsError::Io(String::from_str("generation counter overflow")));
        }
        let ghost pre = *self;
        let ghost kview = key@;
        let ghost vview = value@;
        let cmd = Command::Put(key, value);
        let enc = encode_command(&cmd);
        let ghost e = enc@;
        let ghost rec = cmd@;
        proof {
            lemma_enc_record_parses(rec);
            lemma_parse_record_bounds(e);
        }
        let start = self.append_to_current(enc);
        let gen = self.current_gen;
        let li = self.logs.len() - 1;
        let reclen = self.logs[li].data.len() - start;
        let displaced = self.index.insert(
            keyc,
            RecordLocator { gen, offset: start, len: reclen },
        );
        self.uncompacted = new_unc;
        proof {
            Self::lemma_after_append(pre, *self, kview, vview, e, start as int);
            assert(self.pending@.skip(pre.pending@.len() as int) =~= Seq::<
                FsEffect,
            >::empty().push(self.pending@.last()));
            lemma_apply_effects_snoc(pre.disk(), Seq::<FsEffect>::empty(), self.pending@.last());
            assert(apply_effects(
                pre.disk(),
                self.pending@.skip(pre.pending@.len() as int),
            ) == self.disk());
            assert(appended_once(pre, *self, e)) by {
                assert(forall|p: int| 0 <= p < pre.logs@.len() - 1 ==> self.logs@[p]
                    == pre.logs@[p]);
            }
        }
        if will_compact {
            let ghost mid = *self;
            self.compact_internal();
            proof {
                assert(pre.pending@.is_prefix_of(self.pending@)) by {
                    assert(self.pending@.take(mid.pending@.len() as int).take(
                        pre.pending@.len() as int,
                    ) =~= self.pending@.take(pre.pending@.len() as int));
                }
                lemma_apply_effects_concat(
                    pre.disk(),
                    mid.pending@.skip(pre.pending@.len() as int),
                    self.pending@.skip(mid.pending@.len() as int),
                );
                assert(self.pending@.skip(pre.pending@.len() as int) =~= mid.pending@.skip(
                    pre.pending@.len() as int,
                ) + self.pending@.skip(mid.pending@.len() as int));
                let delta = self.pending@.skip(pre.pending@.len() as int);
                assert(delta[0] == mid.pending@[pre.pending@.len() as int]);
                assert(delta.skip(1) =~= self.pending@.skip(mid.pending@.len() as int));
                assert(compacted_from(mid, *self));
            }
        }
        Ok(())
    }

    /// Withdraw a key: append a `Remove` record, drop the key from the
    /// index, and compact when too much has gone stale.  Absent keys are
    /// refused without writing anything.
    #[verifier::loop_isolation(false)]
    pub fn remove(&mut self, key: String) -> (r: Result<(), KvsError>)
        requires
            old(self).wf(),
        ensures
            final(self).wf(),
            r is Ok <==> (old(self).live().contains_key(key@) && old(self).remove_ok(key@)),
            r matches Err(KvsError::KeyNotFound) <==> !old(self).live().contains_key(key@),
            r is Ok ==> final(self).live() == old(self).live().remove(key@),
            r is Ok ==> final(self).uncompacted <= COMPACTION_THRESHOLD,
            r is Ok ==> ({
                let e = enc_record(Record::Remove { key: key@ });
                let delta = final(self).pending@.skip(old(self).pending@.len() as int);
                let compacting = old(self).uncompacted + e.len() + old(self).displaced_len(key@)
                    > COMPACTION_THRESHOLD;
                &&& delta.len() >= 1
                &&& delta[0]@ == (FsEffectView::Append {
                    gen: old(self).current_gen as int,
                    data: e,
                })
                &&& (compacting <==> final(self).current_gen as int == old(self).current_gen
                    + 2)
                &&& (!compacting ==> final(self).current_gen == old(self).current_gen
                    && delta.len() == 1 && appended_once(*old(self), *final(self), e)
                    && final(self).index@ == old(self).index@.remove(key@)
                    && final(self).uncompacted as int == old(self).uncompacted + e.len() + old(
                        self,
                    ).displaced_len(key@))
                &&& (compacting ==> exists|mid: KvStore|
                    {
                        &&& #[trigger] compacted_from(mid, *final(self))
                        &&& appended_once(*old(self), mid, e)
                        &&& mid.current_gen == old(self).current_gen
                        &&& mid.index@ == old(self).index@.remove(key@)
                        &&& mid.uncompacted as int == old(self).uncompacted + e.len() + old(
                            self,
                        ).displaced_len(key@)
                        &&& compaction_delta(mid, delta.skip(1))
                    })
            }),
            r is Err ==> *final(self) == *old(self),
            old(self).pending@.is_prefix_of(final(self).pending@),
            apply_effects(
                old(self).disk(),
                final(self).pending@.skip(old(self).pending@.len() as int),
            ) == final(self).disk(),
    {
        let keyc = str_to_chars(key.as_str());
        let dlen: usize = match self.index.get(&keyc) {
            Some(l) => l.len,
            None => {
                proof {
                    assert(self.pending@.skip(self.pending@.len() as int) =~= Seq::<
                        FsEffect,
                    >::empty());
                }
                return Err(KvsError::KeyNotFound);
            }
        };
        let ghost kview = key@;
        let cmd = Command::Remove(key);
        let enc = encode_command(&cmd);
        let ghost e = enc@;
        proof {
            lemma_enc_record_parses(cmd@);
            lemma_parse_record_bounds(e);
        }
        let step = match enc.len().checked_add(dlen) {
            Some(s) => s,
            None => {
                proof {
                    assert(self.pending@.skip(self.pending@.len() as int) =~= Seq::<
                        FsEffect,
                    >::empty());
                }
                return Err(KvsError::Io(String::from_str("stale byte counter overflow")));
            }
        };
        let new_unc = match self.uncompacted.checked_add(step) {
            Some(u) => u,
            None => {
                proof {
                    assert(self.pending@.skip(self.pending@.len() as int) =~= Seq::<
                        FsEffect,
                    >::empty());
                }
                return Err(KvsError::Io(String::from_str("stale byte counter overflow")));
            }
        };
        let will_compact = new_unc > COMPACTION_THRESHOLD;
        if will_compact && self.current_gen > usize::MAX - 2 {
            proof {
                assert(self.pending@.skip(self.pending@.len() as int) =~= Seq::<
                    FsEffect,
                >::empty());
            }
            return Err(KvsError::Io(String::from_str("generation counter overflow")));
        }
        let ghost pre = *self;
        let start = self.append_to_current(enc);
        let removed = self.index.remove(&keyc);
        self.uncompacted = new_unc;
        proof {
            Self::lemma_after_remove(pre, *self, kview, e, start as int);
            assert(self.pending@.skip(pre.pending@.len() as int) =~= Seq::<
                FsEffect,
            >::empty().push(self.pending@.last()));
            lemma_apply_effects_snoc(pre.disk(), Seq::<FsEffect>::empty(), self.pending@.last());
            assert(apply_effects(
                pre.disk(),
                self.pending@.skip(pre.pending@.len() as int),
            ) == self.disk());
            assert(appended_once(pre, *self, e)) by {
                assert(forall|p: int| 0 <= p < pre.logs@.len() - 1 ==> self.logs@[p]
                    == pre.logs@[p]);
            }
        }
        if will_compact {
            let ghost mid = *self;
            self.compact_internal();
            proof {
                assert(pre.pending@.is_prefix_of(self.pending@)) by {
                    assert(self.pending@.take(mid.pending@.len() as int).take(
                        pre.pending@.len() as int,
                    ) =~= self.pending@.take(pre.pending@.len() as int));
                }
                lemma_apply_effects_concat(
                    pre.disk(),
                    mid.pending@.skip(pre.pending@.len() as int),
                    self.pending@.skip(mid.pending@.len() as int),
                );
                assert(self.pending@.skip(pre.pending@.len() as int) =~= mid.pending@.skip(
                    pre.pending@.len() as int,
                ) + self.pending@.skip(mid.pending@.len() as int));
                let delta = self.pending@.skip(pre.pending@.len() as int);
                assert(delta[0] == mid.pending@[pre.pending@.len() as int]);
                assert(delta.skip(1) =~= self.pending@.skip(mid.pending@.len() as int));
                assert(compacted_from(mid, *self));
            }
        }
        Ok(())
    }

    /// After appending a `Remove` record and dropping the key, the store
    /// is well-formed again and its live map lost exactly that key.
    proof fn lemma_after_remove(
        pre: KvStore,
        post: KvStore,
        key: Seq<char>,
        e: Seq<char>,
        start: int,
    )
        requires
            pre.wf(),
            parse_record(e) == Parse::<Record>::Done(Record::Remove { key }, e.len() as int),
            1 <= e.len(),
            pre.index@.contains_key(key),
            start == pre.logs@.last().data@.len(),
            post.logs@ == pre.logs@.update(pre.logs@.len() - 1, post.logs@.last()),
            post.logs@.len() == pre.logs@.len(),
            post.logs@.last().gen == pre.current_gen,
            post.logs@.last().data@ == pre.logs@.last().data@ + e,
            post.current_gen == pre.current_gen,
            post.index@ == pre.index@.remove(key),
            post.index.wf(),
            post.index.live_len() == pre.index.live_len() - pre.index@[key].len,
            post.uncompacted == pre.uncompacted + e.len() + pre.index@[key].len,
            post.disk() == pre.disk().insert(pre.current_gen as int, pre.logs@.last().data@ + e),
            total_len(post.logs@) == total_len(pre.logs@) + e.len(),
        ensures
            post.wf(),
            post.live() == pre.live().remove(key),
    {
        let rec = Record::Remove { key };
        let gen = pre.current_gen as int;
        let d = pre.logs@.last().data@;
        lemma_disk_of_entry(pre.logs@, pre.logs@.len() - 1);
        assert(pre.disk()[gen] == d);
        lemma_as_map_fields(pre.index.entries_seq());
        // replay of the logs with the appended record
        assert(pre.logs@ =~= pre.logs@.drop_last().push(pre.logs@.last()));
        assert(post.logs@ =~= pre.logs@.drop_last().push(post.logs@.last()));
        lemma_replay_logs_snoc(pre.logs@.drop_last(), pre.logs@.last(), init_replay());
        lemma_replay_logs_snoc(pre.logs@.drop_last(), post.logs@.last(), init_replay());
        match replay_logs(pre.logs@.drop_last(), init_replay()) {
            Some(st1) => {
                lemma_replay_append(gen, d, e, rec, 0, st1);
                assert(replay_data(gen, d, 0, st1) == Some(pre.as_replay()));
                assert(replay_data(gen, d + e, 0, st1) == Some(
                    apply_record(pre.as_replay(), rec, gen, d.len() as int, e.len() as int),
                ));
            }
            None => {
                assert(false);
            }
        }
        assert(replay_logs(post.logs@, init_replay()) == Some(post.as_replay()));
        // generations are unchanged
        assert(gens_sorted(post.logs@)) by {
            assert(forall|i: int| 0 <= i < pre.logs@.len() ==> (#[trigger] post.logs@[i].gen)
                == pre.logs@[i].gen);
        }
        // every surviving span is untouched by the append
        assert forall|k: Seq<char>| #[trigger] post.index@.contains_key(k) implies loc_ok_in(
            post.disk(),
            post.index@[k],
            k,
        ) by {
            let l = pre.index@[k];
            assert(loc_ok_in(pre.disk(), l, k));
            if l.gen == gen {
                assert(post.disk()[gen].subrange(l.offset, l.offset + l.len) =~= pre.disk()[
                    gen].subrange(l.offset, l.offset + l.len));
            }
        }
        assert(post.wf());
        // the live map lost exactly the removed key
        assert forall|k: Seq<char>| #[trigger] post.index@.contains_key(k) implies post.live()[k]
            == pre.live().remove(key)[k] by {
            let l = pre.index@[k];
            assert(loc_ok_in(pre.disk(), l, k));
            if l.gen == gen {
                assert(post.disk()[gen].subrange(l.offset, l.offset + l.len) =~= pre.disk()[
                    gen].subrange(l.offset, l.offset + l.len));
            }
        }
        assert(post.live() =~= pre.live().remove(key));
    }

    /// After appending a `Put` record and installing its locator, the
    /// store is well-formed again and its live map gained exactly that
    /// pair.
    proof fn lemma_after_append(
        pre: KvStore,
        post: KvStore,
        key: Seq<char>,
        value: Seq<char>,
        e: Seq<char>,
        start: int,
    )
        requires
            pre.wf(),
            parse_record(e) == Parse::<Record>::Done(
                Record::Put { key, value },
                e.len() as int,
            ),
            1 <= e.len(),
            start == pre.logs@.last().data@.len(),
            post.logs@ == pre.logs@.update(pre.logs@.len() - 1, post.logs@.last()),
            post.logs@.len() == pre.logs@.len(),
            post.logs@.last().gen == pre.current_gen,
            post.logs@.last().data@ == pre.logs@.last().data@ + e,
            post.current_gen == pre.current_gen,
            post.index@ == pre.index@.insert(
                key,
                LocatorModel { gen: pre.current_gen as int, offset: start, len: e.len() as int },
            ),
            post.index.wf(),
            post.index.live_len() == pre.index.live_len() + e.len() - pre.displaced_len(key),
            post.uncompacted == pre.uncompacted + pre.displaced_len(key),
            post.disk() == pre.disk().insert(pre.current_gen as int, pre.logs@.last().data@ + e),
            total_len(post.logs@) == total_len(pre.logs@) + e.len(),
        ensures
            post.wf(),
            post.live() == pre.live().insert(key, value),
    {
        let rec = Record::Put { key, value };
        let gen = pre.current_gen as int;
        let d = pre.logs@.last().data@;
        lemma_disk_of_entry(pre.logs@, pre.logs@.len() - 1);
        assert(pre.disk()[gen] == d);
        lemma_as_map_fields(pre.index.entries_seq());
        // replay of the logs with the appended record
        assert(pre.logs@ =~= pre.logs@.drop_last().push(pre.logs@.last()));
        assert(post.logs@ =~= pre.logs@.drop_last().push(post.logs@.last()));
        lemma_replay_logs_snoc(pre.logs@.drop_last(), pre.logs@.last(), init_replay());
        lemma_replay_logs_snoc(pre.logs@.drop_last(), post.logs@.last(), init_replay());
        match replay_logs(pre.logs@.drop_last(), init_replay()) {
            Some(st1) => {
                lemma_replay_append(gen, d, e, rec, 0, st1);
                assert(replay_data(gen, d, 0, st1) == Some(pre.as_replay()));
                assert(replay_data(gen, d + e, 0, st1) == Some(
                    apply_record(pre.as_replay(), rec, gen, d.len() as int, e.len() as int),
                ));
            }
            None => {
                assert(false);
            }
        }
        assert(replay_logs(post.logs@, init_replay()) == Some(post.as_replay()));
        // generations are unchanged
        assert(gens_sorted(post.logs@)) by {
            assert(forall|i: int| 0 <= i < pre.logs@.len() ==> (#[trigger] post.logs@[i].gen)
                == pre.logs@[i].gen);
        }
        // every old span is untouched; the new span is the appended record
        assert forall|k: Seq<char>| #[trigger] post.index@.contains_key(k) implies loc_ok_in(
            post.disk(),
            post.index@[k],
            k,
        ) by {
            if k == key {
                assert(post.disk()[gen].subrange(start, start + e.len() as int) =~= e);
            } else {
                let l = pre.index@[k];
                assert(loc_ok_in(pre.disk(), l, k));
                if l.gen == gen {
                    assert(post.disk()[gen].subrange(l.offset, l.offset + l.len) =~= pre.disk()[gen].subrange(l.offset, l.offset + l.len));
                }
            }
        }
        assert(post.wf());
        // the live map gained exactly the new pair
        assert forall|k: Seq<char>| #[trigger] post.index@.contains_key(k) implies post.live()[k]
            == pre.live().insert(key, value)[k] by {
            if k == key {
                assert(post.disk()[gen].subrange(start, start + e.len() as int) =~= e);
            } else {
                let l = pre.index@[k];
                assert(loc_ok_in(pre.disk(), l, k));
                if l.gen == gen {
                    assert(post.disk()[gen].subrange(l.offset, l.offset + l.len) =~= pre.disk()[gen].subrange(l.offset, l.offset + l.len));
                }
            }
        }
        assert(post.live() =~= pre.live().insert(key, value));
    }

    /// Rewrite the live records into a fresh generation and drop every
    /// stale one.  Afterwards the live contents read exactly as before,
    /// no character on disk is stale, and the writer sits two generations
    /// further.
    pub fn compact(&mut self) -> (r: Result<(), KvsError>)
        requires
            old(self).wf(),
        ensures
            final(self).wf(),
            r is Ok <==> old(self).current_gen + 2 <= usize::MAX,
            r is Ok ==> final(self).live() == old(self).live() && final(self).uncompacted == 0
                && final(self).disk_len() == final(self).index.live_len(),
            r is Ok ==> compacted_from(*old(self), *final(self)) && compaction_delta(
                *old(self),
                final(self).pending@.skip(old(self).pending@.len() as int),
            ),
            r is Err ==> *final(self) == *old(self),
            old(self).pending@.is_prefix_of(final(self).pending@),
            apply_effects(
                old(self).disk(),
                final(self).pending@.skip(old(self).pending@.len() as int),
            ) == final(self).disk(),
    {
        if self.current_gen > usize::MAX - 2 {
            proof {
                assert(self.pending@.skip(self.pending@.len() as int) =~= Seq::<
                    FsEffect,
                >::empty());
            }
            return Err(KvsError::Io(String::from_str("generation counter overflow")));
        }
        self.compact_internal();
        Ok(())
    }

    /// Copy every live record span, in index order, into one fresh
    /// buffer for generation `cgen`, with an index that points at the
    /// copies, packed end to end.
    #[verifier::loop_isolation(false)]
    #[verifier::rlimit(100)]
    fn copy_live_spans(&self, cgen: usize) -> (r: (Vec<char>, Vec<IndexEntry>))
        requires
            self.wf(),
        ensures
            ({
                let (new_data, new_entries) = r;
                let old_entries = self.index.entries_seq();
                let d0 = self.disk();
                &&& new_entries@.len() == old_entries.len()
                &&& distinct_keys(new_entries@)
                &&& replay_data(cgen as int, new_data@, 0, init_replay()) == Some(
                    ReplayState { index: as_map(new_entries@), unc: 0 },
                )
                &&& new_data@.len() == sum_locs(new_entries@)
                &&& new_data@ == spans_concat(d0, old_entries)
                &&& new_data@.len() == sum_locs(old_entries)
                &&& forall|j: int|
                    0 <= j < old_entries.len() ==> (#[trigger] new_entries@[j]).key@
                        == old_entries[j].key@
                &&& forall|j: int|
                    0 <= j < old_entries.len() ==> (#[trigger] new_entries@[j]).loc@.offset
                        == sum_locs(old_entries.take(j))
                &&& forall|j: int|
                    0 <= j < old_entries.len() ==> (#[trigger] new_entries@[j]).loc@.gen
                        == cgen as int && new_entries@[j].loc@.len == old_entries[j].loc@.len
                        && 0 <= new_entries@[j].loc@.offset && new_entries@[j].loc@.offset
                        + new_entries@[j].loc@.len <= new_data@.len() && new_data@.subrange(
                        new_entries@[j].loc@.offset,
                        new_entries@[j].loc@.offset + new_entries@[j].loc@.len,
                    ) == d0[old_entries[j].loc@.gen].subrange(
                        old_entries[j].loc@.offset,
                        old_entries[j].loc@.offset + old_entries[j].loc@.len,
                    )
            }),
    {
        let ghost old_entries = self.index.entries_seq();
        let ghost d0 = self.disk();
        let mut new_data: Vec<char> = Vec::new();
        let mut new_entries: Vec<IndexEntry> = Vec::new();
        let n = self.index.len();
        let mut i: usize = 0;
        while i < n
            invariant
                i <= n,
                new_entries@.len() == i,
                distinct_keys(new_entries@),
                replay_data(cgen as int, new_data@, 0, init_replay()) == Some(
                    ReplayState { index: as_map(new_entries@), unc: 0 },
                ),
                new_data@.len() == sum_locs(new_entries@),
                new_data@ == spans_concat(d0, old_entries.take(i as int)),
                new_data@.len() == sum_locs(old_entries.take(i as int)),
                forall|j: int|
                    0 <= j < i ==> (#[trigger] new_entries@[j]).key@ == old_entries[j].key@,
                forall|j: int|
                    0 <= j < i ==> (#[trigger] new_entries@[j]).loc@.offset == sum_locs(
                        old_entries.take(j),
                    ),
                forall|j: int|
                    0 <= j < i ==> (#[trigger] new_entries@[j]).loc@.gen == cgen as int
                        && new_entries@[j].loc@.len == old_entries[j].loc@.len && 0
                        <= new_entries@[j].loc@.offset && new_entries@[j].loc@.offset
                        + new_entries@[j].loc@.len <= new_data@.len()
                        && new_data@.subrange(
                        new_entries@[j].loc@.offset,
                        new_entries@[j].loc@.offset + new_entries@[j].loc@.len,
                    ) == d0[old_entries[j].loc@.gen].subrange(
                        old_entries[j].loc@.offset,
                        old_entries[j].loc@.offset + old_entries[j].loc@.len,
                    ),
            decreases n - i,
        {
            proof {
                lemma_as_map_entry(old_entries, i as int);
            }
            let e = self.index.entry_at(i);
            let key = clone_chars(&e.key);
            let loc = e.loc;
            proof {
                assert(self.index@.contains_key(key@));
                assert(loc_ok_in(self.disk(), self.index@[key@], key@));
                lemma_disk_of_covered(self.logs@, loc@.gen);
            }
            let li = match self.find_log(loc.gen) {
                Some(li) => li,
                None => vstd::pervasive::unreached(),
            };
            proof {
                lemma_disk_of_entry(self.logs@, li as int);
            }
            let start = new_data.len();
            let ghost prev_data = new_data@;
            let ghost prev_entries = new_entries@;
            push_span(&mut new_data, &self.logs[li].data, loc.offset, loc.len);
            let nloc = RecordLocator { gen: cgen, offset: start, len: loc.len };
            new_entries.push(IndexEntry { key, loc: nloc });
            proof {
                let span = d0[loc@.gen].subrange(loc@.offset, loc@.offset + loc@.len);
                let rec = match parse_record(span) {
                    Parse::Done(r, _) => r,
                    _ => vstd::pervasive::arbitrary(),
                };
                assert(parse_record(span) == Parse::<Record>::Done(rec, span.len() as int));
                assert(rec matches Record::Put { key: k0, value } && k0 == key@);
                assert(old_entries.take(i as int + 1).drop_last() =~= old_entries.take(i as int));
                assert(old_entries.take(i as int + 1).last() == old_entries[i as int]);
                assert(new_data@ == spans_concat(d0, old_entries.take(i as int + 1)));
                assert(new_data@.len() == sum_locs(old_entries.take(i as int + 1)));
                assert forall|j: int| 0 <= j < i + 1 implies (#[trigger] new_entries@[j]).loc@.offset
                    == sum_locs(old_entries.take(j)) by {
                    if j < i {
                        assert(new_entries@[j] == prev_entries[j]);
                    } else {
                        assert(start as int == sum_locs(old_entries.take(i as int)));
                    }
                }
                lemma_replay_append(cgen as int, prev_data, span, rec, 0, init_replay());
                lemma_as_map_absent(prev_entries, key@);
                assert(new_entries@.drop_last() =~= prev_entries);
                assert(as_map(new_entries@) == as_map(prev_entries).insert(key@, nloc@));
                assert(distinct_keys(new_entries@)) by {
                    assert(forall|p: int| 0 <= p < i ==> (#[trigger] new_entries@[p]).key@
                        == old_entries[p].key@);
                    assert(forall|p: int|
                        0 <= p < i ==> old_entries[p].key@ != old_entries[i as int].key@);
                }
                assert forall|j: int| 0 <= j < i + 1 implies (#[trigger] new_entries@[j]).loc@.gen
                    == cgen as int && new_entries@[j].loc@.len == old_entries[j].loc@.len && 0
                    <= new_entries@[j].loc@.offset && new_entries@[j].loc@.offset
                    + new_entries@[j].loc@.len <= new_data@.len() && new_data@.subrange(
                    new_entries@[j].loc@.offset,
                    new_entries@[j].loc@.offset + new_entries@[j].loc@.len,
                ) == d0[old_entries[j].loc@.gen].subrange(
                    old_entries[j].loc@.offset,
                    old_entries[j].loc@.offset + old_entries[j].loc@.len,
                ) by {
                    if j < i {
                        assert(new_entries@[j] == prev_entries[j]);
                        assert(new_data@.subrange(
                            new_entries@[j].loc@.offset,
                            new_entries@[j].loc@.offset + new_entries@[j].loc@.len,
                        ) =~= prev_data.subrange(
                            new_entries@[j].loc@.offset,
                            new_entries@[j].loc@.offset + new_entries@[j].loc@.len,
                        ));
                    } else {
                        assert(new_data@.subrange(start as int, start as int + loc@.len) =~= span);
                    }
                }
            }
            i += 1;
        }
        proof {
            assert(old_entries.take(n as int) =~= old_entries);
        }
        (new_data, new_entries)
    }

    /// Copy every live record span into a fresh generation, point the
    /// index at the copies, delete all older generations, and move the
    /// writer one generation further still.
    #[verifier::loop_isolation(false)]
    #[verifier::rlimit(100)]
    fn compact_internal(&mut self)
        requires
            old(self).wf(),
            old(self).current_gen + 2 <= usize::MAX,
        ensures
            final(self).wf(),
            final(self).live() == old(self).live(),
            final(self).uncompacted == 0,
            final(self).current_gen == old(self).current_gen + 2,
            compacted_from(*old(self), *final(self)),
            compaction_delta(
                *old(self),
                final(self).pending@.skip(old(self).pending@.len() as int),
            ),
            old(self).pending@.is_prefix_of(final(self).pending@),
            apply_effects(
                old(self).disk(),
                final(self).pending@.skip(old(self).pending@.len() as int),
            ) == final(self).disk(),
    {
        let cgen = self.current_gen + 1;
        let ngen = self.current_gen + 2;
        let ghost old_entries = self.index.entries_seq();
        let ghost d0 = self.disk();
        let (new_data, new_entries) = self.copy_live_spans(cgen);
        // Mirror the rewrite onto the directory: the two fresh files, the
        // compacted text, then the deletion of every older generation.
        let ghost base = self.pending@.len() as int;
        let data_string = chars_to_string(&new_data);
        self.pending.push(FsEffect::Create { gen: ngen });
        self.pending.push(FsEffect::Create { gen: cgen });
        self.pending.push(FsEffect::Append { gen: cgen, data: data_string });
        let ghost d3 = d0.insert(ngen as int, Seq::<char>::empty()).insert(cgen as int, new_data@);
        proof {
            let p3 = self.pending@.skip(base);
            assert(p3.len() == 3);
            let e1 = p3[0];
            let e2 = p3[1];
            let e3 = p3[2];
            assert(e1 == FsEffect::Create { gen: ngen });
            assert(e2 == FsEffect::Create { gen: cgen });
            assert(e3 matches FsEffect::Append { gen, data } && gen == cgen && data@ == new_data@);
            assert(p3 =~= Seq::<FsEffect>::empty().push(e1).push(e2).push(e3));
            lemma_apply_effects_snoc(d0, Seq::<FsEffect>::empty().push(e1).push(e2), e3);
            lemma_apply_effects_snoc(d0, Seq::<FsEffect>::empty().push(e1), e2);
            lemma_apply_effects_snoc(d0, Seq::<FsEffect>::empty(), e1);
            assert(apply_effects(d0, Seq::<FsEffect>::empty()) == d0);
            assert(Seq::<char>::empty() + new_data@ =~= new_data@);
            assert(d0.insert(ngen as int, Seq::<char>::empty()).insert(
                cgen as int,
                Seq::<char>::empty(),
            ).insert(cgen as int, new_data@) =~= d3);
            assert(apply_effects(d0, p3) == d3);
        }
        let m = self.logs.len();
        let ghost old_logs = self.logs@;
        let ghost mut dd = d3;
        let mut t: usize = 0;
        while t < m
            invariant
                t <= m,
                m == old_logs.len(),
                self.logs@ == old_logs,
                self.pending@.len() == base + 3 + t,
                self.pending@.take(base) == old(self).pending@,
                self.pending@[base]@ == (FsEffectView::Create { gen: ngen as int }),
                self.pending@[base + 1]@ == (FsEffectView::Create { gen: cgen as int }),
                self.pending@[base + 2]@ == (FsEffectView::Append {
                    gen: cgen as int,
                    data: new_data@,
                }),
                forall|j: int|
                    0 <= j < t ==> (#[trigger] self.pending@[base + 3 + j])@
                        == (FsEffectView::Delete { gen: old_logs[j].gen as int }),
                apply_effects(d0, self.pending@.skip(base)) == dd,
                forall|g: int| dd.contains_key(g) <==> (d3.contains_key(g) && !exists|j: int|
                    0 <= j < t && old_logs[j].gen as int == g),
                forall|g: int| #[trigger] dd.contains_key(g) ==> dd[g] == d3[g],
            decreases m - t,
        {
            let g = self.logs[t].gen;
            let ghost p_pre = self.pending@;
            self.pending.push(FsEffect::Delete { gen: g });
            proof {
                assert(self.pending@.skip(base) =~= p_pre.skip(base).push(
                    FsEffect::Delete { gen: g },
                ));
                lemma_apply_effects_snoc(d0, p_pre.skip(base), FsEffect::Delete { gen: g });
                dd = dd.remove(g as int);
                assert(self.pending@.take(base) =~= p_pre.take(base));
                assert(self.pending@[base + 3 + t]@ == FsEffectView::Delete {
                    gen: old_logs[t as int].gen as int,
                });
                assert forall|h: int| dd.contains_key(h) <==> (d3.contains_key(h) && !exists|j: int|
                    0 <= j < t + 1 && old_logs[j].gen as int == h) by {
                    if h != g as int {
                        assert((exists|j: int| 0 <= j < t + 1 && old_logs[j].gen as int == h)
                            <==> (exists|j: int| 0 <= j < t && old_logs[j].gen as int == h));
                    } else {
                        assert(old_logs[t as int].gen as int == h);
                    }
                }
            }
            t += 1;
        }
        let ghost nd = new_data@;
        let ghost ne = new_entries@;
        let mut logs2: Vec<LogFile> = Vec::new();
        logs2.push(LogFile { gen: cgen, data: new_data });
        logs2.push(LogFile { gen: ngen, data: Vec::new() });
        self.logs = logs2;
        self.index = Index { entries: new_entries };
        self.current_gen = ngen;
        self.uncompacted = 0;
        proof {
            let fc = self.logs@[0];
            let fw = self.logs@[1];
            assert(fc.gen == cgen && fc.data@ == nd);
            assert(fw.gen == ngen && fw.data@ == Seq::<char>::empty());
            assert(self.logs@.drop_last() =~= seq![fc]);
            assert(seq![fc].drop_last() =~= Seq::<LogFile>::empty());
            assert(disk_of(Seq::<LogFile>::empty()) == Map::<int, Seq<char>>::empty());
            assert(disk_of(seq![fc]) =~= Map::<int, Seq<char>>::empty().insert(cgen as int, nd));
            assert(self.disk() =~= Map::<int, Seq<char>>::empty().insert(cgen as int, nd).insert(
                ngen as int,
                Seq::<char>::empty(),
            ));
            assert(total_len(Seq::<LogFile>::empty()) == 0);
            assert(total_len(seq![fc]) == nd.len());
            assert(total_len(self.logs@) == nd.len());
            // the directory after the effects is exactly the two new files
            assert(dd =~= self.disk()) by {
                assert forall|g: int| #[trigger] d0.contains_key(g) implies exists|j: int|
                    0 <= j < old_logs.len() && old_logs[j].gen as int == g by {
                    lemma_disk_of_covered(old_logs, g);
                }
                assert(forall|j: int| 0 <= j < old_logs.len() ==> (#[trigger] old_logs[j].gen)
                    < cgen);
            }
            // replay of the two new files yields exactly the new index
            assert(self.logs@ =~= seq![fc].push(fw));
            lemma_replay_logs_snoc(seq![fc], fw, init_replay());
            assert(seq![fc] =~= Seq::<LogFile>::empty().push(fc));
            lemma_replay_logs_snoc(Seq::<LogFile>::empty(), fc, init_replay());
            assert(replay_logs(self.logs@, init_replay()) == Some(self.as_replay()));
            // every new locator points at its copied span
            assert forall|k: Seq<char>| #[trigger] self.index@.contains_key(k) implies loc_ok_in(
                self.disk(),
                self.index@[k],
                k,
            ) by {
                lemma_as_map_covered(ne, k);
                let j = choose|j: int| 0 <= j < ne.len() && ne[j].key@ == k;
                lemma_as_map_entry(ne, j);
                lemma_as_map_entry(old_entries, j);
                assert(loc_ok_in(d0, old_entries[j].loc@, k));
            }
            assert(self.wf());
            // the live map is unchanged key by key
            assert forall|k: Seq<char>| #[trigger] self.index@.contains_key(k) implies
                old(self).live().contains_key(k) && self.live()[k] == old(self).live()[k] by {
                lemma_as_map_covered(ne, k);
                let j = choose|j: int| 0 <= j < ne.len() && ne[j].key@ == k;
                lemma_as_map_entry(ne, j);
                lemma_as_map_entry(old_entries, j);
            }
            assert forall|k: Seq<char>| #[trigger] old(self).index@.contains_key(k) implies
                self.index@.contains_key(k) by {
                lemma_as_map_covered(old_entries, k);
                let j = choose|j: int| 0 <= j < old_entries.len() && old_entries[j].key@ == k;
                lemma_as_map_entry(ne, j);
            }
            assert(self.live() =~= old(self).live());
            assert(self.pending@.take(base) =~= old(self).pending@);
            // the rewrite and its effect list have exactly the stated shape
            assert(old_entries.take(old_entries.len() as int) =~= old_entries);
            assert(nd == spans_concat(d0, old_entries));
            assert(compacted_from(*old(self), *self));
            let delta = self.pending@.skip(base);
            assert(delta.len() == 3 + old_logs.len());
            assert forall|p: int| 3 <= p < delta.len() implies (#[trigger] delta[p]@)
                == FsEffectView::Delete { gen: old_logs[p - 3].gen as int } by {
                assert(delta[p] == self.pending@[base + p]);
                assert(self.pending@[base + 3 + (p - 3)]@ == FsEffectView::Delete {
                    gen: old_logs[p - 3].gen as int,
                });
            }
            assert(compaction_delta(*old(self), delta));
        }
    }

    /// Replay the records of one file, keeping the index in step.  The
    /// stale count stays exact while it fits the machine; the flag in the
    /// result reports that it no longer does.  Malformed text is the only
    /// failure, and means the file does not replay.
    #[verifier::loop_isolation(false)]
    fn load(gen: usize, data: &Vec<char>, index: &mut Index, unc: usize) -> (r: Result<
        (usize, bool),
        KvsError,
    >)
        requires
            old(index).wf(),
        ensures
            final(index).wf(),
            match r {
                Ok((u, over)) => match replay_data(
                    gen as int,
                    data@,
                    0,
                    ReplayState { index: old(index)@, unc: unc as int },
                ) {
                    Some(st) => {
                        &&& final(index)@ == st.index
                        &&& !over ==> u as int == st.unc && final(index).live_len() + u == old(
                            index,
                        ).live_len() + unc + data@.len()
                        &&& over ==> st.unc > usize::MAX
                    },
                    None => false,
                },
                Err(e) => e matches KvsError::Codec(_) && replay_data(
                    gen as int,
                    data@,
                    0,
                    ReplayState { index: old(index)@, unc: unc as int },
                ) is None,
            },
    {
        let ghost st0 = ReplayState { index: old(index)@, unc: unc as int };
        let n = data.len();
        let mut off: usize = 0;
        let mut cur: usize = unc;
        let mut over = false;
        let ghost mut su: int = unc as int;
        while off < n
            invariant
                n == data@.len(),
                off <= n,
                index.wf(),
                replay_data(gen as int, data@, off as int, ReplayState { index: index@, unc: su })
                    == replay_data(gen as int, data@, 0, st0),
                !over ==> su == cur as int && index.live_len() + cur == old(index).live_len()
                    + unc + off,
                over ==> su > usize::MAX,
            decreases n - off,
        {
            let ghost st_here = ReplayState { index: index@, unc: su };
            match decode_record(data, off) {
                Scan::Hit(cmd, next) => {
                    proof {
                        lemma_parse_record_bounds(data@.skip(off as int));
                        lemma_as_map_fields(index.entries_seq());
                    }
                    let reclen = next - off;
                    match cmd {
                        Command::Put(k, v) => {
                            let keyc = str_to_chars(k.as_str());
                            let displaced = index.insert(
                                keyc,
                                RecordLocator { gen, offset: off, len: reclen },
                            );
                            let dlen = match displaced {
                                Some(l) => l.len,
                                None => 0,
                            };
                            if !over {
                                match cur.checked_add(dlen) {
                                    Some(u2) => {
                                        cur = u2;
                                    }
                                    None => {
                                        over = true;
                                    }
                                }
                            }
                            proof {
                                su = su + dlen;
                            }
                        }
                        Command::Remove(k) => {
                            let keyc = str_to_chars(k.as_str());
                            let removed = index.remove(&keyc);
                            let extra = match removed {
                                Some(l) => l.len,
                                None => 0,
                            };
                            if !over {
                                match reclen.checked_add(extra) {
                                    Some(step) => match cur.checked_add(step) {
                                        Some(u2) => {
                                            cur = u2;
                                        }
                                        None => {
                                            over = true;
                                        }
                                    },
                                    None => {
                                        over = true;
                                    }
                                }
                            }
                            proof {
                                su = su + reclen + extra;
                            }
                        }
                    }
                    off = next;
                }
                Scan::More => {
                    return Err(KvsError::Codec(String::from_str(
                        "log ends inside a record",
                    )));
                }
                Scan::Bad => {
                    return Err(KvsError::Codec(String::from_str(
                        "log text is not a record",
                    )));
                }
            }
        }
        Ok((cur, over))
    }
}

/// What any storage backend owes its callers: a map from keys to values
/// driven by three operations.  `abs` is the backend's live contents and
/// `inv` the well-formedness its operations preserve; the two `admits`
/// predicates say on which inputs success is owed rather than merely
/// possible.
pub trait KvsEngine: Sized {
    /// The live contents.
    spec fn abs(&self) -> Map<Seq<char>, Seq<char>>;

    /// Well-formedness that every operation preserves.
    spec fn inv(&self) -> bool;

    /// Inputs on which a `set` must succeed.
    spec fn set_admits(&self, key: Seq<char>) -> bool;

    /// Inputs on which a `remove` of a live key must succeed.
    spec fn remove_admits(&self, key: Seq<char>) -> bool;

    /// Insert or overwrite; after success the key holds the value.
    fn set(&mut self, key: String, value: String) -> (r: Result<(), KvsError>)
        requires
            old(self).inv(),
        ensures
            final(self).inv(),
            r is Ok ==> final(self).abs() == old(self).abs().insert(key@, value@),
            r is Err ==> final(self).abs() == old(self).abs(),
            old(self).set_admits(key@) ==> r is Ok,
    ;

    /// Read the live value of a key; never changes the contents.
    fn get(&mut self, key: String) -> (r: Result<Option<String>, KvsError>)
        requires
            old(self).inv(),
        ensures
            final(self).inv(),
            final(self).abs() == old(self).abs(),
            match r {
                Ok(Some(v)) => old(self).abs().contains_key(key@) && old(self).abs()[key@]
                    == v@,
                Ok(None) => !old(self).abs().contains_key(key@),
                Err(_) => true,
            },
    ;

    /// Withdraw a live key; an absent key is `KeyNotFound` and nothing is
    /// written.
    fn remove(&mut self, key: String) -> (r: Result<(), KvsError>)
        requires
            old(self).inv(),
        ensures
            final(self).inv(),
            r is Ok ==> final(self).abs() == old(self).abs().remove(key@),
            r is Err ==> final(self).abs() == old(self).abs(),
            r matches Err(KvsError::KeyNotFound) <==> !old(self).abs().contains_key(key@),
            (old(self).abs().contains_key(key@) && old(self).remove_admits(key@)) ==> r is Ok,
    ;
}

impl KvsEngine for KvStore {
    open spec fn abs(&self) -> Map<Seq<char>, Seq<char>> {
        self.live()
    }

    open spec fn inv(&self) -> bool {
        self.wf()
    }

    open spec fn set_admits(&self, key: Seq<char>) -> bool {
        self.set_ok(key)
    }

    open spec fn remove_admits(&self, key: Seq<char>) -> bool {
        self.remove_ok(key)
    }

    fn set(&mut self, key: String, value: String) -> (r: Result<(), KvsError>) {
        KvStore::set(self, key, value)
    }

    fn get(&mut self, key: String) -> (r: Result<Option<String>, KvsError>) {
        KvStore::get(self, key)
    }

    fn remove(&mut self, key: String) -> (r: Result<(), KvsError>) {
        KvStore::remove(self, key)
    }
}

/// The generation number a file name denotes: exactly a decimal stem
/// followed by one `.log`, with the stem fitting the machine; anything
/// else is not a log file and is ignored.
pub open spec fn gen_of_name(s: Seq<char>) -> Option<int> {
    if s.len() >= 4 && s.subrange(s.len() - 4, s.len() as int) == ".log"@ {
        let stem = s.take(s.len() - 4);
        if stem.len() > 0 && all_digits(stem) && digits_val(stem) <= usize::MAX {
            Some(digits_val(stem))
        } else {
            None
        }
    } else {
        None
    }
}

/// Does the buffer end in `.log`?
fn ends_with_log(v: &Vec<char>) -> (b: bool)
    ensures
        b == (v@.len() >= 4 && v@.subrange(v@.len() - 4, v@.len() as int) == ".log"@),
{
    proof {
        reveal_strlit(".log");
    }
    let n = v.len();
    if n < 4 {
        return false;
    }
    let b = v[n - 4] == '.' && v[n - 3] == 'l' && v[n - 2] == 'o' && v[n - 1] == 'g';
    proof {
        let suf = v@.subrange(n as int - 4, n as int);
        if b {
            assert(suf =~= ".log"@);
        } else {
            if suf == ".log"@ {
                assert(v@[n as int - 4] == suf[0]);
                assert(v@[n as int - 3] == suf[1]);
                assert(v@[n as int - 2] == suf[2]);
                assert(v@[n as int - 1] == suf[3]);
                assert(false);
            }
        }
    }
    b
}

/// Parse one directory entry's name as a generation number.
#[verifier::loop_isolation(false)]
fn parse_gen_name(name: &str) -> (r: Option<usize>)
    ensures
        match r {
            Some(g) => gen_of_name(name@) == Some(g as int),
            None => gen_of_name(name@) is None,
        },
{
    let mut v = str_to_chars(name);
    if !ends_with_log(&v) {
        return None;
    }
    let ghost sv = name@;
    let len = v.len();
    v.truncate(len - 4);
    proof {
        assert(v@ =~= sv.take(sv.len() - 4));
    }
    let n = v.len();
    if n == 0 {
        return None;
    }
    let mut val: usize = 0;
    let mut i: usize = 0;
    while i < n
        invariant
            i <= n,
            n == v@.len(),
            v@ == sv.take(sv.len() - 4),
            sv.len() >= 4 && sv.subrange(sv.len() - 4, sv.len() as int) == ".log"@,
            all_digits(v@.take(i as int)),
            val == digits_val(v@.take(i as int)),
        decreases n - i,
    {
        let c = v[i];
        if !is_digit_exec(c) {
            proof {
                assert(!all_digits(v@));
            }
            return None;
        }
        let d = (c as u32 - 48) as usize;
        let ghost pre = v@.take(i as int);
        proof {
            lemma_digits_val_nonneg(pre);
            assert(v@.take(i + 1).drop_last() =~= pre);
            assert(v@.take(i + 1).last() == v@[i as int]);
        }
        if val > (usize::MAX - d) / 10 {
            proof {
                assert(digits_val(v@.take(i + 1)) == val * 10 + d);
                assert(val * 10 + d > usize::MAX) by (nonlinear_arith)
                    requires
                        val > (usize::MAX - d) / 10,
                        d < 10,
                ;
                if all_digits(v@) {
                    lemma_digits_val_monotone(v@, i + 1);
                }
            }
            return None;
        }
        proof {
            assert(val * 10 + d <= usize::MAX) by (nonlinear_arith)
                requires
                    val <= (usize::MAX - d) / 10,
                    d < 10,
            ;
        }
        val = val * 10 + d;
        i += 1;
    }
    proof {
        assert(v@.take(n as int) =~= v@);
    }
    Some(val)
}

/// Insert a generation into an ascending list, keeping it ascending and
/// without repeats.
#[verifier::loop_isolation(false)]
fn insert_sorted(gens: &mut Vec<usize>, g: usize)
    requires
        forall|p: int, q: int| 0 <= p < q < old(gens)@.len() ==> old(gens)@[p] < old(gens)@[q],
    ensures
        forall|p: int, q: int|
            0 <= p < q < final(gens)@.len() ==> final(gens)@[p] < final(gens)@[q],
        forall|x: usize| final(gens)@.contains(x) <==> (old(gens)@.contains(x) || x == g),
{
    let n = gens.len();
    let mut i: usize = 0;
    while i < n && gens[i] < g
        invariant
            i <= n,
            n == gens@.len(),
            gens@ == old(gens)@,
            forall|j: int| 0 <= j < i ==> gens@[j] < g,
        decreases n - i,
    {
        i += 1;
    }
    if i < n && gens[i] == g {
        proof {
            assert(gens@[i as int] == g);
            assert(gens@.contains(g));
        }
        return;
    }
    let ghost s0 = gens@;
    gens.insert(i, g);
    let ghost s1 = gens@;
    proof {
        assert(s1.len() == s0.len() + 1);
        assert(forall|j: int| 0 <= j < i ==> s1[j] == s0[j]);
        assert(s1[i as int] == g);
        assert(forall|j: int| i < j < s1.len() ==> s1[j] == s0[j - 1]);
        assert forall|p: int, q: int| 0 <= p < q < s1.len() implies s1[p] < s1[q] by {
            if q == i {
                assert(s1[p] == s0[p]);
            } else if p == i && q > i {
                assert(s0[q - 1] >= s0[i as int]);
            }
        }
        assert forall|x: usize| s1.contains(x) implies (s0.contains(x) || x == g) by {
            let j = choose|j: int| 0 <= j < s1.len() && s1[j] == x;
            if j < i {
                assert(s0[j] == x);
            } else if j > i {
                assert(s0[j - 1] == x);
            }
        }
        assert forall|x: usize| (s0.contains(x) || x == g) implies s1.contains(x) by {
            if x == g {
                assert(s1[i as int] == x);
            } else {
                let j = choose|j: int| 0 <= j < s0.len() && s0[j] == x;
                if j < i {
                    assert(s1[j] == x);
                } else {
                    assert(s1[j + 1] == x);
                }
            }
        }
    }
}

/// The generation numbers a directory listing holds, in ascending order
/// and without repeats.  Names that do not denote a log file are ignored.
#[verifier::loop_isolation(false)]
pub fn gen_list(names: &Vec<String>) -> (gens: Vec<usize>)
    ensures
        forall|p: int, q: int| 0 <= p < q < gens@.len() ==> gens@[p] < gens@[q],
        forall|x: usize| gens@.contains(x) <==> exists|i: int|
            0 <= i < names@.len() && gen_of_name(names@[i]@) == Some(x as int),
{
    let mut gens: Vec<usize> = Vec::new();
    let n = names.len();
    let mut i: usize = 0;
    while i < n
        invariant
            i <= n,
            n == names@.len(),
            forall|p: int, q: int| 0 <= p < q < gens@.len() ==> gens@[p] < gens@[q],
            forall|x: usize| gens@.contains(x) <==> exists|j: int|
                0 <= j < i && gen_of_name(names@[j]@) == Some(x as int),
        decreases n - i,
    {
        let ghost before = gens@;
        match parse_gen_name(names[i].as_str()) {
            Some(g) => {
                insert_sorted(&mut gens, g);
                proof {
                    assert forall|x: usize| gens@.contains(x) implies exists|j: int|
                        0 <= j < i + 1 && gen_of_name(names@[j]@) == Some(x as int) by {
                        if before.contains(x) {
                            let j = choose|j: int|
                                0 <= j < i && gen_of_name(names@[j]@) == Some(x as int);
                            assert(0 <= j < i + 1 && gen_of_name(names@[j]@) == Some(x as int));
                        } else {
                            assert(x == g);
                            assert(gen_of_name(names@[i as int]@) == Some(x as int));
                        }
                    }
                    assert forall|x: usize| (exists|j: int|
                        0 <= j < i + 1 && gen_of_name(names@[j]@) == Some(x as int)) implies gens@
                        .contains(x) by {
                        let j = choose|j: int|
                            0 <= j < i + 1 && gen_of_name(names@[j]@) == Some(x as int);
                        if j < i {
                            assert(before.contains(x));
                        } else {
                            assert(x == g);
                        }
                    }
                }
            }
            None => {
                proof {
                    assert forall|x: usize| gens@.contains(x) implies exists|j: int|
                        0 <= j < i + 1 && gen_of_name(names@[j]@) == Some(x as int) by {
                        let j = choose|j: int|
                            0 <= j < i && gen_of_name(names@[j]@) == Some(x as int);
                        assert(0 <= j < i + 1 && gen_of_name(names@[j]@) == Some(x as int));
                    }
                    assert forall|x: usize| (exists|j: int|
                        0 <= j < i + 1 && gen_of_name(names@[j]@) == Some(x as int)) implies gens@
                        .contains(x) by {
                        let j = choose|j: int|
                            0 <= j < i + 1 && gen_of_name(names@[j]@) == Some(x as int);
                        assert(j < i);
                    }
                }
            }
        }
        i += 1;
    }
    gens
}

/// The file name of a generation's log: the number in decimal, then
/// `.log`.
pub fn log_path(gen: usize) -> (s: String)
    ensures
        s@ == dec_rep(gen as int) + ".log"@,
{
    let mut v: Vec<char> = Vec::new();
    push_dec_rep(&mut v, gen);
    let mut s = chars_to_string(&v);
    s.append(".log");
    s
}

} // verus!
