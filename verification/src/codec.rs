//! The self-delimiting record codec.
//!
//! Records are written as text and concatenated end to end with no framing
//! headers, so the decoder must find the end of each record on its own.  A
//! string item is spelled as its character count in decimal, a colon, and
//! then exactly that many characters; a record is a one-character tag
//! followed by its string items.  Decoding distinguishes three outcomes: a
//! complete record, a prefix that may still grow into one, and text that can
//! never start a record.

use crate::digits::all_digits;
use crate::digits::dec_rep;
use crate::digits::digit_prefix_len;
use crate::digits::digit_val;
use crate::digits::digits_val;
use crate::digits::is_digit;
use crate::digits::lemma_dec_rep_digits;
use crate::digits::lemma_dec_rep_val;
use crate::digits::lemma_digit_prefix_append;
use crate::digits::lemma_digit_prefix_basic;
use crate::digits::lemma_digit_prefix_exact;
use crate::digits::lemma_digits_val_monotone;
use crate::digits::lemma_digits_val_nonneg;
use crate::digits::push_dec_rep;
use vstd::prelude::*;

verus! {

broadcast use vstd::std_specs::vec::group_vec_axioms;

/// Outcome of parsing one item from the front of a character sequence:
/// a finished value with the number of characters it occupied, a prefix
/// that may still grow into a value, or text no extension can repair.
pub enum Parse<T> {
    Done(T, int),
    More,
    Bad,
}

/// Executable counterpart of [`Parse`]: a decoded value together with the
/// position right after it, a request for more input, or a rejection.
pub enum Scan<T> {
    Hit(T, usize),
    More,
    Bad,
}

/// A record as it appears on disk: the last `Set` for a key gives its
/// value, and a `Remove` withdraws it.
pub enum Record {
    Put { key: Seq<char>, value: Seq<char> },
    Remove { key: Seq<char> },
}

/// The unit written to a log file.
pub enum Command {
    Put(String, String),
    Remove(String),
}

impl View for Command {
    type V = Record;

    open spec fn view(&self) -> Record {
        match self {
            Command::Put(k, v) => Record::Put { key: k@, value: v@ },
            Command::Remove(k) => Record::Remove { key: k@ },
        }
    }
}

/// Encoding of one string item: length in decimal, a colon, the characters.
pub open spec fn enc_str(s: Seq<char>) -> Seq<char> {
    dec_rep(s.len() as int) + seq![':'] + s
}

/// Parse one string item from the front of `s`.
pub open spec fn parse_str(s: Seq<char>) -> Parse<Seq<char>> {
    let k = digit_prefix_len(s);
    if k == s.len() {
        Parse::More
    } else if k == 0 {
        Parse::Bad
    } else if s[k] != ':' {
        Parse::Bad
    } else {
        let n = digits_val(s.take(k));
        if s.len() < k + 1 + n {
            Parse::More
        } else {
            Parse::Done(s.subrange(k + 1, k + 1 + n), k + 1 + n)
        }
    }
}

/// Encoding of a record: a tag character followed by its string items.
pub open spec fn enc_record(r: Record) -> Seq<char> {
    match r {
        Record::Put { key, value } => seq!['S'] + enc_str(key) + enc_str(value),
        Record::Remove { key } => seq!['R'] + enc_str(key),
    }
}

/// Parse one record from the front of `s`.
pub open spec fn parse_record(s: Seq<char>) -> Parse<Record> {
    if s.len() == 0 {
        Parse::More
    } else if s[0] == 'S' {
        match parse_str(s.skip(1)) {
            Parse::Done(k, n1) => match parse_str(s.skip(1 + n1)) {
                Parse::Done(v, n2) => Parse::Done(
                    Record::Put { key: k, value: v },
                    1 + n1 + n2,
                ),
                Parse::More => Parse::More,
                Parse::Bad => Parse::Bad,
            },
            Parse::More => Parse::More,
            Parse::Bad => Parse::Bad,
        }
    } else if s[0] == 'R' {
        match parse_str(s.skip(1)) {
            Parse::Done(k, n1) => Parse::Done(Record::Remove { key: k }, 1 + n1),
            Parse::More => Parse::More,
            Parse::Bad => Parse::Bad,
        }
    } else {
        Parse::Bad
    }
}

/// A parsed string item occupies at least two characters and no more than
/// the whole input.
pub proof fn lemma_parse_str_bounds(s: Seq<char>)
    ensures
        parse_str(s) matches Parse::Done(v, n) ==> 2 <= n <= s.len() && v.len() <= n - 2,
{
    lemma_digit_prefix_basic(s);
    let k = digit_prefix_len(s);
    lemma_digits_val_nonneg(s.take(k));
}

/// Appending input does not disturb an already complete string item.
pub proof fn lemma_parse_str_local(s: Seq<char>, t: Seq<char>)
    requires
        parse_str(s) matches Parse::Done(v, n),
    ensures
        parse_str(s + t) == parse_str(s),
{
    let k = digit_prefix_len(s);
    lemma_digit_prefix_basic(s);
    lemma_digit_prefix_append(s, t);
    assert((s + t)[k] == s[k]);
    assert((s + t).take(k) =~= s.take(k));
    let n = digits_val(s.take(k));
    lemma_digits_val_nonneg(s.take(k));
    assert((s + t).subrange(k + 1, k + 1 + n) =~= s.subrange(k + 1, k + 1 + n));
}

/// An encoded string item parses back to the string, whatever follows it.
pub proof fn lemma_parse_str_round_trip(v: Seq<char>, t: Seq<char>)
    ensures
        parse_str(enc_str(v) + t) == Parse::<Seq<char>>::Done(v, enc_str(v).len() as int),
{
    let d = dec_rep(v.len() as int);
    lemma_dec_rep_digits(v.len() as int);
    lemma_dec_rep_val(v.len() as int);
    let s = enc_str(v) + t;
    let rest = seq![':'] + v + t;
    assert(s =~= d + rest);
    assert(!is_digit(rest[0]));
    lemma_digit_prefix_exact(d, rest);
    let k = digit_prefix_len(s);
    assert(k == d.len());
    assert(s[k] == ':');
    assert(s.take(k) =~= d);
    assert(digits_val(s.take(k)) == v.len());
    assert(s.len() >= k + 1 + v.len());
    assert(s.subrange(k + 1, k + 1 + v.len() as int) =~= v);
}

/// A complete string item is already determined by the characters it
/// consumed: cutting the input anywhere past its end parses the same.
pub proof fn lemma_parse_str_restrict(s: Seq<char>, m: int)
    requires
        parse_str(s) matches Parse::Done(v, n) && n <= m <= s.len(),
    ensures
        parse_str(s.take(m)) == parse_str(s),
{
    let k = digit_prefix_len(s);
    lemma_digit_prefix_basic(s);
    let x = s.take(m);
    lemma_digit_prefix_basic(x);
    lemma_digits_val_nonneg(s.take(k));
    let n = match parse_str(s) {
        Parse::Done(v, n) => n,
        _ => 0,
    };
    assert(k + 1 <= n);
    assert(x + s.skip(m) =~= s);
    if digit_prefix_len(x) == x.len() {
        // Then every one of the first m characters is a digit, yet s[k] is
        // a colon with k < m.
        assert(x[k] == s[k]);
        assert(is_digit(x[k]));
        assert(false);
    }
    lemma_digit_prefix_append(x, s.skip(m));
    assert(digit_prefix_len(x) == k);
    assert(x[k] == s[k]);
    assert(x.take(k) =~= s.take(k));
    let nv = digits_val(s.take(k));
    lemma_digits_val_nonneg(s.take(k));
    assert(x.len() >= k + 1 + nv);
    assert(x.subrange(k + 1, k + 1 + nv) =~= s.subrange(k + 1, k + 1 + nv));
}

/// A complete record is already determined by the characters it consumed.
pub proof fn lemma_parse_record_restrict(s: Seq<char>, m: int)
    requires
        parse_record(s) matches Parse::Done(r, n) && n <= m <= s.len(),
    ensures
        parse_record(s.take(m)) == parse_record(s),
{
    let x = s.take(m);
    lemma_parse_record_bounds(s);
    assert(x[0] == s[0]);
    assert(x.skip(1) =~= s.skip(1).take(m - 1));
    lemma_parse_str_bounds(s.skip(1));
    if s[0] == 'S' {
        match parse_str(s.skip(1)) {
            Parse::Done(k, n1) => {
                match parse_str(s.skip(1 + n1)) {
                    Parse::Done(v, n2) => {
                        lemma_parse_str_bounds(s.skip(1 + n1));
                        lemma_parse_str_restrict(s.skip(1), m - 1);
                        lemma_parse_str_restrict(s.skip(1 + n1), m - 1 - n1);
                        assert(x.skip(1 + n1) =~= s.skip(1 + n1).take(m - 1 - n1));
                    }
                    _ => {}
                }
            }
            _ => {}
        }
    } else {
        match parse_str(s.skip(1)) {
            Parse::Done(k, n1) => {
                lemma_parse_str_restrict(s.skip(1), m - 1);
            }
            _ => {}
        }
    }
}

/// A parsed record occupies at least one character and no more than the
/// whole input.
pub proof fn lemma_parse_record_bounds(s: Seq<char>)
    ensures
        parse_record(s) matches Parse::Done(r, n) ==> 1 <= n <= s.len(),
{
    if s.len() > 0 {
        lemma_parse_str_bounds(s.skip(1));
        match parse_str(s.skip(1)) {
            Parse::Done(k, n1) => {
                lemma_parse_str_bounds(s.skip(1 + n1));
            }
            _ => {}
        }
    }
}

/// Appending input does not disturb an already complete record.
pub proof fn lemma_parse_record_local(s: Seq<char>, t: Seq<char>)
    requires
        parse_record(s) matches Parse::Done(r, n),
    ensures
        parse_record(s + t) == parse_record(s),
{
    assert((s + t)[0] == s[0]);
    assert((s + t).skip(1) =~= s.skip(1) + t);
    lemma_parse_str_local(s.skip(1), t);
    lemma_parse_str_bounds(s.skip(1));
    if s[0] == 'S' {
        match parse_str(s.skip(1)) {
            Parse::Done(k, n1) => {
                assert((s + t).skip(1 + n1) =~= s.skip(1 + n1) + t);
                lemma_parse_str_local(s.skip(1 + n1), t);
            }
            _ => {}
        }
    }
}

/// An encoded record parses back to the record, whatever follows it.
pub proof fn lemma_parse_record_round_trip(r: Record, t: Seq<char>)
    ensures
        parse_record(enc_record(r) + t) == Parse::<Record>::Done(r, enc_record(r).len() as int),
{
    let s = enc_record(r) + t;
    match r {
        Record::Put { key, value } => {
            assert(s[0] == 'S');
            assert(s.skip(1) =~= enc_str(key) + (enc_str(value) + t));
            lemma_parse_str_round_trip(key, enc_str(value) + t);
            let n1 = enc_str(key).len() as int;
            assert(s.skip(1 + n1) =~= enc_str(value) + t);
            lemma_parse_str_round_trip(value, t);
        }
        Record::Remove { key } => {
            assert(s[0] == 'R');
            assert(s.skip(1) =~= enc_str(key) + t);
            lemma_parse_str_round_trip(key, t);
        }
    }
}

/// An encoded record alone parses back exactly, consuming everything.
pub proof fn lemma_enc_record_parses(r: Record)
    ensures
        parse_record(enc_record(r)) == Parse::<Record>::Done(r, enc_record(r).len() as int),
{
    assert(enc_record(r) + Seq::<char>::empty() =~= enc_record(r));
    lemma_parse_record_round_trip(r, Seq::<char>::empty());
}

/// Encoding of a whole sequence of records, end to end.
pub open spec fn enc_records(rs: Seq<Record>) -> Seq<char>
    decreases rs.len(),
{
    if rs.len() == 0 {
        Seq::<char>::empty()
    } else {
        enc_record(rs[0]) + enc_records(rs.drop_first())
    }
}

/// Parse a whole stream of records; `None` when the text is not exactly a
/// concatenation of complete records.
pub open spec fn parse_records(s: Seq<char>) -> Option<Seq<Record>>
    decreases s.len(),
{
    if s.len() == 0 {
        Some(Seq::<Record>::empty())
    } else {
        match parse_record(s) {
            Parse::Done(r, n) => if 1 <= n <= s.len() {
                match parse_records(s.skip(n)) {
                    Some(rest) => Some(seq![r] + rest),
                    None => None,
                }
            } else {
                None
            },
            Parse::More => None,
            Parse::Bad => None,
        }
    }
}

/// Encoding a sequence of records and decoding the stream yields the same
/// sequence.
pub proof fn lemma_records_round_trip(rs: Seq<Record>)
    ensures
        parse_records(enc_records(rs)) == Some(rs),
    decreases rs.len(),
{
    if rs.len() == 0 {
        assert(rs =~= Seq::<Record>::empty());
    } else {
        let r0 = rs[0];
        let rest = rs.drop_first();
        let s = enc_records(rs);
        lemma_parse_record_round_trip(r0, enc_records(rest));
        let n = enc_record(r0).len() as int;
        lemma_parse_record_bounds(s);
        assert(s.skip(n) =~= enc_records(rest));
        lemma_records_round_trip(rest);
        assert(seq![r0] + rest =~= rs);
    }
}

/// The spec-level meaning of a string scan's outcome.
pub open spec fn str_scan_ok(r: Scan<Vec<char>>, s: Seq<char>, from: int) -> bool {
    match parse_str(s.skip(from)) {
        Parse::Done(v, n) => {
            &&& r matches Scan::Hit(item, next)
            &&& item@ == v
            &&& next == from + n
            &&& next <= s.len()
        },
        Parse::More => r is More,
        Parse::Bad => r is Bad,
    }
}

/// The spec-level meaning of a record scan's outcome.
pub open spec fn record_scan_ok(r: Scan<Command>, s: Seq<char>, from: int) -> bool {
    match parse_record(s.skip(from)) {
        Parse::Done(rec, n) => {
            &&& r matches Scan::Hit(cmd, next)
            &&& cmd@ == rec
            &&& next == from + n
            &&& next <= s.len()
        },
        Parse::More => r is More,
        Parse::Bad => r is Bad,
    }
}

/// Is `c` a decimal digit?
pub fn is_digit_exec(c: char) -> (b: bool)
    ensures
        b == is_digit(c),
{
    '0' <= c && c <= '9'
}

/// Collect the characters of a string slice into a vector.
pub fn str_to_chars(s: &str) -> (out: Vec<char>)
    ensures
        out@ == s@,
{
    let n = s.unicode_len();
    let mut out: Vec<char> = Vec::new();
    let mut i: usize = 0;
    while i < n
        invariant
            n == s@.len(),
            i <= n,
            out@ == s@.take(i as int),
        decreases n - i,
    {
        out.push(s.get_char(i));
        i += 1;
        proof {
            assert(out@ =~= s@.take(i as int));
        }
    }
    proof {
        assert(s@.take(n as int) =~= s@);
    }
    out
}

/// Relies on `String`'s `FromIterator` over characters: collecting yields a
/// string of exactly the given characters in order.
#[verifier::external_body]
pub fn chars_to_string(v: &Vec<char>) -> (s: String)
    ensures
        s@ == v@,
{
    v.iter().collect()
}

/// Append one encoded string item to `out`.
pub fn push_str_item(out: &mut Vec<char>, s: &Vec<char>)
    ensures
        final(out)@ == old(out)@ + enc_str(s@),
{
    push_dec_rep(out, s.len());
    out.push(':');
    let ghost before = out@;
    let n = s.len();
    let mut j: usize = 0;
    while j < n
        invariant
            n == s@.len(),
            j <= n,
            out@ == before + s@.take(j as int),
        decreases n - j,
    {
        out.push(s[j]);
        j += 1;
        proof {
            assert(out@ =~= before + s@.take(j as int));
        }
    }
    proof {
        assert(s@.take(n as int) =~= s@);
        assert(out@ =~= old(out)@ + enc_str(s@));
    }
}

/// Encode one command to the character sequence that goes in a log file.
pub fn encode_command(cmd: &Command) -> (out: Vec<char>)
    ensures
        out@ == enc_record(cmd@),
{
    let mut out: Vec<char> = Vec::new();
    match cmd {
        Command::Put(k, v) => {
            out.push('S');
            let kc = str_to_chars(k.as_str());
            let vc = str_to_chars(v.as_str());
            push_str_item(&mut out, &kc);
            push_str_item(&mut out, &vc);
            proof {
                assert(out@ =~= enc_record(cmd@));
            }
        }
        Command::Remove(k) => {
            out.push('R');
            let kc = str_to_chars(k.as_str());
            push_str_item(&mut out, &kc);
            proof {
                assert(out@ =~= enc_record(cmd@));
            }
        }
    }
    out
}

/// Scan one string item of `s` starting at `from`.
pub fn decode_str_item(s: &Vec<char>, from: usize) -> (r: Scan<Vec<char>>)
    requires
        from <= s@.len(),
    ensures
        str_scan_ok(r, s@, from as int),
{
    let ghost suf = s@.skip(from as int);
    let len = s.len();
    let mut i = from;
    while i < len && is_digit_exec(s[i])
        invariant
            from <= i <= len,
            len == s@.len(),
            forall|j: int| from <= j < i ==> is_digit(s@[j]),
        decreases len - i,
    {
        i += 1;
    }
    proof {
        lemma_digit_prefix_basic(suf);
        if i == len {
            assert(all_digits(suf)) by {
                assert(forall|j: int| 0 <= j < suf.len() ==> suf[j] == s@[from + j]);
            }
            if suf.len() > 0 {
                assert(digit_prefix_len(suf) == suf.len()) by {
                    if digit_prefix_len(suf) < suf.len() {
                        assert(is_digit(suf[digit_prefix_len(suf)]));
                    }
                }
            }
        } else {
            let ghost digits = s@.subrange(from as int, i as int);
            assert(all_digits(digits));
            assert(suf =~= digits + s@.skip(i as int));
            assert(s@.skip(i as int)[0] == s@[i as int]);
            if i > from {
                lemma_digit_prefix_exact(digits, s@.skip(i as int));
            } else {
                assert(digit_prefix_len(suf) == 0);
            }
            assert(digit_prefix_len(suf) == i - from);
        }
    }
    if i == len {
        return Scan::More;
    }
    if i == from {
        return Scan::Bad;
    }
    if s[i] != ':' {
        proof {
            assert(suf[(i - from) as int] == s@[i as int]);
        }
        return Scan::Bad;
    }
    proof {
        assert(suf[(i - from) as int] == s@[i as int]);
    }
    // The digit prefix of the suffix is exactly s[from .. i]; read its value.
    let ghost k = (i - from) as int;
    let ghost dprefix = suf.take(k);
    proof {
        assert(dprefix =~= s@.subrange(from as int, i as int));
        assert(all_digits(dprefix));
    }
    let mut val: usize = 0;
    let mut j = from;
    let mut overflow = false;
    while j < i
        invariant
            from <= j <= i <= len,
            len == s@.len(),
            k == i - from,
            dprefix == suf.take(k),
            dprefix =~= s@.subrange(from as int, i as int),
            all_digits(dprefix),
            forall|p: int| from <= p < i ==> is_digit(s@[p]),
            !overflow ==> val == digits_val(dprefix.take(j - from)),
            overflow ==> digits_val(dprefix) > usize::MAX,
        decreases i - j,
    {
        let c = s[j];
        let d = (c as u32 - 48) as usize;
        proof {
            assert(is_digit(s@[j as int]));
            assert(d == digit_val(c));
        }
        if !overflow {
            let ghost pre = dprefix.take(j - from);
            proof {
                lemma_digits_val_nonneg(pre);
                assert(dprefix.take(j - from + 1).drop_last() =~= pre);
                assert(dprefix.take(j - from + 1).last() == s@[j as int]);
            }
            if val > (usize::MAX - d) / 10 {
                overflow = true;
                proof {
                    assert(digits_val(dprefix.take(j - from + 1)) == val * 10 + d);
                    assert(val * 10 + d > usize::MAX) by (nonlinear_arith)
                        requires
                            val > (usize::MAX - d) / 10,
                            d < 10,
                    ;
                    lemma_digits_val_monotone(dprefix, j - from + 1);
                }
            } else {
                proof {
                    assert(val * 10 + d <= usize::MAX) by (nonlinear_arith)
                        requires
                            val <= (usize::MAX - d) / 10,
                            d < 10,
                    ;
                }
                val = val * 10 + d;
            }
        }
        j += 1;
    }
    proof {
        assert(dprefix.take(k) =~= dprefix);
    }
    if overflow {
        // A length too large for memory: the remaining input is necessarily
        // shorter, so the item is incomplete.
        return Scan::More;
    }
    // val == digits_val of the digit prefix.
    let after = i + 1;
    if len - after < val {
        return Scan::More;
    }
    let mut item: Vec<char> = Vec::new();
    let mut p = after;
    while p < after + val
        invariant
            after + val <= len,
            len == s@.len(),
            after <= p <= after + val,
            item@ == s@.subrange(after as int, p as int),
        decreases after + val - p,
    {
        item.push(s[p]);
        p += 1;
        proof {
            assert(item@ =~= s@.subrange(after as int, p as int));
        }
    }
    proof {
        let n = digits_val(suf.take(k));
        assert(n == val);
        assert(suf.len() >= k + 1 + n);
        assert(suf.subrange(k + 1, k + 1 + n) =~= s@.subrange(after as int, (after + val) as int));
    }
    Scan::Hit(item, after + val)
}

/// Scan one record of `s` starting at `from`.
pub fn decode_record(s: &Vec<char>, from: usize) -> (r: Scan<Command>)
    requires
        from <= s@.len(),
    ensures
        record_scan_ok(r, s@, from as int),
{
    let ghost suf = s@.skip(from as int);
    if from == s.len() {
        return Scan::More;
    }
    let tag = s[from];
    proof {
        assert(suf[0] == s@[from as int]);
        assert(suf.skip(1) =~= s@.skip(from as int + 1));
    }
    if tag == 'S' {
        match decode_str_item(s, from + 1) {
            Scan::Hit(k, next1) => {
                proof {
                    lemma_parse_str_bounds(suf.skip(1));
                    match parse_str(suf.skip(1)) {
                        Parse::Done(v0, n1) => {
                            assert(suf.skip(1 + n1) =~= s@.skip(next1 as int));
                        }
                        _ => {}
                    }
                }
                match decode_str_item(s, next1) {
                    Scan::Hit(v, next2) => Scan::Hit(
                        Command::Put(chars_to_string(&k), chars_to_string(&v)),
                        next2,
                    ),
                    Scan::More => Scan::More,
                    Scan::Bad => Scan::Bad,
                }
            }
            Scan::More => Scan::More,
            Scan::Bad => Scan::Bad,
        }
    } else if tag == 'R' {
        match decode_str_item(s, from + 1) {
            Scan::Hit(k, next1) => Scan::Hit(Command::Remove(chars_to_string(&k)), next1),
            Scan::More => Scan::More,
            Scan::Bad => Scan::Bad,
        }
    } else {
        Scan::Bad
    }
}

} // verus!
