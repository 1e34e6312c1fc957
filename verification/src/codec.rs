//! Line-oriented encoding of navigation records.
//!
//! One record per entry: the decimal digits of the identifier, a space, the
//! decimal digits of the timestamp, a space, the path bytes, and a newline.
//! A trailing partial record (no terminating newline) is ignored on load; a
//! complete line that does not parse marks the whole file as corrupt.

use vstd::prelude::*;
use vstd::arithmetic::div_mod::lemma_fundamental_div_mod;
use vstd::slice::slice_to_vec;
use crate::entry::{Entry, EntryModel, NL, SP, entry_wf, entries_view};

verus! {

pub open spec fn is_digit(b: u8) -> bool {
    48 <= b <= 57
}

pub open spec fn all_digits(s: Seq<u8>) -> bool {
    forall|i: int| 0 <= i < s.len() ==> is_digit(s[i])
}

/// Decimal digits of `n`, most significant first.
pub open spec fn spec_digits(n: nat) -> Seq<u8>
    decreases n,
{
    if n < 10 {
        seq![(48 + n) as u8]
    } else {
        spec_digits(n / 10).push((48 + n % 10) as u8)
    }
}

/// Numeric value of a sequence of decimal digit bytes.
pub open spec fn digits_val(s: Seq<u8>) -> int
    decreases s.len(),
{
    if s.len() == 0 {
        0
    } else {
        digits_val(s.drop_last()) * 10 + s.last() - 48
    }
}

pub proof fn lemma_spec_digits(n: nat)
    ensures
        spec_digits(n).len() >= 1,
        all_digits(spec_digits(n)),
        digits_val(spec_digits(n)) == n,
    decreases n,
{
    if n < 10 {
        let s = spec_digits(n);
        assert(s.drop_last() =~= Seq::<u8>::empty());
        assert(digits_val(Seq::<u8>::empty()) == 0);
        assert(digits_val(s) == digits_val(s.drop_last()) * 10 + s.last() - 48);
        assert(s.last() == (48 + n) as u8);
    } else {
        lemma_spec_digits(n / 10);
        let s = spec_digits(n);
        assert(s.drop_last() =~= spec_digits(n / 10));
        assert(s.last() == (48 + n % 10) as u8);
        assert(digits_val(s) == digits_val(spec_digits(n / 10)) * 10 + (48 + n % 10) - 48);
        assert(digits_val(s) == (n / 10) * 10 + n % 10);
        assert((n / 10) * 10 + n % 10 == n) by {
            lemma_fundamental_div_mod(n as int, 10);
        };
    }
}

pub proof fn lemma_digits_val_nonneg(s: Seq<u8>)
    requires
        all_digits(s),
    ensures
        digits_val(s) >= 0,
    decreases s.len(),
{
    if s.len() > 0 {
        assert(all_digits(s.drop_last()));
        lemma_digits_val_nonneg(s.drop_last());
    }
}

/// Extending a digit string never shrinks its value, so an overflowing
/// prefix means the whole string overflows.
pub proof fn lemma_digits_val_take_le(s: Seq<u8>, j: int)
    requires
        all_digits(s),
        0 <= j <= s.len(),
    ensures
        digits_val(s.take(j)) <= digits_val(s),
    decreases s.len(),
{
    if j == s.len() {
        assert(s.take(j) =~= s);
    } else {
        assert(all_digits(s.drop_last()));
        lemma_digits_val_nonneg(s.drop_last());
        lemma_digits_val_take_le(s.drop_last(), j);
        assert(s.drop_last().take(j) =~= s.take(j));
    }
}

/// A digit string parses exactly when it is non-empty, all digits, and its
/// value fits in the identifier type.
pub open spec fn spec_parse_u64(s: Seq<u8>) -> Option<u64> {
    if s.len() > 0 && all_digits(s) && digits_val(s) <= u64::MAX {
        Some(digits_val(s) as u64)
    } else {
        None
    }
}

pub fn parse_u64(s: &[u8]) -> (r: Option<u64>)
    ensures
        r == spec_parse_u64(s@),
{
    if s.len() == 0 {
        return None;
    }
    let mut acc: u128 = 0;
    let mut i: usize = 0;
    while i < s.len()
        invariant
            0 <= i <= s@.len(),
            s@.len() > 0,
            all_digits(s@.take(i as int)),
            acc <= u64::MAX,
            acc == digits_val(s@.take(i as int)),
        decreases s@.len() - i,
    {
        let b = s[i];
        if b < 48 || b > 57 {
            assert(!is_digit(s@[i as int]));
            return None;
        }
        proof {
            assert(s@.take(i + 1 as int).drop_last() =~= s@.take(i as int));
            assert(s@.take(i + 1 as int).last() == s@[i as int]);
        }
        let nv: u128 = acc * 10 + (b - 48) as u128;
        if nv > u64::MAX as u128 {
            proof {
                assert(digits_val(s@.take(i + 1 as int)) == nv);
                if all_digits(s@) && digits_val(s@) <= u64::MAX {
                    lemma_digits_val_take_le(s@, i + 1 as int);
                    assert(false);
                }
            }
            return None;
        }
        acc = nv;
        i = i + 1;
    }
    proof {
        assert(s@.take(s@.len() as int) =~= s@);
    }
    Some(acc as u64)
}

/// Renders `n` as its decimal digits, most significant first.
pub fn u64_to_digits(n: u64) -> (r: Vec<u8>)
    ensures
        r@ == spec_digits(n as nat),
{
    let mut rev: Vec<u8> = Vec::new();
    let mut cur: u64 = n;
    if cur == 0 {
        let mut out: Vec<u8> = Vec::new();
        out.push(48);
        assert(out@ =~= spec_digits(0));
        return out;
    }
    while cur > 0
        invariant
            cur > 0 ==> spec_digits(n as nat) == spec_digits(cur as nat) + rev@.reverse(),
            cur == 0 ==> spec_digits(n as nat) == rev@.reverse(),
        decreases cur,
    {
        let d: u8 = 48 + (cur % 10) as u8;
        proof {
            let c = cur as nat;
            if c >= 10 {
                assert(spec_digits(c) == spec_digits(c / 10).push((48 + c % 10) as u8));
            }
            assert(rev@.push(d).reverse() =~= seq![d] + rev@.reverse());
            if c >= 10 {
                assert(spec_digits(c / 10) + (seq![d] + rev@.reverse()) =~= (spec_digits(c / 10)
                    + seq![d]) + rev@.reverse());
                assert(spec_digits(c / 10).push((48 + c % 10) as u8) =~= spec_digits(c / 10)
                    + seq![d]);
            } else {
                assert(spec_digits(c) =~= seq![d]);
            }
        }
        rev.push(d);
        cur = cur / 10;
    }
    let mut out: Vec<u8> = Vec::new();
    let mut k: usize = rev.len();
    while k > 0
        invariant
            0 <= k <= rev@.len(),
            out@ =~= rev@.reverse().take(rev@.len() - k),
        decreases k,
    {
        out.push(rev[k - 1]);
        k = k - 1;
        proof {
            assert(out@ =~= rev@.reverse().take(rev@.len() - k));
        }
    }
    proof {
        assert(rev@.reverse().take(rev@.len() as int) =~= rev@.reverse());
    }
    out
}

/// Index of the first occurrence of `b` in `s`, or `s.len()` if absent.
pub open spec fn first_index_of(s: Seq<u8>, b: u8) -> int
    decreases s.len(),
{
    if s.len() == 0 {
        0
    } else if s[0] == b {
        0
    } else {
        1 + first_index_of(s.skip(1), b)
    }
}

pub proof fn lemma_first_index_of(s: Seq<u8>, b: u8)
    ensures
        0 <= first_index_of(s, b) <= s.len(),
        first_index_of(s, b) < s.len() ==> s[first_index_of(s, b)] == b,
        forall|i: int| 0 <= i < first_index_of(s, b) ==> s[i] != b,
        first_index_of(s, b) < s.len() <==> s.contains(b),
    decreases s.len(),
{
    if s.len() == 0 {
        assert(!s.contains(b));
    } else if s[0] == b {
        assert(s.contains(b));
    } else {
        lemma_first_index_of(s.skip(1), b);
        let t = s.skip(1);
        let f = first_index_of(s, b);
        assert(forall|i: int| 0 <= i < f - 1 ==> s[i + 1] == t[i] && t[i] != b);
        assert(forall|i: int| 0 <= i < f ==> s[i] != b) by {
            assert(forall|i: int| 1 <= i < f ==> s[i] == t[i - 1] && t[i - 1] != b);
        };
        if s.contains(b) {
            let w = choose|i: int| 0 <= i < s.len() && s[i] == b;
            assert(t[w - 1] == b);
            assert(t.contains(b));
        }
        if t.contains(b) {
            let w = choose|i: int| 0 <= i < t.len() && t[i] == b;
            assert(s[w + 1] == b);
            assert(s.contains(b));
        }
    }
}

pub proof fn lemma_first_index_of_concat(a: Seq<u8>, b: Seq<u8>, x: u8)
    ensures
        a.contains(x) ==> first_index_of(a + b, x) == first_index_of(a, x),
        !a.contains(x) ==> first_index_of(a + b, x) == a.len() + first_index_of(b, x),
    decreases a.len(),
{
    if a.len() == 0 {
        assert(a + b =~= b);
        assert(!a.contains(x));
    } else {
        let s = a + b;
        assert(s[0] == a[0]);
        if a[0] == x {
            assert(a.contains(x));
        } else {
            lemma_first_index_of_concat(a.skip(1), b, x);
            assert(s.skip(1) =~= a.skip(1) + b);
            if a.contains(x) {
                let w = choose|i: int| 0 <= i < a.len() && a[i] == x;
                assert(a.skip(1)[w - 1] == x);
                assert(a.skip(1).contains(x));
            }
            if a.skip(1).contains(x) {
                let w = choose|i: int| 0 <= i < a.skip(1).len() && a.skip(1)[i] == x;
                assert(a[w + 1] == x);
                assert(a.contains(x));
            }
        }
    }
}

/// Bytes of one record without its terminating newline.
pub open spec fn spec_entry_body(e: EntryModel) -> Seq<u8> {
    spec_digits(e.id as nat) + seq![SP] + spec_digits(e.timestamp as nat) + seq![SP] + e.path
}

/// Bytes of one complete record in the backing file.
pub open spec fn spec_encode_entry(e: EntryModel) -> Seq<u8> {
    spec_entry_body(e) + seq![NL]
}

/// Meaning of one complete line of the backing file: identifier digits, a
/// space, timestamp digits, a space, then a non-empty path.
pub open spec fn spec_parse_line(line: Seq<u8>) -> Option<EntryModel> {
    let i = first_index_of(line, SP);
    if i >= line.len() {
        None
    } else {
        let rest = line.skip(i + 1);
        let j = first_index_of(rest, SP);
        if j >= rest.len() {
            None
        } else {
            let path = rest.skip(j + 1);
            match spec_parse_u64(line.take(i)) {
                Some(id) => match spec_parse_u64(rest.take(j)) {
                    Some(ts) => if path.len() > 0 {
                        Some(EntryModel { id: id, timestamp: ts, path: path })
                    } else {
                        None
                    },
                    None => None,
                },
                None => None,
            }
        }
    }
}

pub proof fn lemma_digits_free_of(n: nat, b: u8)
    requires
        !is_digit(b),
    ensures
        !spec_digits(n).contains(b),
{
    lemma_spec_digits(n);
    if spec_digits(n).contains(b) {
        let w = choose|i: int| 0 <= i < spec_digits(n).len() && spec_digits(n)[i] == b;
        assert(is_digit(spec_digits(n)[w]));
    }
}

/// Parsing inverts encoding on a single well-formed record body.
pub proof fn lemma_parse_line_of_body(e: EntryModel)
    requires
        entry_wf(e),
    ensures
        spec_parse_line(spec_entry_body(e)) == Some(e),
        !spec_entry_body(e).contains(NL),
{
    let a = spec_digits(e.id as nat);
    let c = spec_digits(e.timestamp as nat);
    let p = e.path;
    lemma_spec_digits(e.id as nat);
    lemma_spec_digits(e.timestamp as nat);
    lemma_digits_free_of(e.id as nat, SP);
    lemma_digits_free_of(e.timestamp as nat, SP);
    lemma_digits_free_of(e.id as nat, NL);
    lemma_digits_free_of(e.timestamp as nat, NL);
    let body = spec_entry_body(e);
    let tail1 = seq![SP] + c + seq![SP] + p;
    assert(body =~= a + tail1);
    lemma_first_index_of_concat(a, tail1, SP);
    assert(tail1[0] == SP);
    assert(first_index_of(tail1, SP) == 0);
    let i = first_index_of(body, SP);
    assert(i == a.len());
    assert(body.take(i) =~= a);
    let rest = body.skip(i + 1);
    assert(rest =~= c + (seq![SP] + p));
    lemma_first_index_of_concat(c, seq![SP] + p, SP);
    assert((seq![SP] + p)[0] == SP);
    assert(first_index_of(seq![SP] + p, SP) == 0);
    assert(first_index_of(rest, SP) == first_index_of(c + (seq![SP] + p), SP));
    let j = first_index_of(rest, SP);
    assert(j == c.len());
    assert(rest.take(j) =~= c);
    assert(rest.skip(j + 1) =~= p);
    assert(spec_parse_u64(a) == Some(e.id));
    assert(spec_parse_u64(c) == Some(e.timestamp));
    assert(spec_parse_line(body) == Some(EntryModel { id: e.id, timestamp: e.timestamp, path: p }));
    assert(!body.contains(NL)) by {
        if body.contains(NL) {
            let w = choose|k: int| 0 <= k < body.len() && body[k] == NL;
            if w < a.len() {
                assert(a.contains(body[w]));
            } else if w == a.len() {
            } else if w < a.len() + 1 + c.len() {
                assert(c.contains(body[w]));
            } else if w == a.len() + 1 + c.len() {
            } else {
                assert(p[w - (a.len() + c.len() + 2)] == NL);
                assert(p.contains(NL));
            }
        }
    };
}

/// Meaning of the whole backing file: complete lines are parsed in order; a
/// trailing partial record without a newline is ignored; any complete line
/// that does not parse poisons the result.
pub open spec fn spec_parse_records(data: Seq<u8>) -> Option<Seq<EntryModel>>
    decreases data.len(),
    via spec_parse_records_decreases
{
    if !data.contains(NL) {
        Some(Seq::empty())
    } else {
        let i = first_index_of(data, NL);
        match spec_parse_line(data.take(i)) {
            Some(e) => match spec_parse_records(data.skip(i + 1)) {
                Some(rest) => Some(seq![e] + rest),
                None => None,
            },
            None => None,
        }
    }
}

#[via_fn]
proof fn spec_parse_records_decreases(data: Seq<u8>) {
    lemma_first_index_of(data, NL);
}

/// Every entry that parsing yields is well-formed: its path is non-empty and
/// holds no record separator.
pub proof fn lemma_parse_records_wf(data: Seq<u8>)
    ensures
        match spec_parse_records(data) {
            Some(es) => forall|k: int| 0 <= k < es.len() ==> entry_wf(#[trigger] es[k]),
            None => true,
        },
    decreases data.len(),
{
    lemma_first_index_of(data, NL);
    if data.contains(NL) {
        let i = first_index_of(data, NL);
        let line = data.take(i);
        match spec_parse_line(line) {
            Some(e) => {
                lemma_parse_records_wf(data.skip(i + 1));
                assert(entry_wf(e)) by {
                    let a = first_index_of(line, SP);
                    let rest = line.skip(a + 1);
                    let b = first_index_of(rest, SP);
                    let p = rest.skip(b + 1);
                    lemma_first_index_of(line, SP);
                    lemma_first_index_of(rest, SP);
                    assert(p.len() > 0);
                    if p.contains(NL) {
                        let w = choose|k: int| 0 <= k < p.len() && p[k] == NL;
                        assert(p[w] == rest[w + b + 1]);
                        assert(rest[w + b + 1] == line[w + b + 1 + a + 1]);
                        assert(data[w + b + a + 2] == NL);
                        assert(forall|k: int| 0 <= k < i ==> data[k] != NL);
                    }
                };
                match spec_parse_records(data.skip(i + 1)) {
                    Some(rest_es) => {
                        let es = seq![e] + rest_es;
                        assert(forall|k: int| 1 <= k < es.len() ==> es[k] == rest_es[k - 1]);
                        assert(es[0] == e);
                    },
                    None => {},
                }
            },
            None => {},
        }
    }
}

/// Bytes of the whole backing file for a stack of entries, bottom first.
pub open spec fn spec_encode_stack(es: Seq<EntryModel>) -> Seq<u8>
    decreases es.len(),
{
    if es.len() == 0 {
        Seq::empty()
    } else {
        spec_encode_entry(es[0]) + spec_encode_stack(es.skip(1))
    }
}

pub proof fn lemma_encode_stack_push(es: Seq<EntryModel>, e: EntryModel)
    ensures
        spec_encode_stack(es.push(e)) == spec_encode_stack(es) + spec_encode_entry(e),
    decreases es.len(),
{
    if es.len() == 0 {
        assert(es.push(e)[0] == e);
        assert(es.push(e).skip(1) =~= Seq::<EntryModel>::empty());
        assert(spec_encode_stack(Seq::<EntryModel>::empty()) == Seq::<u8>::empty());
        assert(spec_encode_stack(es.push(e)) == spec_encode_entry(e) + Seq::<u8>::empty());
        assert(spec_encode_entry(e) + Seq::<u8>::empty() =~= spec_encode_entry(e));
        assert(spec_encode_stack(es) + spec_encode_entry(e) =~= spec_encode_entry(e));
    } else {
        lemma_encode_stack_push(es.skip(1), e);
        assert(es.push(e)[0] == es[0]);
        assert(es.push(e).skip(1) =~= es.skip(1).push(e));
        assert(spec_encode_entry(es[0]) + (spec_encode_stack(es.skip(1)) + spec_encode_entry(e))
            =~= (spec_encode_entry(es[0]) + spec_encode_stack(es.skip(1))) + spec_encode_entry(e));
    }
}

/// Round trip: parsing the encoding of any stack of well-formed entries
/// yields exactly those entries.
pub proof fn lemma_parse_records_of_encode(es: Seq<EntryModel>)
    requires
        forall|k: int| 0 <= k < es.len() ==> entry_wf(#[trigger] es[k]),
    ensures
        spec_parse_records(spec_encode_stack(es)) == Some(es),
    decreases es.len(),
{
    if es.len() == 0 {
        let data = spec_encode_stack(es);
        assert(data.len() == 0);
        assert(!data.contains(NL));
        assert(spec_parse_records(data) == Some(Seq::<EntryModel>::empty()));
        assert(Seq::<EntryModel>::empty() =~= es);
    } else {
        let e = es[0];
        assert(entry_wf(e));
        lemma_parse_line_of_body(e);
        let body = spec_entry_body(e);
        let rest_enc = spec_encode_stack(es.skip(1));
        let data = spec_encode_stack(es);
        assert(data =~= body + (seq![NL] + rest_enc));
        lemma_first_index_of_concat(body, seq![NL] + rest_enc, NL);
        assert((seq![NL] + rest_enc)[0] == NL);
        assert(first_index_of(seq![NL] + rest_enc, NL) == 0);
        let i = first_index_of(data, NL);
        assert(i == body.len());
        assert(data[body.len() as int] == NL);
        assert(data.contains(NL));
        assert(data.take(i) =~= body);
        assert(data.skip(i + 1) =~= rest_enc);
        assert(forall|k: int| 0 <= k < es.skip(1).len() ==> entry_wf(#[trigger] es.skip(1)[k]));
        lemma_parse_records_of_encode(es.skip(1));
        assert(spec_parse_records(data) == Some(seq![e] + es.skip(1)));
        assert(seq![e] + es.skip(1) =~= es);
    }
}

/// Appending a partial record (one with no newline) to a file never changes
/// what loading reads: every preceding complete record stays readable.
pub proof fn lemma_trailing_partial_ignored(data: Seq<u8>, tail: Seq<u8>)
    requires
        !tail.contains(NL),
    ensures
        spec_parse_records(data + tail) == spec_parse_records(data),
    decreases data.len(),
{
    let s = data + tail;
    if data.contains(NL) {
        let w = choose|i: int| 0 <= i < data.len() && data[i] == NL;
        assert(s[w] == NL);
        assert(s.contains(NL));
        lemma_first_index_of_concat(data, tail, NL);
        lemma_first_index_of(data, NL);
        let i = first_index_of(data, NL);
        assert(first_index_of(s, NL) == i);
        assert(s.take(i) =~= data.take(i));
        assert(s.skip(i + 1) =~= data.skip(i + 1) + tail);
        lemma_trailing_partial_ignored(data.skip(i + 1), tail);
    } else {
        if s.contains(NL) {
            let w = choose|i: int| 0 <= i < s.len() && s[i] == NL;
            if w < data.len() {
                assert(data.contains(NL));
            } else {
                assert(tail[w - data.len()] == NL);
                assert(tail.contains(NL));
            }
        }
        assert(!s.contains(NL));
    }
}

/// Appends the bytes of `src` to `dst`.
pub fn append_bytes(dst: &mut Vec<u8>, src: &[u8])
    ensures
        final(dst)@ == old(dst)@ + src@,
{
    let mut i: usize = 0;
    while i < src.len()
        invariant
            0 <= i <= src@.len(),
            dst@ == old(dst)@ + src@.take(i as int),
        decreases src@.len() - i,
    {
        let b = src[i];
        proof {
            assert(old(dst)@ + src@.take(i + 1 as int) =~= (old(dst)@ + src@.take(
                i as int,
            )).push(src@[i as int]));
        }
        dst.push(b);
        i = i + 1;
    }
    proof {
        assert(src@.take(src@.len() as int) =~= src@);
    }
}

/// Renders one complete record: identifier digits, a space, timestamp
/// digits, a space, the path bytes, and the terminating newline.
pub fn encode_entry(e: &Entry) -> (r: Vec<u8>)
    ensures
        r@ == spec_encode_entry(e@),
{
    let mut out = u64_to_digits(e.id);
    out.push(SP);
    let ts = u64_to_digits(e.timestamp);
    append_bytes(&mut out, ts.as_slice());
    out.push(SP);
    append_bytes(&mut out, e.path.as_slice());
    out.push(NL);
    proof {
        assert(out@ =~= spec_encode_entry(e@));
    }
    out
}

/// Copies a byte vector.
pub fn copy_bytes(v: &Vec<u8>) -> (r: Vec<u8>)
    ensures
        r@ == v@,
{
    slice_to_vec(v.as_slice())
}

/// First position of `b` in `s` at or after `from`.
pub(crate) fn find_byte(s: &[u8], from: usize, b: u8) -> (r: Option<usize>)
    requires
        from <= s@.len(),
    ensures
        match r {
            Some(j) => from <= j < s@.len() && s@[j as int] == b && forall|k: int|
                from <= k < j ==> s@[k] != b,
            None => forall|k: int| from <= k < s@.len() ==> s@[k] != b,
        },
{
    let mut j: usize = from;
    while j < s.len()
        invariant
            from <= j <= s@.len(),
            forall|k: int| from <= k < j ==> s@[k] != b,
        decreases s@.len() - j,
    {
        if s[j] == b {
            return Some(j);
        }
        j = j + 1;
    }
    None
}

/// Parses one complete line of the backing file into an entry.
pub fn parse_entry_line(line: &[u8]) -> (r: Option<Entry>)
    ensures
        spec_parse_line(line@) is Some ==> r is Some && r->0@ == spec_parse_line(line@)->0,
        spec_parse_line(line@) is None ==> r is None,
{
    proof {
        lemma_first_index_of(line@, SP);
    }
    let i = match find_byte(line, 0, SP) {
        None => {
            return None;
        },
        Some(i) => i,
    };
    proof {
        assert(first_index_of(line@, SP) == i);
    }
    let n = line.len();
    let rest: &[u8] = &line[i + 1..n];
    proof {
        assert(rest@ =~= line@.skip(i + 1));
        lemma_first_index_of(rest@, SP);
    }
    let j = match find_byte(rest, 0, SP) {
        None => {
            return None;
        },
        Some(j) => j,
    };
    proof {
        assert(first_index_of(rest@, SP) == j);
    }
    let id_part: &[u8] = &line[0..i];
    proof {
        assert(id_part@ =~= line@.take(i as int));
    }
    let id = match parse_u64(id_part) {
        None => {
            return None;
        },
        Some(id) => id,
    };
    let ts_part: &[u8] = &rest[0..j];
    proof {
        assert(ts_part@ =~= rest@.take(j as int));
    }
    let ts = match parse_u64(ts_part) {
        None => {
            return None;
        },
        Some(ts) => ts,
    };
    if j + 1 < rest.len() {
        let path = slice_to_vec(&rest[j + 1..rest.len()]);
        proof {
            assert(path@ =~= rest@.skip(j + 1));
        }
        Some(Entry { id: id, timestamp: ts, path: path })
    } else {
        proof {
            assert(rest@.skip(j + 1).len() == 0);
        }
        None
    }
}

pub open spec fn spec_parse_prepend(pre: Seq<EntryModel>, r: Option<Seq<EntryModel>>) -> Option<
    Seq<EntryModel>,
> {
    match r {
        Some(rest) => Some(pre + rest),
        None => None,
    }
}

/// Reads every complete record of the backing file in order, ignoring a
/// trailing partial record; yields nothing if some complete line is
/// malformed.
pub fn parse_records(data: &[u8]) -> (r: Option<Vec<Entry>>)
    ensures
        spec_parse_records(data@) is Some ==> r is Some && entries_view(r->0@)
            == spec_parse_records(data@)->0,
        spec_parse_records(data@) is None ==> r is None,
{
    let mut out: Vec<Entry> = Vec::new();
    let mut pos: usize = 0;
    proof {
        assert(data@.skip(0) =~= data@);
        assert(entries_view(out@) =~= Seq::<EntryModel>::empty());
        if spec_parse_records(data@) is Some {
            let es = spec_parse_records(data@)->0;
            assert(Seq::<EntryModel>::empty() + es =~= es);
        }
    }
    loop
        invariant
            pos <= data@.len(),
            spec_parse_records(data@) == spec_parse_prepend(
                entries_view(out@),
                spec_parse_records(data@.skip(pos as int)),
            ),
        decreases data@.len() - pos,
    {
        let dn = data.len();
        let ghost s = data@.skip(pos as int);
        proof {
            assert(dn == data@.len());
            assert(forall|k: int| 0 <= k < s.len() ==> s[k] == data@[k + pos]);
        }
        match find_byte(data, pos, NL) {
            None => {
                proof {
                    if s.contains(NL) {
                        let w = choose|k: int| 0 <= k < s.len() && s[k] == NL;
                        assert(data@[w + pos] == NL);
                    }
                    assert(spec_parse_records(s) == Some(Seq::<EntryModel>::empty()));
                    assert(entries_view(out@) + Seq::<EntryModel>::empty() =~= entries_view(
                        out@,
                    ));
                }
                return Some(out);
            },
            Some(j) => {
                proof {
                    lemma_first_index_of(s, NL);
                    assert(s[j - pos] == data@[j as int]);
                    assert(s.contains(NL));
                    assert(first_index_of(s, NL) == j - pos);
                }
                let line: &[u8] = &data[pos..j];
                proof {
                    assert(line@ =~= s.take(j - pos));
                }
                match parse_entry_line(line) {
                    None => {
                        proof {
                            assert(spec_parse_records(s) is None);
                        }
                        return None;
                    },
                    Some(en) => {
                        proof {
                            let rest = spec_parse_records(s.skip(j - pos + 1));
                            assert(s.skip(j - pos + 1) =~= data@.skip(j + 1));
                            assert(entries_view(out@.push(en)) =~= entries_view(out@).push(
                                en@,
                            ));
                            match rest {
                                Some(rs) => {
                                    assert(spec_parse_records(s) == Some(seq![en@] + rs));
                                    assert(entries_view(out@) + (seq![en@] + rs) =~= entries_view(
                                        out@,
                                    ).push(en@) + rs);
                                },
                                None => {
                                    assert(spec_parse_records(s) is None);
                                },
                            }
                        }
                        out.push(en);
                        pos = j + 1;
                    },
                }
            },
        }
    }
}

} // verus!
