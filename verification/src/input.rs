//! The line-oriented text exchange format understood by legacy cdb tools:
//! records of the form `+K,V:key->value\n` with decimal ASCII lengths,
//! terminated by a single blank line. The parser reports the byte offset
//! and nature of the first defect; the dump side produces the same format.

use vstd::prelude::*;

verus! {

use crate::db::{KV, kv_views};
use crate::bytebuf::bytes_copy_from_slice;
use vstd::slice::slice_subrange;

/// The nature of a text-format defect.
#[derive(Clone, Copy, Debug, PartialEq, Eq, Structural)]
pub enum ParseErrorKind {
    /// A record does not start with `+`, or a record's terminating
    /// newline is missing.
    MalformedHeader,
    /// A length field is empty, not decimal, or too large for the format.
    BadLength,
    /// The `->` between key and value is missing.
    MissingArrow,
    /// The input ends in the middle of a record, or without the blank
    /// line that marks end of stream.
    UnexpectedEof,
}

/// A text-format defect: where it sits and what it is.
#[derive(Clone, Copy, Debug, PartialEq, Eq, Structural)]
pub struct ParseError {
    pub offset: usize,
    pub kind: ParseErrorKind,
}

/// Whether a byte is a decimal ASCII digit.
pub open spec fn is_digit(c: u8) -> bool {
    48 <= c <= 57
}

/// The first position at or after `i` that is past the end of `s` or does
/// not hold a decimal digit.
pub open spec fn digits_end(s: Seq<u8>, i: int) -> int
    decreases s.len() - i,
{
    if i < 0 || i >= s.len() || !is_digit(s[i]) {
        i
    } else {
        digits_end(s, i + 1)
    }
}

/// The value of the decimal digits of `s` at `[i, j)`.
pub open spec fn digits_val(s: Seq<u8>, i: int, j: int) -> int
    decreases j - i,
{
    if j <= i {
        0
    } else {
        digits_val(s, i, j - 1) * 10 + s[j - 1] - 48
    }
}

/// What parsing one record at `pos` yields: a record and the position
/// after it, the end-of-stream blank line, or a defect.
pub enum StepResult {
    Rec { k: Seq<u8>, v: Seq<u8>, next: int },
    End { next: int },
    Fail { off: int, kind: ParseErrorKind },
}

/// Parses one record of `s` at `pos`.
///
/// A blank line ends the stream. A record is `+`, the decimal key length,
/// `,`, the decimal value length, `:`, the key bytes, `->`, the value
/// bytes, and a newline. Lengths above what the format's 32-bit fields can
/// express are defects.
pub open spec fn spec_step(s: Seq<u8>, pos: int) -> StepResult {
    let n = s.len() as int;
    if pos < 0 || pos >= n {
        StepResult::Fail { off: pos, kind: ParseErrorKind::UnexpectedEof }
    } else if s[pos] == 10 {
        StepResult::End { next: pos + 1 }
    } else if s[pos] != 43 {
        StepResult::Fail { off: pos, kind: ParseErrorKind::MalformedHeader }
    } else {
        let d1 = digits_end(s, pos + 1);
        if d1 >= n {
            StepResult::Fail { off: n, kind: ParseErrorKind::UnexpectedEof }
        } else if d1 == pos + 1 {
            StepResult::Fail { off: pos + 1, kind: ParseErrorKind::BadLength }
        } else if s[d1] != 44 {
            StepResult::Fail { off: d1, kind: ParseErrorKind::BadLength }
        } else {
            let d2 = digits_end(s, d1 + 1);
            if d2 >= n {
                StepResult::Fail { off: n, kind: ParseErrorKind::UnexpectedEof }
            } else if d2 == d1 + 1 {
                StepResult::Fail { off: d1 + 1, kind: ParseErrorKind::BadLength }
            } else if s[d2] != 58 {
                StepResult::Fail { off: d2, kind: ParseErrorKind::BadLength }
            } else {
                let klen = digits_val(s, pos + 1, d1);
                let vlen = digits_val(s, d1 + 1, d2);
                if klen > 0xFFFF_FFFF {
                    StepResult::Fail { off: pos + 1, kind: ParseErrorKind::BadLength }
                } else if vlen > 0xFFFF_FFFF {
                    StepResult::Fail { off: d1 + 1, kind: ParseErrorKind::BadLength }
                } else {
                    let kstart = d2 + 1;
                    if kstart + klen + 2 > n {
                        StepResult::Fail { off: n, kind: ParseErrorKind::UnexpectedEof }
                    } else if s[kstart + klen] != 45 || s[kstart + klen + 1] != 62 {
                        StepResult::Fail {
                            off: kstart + klen,
                            kind: ParseErrorKind::MissingArrow,
                        }
                    } else {
                        let vstart = kstart + klen + 2;
                        if vstart + vlen + 1 > n {
                            StepResult::Fail { off: n, kind: ParseErrorKind::UnexpectedEof }
                        } else if s[vstart + vlen] != 10 {
                            StepResult::Fail {
                                off: vstart + vlen,
                                kind: ParseErrorKind::MalformedHeader,
                            }
                        } else {
                            StepResult::Rec {
                                k: s.subrange(kstart, kstart + klen),
                                v: s.subrange(vstart, vstart + vlen),
                                next: vstart + vlen + 1,
                            }
                        }
                    }
                }
            }
        }
    }
}

/// The value of an all-digit run is not negative.
pub proof fn lemma_digits_val_nonneg(s: Seq<u8>, i: int, j: int)
    requires
        forall|t: int| i <= t < j ==> is_digit(#[trigger] s[t]),
        0 <= i,
        j <= s.len(),
    ensures
        digits_val(s, i, j) >= 0,
    decreases j - i,
{
    if j > i {
        lemma_digits_val_nonneg(s, i, j - 1);
    }
}

/// A successful step moves forward and stays inside the input.
pub proof fn lemma_step_advances(s: Seq<u8>, pos: int)
    ensures
        spec_step(s, pos) matches StepResult::Rec { next, .. } ==> pos < next <= s.len(),
        spec_step(s, pos) matches StepResult::End { next } ==> pos < next <= s.len(),
{
    let n = s.len() as int;
    if 0 <= pos < n && s[pos] == 43 {
        let d1 = digits_end(s, pos + 1);
        lemma_digits_end_bounds(s, pos + 1);
        lemma_digits_end_digits(s, pos + 1);
        if d1 < n && d1 != pos + 1 && s[d1] == 44 {
            let d2 = digits_end(s, d1 + 1);
            lemma_digits_end_bounds(s, d1 + 1);
            lemma_digits_end_digits(s, d1 + 1);
            if d2 < n && d2 != d1 + 1 && s[d2] == 58 {
                lemma_digits_val_nonneg(s, pos + 1, d1);
                lemma_digits_val_nonneg(s, d1 + 1, d2);
            }
        }
    }
}

/// `digits_end` never moves backward and never leaves the input once
/// inside it.
pub proof fn lemma_digits_end_bounds(s: Seq<u8>, i: int)
    ensures
        digits_end(s, i) >= i,
        i <= s.len() ==> digits_end(s, i) <= s.len(),
    decreases s.len() - i,
{
    if !(i < 0 || i >= s.len() || !is_digit(s[i])) {
        lemma_digits_end_bounds(s, i + 1);
    }
}

/// Every byte strictly before `digits_end` is a digit.
pub proof fn lemma_digits_end_digits(s: Seq<u8>, i: int)
    ensures
        forall|j: int| i <= j < digits_end(s, i) ==> is_digit(s[j]),
    decreases s.len() - i,
{
    if !(i < 0 || i >= s.len() || !is_digit(s[i])) {
        lemma_digits_end_digits(s, i + 1);
    }
}

/// What parsing the whole stream from `pos` yields: the records up to the
/// blank line, or the first defect.
pub enum SpecParse {
    Recs(Seq<(Seq<u8>, Seq<u8>)>),
    Fail { off: int, kind: ParseErrorKind },
}

/// Parses records of `s` from `pos` until the blank line or the first
/// defect.
pub open spec fn spec_parse_from(s: Seq<u8>, pos: int) -> SpecParse
    decreases s.len() - pos
    via spec_parse_from_decreases
{
    match spec_step(s, pos) {
        StepResult::End { .. } => SpecParse::Recs(Seq::empty()),
        StepResult::Fail { off, kind } => SpecParse::Fail { off, kind },
        StepResult::Rec { k, v, next } => match spec_parse_from(s, next) {
            SpecParse::Recs(rs) => SpecParse::Recs(seq![(k, v)] + rs),
            SpecParse::Fail { off, kind } => SpecParse::Fail { off, kind },
        },
    }
}

#[via_fn]
proof fn spec_parse_from_decreases(s: Seq<u8>, pos: int) {
    lemma_step_advances(s, pos);
}

/// Parses a whole stream.
pub open spec fn spec_parse(s: Seq<u8>) -> SpecParse {
    spec_parse_from(s, 0)
}

/// Scans `input` from `start` to the end of the run of decimal digits.
fn scan_digits(input: &[u8], start: usize) -> (r: usize)
    requires
        start <= input@.len(),
    ensures
        r == digits_end(input@, start as int),
        start <= r <= input@.len(),
{
    let mut cur = start;
    while cur < input.len() && 48 <= input[cur] && input[cur] <= 57
        invariant
            start <= cur <= input@.len(),
            digits_end(input@, start as int) == digits_end(input@, cur as int),
        decreases input@.len() - cur,
    {
        cur = cur + 1;
    }
    cur
}

/// The value of the all-digit run of `input` at `[start, end)`, clamped to
/// one above the largest length the format can express.
fn digits_value(input: &[u8], start: usize, end: usize) -> (r: u64)
    requires
        start <= end <= input@.len(),
        forall|j: int| start <= j < end ==> is_digit(input@[j]),
    ensures
        digits_val(input@, start as int, end as int) <= 0xFFFF_FFFF ==> r == digits_val(
            input@,
            start as int,
            end as int,
        ),
        digits_val(input@, start as int, end as int) > 0xFFFF_FFFF ==> r == 0x1_0000_0000,
{
    let mut acc: u64 = 0;
    let mut i = start;
    while i < end
        invariant
            start <= i <= end <= input@.len(),
            forall|j: int| start <= j < end ==> is_digit(input@[j]),
            acc <= 0x1_0000_0000,
            digits_val(input@, start as int, i as int) <= 0xFFFF_FFFF ==> acc == digits_val(
                input@,
                start as int,
                i as int,
            ),
            digits_val(input@, start as int, i as int) > 0xFFFF_FFFF ==> acc == 0x1_0000_0000,
            digits_val(input@, start as int, i as int) >= 0,
        decreases end - i,
    {
        let d = input[i] - 48;
        let next = acc * 10 + (d as u64);
        if next > 0xFFFF_FFFF {
            acc = 0x1_0000_0000;
        } else {
            acc = next;
        }
        i = i + 1;
    }
    acc
}

/// The decimal ASCII digits of `n`, most significant first, with no
/// leading zeroes (a single `0` for zero).
pub open spec fn spec_dec(n: nat) -> Seq<u8>
    decreases n,
{
    if n < 10 {
        seq![(48 + n) as u8]
    } else {
        spec_dec(n / 10).push((48 + n % 10) as u8)
    }
}

/// One record in text form:
/// `+`, the lengths in decimal, `:`, the key, `->`, the value, newline.
pub open spec fn record_line(k: Seq<u8>, v: Seq<u8>) -> Seq<u8> {
    seq![43u8] + spec_dec(k.len()) + seq![44u8] + spec_dec(v.len()) + seq![58u8] + k + seq![
        45u8,
        62u8,
    ] + v + seq![10u8]
}

/// The text lines of a sequence of records, in order.
pub open spec fn dump_records(rs: Seq<(Seq<u8>, Seq<u8>)>) -> Seq<u8>
    decreases rs.len(),
{
    if rs.len() == 0 {
        Seq::empty()
    } else {
        record_line(rs[0].0, rs[0].1) + dump_records(rs.drop_first())
    }
}

/// A whole text dump: every record's line, then the blank line that marks
/// end of stream.
pub open spec fn spec_dump(rs: Seq<(Seq<u8>, Seq<u8>)>) -> Seq<u8> {
    dump_records(rs) + seq![10u8]
}

/// Appending a record to a dump appends its line.
pub proof fn lemma_dump_records_push(rs: Seq<(Seq<u8>, Seq<u8>)>, k: Seq<u8>, v: Seq<u8>)
    ensures
        dump_records(rs.push((k, v))) == dump_records(rs) + record_line(k, v),
    decreases rs.len(),
{
    reveal_with_fuel(dump_records, 3);
    let pushed = rs.push((k, v));
    assert(pushed[0] == if rs.len() == 0 { (k, v) } else { rs[0] });
    if rs.len() == 0 {
        assert(pushed.drop_first() =~= Seq::empty());
        assert(dump_records(pushed) =~= dump_records(rs) + record_line(k, v));
    } else {
        assert(pushed.drop_first() =~= rs.drop_first().push((k, v)));
        lemma_dump_records_push(rs.drop_first(), k, v);
        assert(pushed[0] == rs[0]);
        assert((record_line(rs[0].0, rs[0].1) + dump_records(rs.drop_first())) + record_line(k, v)
            =~= record_line(rs[0].0, rs[0].1) + (dump_records(rs.drop_first()) + record_line(
            k,
            v,
        )));
        assert(dump_records(pushed) =~= dump_records(rs) + record_line(k, v));
    }
}

/// Decimal renderings are non-empty and all digits.
pub proof fn lemma_dec_digits(n: nat)
    ensures
        spec_dec(n).len() >= 1,
        forall|i: int| 0 <= i < spec_dec(n).len() ==> is_digit(#[trigger] spec_dec(n)[i]),
    decreases n,
{
    if n >= 10 {
        lemma_dec_digits(n / 10);
    }
}

/// A run of digits followed by a non-digit (or the end of the input) is
/// exactly what `digits_end` spans.
pub proof fn lemma_digits_end_run(s: Seq<u8>, i: int, j: int)
    requires
        0 <= i <= j <= s.len(),
        forall|t: int| i <= t < j ==> is_digit(#[trigger] s[t]),
        j == s.len() || !is_digit(s[j]),
    ensures
        digits_end(s, i) == j,
    decreases j - i,
{
    if i < j {
        lemma_digits_end_run(s, i + 1, j);
    }
}

/// The digits of a decimal rendering evaluate back to the number.
pub proof fn lemma_dec_val(s: Seq<u8>, i: int, j: int, n: nat)
    requires
        0 <= i <= j <= s.len(),
        s.subrange(i, j) == spec_dec(n),
    ensures
        digits_val(s, i, j) == n,
    decreases n,
{
    lemma_dec_digits(n);
    reveal_with_fuel(digits_val, 3);
    assert(j - i == spec_dec(n).len());
    if n < 10 {
        assert(s[i] == spec_dec(n)[0]);
        assert(digits_val(s, i, j) == n);
    } else {
        assert(s[j - 1] == spec_dec(n)[j - i - 1]);
        assert(spec_dec(n)[j - i - 1] == (48 + n % 10) as u8);
        assert(s.subrange(i, j - 1) =~= spec_dec(n / 10)) by {
            assert(forall|t: int|
                0 <= t < j - 1 - i ==> spec_dec(n)[t] == #[trigger] spec_dec(n / 10)[t]);
        }
        lemma_dec_val(s, i, j - 1, n / 10);
        assert(n == 10 * (n / 10) + n % 10) by {
            vstd::arithmetic::div_mod::lemma_fundamental_div_mod(n as int, 10);
        }
    }
}

/// Parsing a dumped stream from `pos` yields back exactly the dumped
/// records, provided their lengths fit the format's 32-bit fields.
#[verifier::rlimit(100)]
pub proof fn lemma_dump_parse_from(s: Seq<u8>, pos: int, rs: Seq<(Seq<u8>, Seq<u8>)>)
    requires
        0 <= pos <= s.len(),
        s.subrange(pos, s.len() as int) == spec_dump(rs),
        forall|t: int|
            0 <= t < rs.len() ==> (#[trigger] rs[t]).0.len() <= 0xFFFF_FFFF && rs[t].1.len()
                <= 0xFFFF_FFFF,
    ensures
        spec_parse_from(s, pos) == SpecParse::Recs(rs),
    decreases rs.len(),
{
    let sfx = s.subrange(pos, s.len() as int);
    if rs.len() == 0 {
        assert(sfx.len() == 1);
        assert(s[pos] == sfx[0]);
        assert(sfx[0] == 10);
        assert(spec_step(s, pos) == StepResult::End { next: pos + 1 });
        assert(spec_parse_from(s, pos) == SpecParse::Recs(Seq::<(Seq<u8>, Seq<u8>)>::empty()));
        assert(rs =~= Seq::<(Seq<u8>, Seq<u8>)>::empty());
    } else {
        let k0 = rs[0].0;
        let v0 = rs[0].1;
        let rest = rs.drop_first();
        let line = record_line(k0, v0);
        let dk = spec_dec(k0.len());
        let dv = spec_dec(v0.len());
        lemma_dec_digits(k0.len());
        lemma_dec_digits(v0.len());
        assert(dump_records(rs) == line + dump_records(rest));
        assert(sfx =~= line + spec_dump(rest));

        let o1 = pos + 1;
        let d1 = o1 + dk.len();
        let o2 = d1 + 1;
        let d2 = o2 + dv.len();
        let kstart = d2 + 1;
        let astart = kstart + k0.len();
        let vstart = astart + 2;
        let nl = vstart + v0.len();
        let next = nl + 1;
        assert(line.len() == nl + 1 - pos);
        assert(next <= s.len());

        assert(line[0] == 43);
        assert(forall|t: int| 0 <= t < dk.len() ==> line[1 + t] == #[trigger] dk[t]);
        assert(line[d1 - pos] == 44);
        assert(forall|t: int| 0 <= t < dv.len() ==> line[o2 - pos + t] == #[trigger] dv[t]);
        assert(line[d2 - pos] == 58);
        assert(forall|t: int| 0 <= t < k0.len() ==> line[kstart - pos + t] == #[trigger] k0[t]);
        assert(line[astart - pos] == 45);
        assert(line[astart + 1 - pos] == 62);
        assert(forall|t: int| 0 <= t < v0.len() ==> line[vstart - pos + t] == #[trigger] v0[t]);
        assert(line[nl - pos] == 10);

        assert forall|t: int| pos <= t < next implies #[trigger] s[t] == line[t - pos] by {
            assert(s[t] == sfx[t - pos]);
            assert(sfx[t - pos] == line[t - pos]);
        }

        assert(s[pos] == 43);
        assert forall|t: int| o1 <= t < d1 implies is_digit(#[trigger] s[t]) by {
            assert(s[t] == line[t - pos]);
            assert(line[t - pos] == dk[t - pos - 1]);
            assert(is_digit(dk[t - pos - 1]));
        }
        assert(s[d1] == 44);
        assert forall|t: int| o2 <= t < d2 implies is_digit(#[trigger] s[t]) by {
            assert(s[t] == line[t - pos]);
            assert(line[t - pos] == dv[t - pos - (o2 - pos)]);
            assert(is_digit(dv[t - pos - (o2 - pos)]));
        }
        assert(s[d2] == 58);
        lemma_digits_end_run(s, o1, d1);
        lemma_digits_end_run(s, o2, d2);
        assert(s.subrange(o1, d1) =~= dk) by {
            assert(forall|t: int| 0 <= t < dk.len() ==> #[trigger] s.subrange(o1, d1)[t] == s[o1 + t]);
        }
        assert(s.subrange(o2, d2) =~= dv) by {
            assert(forall|t: int| 0 <= t < dv.len() ==> #[trigger] s.subrange(o2, d2)[t] == s[o2 + t]);
        }
        lemma_dec_val(s, o1, d1, k0.len());
        lemma_dec_val(s, o2, d2, v0.len());
        assert(s[astart] == 45);
        assert(s[astart + 1] == 62);
        assert(s[nl] == 10);

        let stepped = spec_step(s, pos);
        assert(stepped == StepResult::Rec {
            k: s.subrange(kstart, kstart + k0.len()),
            v: s.subrange(vstart, vstart + v0.len()),
            next,
        });
        assert(s.subrange(kstart, kstart + k0.len()) =~= k0) by {
            assert(forall|t: int|
                0 <= t < k0.len() ==> #[trigger] s.subrange(kstart, kstart + k0.len())[t] == s[kstart + t]);
        }
        assert(s.subrange(vstart, vstart + v0.len()) =~= v0) by {
            assert(forall|t: int|
                0 <= t < v0.len() ==> #[trigger] s.subrange(vstart, vstart + v0.len())[t] == s[vstart + t]);
        }

        assert forall|t: int| next <= t < s.len() implies #[trigger] s[t] == spec_dump(rest)[t
            - next] by {
            assert(s[t] == sfx[t - pos]);
            assert(sfx[t - pos] == spec_dump(rest)[t - pos - line.len()]);
        }
        assert(s.subrange(next, s.len() as int) =~= spec_dump(rest)) by {
            assert(forall|t: int|
                0 <= t < s.len() - next ==> #[trigger] s.subrange(next, s.len() as int)[t] == s[next + t]);
        }
        assert(forall|t: int|
            0 <= t < rest.len() ==> (#[trigger] rest[t]).0.len() <= 0xFFFF_FFFF && rest[t].1.len()
                <= 0xFFFF_FFFF);
        lemma_dump_parse_from(s, next, rest);
        assert(seq![(k0, v0)] + rest =~= rs);
    }
}

/// Dumping records to the text format and parsing the dump yields the
/// records back, provided their lengths fit the format's 32-bit fields.
pub proof fn lemma_dump_parse_roundtrip(rs: Seq<(Seq<u8>, Seq<u8>)>)
    requires
        forall|t: int|
            0 <= t < rs.len() ==> (#[trigger] rs[t]).0.len() <= 0xFFFF_FFFF && rs[t].1.len()
                <= 0xFFFF_FFFF,
    ensures
        spec_parse(spec_dump(rs)) == SpecParse::Recs(rs),
{
    let s = spec_dump(rs);
    assert(s.subrange(0, s.len() as int) =~= s);
    lemma_dump_parse_from(s, 0, rs);
}

/// Writes `n` in decimal ASCII.
pub fn usize_to_dec(n: usize) -> (r: Vec<u8>)
    ensures
        r@ == spec_dec(n as nat),
    decreases n,
{
    if n < 10 {
        let mut out: Vec<u8> = Vec::new();
        out.push(48 + (n as u8));
        assert(out@ =~= spec_dec(n as nat));
        out
    } else {
        let mut out = usize_to_dec(n / 10);
        out.push(48 + ((n % 10) as u8));
        out
    }
}

/// Appends the bytes of `s` to `out`.
pub fn push_bytes(out: &mut Vec<u8>, s: &[u8])
    ensures
        final(out)@ == old(out)@ + s@,
{
    let mut i: usize = 0;
    while i < s.len()
        invariant
            i <= s@.len(),
            out@ == old(out)@ + s@.subrange(0, i as int),
        decreases s@.len() - i,
    {
        let ghost pre = out@;
        out.push(s[i]);
        i = i + 1;
        assert(out@ =~= old(out)@ + s@.subrange(0, i as int));
    }
    assert(out@ =~= old(out)@ + s@);
}

/// A stateful reader of the text format: the position of the next record
/// and whether the stream has ended (by blank line or defect).
pub struct Parser {
    pub pos: usize,
    pub done: bool,
}

impl Parser {
    /// A parser positioned at the start of the stream.
    pub fn new() -> (r: Parser)
        ensures
            r.pos == 0 && !r.done,
    {
        Parser { pos: 0, done: false }
    }

    /// Reads one record of `input` at the current position: `Ok(Some(kv))`
    /// for a record, `Ok(None)` at the blank line that ends the stream
    /// (and on every later call), and the first defect otherwise. After a
    /// defect the parser is finished.
    pub fn read_one_record(&mut self, input: &[u8]) -> (r: Result<Option<KV>, ParseError>)
        ensures
            old(self).done ==> (r matches Ok(o) && o is None && *final(self) == *old(self)),
            !old(self).done ==> match spec_step(input@, old(self).pos as int) {
                StepResult::End { next } => {
                    &&& r matches Ok(o) && o is None
                    &&& final(self).done
                },
                StepResult::Fail { off, kind } => {
                    &&& r matches Err(e) && e.offset == off && e.kind == kind
                    &&& final(self).done
                },
                StepResult::Rec { k, v, next } => {
                    &&& r matches Ok(o) && o matches Some(kv)
                        && crate::bytebuf::bytes_contents(kv.k) == k
                        && crate::bytebuf::bytes_contents(kv.v) == v
                    &&& !final(self).done
                    &&& final(self).pos == next
                },
            },
    {
        if self.done {
            return Ok(None);
        }
        let n = input.len();
        let pos = self.pos;
        if pos >= n {
            self.done = true;
            return Err(ParseError { offset: pos, kind: ParseErrorKind::UnexpectedEof });
        }
        let c = input[pos];
        if c == 10 {
            self.done = true;
            self.pos = pos + 1;
            return Ok(None);
        }
        if c != 43 {
            self.done = true;
            return Err(ParseError { offset: pos, kind: ParseErrorKind::MalformedHeader });
        }
        let d1 = scan_digits(input, pos + 1);
        if d1 >= n {
            self.done = true;
            return Err(ParseError { offset: n, kind: ParseErrorKind::UnexpectedEof });
        }
        if d1 == pos + 1 {
            self.done = true;
            return Err(ParseError { offset: pos + 1, kind: ParseErrorKind::BadLength });
        }
        if input[d1] != 44 {
            self.done = true;
            return Err(ParseError { offset: d1, kind: ParseErrorKind::BadLength });
        }
        let d2 = scan_digits(input, d1 + 1);
        if d2 >= n {
            self.done = true;
            return Err(ParseError { offset: n, kind: ParseErrorKind::UnexpectedEof });
        }
        if d2 == d1 + 1 {
            self.done = true;
            return Err(ParseError { offset: d1 + 1, kind: ParseErrorKind::BadLength });
        }
        if input[d2] != 58 {
            self.done = true;
            return Err(ParseError { offset: d2, kind: ParseErrorKind::BadLength });
        }
        proof {
            lemma_digits_end_digits(input@, pos + 1);
            lemma_digits_end_digits(input@, d1 + 1);
        }
        let klen64 = digits_value(input, pos + 1, d1);
        let vlen64 = digits_value(input, d1 + 1, d2);
        if klen64 > 0xFFFF_FFFF {
            self.done = true;
            return Err(ParseError { offset: pos + 1, kind: ParseErrorKind::BadLength });
        }
        if vlen64 > 0xFFFF_FFFF {
            self.done = true;
            return Err(ParseError { offset: d1 + 1, kind: ParseErrorKind::BadLength });
        }
        let kstart = d2 + 1;
        if klen64 + 2 > (n as u64) - (kstart as u64) {
            self.done = true;
            return Err(ParseError { offset: n, kind: ParseErrorKind::UnexpectedEof });
        }
        let klen = klen64 as usize;
        if input[kstart + klen] != 45 || input[kstart + klen + 1] != 62 {
            self.done = true;
            return Err(ParseError { offset: kstart + klen, kind: ParseErrorKind::MissingArrow });
        }
        let vstart = kstart + klen + 2;
        if vlen64 + 1 > (n as u64) - (vstart as u64) {
            self.done = true;
            return Err(ParseError { offset: n, kind: ParseErrorKind::UnexpectedEof });
        }
        let vlen = vlen64 as usize;
        if input[vstart + vlen] != 10 {
            self.done = true;
            return Err(ParseError {
                offset: vstart + vlen,
                kind: ParseErrorKind::MalformedHeader,
            });
        }
        let k = bytes_copy_from_slice(slice_subrange(input, kstart, kstart + klen));
        let v = bytes_copy_from_slice(slice_subrange(input, vstart, vstart + vlen));
        self.pos = vstart + vlen + 1;
        Ok(Some(KV { k, v }))
    }
}

/// Parses a whole text stream: the records up to the blank line, or the
/// first defect.
pub fn parse(input: &[u8]) -> (r: Result<Vec<KV>, ParseError>)
    ensures
        match spec_parse(input@) {
            SpecParse::Recs(rs) => r matches Ok(v) && kv_views(v@) == rs,
            SpecParse::Fail { off, kind } => r matches Err(e) && e.offset == off && e.kind == kind,
        },
{
    let mut p = Parser::new();
    let mut acc: Vec<KV> = Vec::new();
    loop
        invariant
            !p.done,
            p.pos <= input@.len(),
            match spec_parse_from(input@, p.pos as int) {
                SpecParse::Recs(rest) => spec_parse(input@) == SpecParse::Recs(
                    kv_views(acc@) + rest,
                ),
                SpecParse::Fail { off, kind } => spec_parse(input@) == SpecParse::Fail {
                    off,
                    kind,
                },
            },
        decreases input@.len() - p.pos,
    {
        let ghost prev = p.pos as int;
        proof {
            lemma_step_advances(input@, prev);
        }
        let ghost accv = acc@;
        match p.read_one_record(input) {
            Ok(None) => {
                proof {
                    assert(kv_views(acc@) + Seq::<(Seq<u8>, Seq<u8>)>::empty() =~= kv_views(acc@));
                }
                return Ok(acc);
            },
            Err(e) => {
                return Err(e);
            },
            Ok(Some(kv)) => {
                let ghost kvg = kv;
                acc.push(kv);
                proof {
                    crate::db::lemma_kv_views_push(accv, kvg);
                    if let StepResult::Rec { k, v, next } = spec_step(input@, prev) {
                        match spec_parse_from(input@, next) {
                            SpecParse::Recs(rest) => {
                                assert(kv_views(accv) + (seq![(k, v)] + rest) =~= kv_views(acc@)
                                    + rest);
                            },
                            SpecParse::Fail { .. } => {},
                        }
                    }
                }
            },
        }
    }
}

} // verus!
