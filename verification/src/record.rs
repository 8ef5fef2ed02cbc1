use vstd::prelude::*;

use crate::date::CalendarDate;
use crate::dates::Dates;
use crate::digits::dec_of;
use crate::digits::dec_of_int;
use crate::digits::dec_token_ok;
use crate::digits::dec_val;
use crate::digits::find_byte;
use crate::digits::find_byte_from;
use crate::digits::is_digit_byte;
use crate::digits::lemma_dec_of;
use crate::digits::lemma_find_byte_bounds;
use crate::digits::lemma_find_byte_is;
use crate::digits::parse_dec_range;
use crate::digits::push_dec;

verus! {

/// A line of the record file did not hold three whitespace-separated
/// integers; the whole load is rejected.
#[derive(Clone, Copy, PartialEq, Eq, Structural, Debug)]
pub struct ParseError;

/// One record line before its newline: year, month and day in base 10,
/// separated by single spaces.
pub open spec fn line_body(d: CalendarDate) -> Seq<u8> {
    dec_of_int(d.year as int) + seq![32u8] + dec_of(d.month as nat) + seq![32u8] + dec_of(
        d.day as nat,
    )
}

/// One full record line, newline-terminated.
pub open spec fn line_of(d: CalendarDate) -> Seq<u8> {
    line_body(d) + seq![10u8]
}

/// The whole record file: one line per date, in the set's order.
pub open spec fn records_of(s: Seq<CalendarDate>) -> Seq<u8>
    decreases s.len(),
{
    if s.len() == 0 {
        Seq::empty()
    } else {
        line_of(s[0]) + records_of(s.subrange(1, s.len() as int))
    }
}

/// What a year token yields: an optional leading minus sign, then digits,
/// and the value must fit the year field.
pub open spec fn parse_i32_tok(s: Seq<u8>) -> Option<i32> {
    if s.len() >= 1 && s[0] == 45 {
        let t = s.subrange(1, s.len() as int);
        if dec_token_ok(t) && dec_val(t) <= 0x8000_0000 {
            Some((0 - dec_val(t)) as i32)
        } else {
            None
        }
    } else if dec_token_ok(s) && dec_val(s) <= i32::MAX {
        Some(dec_val(s) as i32)
    } else {
        None
    }
}

/// What a month or day token yields: digits whose value fits the field.
pub open spec fn parse_u32_tok(s: Seq<u8>) -> Option<u32> {
    if dec_token_ok(s) && dec_val(s) <= u32::MAX {
        Some(dec_val(s) as u32)
    } else {
        None
    }
}

/// What one record line (without its newline) yields: exactly three tokens
/// split at single spaces, each a well-formed integer.
pub open spec fn parse_line(l: Seq<u8>) -> Option<CalendarDate> {
    let a = find_byte(l, 32);
    if a == l.len() {
        None
    } else {
        let rest = l.subrange(a + 1, l.len() as int);
        let b = find_byte(rest, 32);
        if b == rest.len() {
            None
        } else {
            let ytok = l.subrange(0, a);
            let mtok = rest.subrange(0, b);
            let dtok = rest.subrange(b + 1, rest.len() as int);
            match (parse_i32_tok(ytok), parse_u32_tok(mtok), parse_u32_tok(dtok)) {
                (Some(y), Some(m), Some(dd)) => Some(CalendarDate { year: y, month: m, day: dd }),
                _ => None,
            }
        }
    }
}

/// What a whole record file yields: the dates of its lines in order, where
/// a final line may lack its newline; any malformed line rejects the file.
pub open spec fn parse_records(b: Seq<u8>) -> Option<Seq<CalendarDate>>
    decreases b.len(),
    via parse_records_dec
{
    if b.len() == 0 {
        Some(Seq::empty())
    } else {
        let e = find_byte(b, 10);
        let rest = if e == b.len() {
            Seq::<u8>::empty()
        } else {
            b.subrange(e + 1, b.len() as int)
        };
        match parse_line(b.subrange(0, e)) {
            Some(d) => match parse_records(rest) {
                Some(t) => Some(seq![d] + t),
                None => None,
            },
            None => None,
        }
    }
}

#[via_fn]
proof fn parse_records_dec(b: Seq<u8>) {
    if b.len() > 0 {
        lemma_find_byte_bounds(b, 10);
    }
}

/// Appending one date to the set appends exactly its line to the record.
pub proof fn lemma_records_of_snoc(s: Seq<CalendarDate>, d: CalendarDate)
    ensures
        records_of(s.push(d)) == records_of(s) + line_of(d),
    decreases s.len(),
{
    let p = s.push(d);
    if s.len() == 0 {
        assert(p.subrange(1, p.len() as int) =~= Seq::<CalendarDate>::empty());
        assert(records_of(Seq::<CalendarDate>::empty()) == Seq::<u8>::empty());
        assert(records_of(p) =~= records_of(s) + line_of(d));
    } else {
        let t = s.subrange(1, s.len() as int);
        assert(p.subrange(1, p.len() as int) =~= t.push(d));
        lemma_records_of_snoc(t, d);
        assert(p[0] == s[0]);
        assert(records_of(p) =~= records_of(s) + line_of(d));
    }
}

/// A month or day token reads back as the number it was rendered from.
proof fn lemma_parse_u32_tok_of(v: u32)
    ensures
        parse_u32_tok(dec_of(v as nat)) == Some(v),
{
    lemma_dec_of(v as nat);
}

/// A year token reads back as the year it was rendered from, sign included.
proof fn lemma_parse_i32_tok_of(y: i32)
    ensures
        parse_i32_tok(dec_of_int(y as int)) == Some(y),
        dec_of_int(y as int).len() >= 1,
        forall|k: int|
            0 <= k < dec_of_int(y as int).len() ==> (is_digit_byte(#[trigger] dec_of_int(
                y as int,
            )[k]) || dec_of_int(y as int)[k] == 45),
{
    let s = dec_of_int(y as int);
    if y >= 0 {
        lemma_dec_of(y as nat);
        assert(is_digit_byte(s[0]));
        assert(s[0] != 45);
    } else {
        let m = (-(y as int)) as nat;
        lemma_dec_of(m);
        assert(s[0] == 45);
        assert(s.subrange(1, s.len() as int) =~= dec_of(m));
        assert(m <= 0x8000_0000);
        assert((0 - dec_val(dec_of(m)) as int) == y as int);
        assert(forall|k: int|
            1 <= k < s.len() ==> is_digit_byte(#[trigger] s[k]) || s[k] == 45) by {
            assert(forall|k: int| 0 <= k < dec_of(m).len() ==> s[k + 1] == #[trigger] dec_of(m)[k]);
            assert(forall|k: int|
                1 <= k < s.len() ==> #[trigger] s[k] == dec_of(m)[k - 1] && is_digit_byte(
                    dec_of(m)[k - 1],
                ));
        }
    }
}

/// A rendered line, before its newline, parses back to its date, and holds
/// no newline byte of its own.
proof fn lemma_parse_line_body(d: CalendarDate)
    ensures
        parse_line(line_body(d)) == Some(d),
        line_body(d).len() >= 1,
        forall|k: int| 0 <= k < line_body(d).len() ==> line_body(d)[k] != 10,
{
    let y = dec_of_int(d.year as int);
    let m = dec_of(d.month as nat);
    let dd = dec_of(d.day as nat);
    let l = line_body(d);
    lemma_parse_i32_tok_of(d.year);
    lemma_parse_u32_tok_of(d.month);
    lemma_parse_u32_tok_of(d.day);
    lemma_dec_of(d.month as nat);
    lemma_dec_of(d.day as nat);
    let ay = y.len() as int;
    let rest = l.subrange(ay + 1, l.len() as int);
    assert(l.len() == y.len() + m.len() + dd.len() + 2);
    assert(forall|k: int| 0 <= k < ay ==> l[k] == #[trigger] y[k]);
    assert(l[ay] == 32);
    assert(forall|k: int| 0 <= k < m.len() ==> l[ay + 1 + k] == #[trigger] m[k]);
    assert(l[ay + 1 + m.len()] == 32);
    assert(forall|k: int|
        0 <= k < dd.len() ==> l[ay + 1 + m.len() + 1 + k] == #[trigger] dd[k]);
    lemma_find_byte_is(l, 32, ay);
    assert(l.subrange(0, ay) =~= y);
    assert(rest =~= m + seq![32u8] + dd);
    let bm = m.len() as int;
    assert(forall|k: int| 0 <= k < bm ==> rest[k] == #[trigger] m[k]);
    assert(rest[bm] == 32);
    lemma_find_byte_is(rest, 32, bm);
    assert(rest.subrange(0, bm) =~= m);
    assert(rest.subrange(bm + 1, rest.len() as int) =~= dd);
    assert(parse_line(l) == Some(CalendarDate { year: d.year, month: d.month, day: d.day }));
    assert(CalendarDate { year: d.year, month: d.month, day: d.day } == d);
}

/// A record file rendered from any date set parses back to exactly that
/// set: saving and then loading returns an equal set.
pub proof fn lemma_record_round_trip(s: Seq<CalendarDate>)
    ensures
        parse_records(records_of(s)) == Some(s),
    decreases s.len(),
{
    if s.len() == 0 {
        assert(records_of(s) == Seq::<u8>::empty());
        assert(s =~= Seq::<CalendarDate>::empty());
    } else {
        let d = s[0];
        let tail = s.subrange(1, s.len() as int);
        lemma_parse_line_body(d);
        lemma_record_round_trip(tail);
        let lb = line_body(d);
        let b = records_of(s);
        let e = lb.len() as int;
        assert(b =~= lb + seq![10u8] + records_of(tail));
        assert(forall|k: int| 0 <= k < e ==> b[k] == #[trigger] lb[k]);
        assert(b[e] == 10);
        lemma_find_byte_is(b, 10, e);
        assert(b.subrange(0, e) =~= lb);
        assert(e < b.len());
        assert(b.subrange(e + 1, b.len() as int) =~= records_of(tail));
        assert(seq![d] + tail =~= s);
    }
}

/// Appends the year with an optional minus sign.
fn push_dec_signed(out: &mut Vec<u8>, y: i32)
    ensures
        final(out)@ == old(out)@ + dec_of_int(y as int),
{
    if y >= 0 {
        push_dec(out, y as u32);
    } else {
        out.push(45);
        let mag: u32 = if y == i32::MIN {
            0x8000_0000
        } else {
            (-y) as u32
        };
        assert(mag == -(y as int));
        push_dec(out, mag);
        assert(final(out)@ =~= old(out)@ + dec_of_int(y as int));
    }
}

/// Reads the bytes in `bytes[from..to)` as one record line.
fn parse_line_range(bytes: &[u8], from: usize, to: usize) -> (r: Option<CalendarDate>)
    requires
        from <= to <= bytes@.len(),
    ensures
        r == parse_line(bytes@.subrange(from as int, to as int)),
{
    let ghost l = bytes@.subrange(from as int, to as int);
    let a = find_byte_from(bytes, from, to, 32);
    if a == to {
        return None;
    }
    let ghost rest = l.subrange(a - from + 1, l.len() as int);
    proof {
        assert(rest =~= bytes@.subrange(a + 1, to as int));
    }
    let b = find_byte_from(bytes, a + 1, to, 32);
    if b == to {
        return None;
    }
    proof {
        assert(l.subrange(0, a - from) =~= bytes@.subrange(from as int, a as int));
        assert(rest.subrange(0, b - (a + 1)) =~= bytes@.subrange(a + 1, b as int));
        assert(rest.subrange(b - (a + 1) + 1, rest.len() as int) =~= bytes@.subrange(
            b + 1,
            to as int,
        ));
    }
    let ghost ytok = l.subrange(0, a - from);
    let year: i32;
    if a > from && bytes[from] == 45 {
        proof {
            assert(ytok[0] == bytes@[from as int]);
            assert(ytok.subrange(1, ytok.len() as int) =~= bytes@.subrange(from + 1, a as int));
        }
        match parse_dec_range(bytes, from + 1, a, 0x8000_0000) {
            Some(v) => {
                year = if v == 0x8000_0000 {
                    i32::MIN
                } else {
                    -(v as i32)
                };
                assert(year == 0 - v as int);
            },
            None => {
                return None;
            },
        }
    } else {
        proof {
            if a > from {
                assert(ytok[0] == bytes@[from as int]);
            }
        }
        match parse_dec_range(bytes, from, a, i32::MAX as u32) {
            Some(v) => {
                year = v as i32;
            },
            None => {
                return None;
            },
        }
    }
    let month: u32 = match parse_dec_range(bytes, a + 1, b, u32::MAX) {
        Some(v) => v,
        None => {
            return None;
        },
    };
    let day: u32 = match parse_dec_range(bytes, b + 1, to, u32::MAX) {
        Some(v) => v,
        None => {
            return None;
        },
    };
    Some(CalendarDate { year, month, day })
}

/// Maps a parsed tail through the dates already taken off the front.
pub open spec fn opt_prepend(p: Seq<CalendarDate>, t: Option<Seq<CalendarDate>>) -> Option<
    Seq<CalendarDate>,
> {
    match t {
        Some(q) => Some(p + q),
        None => None,
    }
}

impl Dates {
    /// Renders the set as the record file's bytes: one "year month day"
    /// line per entry, in the set's current order.
    pub fn to_record(&self) -> (out: Vec<u8>)
        ensures
            out@ == records_of(self@),
    {
        let mut out: Vec<u8> = Vec::new();
        let n = self.dates.len();
        let mut i: usize = 0;
        proof {
            assert(self@.subrange(0, 0) =~= Seq::<CalendarDate>::empty());
            assert(out@ =~= records_of(self@.subrange(0, 0)));
        }
        while i < n
            invariant
                i <= n == self@.len(),
                out@ == records_of(self@.subrange(0, i as int)),
            decreases n - i,
        {
            let d = self.dates[i];
            let ghost pre = out@;
            push_dec_signed(&mut out, d.year);
            out.push(32);
            push_dec(&mut out, d.month);
            out.push(32);
            push_dec(&mut out, d.day);
            out.push(10);
            proof {
                assert(out@ =~= pre + line_of(d));
                lemma_records_of_snoc(self@.subrange(0, i as int), d);
                assert(self@.subrange(0, i as int).push(d) =~= self@.subrange(0, i + 1));
            }
            i = i + 1;
        }
        proof {
            assert(self@.subrange(0, n as int) =~= self@);
        }
        out
    }

    /// Reads a record file back into a set: the dates of its lines in
    /// order. Any malformed line — wrong token count or a token that is not
    /// a well-formed integer — rejects the whole file; ranges are not
    /// re-checked here. An empty file is the empty set.
    pub fn from_record(bytes: &[u8]) -> (r: Result<Dates, ParseError>)
        ensures
            match r {
                Ok(ds) => parse_records(bytes@) == Some(ds@),
                Err(e) => parse_records(bytes@) is None,
            },
    {
        let n = bytes.len();
        let mut out: Vec<CalendarDate> = Vec::new();
        let mut i: usize = 0;
        proof {
            assert(bytes@.subrange(0, n as int) =~= bytes@);
            assert(opt_prepend(out@, parse_records(bytes@)) == parse_records(bytes@)) by {
                if parse_records(bytes@) is Some {
                    assert(out@ + parse_records(bytes@)->Some_0 =~= parse_records(
                        bytes@,
                    )->Some_0);
                }
            }
        }
        while i < n
            invariant
                i <= n == bytes@.len(),
                parse_records(bytes@) == opt_prepend(
                    out@,
                    parse_records(bytes@.subrange(i as int, n as int)),
                ),
            decreases n - i,
        {
            let ghost sub = bytes@.subrange(i as int, n as int);
            let e = find_byte_from(bytes, i, n, 10);
            proof {
                assert(sub.subrange(0, e - i) =~= bytes@.subrange(i as int, e as int));
            }
            let parsed = parse_line_range(bytes, i, e);
            match parsed {
                None => {
                    return Err(ParseError);
                },
                Some(d) => {
                    let ghost pre = out@;
                    out.push(d);
                    proof {
                        let rest = if e - i == sub.len() {
                            Seq::<u8>::empty()
                        } else {
                            sub.subrange(e - i + 1, sub.len() as int)
                        };
                        if e == n {
                            assert(rest =~= bytes@.subrange(n as int, n as int));
                        } else {
                            assert(rest =~= bytes@.subrange(e + 1, n as int));
                        }
                        assert(parse_records(sub) == opt_prepend(seq![d], parse_records(rest)));
                        assert(opt_prepend(pre, parse_records(sub)) == opt_prepend(
                            out@,
                            parse_records(rest),
                        )) by {
                            if parse_records(rest) is Some {
                                let t = parse_records(rest)->Some_0;
                                assert(pre + (seq![d] + t) =~= out@ + t);
                            }
                        }
                    }
                    if e == n {
                        i = n;
                    } else {
                        i = e + 1;
                    }
                },
            }
        }
        proof {
            assert(bytes@.subrange(n as int, n as int) =~= Seq::<u8>::empty());
            assert(parse_records(Seq::<u8>::empty()) == Some(Seq::<CalendarDate>::empty()));
            assert(out@ + Seq::<CalendarDate>::empty() =~= out@);
        }
        Ok(Dates { dates: out })
    }
}

} // verus!
