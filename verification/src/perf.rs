//! The benchmark timing table: parsing the raw byte buffer and reducing it
//! to one speed score per canonical language.
//!
//! The table is a comma-separated text: records are separated by line
//! feeds (an immediately preceding carriage return is dropped), fields by
//! commas, without quoting.  The header row names the columns; the columns
//! `lang`, `name`, `status` and `elapsed-time(s)` are required, and a run
//! without them fails.  Rows whose status or elapsed time does not parse,
//! whose elapsed time is not positive, or whose fields are empty are
//! skipped.

use vstd::prelude::*;
use crate::model::{ScoreEntry, ScoreModel, RunError, find_score};
use crate::canon::{spec_canonical_benchmark_lang, canonical_benchmark_lang};
use crate::geomean::{spec_geo_mean, geo_mean};
use crate::sortutil::{
    isort_by, seqchar_le_fn, dedup_sorted, views_of, sort_strings, dedup_strings,
    lemma_isort_strings_view,
};
use crate::strutil::str_eq;
use crate::schulze::min64;

verus! {

/// The position of the first occurrence of a byte, or the length.
pub open spec fn first_byte(s: Seq<u8>, b: u8) -> int
    decreases s.len(),
{
    if s.len() == 0 {
        0
    } else if s[0] == b {
        0
    } else {
        1 + first_byte(s.drop_first(), b)
    }
}

proof fn lemma_first_byte_at(s: Seq<u8>, b: u8, i: int)
    requires
        0 <= i <= s.len(),
        forall|k: int| 0 <= k < i ==> #[trigger] s[k] != b,
        i < s.len() ==> s[i] == b,
    ensures
        first_byte(s, b) == i,
    decreases s.len(),
{
    if s.len() == 0 {
    } else if s[0] == b {
        assert(i == 0);
    } else {
        let t = s.drop_first();
        assert forall|k: int| 0 <= k < i - 1 implies #[trigger] t[k] != b by {
            assert(t[k] == s[k + 1]);
        }
        lemma_first_byte_at(t, b, i - 1);
    }
}

/// The records of the table, split at line feeds.
pub open spec fn split_lines(s: Seq<u8>) -> Seq<Seq<u8>>
    decreases s.len(),
{
    if s.len() == 0 {
        Seq::empty()
    } else {
        let e = first_byte(s, 10);
        if 0 <= e && e < s.len() {
            seq![s.take(e)] + split_lines(s.skip(e + 1))
        } else {
            seq![s]
        }
    }
}

/// A record with a trailing carriage return dropped.
pub open spec fn strip_cr(l: Seq<u8>) -> Seq<u8> {
    if l.len() > 0 && l.last() == 13 {
        l.drop_last()
    } else {
        l
    }
}

/// The fields of a record, split at commas.
pub open spec fn split_fields(l: Seq<u8>) -> Seq<Seq<u8>>
    decreases l.len(),
{
    let c = first_byte(l, 44);
    if 0 <= c && c < l.len() {
        seq![l.take(c)] + split_fields(l.skip(c + 1))
    } else {
        seq![l]
    }
}

/// The whole table: one field list per record.
pub open spec fn table_rows(s: Seq<u8>) -> Seq<Seq<Seq<u8>>> {
    split_lines(s).map_values(|l: Seq<u8>| split_fields(strip_cr(l)))
}

proof fn lemma_first_byte_range(s: Seq<u8>, b: u8)
    ensures
        0 <= first_byte(s, b) <= s.len(),
        first_byte(s, b) < s.len() ==> s[first_byte(s, b)] == b,
        forall|k: int| 0 <= k < first_byte(s, b) ==> #[trigger] s[k] != b,
    decreases s.len(),
{
    if s.len() > 0 && s[0] != b {
        lemma_first_byte_range(s.drop_first(), b);
        let t = s.drop_first();
        assert forall|k: int| 0 <= k < first_byte(s, b) implies #[trigger] s[k] != b by {
            if k > 0 {
                assert(t[k - 1] == s[k]);
            }
        }
    }
}

/// Finds the next occurrence of a byte at or after `from`.
fn find_byte(bytes: &Vec<u8>, from: usize, b: u8) -> (r: usize)
    requires
        from <= bytes@.len(),
    ensures
        r as int == from + first_byte(bytes@.skip(from as int), b),
        from <= r <= bytes@.len(),
        (r as int) < bytes@.len() ==> bytes@[r as int] == b,
        forall|k: int| from <= k < r ==> #[trigger] bytes@[k] != b,
{
    let n = bytes.len();
    let mut i: usize = from;
    while i < n && bytes[i] != b
        invariant
            from <= i <= n,
            n == bytes@.len(),
            forall|k: int| from <= k < i ==> #[trigger] bytes@[k] != b,
        decreases n - i,
    {
        i = i + 1;
    }
    proof {
        let sk = bytes@.skip(from as int);
        assert forall|k: int| 0 <= k < i - from implies #[trigger] sk[k] != b by {
            assert(sk[k] == bytes@[k + from]);
        }
        if i < n {
            assert(sk[i - from] == bytes@[i as int]);
        }
        lemma_first_byte_at(sk, b, i - from);
    }
    i
}

/// Copies a byte range into a fresh vector.
fn copy_range(bytes: &Vec<u8>, from: usize, to: usize) -> (r: Vec<u8>)
    requires
        from <= to <= bytes@.len(),
    ensures
        r@ == bytes@.subrange(from as int, to as int),
{
    let mut out: Vec<u8> = Vec::new();
    let mut i: usize = from;
    proof {
        assert(out@ =~= bytes@.subrange(from as int, from as int));
    }
    while i < to
        invariant
            from <= i <= to <= bytes@.len(),
            out@ == bytes@.subrange(from as int, i as int),
        decreases to - i,
    {
        out.push(bytes[i]);
        proof {
            assert(out@ =~= bytes@.subrange(from as int, i + 1));
        }
        i = i + 1;
    }
    out
}

/// Splits one record into its fields.
fn split_line(line: &Vec<u8>) -> (r: Vec<Vec<u8>>)
    ensures
        r.deep_view() == split_fields(strip_cr(line@)),
{
    // drop a trailing carriage return
    let mut end = line.len();
    if end > 0 && line[end - 1] == 13 {
        end = end - 1;
    }
    proof {
        assert(strip_cr(line@) =~= line@.subrange(0, end as int));
    }
    let body = copy_range(line, 0, end);
    let ghost bm = body@;
    let n = body.len();
    let mut out: Vec<Vec<u8>> = Vec::new();
    let mut i: usize = 0;
    let mut done: bool = false;
    proof {
        assert(bm.skip(0) =~= bm);
    }
    while !done
        invariant
            i <= n,
            n == bm.len(),
            bm == body@,
            !done ==> split_fields(bm) == out.deep_view() + split_fields(bm.skip(i as int)),
            done ==> out.deep_view() == split_fields(bm),
        decreases n - i + (if done {
            0int
        } else {
            1int
        }),
    {
        let e = find_byte(&body, i, 44);
        let field = copy_range(&body, i, e);
        let ghost out0 = out.deep_view();
        out.push(field);
        proof {
            let sk = bm.skip(i as int);
            lemma_first_byte_range(sk, 44);
            assert(sk.take(e - i) =~= bm.subrange(i as int, e as int));
            assert(out.deep_view() =~~= out0.push(bm.subrange(i as int, e as int)));
        }
        if e < n {
            proof {
                let sk = bm.skip(i as int);
                assert(first_byte(sk, 44) < sk.len());
                assert(sk.skip(e - i + 1) =~= bm.skip(e + 1));
                assert(out.deep_view() + split_fields(bm.skip(e + 1)) =~~= out0 + (seq![
                    bm.subrange(i as int, e as int),
                ] + split_fields(bm.skip(e + 1))));
            }
            i = e + 1;
        } else {
            proof {
                let sk = bm.skip(i as int);
                assert(first_byte(sk, 44) == sk.len());
                assert(split_fields(sk) =~= seq![sk]);
                assert(sk =~= bm.subrange(i as int, e as int));
                assert(out.deep_view() =~~= out0 + seq![sk]);
            }
            done = true;
        }
    }
    out
}

/// The bytes the table treats as whitespace: tab through carriage return,
/// and space.
pub open spec fn is_ws_byte(b: u8) -> bool {
    9 <= b <= 13 || b == 32
}

/// A field with whitespace removed at the front.
pub open spec fn trim_bytes_front(s: Seq<u8>) -> Seq<u8>
    decreases s.len(),
{
    if s.len() > 0 && is_ws_byte(s[0]) {
        trim_bytes_front(s.drop_first())
    } else {
        s
    }
}

/// A field with whitespace removed at the back.
pub open spec fn trim_bytes_back(s: Seq<u8>) -> Seq<u8>
    decreases s.len(),
{
    if s.len() > 0 && is_ws_byte(s.last()) {
        trim_bytes_back(s.drop_last())
    } else {
        s
    }
}

/// A field with whitespace removed at both ends.
pub open spec fn trim_bytes(s: Seq<u8>) -> Seq<u8> {
    trim_bytes_back(trim_bytes_front(s))
}

/// Trims a field.
fn trim_field(f: &Vec<u8>) -> (r: Vec<u8>)
    ensures
        r@ == trim_bytes(f@),
{
    let len = f.len();
    let mut start: usize = 0;
    proof {
        assert(f@.skip(0) =~= f@);
    }
    while start < len && (f[start] <= 13 && f[start] >= 9 || f[start] == 32)
        invariant
            start <= len,
            len == f@.len(),
            trim_bytes_front(f@) == trim_bytes_front(f@.skip(start as int)),
        decreases len - start,
    {
        proof {
            assert(f@.skip(start as int).drop_first() =~= f@.skip(start + 1));
        }
        start = start + 1;
    }
    proof {
        if start == len {
            assert(f@.skip(start as int) =~= Seq::<u8>::empty());
        }
        assert(trim_bytes_front(f@) == f@.skip(start as int));
    }
    let mut end: usize = len;
    proof {
        assert(f@.subrange(start as int, end as int) =~= f@.skip(start as int));
    }
    while end > start && (f[end - 1] <= 13 && f[end - 1] >= 9 || f[end - 1] == 32)
        invariant
            start <= end <= len,
            len == f@.len(),
            trim_bytes_front(f@) == f@.skip(start as int),
            trim_bytes(f@) == trim_bytes_back(f@.subrange(start as int, end as int)),
        decreases end,
    {
        proof {
            let part = f@.subrange(start as int, end as int);
            assert(part.last() == f@[end - 1]);
            assert(part.drop_last() =~= f@.subrange(start as int, end - 1));
        }
        end = end - 1;
    }
    proof {
        let part = f@.subrange(start as int, end as int);
        assert(trim_bytes_back(part) == part);
    }
    copy_range(f, start, end)
}

/// True for the ASCII digit bytes.
pub open spec fn is_digit_byte(b: u8) -> bool {
    48 <= b <= 57
}

/// Every byte is a digit.
pub open spec fn all_digit_bytes(s: Seq<u8>) -> bool {
    forall|i: int| 0 <= i < s.len() ==> is_digit_byte(#[trigger] s[i])
}

/// The base-ten value of a digit-byte sequence.
pub open spec fn bdigits_value(s: Seq<u8>) -> int
    decreases s.len(),
{
    if s.len() == 0 {
        0
    } else {
        bdigits_value(s.drop_last()) * 10 + (s.last() - 48)
    }
}

proof fn lemma_bdigits_nonneg(s: Seq<u8>)
    requires
        all_digit_bytes(s),
    ensures
        bdigits_value(s) >= 0,
    decreases s.len(),
{
    if s.len() > 0 {
        let t = s.drop_last();
        assert forall|i: int| 0 <= i < t.len() implies is_digit_byte(#[trigger] t[i]) by {
            assert(t[i] == s[i]);
        }
        lemma_bdigits_nonneg(t);
    }
}

/// What the status column parses to: an optional sign and digits, the value
/// within the signed 64-bit range — mirroring a strict integer parse.
pub open spec fn spec_parse_status(s: Seq<u8>) -> Option<int> {
    let neg = s.len() > 0 && s[0] == 45;
    let body = if s.len() > 0 && (s[0] == 43 || s[0] == 45) {
        s.drop_first()
    } else {
        s
    };
    if body.len() == 0 || !all_digit_bytes(body) {
        None
    } else {
        let v = bdigits_value(body);
        if neg {
            if v > 0x8000_0000_0000_0000 {
                None
            } else {
                Some(-v)
            }
        } else {
            if v > 0x7fff_ffff_ffff_ffff {
                None
            } else {
                Some(v)
            }
        }
    }
}

/// Parses the status column.
fn parse_status(f: &Vec<u8>) -> (r: Option<i64>)
    ensures
        match r {
            Some(v) => spec_parse_status(f@) == Some(v as int),
            None => spec_parse_status(f@) is None,
        },
{
    let n = f.len();
    let neg = n > 0 && f[0] == 45;
    let start: usize = if n > 0 && (f[0] == 43 || f[0] == 45) {
        1
    } else {
        0
    };
    let ghost body = f@.skip(start as int);
    if start >= n {
        proof {
            if f@.len() > 0 && (f@[0] == 43 || f@[0] == 45) {
                assert(body =~= f@.drop_first());
            }
            assert(body.len() == 0);
        }
        return None;
    }
    proof {
        if start == 1 {
            assert(body =~= f@.drop_first());
        } else {
            assert(body =~= f@);
        }
        assert(body.take(0) =~= Seq::<u8>::empty());
    }
    let mut acc: u128 = 0;
    let mut over: bool = false;
    let mut i: usize = start;
    while i < n
        invariant
            start <= i <= n,
            n == f@.len(),
            body == f@.skip(start as int),
            start == (if f@.len() > 0 && (f@[0] == 43 || f@[0] == 45) {
                1int
            } else {
                0int
            }),
            body == (if f@.len() > 0 && (f@[0] == 43 || f@[0] == 45) {
                f@.drop_first()
            } else {
                f@
            }),
            forall|k: int| 0 <= k < i - start ==> is_digit_byte(#[trigger] body[k]),
            !over ==> acc as int == bdigits_value(body.take(i - start)) && acc
                <= 0x8000_0000_0000_0000,
            over ==> bdigits_value(body.take(i - start)) > 0x8000_0000_0000_0000,
        decreases n - i,
    {
        let b = f[i];
        if b < 48 || b > 57 {
            proof {
                assert(body[i - start] == f@[i as int]);
                assert(!all_digit_bytes(body));
            }
            return None;
        }
        proof {
            assert(body[i - start] == f@[i as int]);
            assert(body.take(i - start + 1).drop_last() =~= body.take(i - start));
            assert(body.take(i - start + 1).last() == body[i - start]);
        }
        if !over {
            let next: u128 = acc * 10 + (b - 48) as u128;
            if next > 0x8000_0000_0000_0000u128 {
                over = true;
                acc = 0;
            } else {
                acc = next;
            }
        }
        i = i + 1;
    }
    proof {
        assert(body.take(i - start) =~= body);
        assert(all_digit_bytes(body));
    }
    if over {
        return None;
    }
    if neg {
        if acc > 0x8000_0000_0000_0000u128 {
            None
        } else if acc == 0x8000_0000_0000_0000u128 {
            Some(i64::MIN)
        } else {
            Some(-(acc as i64))
        }
    } else {
        if acc > 0x7fff_ffff_ffff_ffffu128 {
            None
        } else {
            Some(acc as i64)
        }
    }
}

/// The first six fractional digits as millionths.
pub open spec fn bfrac_micro(fr: Seq<u8>) -> int {
    if fr.len() >= 6 {
        bdigits_value(fr.take(6))
    } else {
        bdigits_value(fr) * crate::strutil::pow10((6 - fr.len()) as nat)
    }
}

/// What the elapsed column parses to: an optional plus sign, digits with at
/// most one decimal point, read as millionths truncated at the sixth place;
/// nothing when malformed, zero, or out of range.
pub open spec fn spec_parse_elapsed(s: Seq<u8>) -> Option<u64> {
    let body = if s.len() > 0 && s[0] == 43 {
        s.drop_first()
    } else {
        s
    };
    let di = first_byte(body, 46);
    let ints = body.take(di);
    let fr = if di < body.len() {
        body.skip(di + 1)
    } else {
        Seq::empty()
    };
    if !all_digit_bytes(ints) || !all_digit_bytes(fr) || (ints.len() == 0 && fr.len() == 0) {
        None
    } else {
        let v = bdigits_value(ints) * 1_000_000 + bfrac_micro(fr);
        if v == 0 || v > u64::MAX {
            None
        } else {
            Some(v as u64)
        }
    }
}

/// Parses the elapsed-seconds column into microseconds.
fn parse_elapsed(f: &Vec<u8>) -> (r: Option<u64>)
    ensures
        r == spec_parse_elapsed(f@),
{
    let n = f.len();
    let start: usize = if n > 0 && f[0] == 43 {
        1
    } else {
        0
    };
    let ghost body = f@.skip(start as int);
    proof {
        if start == 1 {
            assert(body =~= f@.drop_first());
        } else {
            assert(body =~= f@);
        }
        assert(body.take(0) =~= Seq::<u8>::empty());
    }
    // integer part
    let mut acc: u128 = 0;
    let mut over: bool = false;
    let mut i: usize = start;
    while i < n && f[i] != 46
        invariant
            start <= i <= n,
            n == f@.len(),
            body == f@.skip(start as int),
            start == (if f@.len() > 0 && f@[0] == 43 {
                1int
            } else {
                0int
            }),
            body == (if f@.len() > 0 && f@[0] == 43 {
                f@.drop_first()
            } else {
                f@
            }),
            forall|k: int| 0 <= k < i - start ==> is_digit_byte(#[trigger] body[k]) && body[k] != 46,
            !over ==> acc as int == bdigits_value(body.take(i - start)) && acc <= u64::MAX,
            over ==> bdigits_value(body.take(i - start)) > u64::MAX,
        decreases n - i,
    {
        let b = f[i];
        if b < 48 || b > 57 {
            proof {
                assert(body[i - start] == f@[i as int]);
                let di = first_byte(body, 46);
                lemma_first_byte_range(body, 46);
                if di > i - start {
                    assert(body.take(di)[i - start] == body[i - start]);
                    assert(!all_digit_bytes(body.take(di)));
                } else {
                    assert(di < i - start);
                    assert(body[di] == 46);
                    assert(false);
                }
            }
            return None;
        }
        proof {
            assert(body[i - start] == f@[i as int]);
            assert(body.take(i - start + 1).drop_last() =~= body.take(i - start));
            assert(body.take(i - start + 1).last() == body[i - start]);
        }
        if !over {
            let next: u128 = acc * 10 + (b - 48) as u128;
            if next > u64::MAX as u128 {
                over = true;
                acc = 0;
            } else {
                acc = next;
            }
        }
        i = i + 1;
    }
    let ints_len: usize = i - start;
    proof {
        assert forall|k: int| 0 <= k < ints_len implies #[trigger] body[k] != 46 by {}
        if i < n {
            assert(body[ints_len as int] == f@[i as int]);
        }
        lemma_first_byte_at(body, 46, ints_len as int);
    }
    let ghost ints = body.take(ints_len as int);
    let ghost fr = if (ints_len as int) < body.len() {
        body.skip(ints_len + 1)
    } else {
        Seq::<u8>::empty()
    };
    let ghost fr_start = i + 1;
    let mut facc: u64 = 0;
    let mut fcnt: usize = 0;
    let mut fr_len: usize = 0;
    if i < n {
        i = i + 1;
        proof {
            assert(fr =~= f@.skip(i as int));
            assert(fr.take(0) =~= Seq::<u8>::empty());
        }
        fr_len = n - i;
        while i < n && fcnt < 6
            invariant
                fr_start <= i as int <= n,
                n == f@.len(),
                fr == f@.skip(fr_start as int),
                1 <= fr_start <= n,
                body == (if f@.len() > 0 && f@[0] == 43 {
                    f@.drop_first()
                } else {
                    f@
                }),
                first_byte(body, 46) < body.len(),
                fr == body.skip(first_byte(body, 46) + 1),

                fr.len() == fr_len,
                fr_len == n - fr_start,
                fcnt == i as int - fr_start,
                fcnt <= 6,
                forall|k: int| 0 <= k < fcnt ==> is_digit_byte(#[trigger] fr[k]),
                facc as int == bdigits_value(fr.take(fcnt as int)),
                facc < 1000000,
            decreases n - i,
        {
            let b = f[i];
            proof {
                assert(0 <= i as int - fr_start < fr.len());
                assert(fr[i as int - fr_start] == f@.skip(fr_start as int)[i as int - fr_start]);
                assert(f@.skip(fr_start as int)[i as int - fr_start] == f@[i as int]);
            }
            if b < 48 || b > 57 {
                proof {
                    assert(!is_digit_byte(fr[i as int - fr_start]));
                    assert(!all_digit_bytes(fr));
                }
                return None;
            }
            proof {
                assert(fr.take(fcnt + 1).drop_last() =~= fr.take(fcnt as int));
                assert(fr.take(fcnt + 1).last() == fr[fcnt as int]);
                assert forall|k: int|
                    0 <= k < fr.take(fcnt as int).len() implies is_digit_byte(
                    #[trigger] fr.take(fcnt as int)[k],
                ) by {
                    assert(fr.take(fcnt as int)[k] == fr[k]);
                }
                lemma_bdigits_bound(fr.take(fcnt as int));
                crate::strutil::lemma_pow10_mono(fcnt as nat, 5);
                assert(crate::strutil::pow10(5) == 100000) by {
                    reveal_with_fuel(crate::strutil::pow10, 6);
                };
            }
            facc = facc * 10 + (b - 48) as u64;
            fcnt = fcnt + 1;
            i = i + 1;
        }
        // the remaining fractional digits beyond the sixth only need to be
        // digits; their value is truncated away
        while i < n
            invariant
                fr_start <= i as int <= n,
                n == f@.len(),
                fr == f@.skip(fr_start as int),
                1 <= fr_start <= n,
                body == (if f@.len() > 0 && f@[0] == 43 {
                    f@.drop_first()
                } else {
                    f@
                }),
                first_byte(body, 46) < body.len(),
                fr == body.skip(first_byte(body, 46) + 1),

                fr.len() == fr_len,
                fr_len == n - fr_start,
                forall|k: int| 0 <= k < i - fr_start ==> is_digit_byte(#[trigger] fr[k]),
            decreases n - i,
        {
            let b = f[i];
            proof {
                assert(0 <= i as int - fr_start < fr.len());
                assert(fr[i as int - fr_start] == f@.skip(fr_start as int)[i as int - fr_start]);
                assert(f@.skip(fr_start as int)[i as int - fr_start] == f@[i as int]);
            }
            if b < 48 || b > 57 {
                proof {
                    assert(!is_digit_byte(fr[i as int - fr_start]));
                    assert(!all_digit_bytes(fr));
                }
                return None;
            }
            i = i + 1;
        }
        proof {
            assert(all_digit_bytes(fr));
            if fr_len >= 6 {
                assert(fcnt == 6);
                assert(fr.take(fcnt as int) =~= fr.take(6));
            } else {
                assert(fcnt == fr_len);
                assert(fr.take(fcnt as int) =~= fr);
            }
        }
    } else {
        proof {
            assert(fr.take(fcnt as int) =~= fr);
        }
    }
    let ghost fr_used = fcnt as int;
    // pad to six places
    while fcnt < 6
        invariant
            0 <= fr_used <= fcnt as int <= 6,
            fr_used == (if fr.len() >= 6 {
                6int
            } else {
                fr.len() as int
            }),
            all_digit_bytes(fr),
            facc as int == bdigits_value(fr.take(fr_used)) * crate::strutil::pow10(
                (fcnt as int - fr_used) as nat,
            ),
            facc < 1000000,
        decreases 6 - fcnt,
    {
        proof {
            let dv = bdigits_value(fr.take(fr_used));
            assert forall|k: int| 0 <= k < fr.take(fr_used).len() implies is_digit_byte(
                #[trigger] fr.take(fr_used)[k],
            ) by {
                assert(fr.take(fr_used)[k] == fr[k]);
            }
            lemma_bdigits_bound(fr.take(fr_used));
            crate::strutil::lemma_pow_bound_step(dv, fr_used as nat, (fcnt as int
                - fr_used) as nat);
            assert(facc as int * 10 == dv * crate::strutil::pow10(
                (fcnt as int + 1 - fr_used) as nat,
            )) by {
                assert(crate::strutil::pow10((fcnt as int + 1 - fr_used) as nat) == 10
                    * crate::strutil::pow10((fcnt as int - fr_used) as nat));
                vstd::arithmetic::mul::lemma_mul_is_associative(
                    dv,
                    crate::strutil::pow10((fcnt as int - fr_used) as nat),
                    10,
                );
                vstd::arithmetic::mul::lemma_mul_is_commutative(
                    crate::strutil::pow10((fcnt as int - fr_used) as nat),
                    10,
                );
                vstd::arithmetic::mul::lemma_mul_is_associative(
                    dv,
                    10,
                    crate::strutil::pow10((fcnt as int - fr_used) as nat),
                );
                vstd::arithmetic::mul::lemma_mul_is_commutative(dv, 10);
                vstd::arithmetic::mul::lemma_mul_is_associative(
                    10,
                    dv,
                    crate::strutil::pow10((fcnt as int - fr_used) as nat),
                );
            };
        }
        facc = facc * 10;
        fcnt = fcnt + 1;
    }
    proof {
        assert(bfrac_micro(fr) == facc as int) by {
            if fr.len() >= 6 {
                assert(fr_used == 6);
            }
        };
        assert(all_digit_bytes(ints)) by {
            assert forall|k: int| 0 <= k < ints.len() implies is_digit_byte(#[trigger] ints[k]) by {
                assert(ints[k] == body[k]);
            }
        };
    }
    if ints_len == 0 && fr_len == 0 {
        return None;
    }
    if over {
        proof {
            lemma_bdigits_nonneg(ints);
            vstd::arithmetic::mul::lemma_mul_inequality(1, 1_000_000, bdigits_value(ints));
            vstd::arithmetic::mul::lemma_mul_is_commutative(bdigits_value(ints), 1_000_000);
        }
        return None;
    }
    proof {
        lemma_bdigits_nonneg(ints);
    }
    let v: u128 = acc * 1_000_000u128 + facc as u128;
    if v == 0 {
        None
    } else if v > u64::MAX as u128 {
        None
    } else {
        Some(v as u64)
    }
}

proof fn lemma_bdigits_bound(s: Seq<u8>)
    requires
        all_digit_bytes(s),
    ensures
        0 <= bdigits_value(s) < crate::strutil::pow10(s.len() as nat),
    decreases s.len(),
{
    crate::strutil::lemma_pow10_pos(s.len() as nat);
    if s.len() > 0 {
        let t = s.drop_last();
        assert forall|i: int| 0 <= i < t.len() implies is_digit_byte(#[trigger] t[i]) by {
            assert(t[i] == s[i]);
        }
        lemma_bdigits_bound(t);
    }
}

/// The ASCII lowercase form of a byte.
pub open spec fn lower_byte(b: u8) -> u8 {
    if 65 <= b <= 90 {
        (b + 32) as u8
    } else {
        b
    }
}

/// A byte field lower-cased, ASCII letters only.
pub open spec fn lower_bytes(s: Seq<u8>) -> Seq<u8> {
    s.map_values(|b: u8| lower_byte(b))
}

/// A byte field decoded character-for-byte.
pub open spec fn byte_chars(s: Seq<u8>) -> Seq<char> {
    s.map_values(|b: u8| b as char)
}

/// Decodes a byte field into a string, byte for character.
fn to_string_bytes(v: &Vec<u8>) -> (r: String)
    ensures
        r@ == byte_chars(v@),
{
    let mut out = String::new();
    let mut i: usize = 0;
    proof {
        assert(out@ =~= byte_chars(v@.take(0)));
    }
    while i < v.len()
        invariant
            i <= v@.len(),
            out@ == byte_chars(v@.take(i as int)),
        decreases v@.len() - i,
    {
        let c: char = v[i] as char;
        crate::strutil::push_char(&mut out, c);
        proof {
            assert(out@ =~= byte_chars(v@.take(i + 1)));
        }
        i = i + 1;
    }
    proof {
        assert(v@.take(i as int) =~= v@);
    }
    out
}

/// Decodes a byte field into a string, lower-casing ASCII letters.
fn to_lower_string(v: &Vec<u8>) -> (r: String)
    ensures
        r@ == byte_chars(lower_bytes(v@)),
{
    let mut out = String::new();
    let mut i: usize = 0;
    proof {
        assert(out@ =~= byte_chars(lower_bytes(v@.take(0))));
    }
    while i < v.len()
        invariant
            i <= v@.len(),
            out@ == byte_chars(lower_bytes(v@.take(i as int))),
        decreases v@.len() - i,
    {
        let b = v[i];
        let lb: u8 = if 65 <= b && b <= 90 {
            b + 32
        } else {
            b
        };
        let c: char = lb as char;
        crate::strutil::push_char(&mut out, c);
        proof {
            assert(out@ =~= byte_chars(lower_bytes(v@.take(i + 1))));
        }
        i = i + 1;
    }
    proof {
        assert(v@.take(i as int) =~= v@);
    }
    out
}

/// One usable measurement: canonical language, task, elapsed microseconds.
pub struct BenchSample {
    /// The canonical language name of the runtime that was measured.
    pub lang: String,
    /// The benchmark task name.
    pub task: String,
    /// The elapsed time, in microseconds, always positive.
    pub elapsed: u64,
}

/// The ghost model of a measurement.
pub ghost struct SampleModel {
    pub lang: Seq<char>,
    pub task: Seq<char>,
    pub elapsed: u64,
}

impl DeepView for BenchSample {
    type V = SampleModel;

    open spec fn deep_view(&self) -> SampleModel {
        SampleModel { lang: self.lang@, task: self.task@, elapsed: self.elapsed }
    }
}

/// A row's field, or the empty field beyond the row's end.
pub open spec fn field_at(r: Seq<Seq<u8>>, i: int) -> Seq<u8> {
    if 0 <= i < r.len() {
        r[i]
    } else {
        Seq::empty()
    }
}

/// What one data row contributes: a measurement when the status is a
/// non-negative number, the language, task and elapsed fields are nonempty,
/// the elapsed time parses to a positive value, and the lower-cased
/// language maps to a ranked canonical name — nothing otherwise.
pub open spec fn row_sample(r: Seq<Seq<u8>>, il: int, iname: int, ist: int, iel: int) -> Option<
    SampleModel,
> {
    let st = spec_parse_status(trim_bytes(field_at(r, ist)));
    if st is None || st.unwrap() < 0 {
        None
    } else {
        let lang_raw = trim_bytes(field_at(r, il));
        let task = trim_bytes(field_at(r, iname));
        let el_f = trim_bytes(field_at(r, iel));
        if lang_raw.len() == 0 || task.len() == 0 || el_f.len() == 0 {
            None
        } else {
            match spec_parse_elapsed(el_f) {
                None => None,
                Some(el) => match spec_canonical_benchmark_lang(byte_chars(lower_bytes(lang_raw))) {
                    None => None,
                    Some(canon) => Some(
                        SampleModel { lang: canon, task: byte_chars(task), elapsed: el },
                    ),
                },
            }
        }
    }
}

/// Reads one data row.
fn row_to_sample(row: &Vec<Vec<u8>>, il: usize, iname: usize, ist: usize, iel: usize) -> (r:
    Option<BenchSample>)
    ensures
        match r {
            Some(s) => row_sample(row.deep_view(), il as int, iname as int, ist as int, iel as int)
                == Some(s.deep_view()),
            None => row_sample(
                row.deep_view(),
                il as int,
                iname as int,
                ist as int,
                iel as int,
            ) is None,
        },
{
    let ghost rm = row.deep_view();
    let status_f = trim_field(&get_field(row, ist));
    let st = parse_status(&status_f);
    proof {
        assert(status_f@ == trim_bytes(field_at(rm, ist as int)));
    }
    match st {
        None => {
            return None;
        },
        Some(v) => {
            if v < 0 {
                return None;
            }
        },
    }
    let lang_raw = trim_field(&get_field(row, il));
    let task_f = trim_field(&get_field(row, iname));
    let el_f = trim_field(&get_field(row, iel));
    proof {
        assert(lang_raw@ == trim_bytes(field_at(rm, il as int)));
        assert(task_f@ == trim_bytes(field_at(rm, iname as int)));
        assert(el_f@ == trim_bytes(field_at(rm, iel as int)));
    }
    if lang_raw.len() == 0 || task_f.len() == 0 || el_f.len() == 0 {
        return None;
    }
    let el = match parse_elapsed(&el_f) {
        None => {
            return None;
        },
        Some(e) => e,
    };
    let lang_l = to_lower_string(&lang_raw);
    match canonical_benchmark_lang(lang_l.as_str()) {
        None => None,
        Some(canon) => {
            let task_s = to_string_bytes(&task_f);
            Some(BenchSample { lang: canon, task: task_s, elapsed: el })
        },
    }
}

/// Copies a field of a row, or an empty field beyond the row's end.
fn get_field(row: &Vec<Vec<u8>>, i: usize) -> (r: Vec<u8>)
    ensures
        r@ == field_at(row.deep_view(), i as int),
{
    if i < row.len() {
        let f = copy_range(&row[i], 0, row[i].len());
        proof {
            assert(row@[i as int]@.subrange(0, row@[i as int]@.len() as int) =~= row@[i as int]@);
            assert(row.deep_view()[i as int] =~= row@[i as int]@);
        }
        f
    } else {
        let r: Vec<u8> = Vec::new();
        proof {
            assert(r@ =~= field_at(row.deep_view(), i as int));
        }
        r
    }
}

/// The measurements of all data rows, in order.
pub open spec fn samples_of(rows: Seq<Seq<Seq<u8>>>, il: int, iname: int, ist: int, iel: int) -> Seq<
    SampleModel,
>
    decreases rows.len(),
{
    if rows.len() == 0 {
        Seq::empty()
    } else {
        match row_sample(rows[0], il, iname, ist, iel) {
            Some(sm) => seq![sm] + samples_of(rows.drop_first(), il, iname, ist, iel),
            None => samples_of(rows.drop_first(), il, iname, ist, iel),
        }
    }
}

/// The position of a column name in the header, or the header's length.
pub open spec fn field_index(hdr: Seq<Seq<u8>>, name: Seq<u8>) -> int
    decreases hdr.len(),
{
    if hdr.len() == 0 {
        0
    } else if hdr[0] == name {
        0
    } else {
        1 + field_index(hdr.drop_first(), name)
    }
}

/// Compares two byte fields.
fn bytes_eq(a: &Vec<u8>, b: &Vec<u8>) -> (r: bool)
    ensures
        r == (a@ == b@),
{
    if a.len() != b.len() {
        return false;
    }
    let mut i: usize = 0;
    while i < a.len()
        invariant
            i <= a@.len(),
            a@.len() == b@.len(),
            forall|k: int| 0 <= k < i ==> a@[k] == b@[k],
        decreases a@.len() - i,
    {
        if a[i] != b[i] {
            return false;
        }
        i = i + 1;
    }
    proof {
        assert(a@ =~= b@);
    }
    true
}

/// Finds a column in the header.
fn find_col(hdr: &Vec<Vec<u8>>, name: &Vec<u8>) -> (r: usize)
    ensures
        r as int == field_index(hdr.deep_view(), name@),
        r <= hdr@.len(),
{
    let ghost hm = hdr.deep_view();
    let mut i: usize = 0;
    proof {
        assert(hm.skip(0) =~= hm);
    }
    while i < hdr.len()
        invariant
            i <= hdr@.len(),
            hm == hdr.deep_view(),
            hm.len() == hdr@.len(),
            field_index(hm, name@) == i + field_index(hm.skip(i as int), name@),
        decreases hdr@.len() - i,
    {
        proof {
            assert(hm.skip(i as int)[0] == hm[i as int]);
            assert(hm.skip(i as int).drop_first() =~= hm.skip(i + 1));
            assert(hm[i as int] =~= hdr@[i as int]@);
        }
        if bytes_eq(&hdr[i], name) {
            proof {
                assert(hm.skip(i as int)[0] == name@);
            }
            return i;
        }
        proof {
            if hm[i as int] == name@ {
                assert(hdr@[i as int]@ =~= name@);
                assert(false);
            }
        }
        i = i + 1;
    }
    proof {
        assert(hm.skip(i as int) =~= Seq::<Seq<u8>>::empty());
    }
    i
}

/// Splits the raw table into records and fields.
pub fn parse_table(bytes: &Vec<u8>) -> (r: Vec<Vec<Vec<u8>>>)
    ensures
        r.deep_view() == table_rows(bytes@),
{
    let ghost bm = bytes@;
    let n = bytes.len();
    let mut out: Vec<Vec<Vec<u8>>> = Vec::new();
    let mut i: usize = 0;
    let ghost mut lines_done: Seq<Seq<u8>> = Seq::empty();
    proof {
        assert(bm.skip(0) =~= bm);
        assert(split_lines(bm) =~= lines_done + split_lines(bm.skip(0)));
    }
    while i < n
        invariant
            i <= n,
            n == bm.len(),
            bm == bytes@,
            split_lines(bm) == lines_done + split_lines(bm.skip(i as int)),
            out.deep_view() == lines_done.map_values(|l: Seq<u8>| split_fields(strip_cr(l))),
        decreases n - i,
    {
        let e = find_byte(bytes, i, 10);
        proof {
            let sk = bm.skip(i as int);
            lemma_first_byte_range(sk, 10);
            assert(sk.len() > 0);
        }
        let line = copy_range(bytes, i, e);
        let fields = split_line(&line);
        let ghost out0 = out.deep_view();
        out.push(fields);
        proof {
            let sk = bm.skip(i as int);
            assert(sk.take(e - i) =~= bm.subrange(i as int, e as int));
            assert(line@ == bm.subrange(i as int, e as int));
            assert(out.deep_view() =~~= out0.push(split_fields(strip_cr(line@))));
        }
        if e < n {
            proof {
                let sk = bm.skip(i as int);
                assert(first_byte(sk, 10) < sk.len());
                assert(split_lines(sk) =~= seq![sk.take(e - i)] + split_lines(sk.skip(e - i + 1)));
                assert(sk.skip(e - i + 1) =~= bm.skip(e + 1));
                lines_done = lines_done.push(line@);
                assert(split_lines(bm) =~= lines_done + split_lines(bm.skip(e + 1)));
                assert(out.deep_view() =~~= lines_done.map_values(
                    |l: Seq<u8>| split_fields(strip_cr(l)),
                ));
            }
            i = e + 1;
        } else {
            proof {
                let sk = bm.skip(i as int);
                assert(first_byte(sk, 10) == sk.len());
                assert(split_lines(sk) =~= seq![sk]);
                assert(sk =~= line@);
                lines_done = lines_done.push(line@);
                assert(split_lines(bm) =~= lines_done);
                assert(bm.skip(n as int) =~= Seq::<u8>::empty());
                assert(split_lines(bm) =~= lines_done + split_lines(bm.skip(n as int)));
                assert(out.deep_view() =~~= lines_done.map_values(
                    |l: Seq<u8>| split_fields(strip_cr(l)),
                ));
            }
            i = n;
        }
    }
    proof {
        assert(bm.skip(i as int) =~= Seq::<u8>::empty());
        assert(lines_done + Seq::<Seq<u8>>::empty() =~= lines_done);
        assert(out.deep_view() =~~= table_rows(bm));
    }
    out
}


/// The canonical names of the measurements, with duplicates.
pub open spec fn sample_names(ss: Seq<SampleModel>) -> Seq<Seq<char>> {
    ss.map_values(|s: SampleModel| s.lang)
}

/// The tasks one language was measured on, in order, with duplicates.
pub open spec fn tasks_for(ss: Seq<SampleModel>, lang: Seq<char>) -> Seq<Seq<char>>
    decreases ss.len(),
{
    if ss.len() == 0 {
        Seq::empty()
    } else if ss[0].lang == lang {
        seq![ss[0].task] + tasks_for(ss.drop_first(), lang)
    } else {
        tasks_for(ss.drop_first(), lang)
    }
}

/// The fastest time one language recorded on one task; the maximum value
/// when it recorded none.
pub open spec fn best_time(ss: Seq<SampleModel>, lang: Seq<char>, task: Seq<char>) -> u64
    decreases ss.len(),
{
    if ss.len() == 0 {
        u64::MAX
    } else {
        let rest = best_time(ss.drop_first(), lang, task);
        if ss[0].lang == lang && ss[0].task == task && ss[0].elapsed < rest {
            ss[0].elapsed
        } else {
            rest
        }
    }
}

/// The fastest time any language recorded on one task.
pub open spec fn task_best(ss: Seq<SampleModel>, task: Seq<char>) -> u64
    decreases ss.len(),
{
    if ss.len() == 0 {
        u64::MAX
    } else {
        let rest = task_best(ss.drop_first(), task);
        if ss[0].task == task && ss[0].elapsed < rest {
            ss[0].elapsed
        } else {
            rest
        }
    }
}

/// The speed ratio of one language on one task, in millionths: the task's
/// best time over the language's time, clamped into `1 ..= 1_000_000`.
pub open spec fn ratio_of(ss: Seq<SampleModel>, lang: Seq<char>, task: Seq<char>) -> u64 {
    let bt = best_time(ss, lang, task);
    let tb = task_best(ss, task);
    if bt == 0 {
        1u64
    } else {
        let raw = (tb as int) * 1_000_000 / (bt as int);
        if raw < 1 {
            1u64
        } else if raw > 1_000_000 {
            1_000_000u64
        } else {
            raw as u64
        }
    }
}

/// The speed ratios of one language, over its distinct tasks in name order.
pub open spec fn ratio_list(ss: Seq<SampleModel>, lang: Seq<char>) -> Seq<u64> {
    dedup_sorted(isort_by(seqchar_le_fn(), tasks_for(ss, lang))).map_values(
        |t: Seq<char>| ratio_of(ss, lang, t),
    )
}

/// One language's speed score: the geometric mean of its ratios.
pub open spec fn lang_score(ss: Seq<SampleModel>, lang: Seq<char>) -> u64 {
    spec_geo_mean(ratio_list(ss, lang))
}

/// One score per measured language, in name order.
pub open spec fn scored_of(ss: Seq<SampleModel>) -> Seq<ScoreModel> {
    dedup_sorted(isort_by(seqchar_le_fn(), sample_names(ss))).map_values(
        |l: Seq<char>| ScoreModel { lang: l, value: lang_score(ss, l) },
    )
}

/// The combined `C/C++` score copied onto `C` and `C++` where those are
/// otherwise absent.
pub open spec fn with_copies(scored: Seq<ScoreModel>) -> Seq<ScoreModel> {
    match find_score(scored, "C/C++"@) {
        None => scored,
        Some(v) => {
            let s1 = if find_score(scored, "C"@) is None {
                scored.push(ScoreModel { lang: "C"@, value: v })
            } else {
                scored
            };
            if find_score(s1, "C++"@) is None {
                s1.push(ScoreModel { lang: "C++"@, value: v })
            } else {
                s1
            }
        },
    }
}

/// Finds the fastest time of one language on one task.
fn best_time_exec(samples: &Vec<BenchSample>, lang: &str, task: &str) -> (r: u64)
    ensures
        r == best_time(samples.deep_view(), lang@, task@),
{
    let ghost sm = samples.deep_view();
    let mut acc: u64 = u64::MAX;
    let mut i: usize = 0;
    proof {
        assert(sm.skip(0) =~= sm);
    }
    while i < samples.len()
        invariant
            i <= samples@.len(),
            sm == samples.deep_view(),
            sm.len() == samples@.len(),
            best_time(sm, lang@, task@) == min64(acc, best_time(sm.skip(i as int), lang@, task@)),
        decreases samples@.len() - i,
    {
        proof {
            assert(sm.skip(i as int)[0] == sm[i as int]);
            assert(sm.skip(i as int).drop_first() =~= sm.skip(i + 1));
            assert(sm[i as int] == samples@[i as int].deep_view());
        }
        if str_eq(samples[i].lang.as_str(), lang) && str_eq(samples[i].task.as_str(), task) {
            if samples[i].elapsed < acc {
                acc = samples[i].elapsed;
            }
        }
        i = i + 1;
    }
    proof {
        assert(sm.skip(i as int) =~= Seq::<SampleModel>::empty());
    }
    acc
}

/// Finds the fastest time of any language on one task.
fn task_best_exec(samples: &Vec<BenchSample>, task: &str) -> (r: u64)
    ensures
        r == task_best(samples.deep_view(), task@),
{
    let ghost sm = samples.deep_view();
    let mut acc: u64 = u64::MAX;
    let mut i: usize = 0;
    proof {
        assert(sm.skip(0) =~= sm);
    }
    while i < samples.len()
        invariant
            i <= samples@.len(),
            sm == samples.deep_view(),
            sm.len() == samples@.len(),
            task_best(sm, task@) == min64(acc, task_best(sm.skip(i as int), task@)),
        decreases samples@.len() - i,
    {
        proof {
            assert(sm.skip(i as int)[0] == sm[i as int]);
            assert(sm.skip(i as int).drop_first() =~= sm.skip(i + 1));
            assert(sm[i as int] == samples@[i as int].deep_view());
        }
        if str_eq(samples[i].task.as_str(), task) {
            if samples[i].elapsed < acc {
                acc = samples[i].elapsed;
            }
        }
        i = i + 1;
    }
    proof {
        assert(sm.skip(i as int) =~= Seq::<SampleModel>::empty());
    }
    acc
}

/// Computes the ratio of one language on one task.
fn ratio_exec(samples: &Vec<BenchSample>, lang: &str, task: &str) -> (r: u64)
    ensures
        r == ratio_of(samples.deep_view(), lang@, task@),
        1 <= r <= 1_000_000,
{
    let bt = best_time_exec(samples, lang, task);
    let tb = task_best_exec(samples, task);
    if bt == 0 {
        return 1;
    }
    let raw: u128 = (tb as u128) * 1_000_000u128 / (bt as u128);
    proof {
        assert(raw as int == (tb as int) * 1_000_000 / (bt as int));
    }
    if raw < 1 {
        1
    } else if raw > 1_000_000 {
        1_000_000
    } else {
        raw as u64
    }
}

/// Reduces the usable measurements to one score per language, with the
/// combined `C/C++` score copied onto `C` and `C++` where absent.
pub fn bench_scores_from_samples(samples: &Vec<BenchSample>) -> (r: Vec<ScoreEntry>)
    ensures
        r.deep_view() == with_copies(scored_of(samples.deep_view())),
{
    let ghost sm = samples.deep_view();
    // collect the measured names
    let mut names: Vec<String> = Vec::new();
    let mut i: usize = 0;
    proof {
        assert(views_of(names@) =~= sample_names(sm).take(0));
    }
    while i < samples.len()
        invariant
            i <= samples@.len(),
            sm == samples.deep_view(),
            sm.len() == samples@.len(),
            views_of(names@) == sample_names(sm).take(i as int),
        decreases samples@.len() - i,
    {
        proof {
            assert(sm[i as int] == samples@[i as int].deep_view());
        }
        let ghost n0 = names@;
        names.push(String::from_str(samples[i].lang.as_str()));
        proof {
            assert(views_of(names@) =~= views_of(n0).push(sample_names(sm)[i as int]));
            assert(views_of(names@) =~= sample_names(sm).take(i + 1));
        }
        i = i + 1;
    }
    proof {
        assert(sample_names(sm).take(i as int) =~= sample_names(sm));
    }
    let ghost collected = names@;
    let sorted = sort_strings(names);
    proof {
        lemma_isort_strings_view(collected);
    }
    let langs = dedup_strings(&sorted);
    let ghost lm = dedup_sorted(isort_by(seqchar_le_fn(), sample_names(sm)));
    proof {
        assert(views_of(langs@) == lm);
    }
    let mut scored: Vec<ScoreEntry> = Vec::new();
    let mut k: usize = 0;
    proof {
        assert(scored.deep_view() =~= scored_of(sm).take(0));
    }
    while k < langs.len()
        invariant
            k <= langs@.len(),
            sm == samples.deep_view(),
            views_of(langs@) == lm,
            lm == dedup_sorted(isort_by(seqchar_le_fn(), sample_names(sm))),
            lm.len() == langs@.len(),
            scored.deep_view() == scored_of(sm).take(k as int),
        decreases langs@.len() - k,
    {
        proof {
            assert(lm[k as int] == langs@[k as int]@);
        }
        let lang = langs[k].as_str();
        // the distinct tasks of this language, in name order
        let mut tasks: Vec<String> = Vec::new();
        let mut j: usize = 0;
        proof {
            assert(sm.skip(0) =~= sm);
            assert(views_of(tasks@) + tasks_for(sm.skip(0), lang@) =~= tasks_for(sm, lang@));
        }
        while j < samples.len()
            invariant
                j <= samples@.len(),
                sm == samples.deep_view(),
                sm.len() == samples@.len(),
                tasks_for(sm, lang@) == views_of(tasks@) + tasks_for(sm.skip(j as int), lang@),
            decreases samples@.len() - j,
        {
            proof {
                assert(sm.skip(j as int)[0] == sm[j as int]);
                assert(sm.skip(j as int).drop_first() =~= sm.skip(j + 1));
                assert(sm[j as int] == samples@[j as int].deep_view());
            }
            if str_eq(samples[j].lang.as_str(), lang) {
                let ghost t0 = tasks@;
                tasks.push(String::from_str(samples[j].task.as_str()));
                proof {
                    assert(views_of(tasks@) =~= views_of(t0).push(sm[j as int].task));
                    assert(views_of(t0).push(sm[j as int].task) + tasks_for(sm.skip(j + 1), lang@)
                        =~= views_of(t0) + (seq![sm[j as int].task] + tasks_for(
                        sm.skip(j + 1),
                        lang@,
                    )));
                }
            }
            j = j + 1;
        }
        proof {
            assert(sm.skip(j as int) =~= Seq::<SampleModel>::empty());
            assert(views_of(tasks@) + Seq::<Seq<char>>::empty() =~= views_of(tasks@));
        }
        let ghost tcollected = tasks@;
        let tsorted = sort_strings(tasks);
        proof {
            lemma_isort_strings_view(tcollected);
        }
        let utasks = dedup_strings(&tsorted);
        let ghost tlm = dedup_sorted(isort_by(seqchar_le_fn(), tasks_for(sm, lang@)));
        proof {
            assert(views_of(utasks@) == tlm);
        }
        // the ratios over those tasks
        let mut ratios: Vec<u64> = Vec::new();
        let mut t: usize = 0;
        proof {
            assert(ratios@ =~= ratio_list(sm, lang@).take(0));
        }
        while t < utasks.len()
            invariant
                t <= utasks@.len(),
                sm == samples.deep_view(),
                views_of(utasks@) == tlm,
                tlm == dedup_sorted(isort_by(seqchar_le_fn(), tasks_for(sm, lang@))),
                tlm.len() == utasks@.len(),
                lm[k as int] == lang@,
                k < lm.len(),
                views_of(langs@) == lm,
                lang@ == langs@[k as int]@,
                ratios@ == ratio_list(sm, lang@).take(t as int),
                forall|w: int| 0 <= w < ratios@.len() ==> 1 <= #[trigger] ratios@[w] <= 1_000_000,
            decreases utasks@.len() - t,
        {
            proof {
                assert(tlm[t as int] == utasks@[t as int]@);
            }
            let v = ratio_exec(samples, lang, utasks[t].as_str());
            ratios.push(v);
            proof {
                assert(ratios@ =~= ratio_list(sm, lang@).take(t + 1));
            }
            t = t + 1;
        }
        proof {
            assert(ratio_list(sm, lang@).take(t as int) =~= ratio_list(sm, lang@));
        }
        let score = geo_mean(&ratios);
        let entry = ScoreEntry { lang: String::from_str(lang), value: score };
        let ghost s0 = scored.deep_view();
        scored.push(entry);
        proof {
            assert(scored.deep_view() =~= s0.push(entry.deep_view()));
            assert(scored.deep_view() =~= scored_of(sm).take(k + 1));
        }
        k = k + 1;
    }
    proof {
        assert(scored_of(sm).take(k as int) =~= scored_of(sm));
    }
    // copy the combined score onto the separate names where absent
    let combined = crate::model::score_for(&scored, "C/C++");
    match combined {
        None => scored,
        Some(v) => {
            let ghost base = scored.deep_view();
            if crate::model::score_for(&scored, "C").is_none() {
                let e = ScoreEntry { lang: String::from_str("C"), value: v };
                let ghost b0 = scored.deep_view();
                scored.push(e);
                proof {
                    assert(scored.deep_view() =~= b0.push(e.deep_view()));
                }
            }
            proof {
                assert(scored.deep_view() == (if find_score(base, "C"@) is None {
                    base.push(ScoreModel { lang: "C"@, value: v })
                } else {
                    base
                }));
            }
            if crate::model::score_for(&scored, "C++").is_none() {
                let e = ScoreEntry { lang: String::from_str("C++"), value: v };
                let ghost b1 = scored.deep_view();
                scored.push(e);
                proof {
                    assert(scored.deep_view() =~= b1.push(e.deep_view()));
                }
            }
            scored
        },
    }
}

/// The required columns, as byte sequences.
pub open spec fn col_lang() -> Seq<u8> {
    seq![108u8, 97u8, 110u8, 103u8]
}

pub open spec fn col_name() -> Seq<u8> {
    seq![110u8, 97u8, 109u8, 101u8]
}

pub open spec fn col_status() -> Seq<u8> {
    seq![115u8, 116u8, 97u8, 116u8, 117u8, 115u8]
}

pub open spec fn col_elapsed() -> Seq<u8> {
    seq![
        101u8,
        108u8,
        97u8,
        112u8,
        115u8,
        101u8,
        100u8,
        45u8,
        116u8,
        105u8,
        109u8,
        101u8,
        40u8,
        115u8,
        41u8,
    ]
}

/// The first required column the header lacks, if any.
pub open spec fn spec_missing_bench_col(s: Seq<u8>) -> Option<Seq<char>> {
    let rows = table_rows(s);
    let hdr = if rows.len() > 0 {
        rows[0]
    } else {
        Seq::empty()
    };
    if field_index(hdr, col_lang()) >= hdr.len() {
        Some("lang"@)
    } else if field_index(hdr, col_name()) >= hdr.len() {
        Some("name"@)
    } else if field_index(hdr, col_status()) >= hdr.len() {
        Some("status"@)
    } else if field_index(hdr, col_elapsed()) >= hdr.len() {
        Some("elapsed-time(s)"@)
    } else {
        None
    }
}

/// What the timing table reduces to when the header is complete.
pub open spec fn spec_bench_scores(s: Seq<u8>) -> Seq<ScoreModel> {
    let rows = table_rows(s);
    let hdr = if rows.len() > 0 {
        rows[0]
    } else {
        Seq::empty()
    };
    let ss = samples_of(
        rows.skip(1),
        field_index(hdr, col_lang()),
        field_index(hdr, col_name()),
        field_index(hdr, col_status()),
        field_index(hdr, col_elapsed()),
    );
    with_copies(scored_of(ss))
}

/// Builds one of the column-name needles.
fn make_needle(which: usize) -> (r: Vec<u8>)
    requires
        which < 4,
    ensures
        which == 0 ==> r@ == col_lang(),
        which == 1 ==> r@ == col_name(),
        which == 2 ==> r@ == col_status(),
        which == 3 ==> r@ == col_elapsed(),
{
    let mut v: Vec<u8> = Vec::new();
    if which == 0 {
        v.push(108);
        v.push(97);
        v.push(110);
        v.push(103);
        proof {
            assert(v@ =~= col_lang());
        }
    } else if which == 1 {
        v.push(110);
        v.push(97);
        v.push(109);
        v.push(101);
        proof {
            assert(v@ =~= col_name());
        }
    } else if which == 2 {
        v.push(115);
        v.push(116);
        v.push(97);
        v.push(116);
        v.push(117);
        v.push(115);
        proof {
            assert(v@ =~= col_status());
        }
    } else {
        v.push(101);
        v.push(108);
        v.push(97);
        v.push(112);
        v.push(115);
        v.push(101);
        v.push(100);
        v.push(45);
        v.push(116);
        v.push(105);
        v.push(109);
        v.push(101);
        v.push(40);
        v.push(115);
        v.push(41);
        proof {
            assert(v@ =~= col_elapsed());
        }
    }
    v
}

/// Reduces the raw timing table to one speed score per canonical language.
/// Fails exactly when a required column is missing, naming the first
/// missing one.
pub fn load_benchmark_scores(bytes: &Vec<u8>) -> (r: Result<Vec<ScoreEntry>, RunError>)
    ensures
        r is Ok <==> spec_missing_bench_col(bytes@) is None,
        r matches Ok(v) ==> v.deep_view() == spec_bench_scores(bytes@),
        r matches Err(e) ==> (e matches RunError::MissingColumn(c) && c@
            == spec_missing_bench_col(bytes@).unwrap()),
{
    let rows = parse_table(bytes);
    let ghost rm = table_rows(bytes@);
    let ghost hdrm = if rm.len() > 0 {
        rm[0]
    } else {
        Seq::<Seq<u8>>::empty()
    };
    let needle_lang = make_needle(0);
    let needle_name = make_needle(1);
    let needle_status = make_needle(2);
    let needle_elapsed = make_needle(3);
    if rows.len() == 0 {
        proof {
            assert(field_index(hdrm, col_lang()) >= hdrm.len());
        }
        return Err(RunError::MissingColumn(String::from_str("lang")));
    }
    let hdr = &rows[0];
    proof {
        assert(hdr.deep_view() =~~= hdrm);
    }
    let il = find_col(hdr, &needle_lang);
    if il >= hdr.len() {
        return Err(RunError::MissingColumn(String::from_str("lang")));
    }
    let iname = find_col(hdr, &needle_name);
    if iname >= hdr.len() {
        return Err(RunError::MissingColumn(String::from_str("name")));
    }
    let ist = find_col(hdr, &needle_status);
    if ist >= hdr.len() {
        return Err(RunError::MissingColumn(String::from_str("status")));
    }
    let iel = find_col(hdr, &needle_elapsed);
    if iel >= hdr.len() {
        return Err(RunError::MissingColumn(String::from_str("elapsed-time(s)")));
    }
    // gather the usable measurements
    let mut samples: Vec<BenchSample> = Vec::new();
    let mut i: usize = 1;
    let ghost data = rm.skip(1);
    proof {
        assert(data.skip(0) =~= data);
        assert(samples.deep_view() + samples_of(
            data.skip(0),
            il as int,
            iname as int,
            ist as int,
            iel as int,
        ) =~= samples_of(data, il as int, iname as int, ist as int, iel as int));
    }
    while i < rows.len()
        invariant
            1 <= i <= rows@.len(),
            rows.deep_view() == rm,
            rm.len() == rows@.len(),
            data == rm.skip(1),
            samples_of(data, il as int, iname as int, ist as int, iel as int)
                == samples.deep_view() + samples_of(
                data.skip(i - 1),
                il as int,
                iname as int,
                ist as int,
                iel as int,
            ),
        decreases rows@.len() - i,
    {
        proof {
            assert(data.skip(i - 1)[0] == data[i - 1]);
            assert(data[i - 1] == rm[i as int]);
            assert(rm[i as int] =~~= rows@[i as int].deep_view());
            assert(data.skip(i - 1).drop_first() =~= data.skip(i as int));
        }
        match row_to_sample(&rows[i], il, iname, ist, iel) {
            Some(smp) => {
                let ghost s0 = samples.deep_view();
                samples.push(smp);
                proof {
                    assert(samples.deep_view() =~= s0.push(smp.deep_view()));
                    assert(s0.push(smp.deep_view()) + samples_of(
                        data.skip(i as int),
                        il as int,
                        iname as int,
                        ist as int,
                        iel as int,
                    ) =~= s0 + (seq![smp.deep_view()] + samples_of(
                        data.skip(i as int),
                        il as int,
                        iname as int,
                        ist as int,
                        iel as int,
                    )));
                }
            },
            None => {},
        }
        i = i + 1;
    }
    proof {
        assert(data.skip(i - 1) =~= Seq::<Seq<Seq<u8>>>::empty());
        assert(samples.deep_view() + Seq::<SampleModel>::empty() =~= samples.deep_view());
    }
    let scores = bench_scores_from_samples(&samples);
    Ok(scores)
}

} // verus!
