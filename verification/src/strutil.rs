//! Character and string helpers shared by the whole pipeline.
//!
//! The Unicode-aware character classifications and case mappings come from
//! the standard library through small trusted wrappers; everything built on
//! top of them (trimming, key normalisation, ordering, number parsing) is
//! verified.

use vstd::prelude::*;

verus! {

/// What `char::is_whitespace` returns for a character.
pub uninterp spec fn is_whitespace_of(c: char) -> bool;

/// What `char::to_lowercase` yields for a character.
pub uninterp spec fn lower_char_of(c: char) -> Seq<char>;

/// What `char::to_uppercase` yields for a character.
pub uninterp spec fn upper_char_of(c: char) -> Seq<char>;

/// Relies on `char::is_whitespace`: true exactly for characters with the
/// Unicode `White_Space` property.  In the ASCII range those are space,
/// horizontal tab, line feed, vertical tab, form feed and carriage return.
#[verifier::external_body]
pub fn is_whitespace_char(c: char) -> (r: bool)
    ensures
        r == is_whitespace_of(c),
        (c as u32) < 128 ==> (r <==> (c == ' ' || (0x09 <= c as u32 && c as u32 <= 0x0D))),
{
    c.is_whitespace()
}

/// Relies on `char::to_lowercase`: the Unicode lowercase mapping of one
/// character, which depends on that character alone.  An ASCII letter maps
/// to its ASCII lowercase form; any other ASCII character maps to itself.
#[verifier::external_body]
pub fn lower_char(c: char) -> (r: Vec<char>)
    ensures
        r@ == lower_char_of(c),
        (c as u32) < 128 ==> r@ =~= seq![ascii_lower_char(c)],
{
    c.to_lowercase().collect()
}

/// Relies on `char::to_uppercase`: the Unicode uppercase mapping of one
/// character, which depends on that character alone.  An ASCII letter maps
/// to its ASCII uppercase form; any other ASCII character maps to itself.
#[verifier::external_body]
pub fn upper_char(c: char) -> (r: Vec<char>)
    ensures
        r@ == upper_char_of(c),
        (c as u32) < 128 ==> r@ =~= seq![ascii_upper_char(c)],
{
    c.to_uppercase().collect()
}

/// Relies on `String::push`: appends one character.
#[verifier::external_body]
pub fn push_char(s: &mut String, c: char)
    ensures
        final(s)@ == old(s)@.push(c),
{
    s.push(c)
}

/// The ASCII lowercase form of a character: `A`..`Z` map down, the rest stay.
pub open spec fn ascii_lower_char(c: char) -> char {
    if 'A' <= c && c <= 'Z' {
        ((c as u32) + 32) as char
    } else {
        c
    }
}

/// The ASCII uppercase form of a character: `a`..`z` map up, the rest stay.
pub open spec fn ascii_upper_char(c: char) -> char {
    if 'a' <= c && c <= 'z' {
        ((c as u32) - 32) as char
    } else {
        c
    }
}

/// Strict lexicographic order on character sequences, by Unicode scalar
/// value.  This is the order `str` comparison gives in Rust, since UTF-8
/// byte order agrees with scalar-value order.
pub open spec fn lex_lt(a: Seq<char>, b: Seq<char>) -> bool
    decreases a.len(),
{
    if b.len() == 0 {
        false
    } else if a.len() == 0 {
        true
    } else if a[0] != b[0] {
        (a[0] as u32) < (b[0] as u32)
    } else {
        lex_lt(a.drop_first(), b.drop_first())
    }
}

/// A sequence with the leading whitespace removed.
pub open spec fn trim_front_of(s: Seq<char>) -> Seq<char>
    decreases s.len(),
{
    if s.len() > 0 && is_whitespace_of(s[0]) {
        trim_front_of(s.drop_first())
    } else {
        s
    }
}

/// A sequence with the trailing whitespace removed.
pub open spec fn trim_back_of(s: Seq<char>) -> Seq<char>
    decreases s.len(),
{
    if s.len() > 0 && is_whitespace_of(s.last()) {
        trim_back_of(s.drop_last())
    } else {
        s
    }
}

/// A sequence with whitespace removed from both ends.
pub open spec fn trimmed_of(s: Seq<char>) -> Seq<char> {
    trim_back_of(trim_front_of(s))
}

/// Removes leading and trailing whitespace.
pub fn trim_str(s: &str) -> (r: String)
    ensures
        r@ == trimmed_of(s@),
{
    let len = s.unicode_len();
    let mut start: usize = 0;
    proof {
        assert(s@.skip(0) =~= s@);
    }
    while start < len && is_whitespace_char(s.get_char(start))
        invariant
            start <= len,
            len == s@.len(),
            trim_front_of(s@) == trim_front_of(s@.skip(start as int)),
        decreases len - start,
    {
        proof {
            assert(s@.skip(start as int).drop_first() =~= s@.skip(start + 1));
        }
        start = start + 1;
    }
    proof {
        if start == len {
            assert(s@.skip(start as int) =~= Seq::<char>::empty());
        }
        assert(trim_front_of(s@) == s@.skip(start as int));
    }
    let mut end: usize = len;
    proof {
        assert(s@.subrange(start as int, end as int) =~= s@.skip(start as int));
    }
    while end > start && is_whitespace_char(s.get_char(end - 1))
        invariant
            start <= end <= len,
            len == s@.len(),
            trim_front_of(s@) == s@.skip(start as int),
            trimmed_of(s@) == trim_back_of(s@.subrange(start as int, end as int)),
        decreases end,
    {
        proof {
            let part = s@.subrange(start as int, end as int);
            assert(part.last() == s@[end - 1]);
            assert(part.drop_last() =~= s@.subrange(start as int, end - 1));
        }
        end = end - 1;
    }
    let piece = s.substring_char(start, end);
    proof {
        let part = s@.subrange(start as int, end as int);
        assert(trim_back_of(part) == part);
    }
    String::from_str(piece)
}

/// True for the ten ASCII digits.
pub open spec fn is_ascii_digit_char(c: char) -> bool {
    '0' <= c && c <= '9'
}

/// The numeric value of an ASCII digit.
pub open spec fn digit_val(c: char) -> int {
    c as u32 - '0' as u32
}

/// The ASCII digits of a sequence, in order, everything else dropped.
pub open spec fn digits_of(s: Seq<char>) -> Seq<char>
    decreases s.len(),
{
    if s.len() == 0 {
        Seq::empty()
    } else if is_ascii_digit_char(s[0]) {
        seq![s[0]] + digits_of(s.drop_first())
    } else {
        digits_of(s.drop_first())
    }
}

/// The value of a sequence of ASCII digits read in base ten.
pub open spec fn digits_value(s: Seq<char>) -> int
    decreases s.len(),
{
    if s.len() == 0 {
        0
    } else {
        digits_value(s.drop_last()) * 10 + digit_val(s.last())
    }
}

/// What `parse_u32` returns: the base-ten value of the digits scattered in
/// the text, every other character ignored; nothing when there is no digit
/// or the value does not fit.
pub open spec fn spec_parse_u32(s: Seq<char>) -> Option<u32> {
    let ds = digits_of(s);
    if ds.len() == 0 {
        None
    } else if digits_value(ds) > u32::MAX {
        None
    } else {
        Some(digits_value(ds) as u32)
    }
}

/// Reads an unsigned number from text, ignoring every character that is not
/// an ASCII digit.  Returns nothing when no digit occurs or the value
/// exceeds `u32::MAX`.
pub fn parse_u32(value: &str) -> (r: Option<u32>)
    ensures
        r == spec_parse_u32(value@),
{
    let len = value.unicode_len();
    let mut i: usize = 0;
    let mut acc: u64 = 0;
    let mut over: bool = false;
    let mut seen: bool = false;
    let ghost mut ds: Seq<char> = Seq::empty();
    proof {
        assert(value@.skip(0) =~= value@);
        assert(digits_of(value@) =~= ds + digits_of(value@.skip(0)));
    }
    while i < len
        invariant
            i <= len,
            len == value@.len(),
            digits_of(value@) == ds + digits_of(value@.skip(i as int)),
            seen == (ds.len() > 0),
            !over ==> acc == digits_value(ds) && acc <= u32::MAX,
            over ==> digits_value(ds) > u32::MAX,
        decreases len - i,
    {
        let c = value.get_char(i);
        proof {
            assert(value@.skip(i as int)[0] == value@[i as int]);
            assert(value@.skip(i as int).drop_first() =~= value@.skip(i + 1));
        }
        if '0' <= c && c <= '9' {
            let d: u64 = (c as u32 - '0' as u32) as u64;
            proof {
                assert(ds.push(c).drop_last() =~= ds);
                assert(seq![c] + digits_of(value@.skip(i + 1)) =~= Seq::empty().push(c)
                    + digits_of(value@.skip(i + 1)));
                assert(ds + (seq![c] + digits_of(value@.skip(i + 1))) =~= ds.push(c) + digits_of(
                    value@.skip(i + 1),
                ));
            }
            if !over {
                let next = acc * 10 + d;
                if next > u32::MAX as u64 {
                    over = true;
                    acc = 0;
                } else {
                    acc = next;
                }
            }
            proof {
                ds = ds.push(c);
            }
            seen = true;
        }
        i = i + 1;
    }
    proof {
        assert(value@.skip(len as int) =~= Seq::<char>::empty());
        assert(digits_of(value@) =~= ds);
    }
    if !seen {
        None
    } else if over {
        None
    } else {
        Some(acc as u32)
    }
}

/// The characters accepted as a minus sign: ASCII hyphen, true minus,
/// en dash and em dash.
pub open spec fn is_minus_like(c: char) -> bool {
    c == '-' || c == '\u{2212}' || c == '\u{2013}' || c == '\u{2014}'
}

/// One step of the scrubbing pass that turns free-form percent text into a
/// plain decimal: digits are kept, the first `.` or `,` becomes the decimal
/// point, a minus sign is kept only before any digit, all else is dropped.
pub open spec fn clean_step(buf: Seq<char>, saw_dec: bool, c: char) -> (Seq<char>, bool) {
    if is_ascii_digit_char(c) {
        (buf.push(c), saw_dec)
    } else if c == '.' || c == ',' {
        if saw_dec {
            (buf, saw_dec)
        } else {
            (buf.push('.'), true)
        }
    } else if is_minus_like(c) {
        if buf.len() == 0 {
            (buf.push('-'), saw_dec)
        } else {
            (buf, saw_dec)
        }
    } else {
        (buf, saw_dec)
    }
}

/// The scrubbing pass folded over a whole sequence.
pub open spec fn cleaned_rec(s: Seq<char>, buf: Seq<char>, saw_dec: bool) -> Seq<char>
    decreases s.len(),
{
    if s.len() == 0 {
        buf
    } else {
        let next = clean_step(buf, saw_dec, s[0]);
        cleaned_rec(s.drop_first(), next.0, next.1)
    }
}

/// The scrubbed decimal text of a free-form percent value.
pub open spec fn cleaned(s: Seq<char>) -> Seq<char> {
    cleaned_rec(s, Seq::empty(), false)
}

/// True when some character of the sequence is an ASCII digit.
pub open spec fn has_digit(s: Seq<char>) -> bool {
    exists|i: int| 0 <= i < s.len() && is_ascii_digit_char(s[i])
}

/// The shape the scrubbing pass guarantees: only digits, at most one dot,
/// and a minus sign only in front.
pub open spec fn buf_shape(buf: Seq<char>) -> bool {
    &&& forall|i: int|
        0 <= i < buf.len() ==> (is_ascii_digit_char(#[trigger] buf[i]) || buf[i] == '.' || buf[i]
            == '-')
    &&& forall|i: int| 0 <= i < buf.len() && #[trigger] buf[i] == '-' ==> i == 0
    &&& forall|i: int, j: int|
        0 <= i < buf.len() && 0 <= j < buf.len() && #[trigger] buf[i] == '.' && #[trigger] buf[j]
            == '.' ==> i == j
}

/// The scrubbing invariant: the shape above, and `saw_dec` records whether a
/// dot has been placed yet.
pub open spec fn buf_wf(buf: Seq<char>, saw_dec: bool) -> bool {
    &&& buf_shape(buf)
    &&& (!saw_dec ==> forall|i: int| 0 <= i < buf.len() ==> #[trigger] buf[i] != '.')
}

proof fn lemma_clean_step_wf(buf: Seq<char>, saw_dec: bool, c: char)
    requires
        buf_wf(buf, saw_dec),
    ensures
        buf_wf(clean_step(buf, saw_dec, c).0, clean_step(buf, saw_dec, c).1),
{
}

/// The index of the first dot, or the length when there is none.
pub open spec fn first_dot(s: Seq<char>) -> int
    decreases s.len(),
{
    if s.len() == 0 {
        0
    } else if s[0] == '.' {
        0
    } else {
        1 + first_dot(s.drop_first())
    }
}

proof fn lemma_first_dot_at(s: Seq<char>, i: int)
    requires
        0 <= i <= s.len(),
        forall|k: int| 0 <= k < i ==> #[trigger] s[k] != '.',
        i < s.len() ==> s[i] == '.',
    ensures
        first_dot(s) == i,
    decreases s.len(),
{
    if s.len() == 0 {
    } else if s[0] == '.' {
        assert(i == 0);
    } else {
        assert(i >= 1);
        let t = s.drop_first();
        assert forall|k: int| 0 <= k < i - 1 implies #[trigger] t[k] != '.' by {
            assert(t[k] == s[k + 1]);
        }
        lemma_first_dot_at(t, i - 1);
    }
}

/// Ten to the given power.
pub open spec fn pow10(n: nat) -> int
    decreases n,
{
    if n == 0 {
        1
    } else {
        10 * pow10((n - 1) as nat)
    }
}

proof fn lemma_digits_value_nonneg(s: Seq<char>)
    requires
        forall|i: int| 0 <= i < s.len() ==> is_ascii_digit_char(#[trigger] s[i]),
    ensures
        digits_value(s) >= 0,
    decreases s.len(),
{
    if s.len() > 0 {
        lemma_digits_value_nonneg(s.drop_last());
    }
}

proof fn lemma_digits_value_bound(s: Seq<char>)
    requires
        forall|i: int| 0 <= i < s.len() ==> is_ascii_digit_char(#[trigger] s[i]),
    ensures
        0 <= digits_value(s) < pow10(s.len() as nat),
    decreases s.len(),
{
    if s.len() > 0 {
        lemma_digits_value_bound(s.drop_last());
    }
}

/// The first six digits after the decimal point, read as millionths: the
/// fraction is padded or truncated to exactly six places.
pub open spec fn frac_micro_val(fr: Seq<char>) -> int {
    if fr.len() >= 6 {
        digits_value(fr.take(6))
    } else {
        digits_value(fr) * pow10((6 - fr.len()) as nat)
    }
}

/// The value in millionths of a scrubbed decimal text, or nothing when the
/// magnitude does not fit in an `i64`.  The fraction is truncated toward
/// zero at the sixth decimal place.
pub open spec fn spec_decimal_micro(buf: Seq<char>) -> Option<i64> {
    let neg = buf.len() > 0 && buf[0] == '-';
    let body = if neg {
        buf.drop_first()
    } else {
        buf
    };
    let di = first_dot(body);
    let ints = body.take(di);
    let fr = if di < body.len() {
        body.skip(di + 1)
    } else {
        Seq::empty()
    };
    let v = digits_value(ints) * (crate::MICRO as int) + frac_micro_val(fr);
    if v > i64::MAX as int {
        None
    } else if neg {
        Some((-v) as i64)
    } else {
        Some(v as i64)
    }
}

/// What `parse_percent` returns: the decimal value, in millionths, of the
/// scrubbed text, or nothing when the text holds no digit at all or the
/// value does not fit.
pub open spec fn spec_parse_percent(s: Seq<char>) -> Option<i64> {
    let buf = cleaned(s);
    if !has_digit(buf) {
        None
    } else {
        spec_decimal_micro(buf)
    }
}

/// Reads a percent-like decimal from free-form text into millionths.
/// Digits are kept, the first `.` or `,` is the decimal point, a leading
/// minus (or typographic dash) negates, everything else is ignored.
pub fn parse_percent(value: &str) -> (r: Option<i64>)
    ensures
        r == spec_parse_percent(value@),
{
    let len = value.unicode_len();
    let mut buf: Vec<char> = Vec::new();
    let mut saw_dec: bool = false;
    let mut i: usize = 0;
    proof {
        assert(value@.skip(0) =~= value@);
    }
    while i < len
        invariant
            i <= len,
            len == value@.len(),
            cleaned(value@) == cleaned_rec(value@.skip(i as int), buf@, saw_dec),
            buf_wf(buf@, saw_dec),
        decreases len - i,
    {
        let c = value.get_char(i);
        proof {
            assert(value@.skip(i as int)[0] == value@[i as int]);
            assert(value@.skip(i as int).drop_first() =~= value@.skip(i + 1));
            lemma_clean_step_wf(buf@, saw_dec, c);
        }
        if '0' <= c && c <= '9' {
            buf.push(c);
        } else if c == '.' || c == ',' {
            if !saw_dec {
                buf.push('.');
                saw_dec = true;
            }
        } else if c == '-' || c == '\u{2212}' || c == '\u{2013}' || c == '\u{2014}' {
            if buf.len() == 0 {
                buf.push('-');
            }
        }
        i = i + 1;
    }
    proof {
        assert(value@.skip(len as int) =~= Seq::<char>::empty());
    }
    decimal_micro(&buf)
}

/// The value in millionths of an already scrubbed decimal text.
fn decimal_micro(buf: &Vec<char>) -> (r: Option<i64>)
    requires
        buf_shape(buf@),
    ensures
        r == (if has_digit(buf@) {
            spec_decimal_micro(buf@)
        } else {
            None::<i64>
        }),
{
    let n = buf.len();
    let neg = n > 0 && buf[0] == '-';
    let start: usize = if neg {
        1
    } else {
        0
    };
    let ghost body = if neg {
        buf@.drop_first()
    } else {
        buf@
    };
    proof {
        assert(body =~= buf@.skip(start as int));
        assert(body.take(0) =~= Seq::<char>::empty());
    }
    let mut pos: usize = start;
    let mut acc: u64 = 0;
    let mut over: bool = false;
    while pos < n && buf[pos] != '.'
        invariant
            start <= pos <= n,
            n == buf@.len(),
            start == (if neg {
                1int
            } else {
                0int
            }),
            neg == (buf@.len() > 0 && buf@[0] == '-'),
            buf_shape(buf@),
            body == buf@.skip(start as int),
            forall|k: int|
                start <= k < pos ==> is_ascii_digit_char(#[trigger] buf@[k]) && buf@[k] != '.',
            !over ==> acc == digits_value(body.take(pos - start)) && acc <= i64::MAX,
            over ==> digits_value(body.take(pos - start)) > i64::MAX,
        decreases n - pos,
    {
        let c = buf[pos];
        proof {
            assert(buf@[pos as int] != '-');
            assert(is_ascii_digit_char(c));
            assert(body.take(pos - start + 1).drop_last() =~= body.take(pos - start));
            assert(body.take(pos - start + 1).last() == buf@[pos as int]);
        }
        let d: u64 = (c as u32 - '0' as u32) as u64;
        if !over {
            let next: u128 = acc as u128 * 10 + d as u128;
            if next > i64::MAX as u128 {
                over = true;
                acc = 0;
            } else {
                acc = next as u64;
            }
        }
        pos = pos + 1;
    }
    let ints_len: usize = pos - start;
    proof {
        assert forall|k: int| 0 <= k < ints_len implies #[trigger] body[k] != '.' by {
            assert(body[k] == buf@[k + start]);
        }
        if pos < n {
            assert(body[ints_len as int] == buf@[pos as int]);
        }
        lemma_first_dot_at(body, ints_len as int);
        assert(first_dot(body) == ints_len as int);
    }
    let ghost ints = body.take(ints_len as int);
    let ghost fr = if (ints_len as int) < body.len() {
        body.skip(ints_len + 1)
    } else {
        Seq::<char>::empty()
    };
    let ghost fr_start = start as int + ints_len as int + 1;
    let mut facc: u64 = 0;
    let mut fcnt: usize = 0;
    let mut frac_any: bool = false;
    if pos < n {
        proof {
            assert(buf@[pos as int] == '.');
        }
        pos = pos + 1;
        proof {
            assert(fr =~= buf@.skip(pos as int));
            assert(fr.take(0) =~= Seq::<char>::empty());
        }
        frac_any = pos < n;
        while pos < n && fcnt < 6
            invariant
                fr_start <= pos as int <= n,
                n == buf@.len(),
                buf_shape(buf@),
                1 <= fr_start,
                buf@[fr_start - 1] == '.',
                fr == buf@.skip(fr_start),
                fcnt == pos as int - fr_start,
                fcnt <= 6,
                facc == digits_value(fr.take(fcnt as int)),
                facc < 1000000,
            decreases n - pos,
        {
            let c = buf[pos];
            proof {
                assert(buf@[pos as int] != '-');
                assert(buf@[pos as int] != '.');
                assert(is_ascii_digit_char(c));
                assert(fr.take(fcnt + 1).drop_last() =~= fr.take(fcnt as int));
                assert(fr.take(fcnt + 1).last() == buf@[pos as int]);
                assert forall|k: int|
                    0 <= k < fr.take(fcnt as int).len() implies is_ascii_digit_char(
                    #[trigger] fr.take(fcnt as int)[k],
                ) by {
                    assert(fr.take(fcnt as int)[k] == buf@[k + fr_start]);
                    assert(buf@[k + fr_start] != '-');
                    assert(buf@[k + fr_start] != '.');
                }
                lemma_digits_value_bound(fr.take(fcnt as int));
                lemma_pow10_mono(fcnt as nat, 5);
                assert(pow10(5) == 100000) by {
                    reveal_with_fuel(pow10, 6);
                };
            }
            let d: u64 = (c as u32 - '0' as u32) as u64;
            facc = facc * 10 + d;
            fcnt = fcnt + 1;
            pos = pos + 1;
        }
        proof {
            if pos == n {
                assert(fr.take(fcnt as int) =~= fr);
            } else {
                assert(fr.take(fcnt as int) =~= fr.take(6));
            }
        }
    } else {
        proof {
            assert(fr.take(fcnt as int) =~= fr);
        }
    }
    let ghost fr_used = fcnt as int;
    proof {
        assert forall|k: int| 0 <= k < fr.take(fr_used).len() implies is_ascii_digit_char(
            #[trigger] fr.take(fr_used)[k],
        ) by {
            assert(fr.take(fr_used)[k] == buf@[k + fr_start]);
            assert(buf@[k + fr_start] != '-');
            assert(buf@[k + fr_start] != '.');
        }
        lemma_digits_value_bound(fr.take(fr_used));
        assert(digits_value(fr.take(fr_used)) * pow10(0) == digits_value(fr.take(fr_used)));
    }
    // pad the fraction to six places
    while fcnt < 6
        invariant
            0 <= fr_used <= fcnt as int <= 6,
            fr_used == (if fr.len() >= 6 {
                6int
            } else {
                fr.len() as int
            }),
            facc == digits_value(fr.take(fr_used)) * pow10((fcnt as int - fr_used) as nat),
            0 <= digits_value(fr.take(fr_used)) < pow10(fr_used as nat),
            facc < 1000000,
        decreases 6 - fcnt,
    {
        proof {
            let dv = digits_value(fr.take(fr_used));
            lemma_digits_value_nonneg_shape(fr.take(fr_used));
            assert(facc * 10 == dv * pow10((fcnt as int + 1 - fr_used) as nat)) by {
                assert(pow10((fcnt as int + 1 - fr_used) as nat) == 10 * pow10(
                    (fcnt as int - fr_used) as nat,
                ));
                lemma_mul_assoc_ten(dv, pow10((fcnt as int - fr_used) as nat));
            };
            lemma_pow_bound_step(dv, fr_used as nat, (fcnt as int - fr_used) as nat);
        }
        facc = facc * 10;
        fcnt = fcnt + 1;
    }
    proof {
        assert(frac_micro_val(fr) == facc) by {
            if fr.len() >= 6 {
                assert(fr_used == 6);
                assert(pow10(0) == 1);
            }
        };
    }
    // a digit occurs exactly when the integer part or the fraction is nonempty
    let seen: bool = ints_len > 0 || frac_any;
    proof {
        if ints_len > 0 {
            assert(is_ascii_digit_char(buf@[start as int]));
            assert(has_digit(buf@));
        } else if frac_any {
            assert(is_ascii_digit_char(buf@[start + 1]));
            assert(has_digit(buf@));
        } else {
            assert forall|k: int| 0 <= k < buf@.len() implies !is_ascii_digit_char(
                #[trigger] buf@[k],
            ) by {
                if k == start && (start as int) < buf@.len() {
                    assert(buf@[k] == '.');
                }
            }
            assert(!has_digit(buf@));
        }
    }
    if !seen {
        return None;
    }
    proof {
        assert forall|k: int| 0 <= k < ints.len() implies is_ascii_digit_char(
            #[trigger] ints[k],
        ) by {
            assert(ints[k] == buf@[k + start]);
        }
        lemma_digits_value_nonneg(ints);
    }
    if over {
        proof {
            let v = digits_value(ints) * (crate::MICRO as int) + frac_micro_val(fr);
            assert(digits_value(ints) * (crate::MICRO as int) >= digits_value(ints) * 1) by {
                lemma_mul_mono(digits_value(ints), 1, crate::MICRO as int);
            };
            assert(v > i64::MAX as int);
        }
        return None;
    }
    let v: u128 = acc as u128 * (crate::MICRO as u128) + facc as u128;
    proof {
        assert(v == digits_value(ints) * (crate::MICRO as int) + frac_micro_val(fr));
    }
    if v > i64::MAX as u128 {
        None
    } else if neg {
        Some(-(v as i64))
    } else {
        Some(v as i64)
    }
}

proof fn lemma_digits_value_nonneg_shape(s: Seq<char>)
    ensures
        (forall|i: int| 0 <= i < s.len() ==> is_ascii_digit_char(#[trigger] s[i]))
            ==> digits_value(s) >= 0,
{
    if forall|i: int| 0 <= i < s.len() ==> is_ascii_digit_char(#[trigger] s[i]) {
        lemma_digits_value_nonneg(s);
    }
}

proof fn lemma_mul_assoc_ten(a: int, b: int)
    ensures
        (a * b) * 10 == a * (10 * b),
{
    vstd::arithmetic::mul::lemma_mul_is_associative(a, b, 10);
    vstd::arithmetic::mul::lemma_mul_is_commutative(b, 10);
}

pub proof fn lemma_pow_bound_step(dv: int, used: nat, pad: nat)
    requires
        0 <= dv < pow10(used),
        used + pad + 1 <= 6,
    ensures
        dv * pow10(pad + 1) < 1000000,
        dv * pow10(pad) >= 0,
        dv * pow10(pad + 1) >= 0,
    decreases used + pad,
{
    lemma_pow10_pos(pad);
    lemma_pow10_pos((pad + 1) as nat);
    vstd::arithmetic::mul::lemma_mul_nonnegative(dv, pow10(pad));
    vstd::arithmetic::mul::lemma_mul_nonnegative(dv, pow10((pad + 1) as nat));
    // dv * pow10(pad + 1) <= (pow10(used) - 1) * pow10(pad + 1) < pow10(used + pad + 1) <= 1e6
    vstd::arithmetic::mul::lemma_mul_inequality(dv, pow10(used) - 1, pow10((pad + 1) as nat));
    lemma_pow10_add(used, (pad + 1) as nat);
    vstd::arithmetic::mul::lemma_mul_is_distributive_sub_other_way(
        pow10((pad + 1) as nat),
        pow10(used),
        1,
    );
    lemma_pow10_mono((used + pad + 1) as nat, 6);
    assert(pow10(6) == 1000000) by {
        reveal_with_fuel(pow10, 7);
    };
}

pub proof fn lemma_pow10_pos(n: nat)
    ensures
        pow10(n) >= 1,
    decreases n,
{
    if n > 0 {
        lemma_pow10_pos((n - 1) as nat);
    }
}

proof fn lemma_pow10_add(a: nat, b: nat)
    ensures
        pow10(a + b) == pow10(a) * pow10(b),
    decreases a,
{
    if a == 0 {
        assert(pow10(0 + b) == 1 * pow10(b));
    } else {
        lemma_pow10_add((a - 1) as nat, b);
        assert(pow10(a + b) == 10 * pow10((a - 1 + b) as nat));
        vstd::arithmetic::mul::lemma_mul_is_associative(10, pow10((a - 1) as nat), pow10(b));
    }
}

pub proof fn lemma_pow10_mono(a: nat, b: nat)
    requires
        a <= b,
    ensures
        pow10(a) <= pow10(b),
    decreases b,
{
    if a < b {
        lemma_pow10_mono(a, (b - 1) as nat);
        lemma_pow10_pos((b - 1) as nat);
    }
}

proof fn lemma_mul_mono(a: int, b: int, c: int)
    requires
        a >= 0,
        1 <= b <= c,
    ensures
        a * b <= a * c,
        a * b >= a,
{
    vstd::arithmetic::mul::lemma_mul_inequality(b, c, a);
    vstd::arithmetic::mul::lemma_mul_is_commutative(a, b);
    vstd::arithmetic::mul::lemma_mul_is_commutative(a, c);
    vstd::arithmetic::mul::lemma_mul_inequality(1, b, a);
}

/// Tests two strings for character-for-character equality.
pub fn str_eq(a: &str, b: &str) -> (r: bool)
    ensures
        r == (a@ == b@),
{
    let a_len = a.unicode_len();
    let b_len = b.unicode_len();
    if a_len != b_len {
        return false;
    }
    let mut i: usize = 0;
    while i < a_len
        invariant
            i <= a_len,
            a_len == a@.len(),
            a_len == b@.len(),
            forall|k: int| 0 <= k < i ==> a@[k] == b@[k],
        decreases a_len - i,
    {
        if a.get_char(i) != b.get_char(i) {
            return false;
        }
        i = i + 1;
    }
    proof {
        assert(a@ =~= b@);
    }
    true
}

/// Compares two strings in lexicographic order of their characters.
pub fn str_lt(a: &str, b: &str) -> (r: bool)
    ensures
        r == lex_lt(a@, b@),
{
    let a_len = a.unicode_len();
    let b_len = b.unicode_len();
    let mut i: usize = 0;
    proof {
        assert(a@.skip(0) =~= a@);
        assert(b@.skip(0) =~= b@);
    }
    loop
        invariant
            i <= a_len,
            i <= b_len,
            a_len == a@.len(),
            b_len == b@.len(),
            a@.subrange(0, i as int) =~= b@.subrange(0, i as int),
            lex_lt(a@, b@) == lex_lt(a@.skip(i as int), b@.skip(i as int)),
        decreases a_len - i,
    {
        if i == b_len {
            return false;
        }
        if i == a_len {
            return true;
        }
        let ca = a.get_char(i);
        let cb = b.get_char(i);
        if ca != cb {
            return (ca as u32) < (cb as u32);
        }
        proof {
            assert(a@.skip(i as int).drop_first() =~= a@.skip(i + 1));
            assert(b@.skip(i as int).drop_first() =~= b@.skip(i + 1));
            assert(a@.subrange(0, i + 1) =~= b@.subrange(0, i + 1));
        }
        i = i + 1;
    }
}

} // verus!
