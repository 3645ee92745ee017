//! Text form of dates, `YYYY-MM-DD`, as a function of bytes and characters.
use vstd::prelude::*;
use vstd::string::*;
use vstd::utf8::*;

use crate::calendar::{civil_from_days, days_from_civil, is_valid_date, lemma_civil_from_days};

verus! {

pub open spec fn is_ascii_digit(b: u8) -> bool {
    48 <= b <= 57
}

pub open spec fn all_ascii_digits(s: Seq<u8>) -> bool {
    forall|i: int| 0 <= i < s.len() ==> is_ascii_digit(#[trigger] s[i])
}

/// Value of a run of decimal digits, most significant first.
pub open spec fn decimal_value(s: Seq<u8>) -> int
    decreases s.len(),
{
    if s.len() == 0 {
        0
    } else {
        decimal_value(s.drop_last()) * 10 + (s.last() - 48)
    }
}

pub open spec fn pow10(n: nat) -> int
    decreases n,
{
    if n == 0 {
        1
    } else {
        10 * pow10((n - 1) as nat)
    }
}

/// What `str::parse` into a signed (`signed`) or unsigned integer type
/// yields on a field short enough not to overflow: an optional `+` (or `-`
/// for a signed type) followed by at least one decimal digit.
pub open spec fn parse_integer_field(s: Seq<u8>, signed: bool) -> Option<int> {
    if s.len() == 0 {
        None
    } else if s.len() == 1 && (s[0] == 43 || s[0] == 45) {
        None
    } else if s[0] == 43 {
        if all_ascii_digits(s.drop_first()) {
            Some(decimal_value(s.drop_first()))
        } else {
            None
        }
    } else if s[0] == 45 && signed {
        if all_ascii_digits(s.drop_first()) {
            Some(-decimal_value(s.drop_first()))
        } else {
            None
        }
    } else if all_ascii_digits(s) {
        Some(decimal_value(s))
    } else {
        None
    }
}

/// Layout check of a date text: at least ten bytes, dashes at 4 and 7.
pub open spec fn has_date_layout(b: Seq<u8>) -> bool {
    b.len() >= 10 && b[4] == 45 && b[7] == 45
}

pub open spec fn year_field(b: Seq<u8>) -> Option<int> {
    parse_integer_field(b.subrange(0, 4), true)
}

pub open spec fn month_field(b: Seq<u8>) -> Option<int> {
    parse_integer_field(b.subrange(5, 7), false)
}

pub open spec fn day_field(b: Seq<u8>) -> Option<int> {
    parse_integer_field(b.subrange(8, 10), false)
}

/// The `(year, month, day)` named by a date text, if it names one that
/// exists in the calendar. Bytes after the tenth are not read.
pub open spec fn parsed_date(b: Seq<u8>) -> Option<(int, int, int)> {
    if has_date_layout(b) {
        match (year_field(b), month_field(b), day_field(b)) {
            (Some(y), Some(m), Some(d)) => if is_valid_date(y, m, d) {
                Some((y, m, d))
            } else {
                None
            },
            _ => None,
        }
    } else {
        None
    }
}

pub open spec fn digit_char(d: int) -> char {
    if d == 0 {
        '0'
    } else if d == 1 {
        '1'
    } else if d == 2 {
        '2'
    } else if d == 3 {
        '3'
    } else if d == 4 {
        '4'
    } else if d == 5 {
        '5'
    } else if d == 6 {
        '6'
    } else if d == 7 {
        '7'
    } else if d == 8 {
        '8'
    } else {
        '9'
    }
}

/// Decimal digits of `n`, most significant first, without leading zeros.
pub open spec fn decimal_digits(n: nat) -> Seq<char>
    decreases n,
{
    if n < 10 {
        seq![digit_char(n as int)]
    } else {
        decimal_digits(n / 10).push(digit_char((n % 10) as int))
    }
}

/// `n` in decimal, left-padded with zeros to at least `width` characters.
pub open spec fn zero_padded(n: nat, width: nat) -> Seq<char> {
    let ds = decimal_digits(n);
    Seq::new(if ds.len() < width { (width - ds.len()) as nat } else { 0 }, |i: int| '0') + ds
}

/// A year as `{:04}` writes it: the sign counts in the width.
pub open spec fn year_text(y: int) -> Seq<char> {
    if y >= 0 {
        zero_padded(y as nat, 4)
    } else {
        seq!['-'] + zero_padded((-y) as nat, 3)
    }
}

/// The text `YYYY-MM-DD` of a civil date.
pub open spec fn date_text(y: int, m: int, d: int) -> Seq<char> {
    year_text(y) + seq!['-'] + zero_padded(m as nat, 2) + seq!['-'] + zero_padded(d as nat, 2)
}

/// The text of the day number `z`.
pub open spec fn epoch_day_text(z: int) -> Seq<char> {
    let (y, m, d) = civil_from_days(z);
    date_text(y, m, d)
}

proof fn lemma_pow10_small()
    ensures
        pow10(0) == 1,
        pow10(1) == 10,
        pow10(2) == 100,
        pow10(3) == 1000,
        pow10(4) == 10000,
{
    reveal_with_fuel(pow10, 5);
}

/// Reads bytes `start..end` of `b` as `str::parse` does for an integer.
pub fn parse_field(b: &[u8], start: usize, end: usize, signed: bool) -> (r: Option<i64>)
    requires
        start < end <= b@.len(),
        end - start <= 4,
    ensures
        match r {
            Some(v) => parse_integer_field(b@.subrange(start as int, end as int), signed) == Some(
                v as int,
            ),
            None => parse_integer_field(b@.subrange(start as int, end as int), signed) is None,
        },
        r matches Some(v) ==> -1000 < v < 10000 && (!signed ==> v >= 0),
{
    let ghost s = b@.subrange(start as int, end as int);
    let first = b[start];
    if end - start == 1 && (first == 43 || first == 45) {
        return None;
    }
    let mut neg = false;
    let mut ds = start;
    if first == 43 {
        ds = start + 1;
    } else if first == 45 && signed {
        ds = start + 1;
        neg = true;
    }
    proof {
        lemma_pow10_small();
        if ds == start + 1 {
            assert(s.drop_first() =~= b@.subrange(ds as int, end as int));
        } else {
            assert(s =~= b@.subrange(ds as int, end as int));
        }
    }
    let mut v: i64 = 0;
    let mut i = ds;
    while i < end
        invariant
            start <= ds <= i <= end <= b@.len(),
            end - start <= 4,
            all_ascii_digits(b@.subrange(ds as int, i as int)),
            v == decimal_value(b@.subrange(ds as int, i as int)),
            0 <= v < pow10((i - ds) as nat),
            neg ==> i - ds <= 3,
            pow10(0) == 1 && pow10(1) == 10 && pow10(2) == 100 && pow10(3) == 1000 && pow10(4)
                == 10000,
            s == b@.subrange(start as int, end as int),
            ds == start + 1 ==> s.drop_first() =~= b@.subrange(ds as int, end as int),
            ds == start ==> s =~= b@.subrange(ds as int, end as int),
            ds == start ==> s[0] != 43 && !(s[0] == 45 && signed),
            ds == start + 1 ==> s[0] == 43 || (s[0] == 45 && signed),
            ds == start || ds == start + 1,
            !(s.len() == 1 && (s[0] == 43 || s[0] == 45)),
            neg == (ds == start + 1 && s[0] == 45),
        decreases end - i,
    {
        let c = b[i];
        if c < 48 || c > 57 {
            proof {
                let t = b@.subrange(ds as int, end as int);
                assert(t[i - ds] == c);
                assert(!all_ascii_digits(t));
            }
            return None;
        }
        proof {
            let t = b@.subrange(ds as int, i + 1);
            assert(t.drop_last() =~= b@.subrange(ds as int, i as int));
            assert(pow10((i + 1 - ds) as nat) == 10 * pow10((i - ds) as nat));
        }
        v = v * 10 + (c - 48) as i64;
        i = i + 1;
    }
    if neg {
        Some(-v)
    } else {
        Some(v)
    }
}


/// The one-character text of a decimal digit.
fn digit_str(d: u8) -> (r: &'static str)
    requires
        d < 10,
    ensures
        r@ == seq![digit_char(d as int)],
{
    proof {
        reveal_strlit("0");
        reveal_strlit("1");
        reveal_strlit("2");
        reveal_strlit("3");
        reveal_strlit("4");
        reveal_strlit("5");
        reveal_strlit("6");
        reveal_strlit("7");
        reveal_strlit("8");
        reveal_strlit("9");
    }
    match d {
        0 => "0",
        1 => "1",
        2 => "2",
        3 => "3",
        4 => "4",
        5 => "5",
        6 => "6",
        7 => "7",
        8 => "8",
        _ => "9",
    }
}

/// Appends `n` in decimal, left-padded with zeros to `width` characters.
pub fn push_zero_padded(out: &mut String, n: u64, width: usize)
    ensures
        final(out)@ == old(out)@ + zero_padded(n as nat, width as nat),
{
    let mut rev: Vec<u8> = Vec::new();
    let ghost mut tail: Seq<char> = Seq::empty();
    let mut rest = n;
    while rest >= 10
        invariant
            decimal_digits(n as nat) =~= decimal_digits(rest as nat) + tail,
            tail.len() == rev@.len(),
            forall|i: int| 0 <= i < rev@.len() ==> rev@[i] < 10,
            forall|i: int|
                0 <= i < tail.len() ==> tail[i] == digit_char(rev@[rev@.len() - 1 - i] as int),
        decreases rest,
    {
        let d = (rest % 10) as u8;
        proof {
            tail = seq![digit_char(d as int)] + tail;
        }
        rev.push(d);
        rest = rest / 10;
    }
    rev.push(rest as u8);
    let ghost digits = seq![digit_char(rest as int)] + tail;
    assert(digits =~= decimal_digits(n as nat));
    let k = rev.len();
    assert(digits.len() == k);
    let mut pad = k;
    let ghost start = out@;
    while pad < width
        invariant
            k <= pad,
            pad == k || pad <= width,
            out@ =~= start + Seq::new((pad - k) as nat, |i: int| '0'),
        decreases width - pad,
    {
        proof {
            reveal_strlit("0");
        }
        out.append("0");
        pad = pad + 1;
    }
    let ghost padded = out@;
    assert(pad - k == if digits.len() < width { (width - digits.len()) as nat } else { 0 });
    let mut j = k;
    while j > 0
        invariant
            j <= k == rev@.len() == digits.len(),
            forall|i: int| 0 <= i < rev@.len() ==> rev@[i] < 10,
            forall|i: int| 0 <= i < digits.len() ==> digits[i] == digit_char(rev@[k - 1 - i] as int),
            out@ =~= padded + digits.subrange(0, (k - j) as int),
        decreases j,
    {
        j = j - 1;
        out.append(digit_str(rev[j]));
    }
    assert(digits.subrange(0, k as int) =~= digits);
    assert(out@ =~= start + (Seq::new((pad - k) as nat, |i: int| '0') + digits));
}


/// Bytes of a text whose characters are all ASCII.
pub open spec fn ascii_bytes(cs: Seq<char>) -> Seq<u8> {
    cs.map_values(|c: char| c as u8)
}

pub open spec fn is_digit_char(c: char) -> bool {
    '0' <= c <= '9'
}

proof fn lemma_digit_char(d: int)
    requires
        0 <= d <= 9,
    ensures
        digit_char(d) as u8 == 48 + d,
        is_digit_char(digit_char(d)),
{
}

proof fn lemma_decimal_digits(n: nat)
    ensures
        decimal_digits(n).len() >= 1,
        forall|i: int| 0 <= i < decimal_digits(n).len() ==> is_digit_char(#[trigger] decimal_digits(n)[i]),
        decimal_value(ascii_bytes(decimal_digits(n))) == n,
        forall|k: nat| n < pow10(k) && k >= 1 ==> decimal_digits(n).len() <= k,
    decreases n,
{
    if n < 10 {
        lemma_digit_char(n as int);
        let b = ascii_bytes(decimal_digits(n));
        assert(b.drop_last() =~= Seq::<u8>::empty());
        assert(b.last() == 48 + n);
        assert(decimal_value(b) == decimal_value(b.drop_last()) * 10 + (b.last() - 48));
        assert forall|k: nat| n < pow10(k) && k >= 1 implies decimal_digits(n).len() <= k by {}
    } else {
        lemma_decimal_digits(n / 10);
        lemma_digit_char((n % 10) as int);
        let b = ascii_bytes(decimal_digits(n));
        assert(b.drop_last() =~= ascii_bytes(decimal_digits(n / 10)));
        assert(b.last() == 48 + n % 10);
        assert(decimal_value(b) == decimal_value(b.drop_last()) * 10 + (b.last() - 48));
        assert forall|k: nat| n < pow10(k) && k >= 1 implies decimal_digits(n).len() <= k by {
            if k == 1 {
                assert(pow10(1) == 10) by {
                    reveal_with_fuel(pow10, 2);
                }
            } else {
                assert(pow10(k) == 10 * pow10((k - 1) as nat));
                assert(n / 10 < pow10((k - 1) as nat));
            }
        }
    }
}

proof fn lemma_leading_zeros(k: nat, s: Seq<u8>)
    ensures
        decimal_value(Seq::new(k, |i: int| 48u8) + s) == decimal_value(s),
    decreases s.len(), k,
{
    let z = Seq::new(k, |i: int| 48u8);
    if s.len() == 0 {
        assert(z + s =~= z);
        if k > 0 {
            assert(z.drop_last() =~= Seq::new((k - 1) as nat, |i: int| 48u8));
            lemma_leading_zeros((k - 1) as nat, s);
            assert(Seq::new((k - 1) as nat, |i: int| 48u8) + s =~= z.drop_last());
        }
    } else {
        assert((z + s).drop_last() =~= z + s.drop_last());
        lemma_leading_zeros(k, s.drop_last());
    }
}

proof fn lemma_zero_padded(n: nat, w: nat)
    requires
        1 <= w,
        n < pow10(w),
    ensures
        zero_padded(n, w).len() == w,
        forall|i: int| 0 <= i < w ==> is_digit_char(#[trigger] zero_padded(n, w)[i]),
        all_ascii_digits(ascii_bytes(zero_padded(n, w))),
        decimal_value(ascii_bytes(zero_padded(n, w))) == n,
{
    lemma_decimal_digits(n);
    let ds = decimal_digits(n);
    let k: nat = (w - ds.len()) as nat;
    let zc = Seq::new(k, |i: int| '0');
    assert(ascii_bytes(zero_padded(n, w)) =~= Seq::new(k, |i: int| 48u8) + ascii_bytes(ds));
    lemma_leading_zeros(k, ascii_bytes(ds));
    assert forall|i: int| 0 <= i < w implies is_digit_char(#[trigger] zero_padded(n, w)[i]) by {
        if i >= k {
            assert(zero_padded(n, w)[i] == ds[i - k]);
        }
    }
    assert forall|i: int| 0 <= i < w implies is_ascii_digit(#[trigger] ascii_bytes(zero_padded(n, w))[i]) by {
        assert(is_digit_char(zero_padded(n, w)[i]));
    }
}


/// The text of a day holds only digits and `-`.
pub proof fn lemma_epoch_day_text_chars(z: int)
    ensures
        forall|i: int|
            0 <= i < epoch_day_text(z).len() ==> is_digit_char(#[trigger] epoch_day_text(z)[i])
                || epoch_day_text(z)[i] == '-',
{
    let (y, m, d) = civil_from_days(z);
    lemma_zero_padded_chars(m as nat, 2);
    lemma_zero_padded_chars(d as nat, 2);
    let yt = year_text(y);
    if y >= 0 {
        lemma_zero_padded_chars(y as nat, 4);
    } else {
        lemma_zero_padded_chars((-y) as nat, 3);
        assert forall|i: int| 0 <= i < yt.len() implies is_digit_char(#[trigger] yt[i]) || yt[i] == '-' by {
            if i > 0 {
                assert(yt[i] == zero_padded((-y) as nat, 3)[i - 1]);
            }
        }
    }
    let mt = zero_padded(m as nat, 2);
    let dt = zero_padded(d as nat, 2);
    let t = epoch_day_text(z);
    assert(t =~= yt + seq!['-'] + mt + seq!['-'] + dt);
    assert forall|i: int| 0 <= i < t.len() implies is_digit_char(#[trigger] t[i]) || t[i] == '-' by {
        if i < yt.len() {
            assert(t[i] == yt[i]);
        } else if yt.len() < i < yt.len() + 1 + mt.len() {
            assert(t[i] == mt[i - yt.len() - 1]);
        } else if yt.len() + 1 + mt.len() < i {
            assert(t[i] == dt[i - yt.len() - 2 - mt.len()]);
        }
    }
}

proof fn lemma_zero_padded_chars(n: nat, w: nat)
    ensures
        forall|i: int|
            0 <= i < zero_padded(n, w).len() ==> is_digit_char(#[trigger] zero_padded(n, w)[i]),
{
    lemma_decimal_digits(n);
    let ds = decimal_digits(n);
    let k: int = if ds.len() < w { w - ds.len() } else { 0 };
    assert forall|i: int| 0 <= i < zero_padded(n, w).len() implies is_digit_char(
        #[trigger] zero_padded(n, w)[i],
    ) by {
        if i >= k {
            assert(zero_padded(n, w)[i] == ds[i - k]);
        }
    }
}

proof fn lemma_year_text(y: int)
    requires
        -999 <= y <= 9999,
    ensures
        year_text(y).len() == 4,
        forall|i: int| 0 <= i < 4 ==> is_digit_char(#[trigger] year_text(y)[i]) || year_text(y)[i] == '-',
        parse_integer_field(ascii_bytes(year_text(y)), true) == Some(y),
{
    lemma_pow10_small();
    let t = year_text(y);
    let b = ascii_bytes(t);
    if y >= 0 {
        lemma_zero_padded(y as nat, 4);
        assert(is_digit_char(t[0]));
    } else {
        lemma_zero_padded((-y) as nat, 3);
        let p = zero_padded((-y) as nat, 3);
        assert(b.drop_first() =~= ascii_bytes(p));
        assert forall|i: int| 0 <= i < 4 implies is_digit_char(#[trigger] t[i]) || t[i] == '-' by {
            if i > 0 {
                assert(t[i] == p[i - 1]);
            }
        }
    }
}

proof fn lemma_two_digits(n: int)
    requires
        0 <= n <= 99,
    ensures
        zero_padded(n as nat, 2).len() == 2,
        forall|i: int| 0 <= i < 2 ==> is_digit_char(#[trigger] zero_padded(n as nat, 2)[i]),
        parse_integer_field(ascii_bytes(zero_padded(n as nat, 2)), false) == Some(n),
{
    lemma_pow10_small();
    lemma_zero_padded(n as nat, 2);
    assert(is_digit_char(zero_padded(n as nat, 2)[0]));
}

/// Parsing the text of a day number gives the day back, for every year that
/// the four-character year field can hold.
pub proof fn lemma_parse_format_roundtrip(z: int)
    requires
        -999 <= civil_from_days(z).0 <= 9999,
    ensures
        ({
            let b = encode_utf8(epoch_day_text(z));
            &&& b.len() == 10
            &&& parsed_date(b) == Some(civil_from_days(z))
        }),
        ({
            let (y, m, d) = civil_from_days(z);
            days_from_civil(y, m, d) == z
        }),
{
    lemma_civil_from_days(z);
    let (y, m, d) = civil_from_days(z);
    lemma_year_text(y);
    lemma_two_digits(m);
    lemma_two_digits(d);
    let yt = year_text(y);
    let mt = zero_padded(m as nat, 2);
    let dt = zero_padded(d as nat, 2);
    let t = date_text(y, m, d);
    assert(t =~= yt + seq!['-'] + mt + seq!['-'] + dt);
    assert forall|i: int| 0 <= i < t.len() implies '\0' <= #[trigger] t[i] <= '\u{7f}' by {
        if i < 4 {
            assert(t[i] == yt[i]);
        } else if 5 <= i < 7 {
            assert(t[i] == mt[i - 5]);
        } else if 8 <= i < 10 {
            assert(t[i] == dt[i - 8]);
        }
    }
    is_ascii_chars_encode_utf8(t);
    let b = encode_utf8(t);
    assert(b =~= ascii_bytes(t));
    assert(b.subrange(0, 4) =~= ascii_bytes(yt));
    assert(b.subrange(5, 7) =~= ascii_bytes(mt));
    assert(b.subrange(8, 10) =~= ascii_bytes(dt));
}


/// Day numbers that a date text can name: every day of the years -999
/// through 9999 lies in this range.
pub open spec fn is_text_day(z: int) -> bool {
    -1_100_000 <= z <= 3_000_000
}

proof fn lemma_decimal_value_bound(s: Seq<u8>)
    requires
        all_ascii_digits(s),
    ensures
        0 <= decimal_value(s) < pow10(s.len()),
    decreases s.len(),
{
    if s.len() > 0 {
        assert(all_ascii_digits(s.drop_last())) by {
            assert forall|i: int| 0 <= i < s.len() - 1 implies is_ascii_digit(
                #[trigger] s.drop_last()[i],
            ) by {
                assert(s.drop_last()[i] == s[i]);
            }
        }
        lemma_decimal_value_bound(s.drop_last());
        assert(is_ascii_digit(s[s.len() - 1]));
        assert(pow10(s.len()) == 10 * pow10((s.len() - 1) as nat));
    }
}

proof fn lemma_field_bound(s: Seq<u8>, signed: bool)
    requires
        1 <= s.len() <= 4,
        parse_integer_field(s, signed) is Some,
    ensures
        -1000 < parse_integer_field(s, signed).unwrap() < 10000,
        !signed ==> parse_integer_field(s, signed).unwrap() >= 0,
{
    lemma_pow10_small();
    if s[0] == 43 || (s[0] == 45 && signed) {
        lemma_decimal_value_bound(s.drop_first());
    } else {
        lemma_decimal_value_bound(s);
    }
}

/// A date text names a day of the text range.
pub proof fn lemma_parsed_date_range(b: Seq<u8>)
    requires
        parsed_date(b) is Some,
    ensures
        ({
            let (y, m, d) = parsed_date(b).unwrap();
            &&& -1000 < y < 10000
            &&& is_text_day(days_from_civil(y, m, d))
        }),
{
    lemma_field_bound(b.subrange(0, 4), true);
    lemma_field_bound(b.subrange(5, 7), false);
    lemma_field_bound(b.subrange(8, 10), false);
}

} // verus!
