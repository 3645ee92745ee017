//! Text rules of the `date,value` and `date,col1,...` CSV inputs: fields,
//! trimming, the header and which first fields look like dates.
use vstd::prelude::*;
use vstd::string::*;

verus! {

/// Whether two string slices hold the same characters.
pub fn same_text(a: &str, b: &str) -> (r: bool)
    ensures
        r == (a@ == b@),
{
    let x = chars_of(a);
    let y = chars_of(b);
    if x.len() != y.len() {
        return false;
    }
    let mut k: usize = 0;
    while k < x.len()
        invariant
            x@ == a@,
            y@ == b@,
            x.len() == y.len(),
            k <= x.len(),
            forall|t: int| 0 <= t < k ==> x@[t] == y@[t],
        decreases x.len() - k,
    {
        if x[k] != y[k] {
            return false;
        }
        k = k + 1;
    }
    assert(a@ =~= b@);
    true
}

/// Unicode `White_Space`, the set that `char::is_whitespace` tests.
pub open spec fn is_white_space(c: char) -> bool {
    let u = c as u32;
    ||| 0x09 <= u <= 0x0D
    ||| u == 0x20
    ||| u == 0x85
    ||| u == 0xA0
    ||| u == 0x1680
    ||| 0x2000 <= u <= 0x200A
    ||| u == 0x2028
    ||| u == 0x2029
    ||| u == 0x202F
    ||| u == 0x205F
    ||| u == 0x3000
}

/// The first index at or after `i` whose character is not white space.
pub open spec fn skip_white_forward(s: Seq<char>, i: int) -> int
    decreases s.len() - i,
{
    if 0 <= i < s.len() && is_white_space(s[i]) {
        skip_white_forward(s, i + 1)
    } else {
        i
    }
}

/// The end, at or before `j` and after `lo`, of the span that drops white
/// space from the back of `s[lo..j]`.
pub open spec fn skip_white_backward(s: Seq<char>, lo: int, j: int) -> int
    decreases j - lo,
{
    if lo < j <= s.len() && is_white_space(s[j - 1]) {
        skip_white_backward(s, lo, j - 1)
    } else {
        j
    }
}

/// `s` without its leading and trailing white space (`str::trim`).
pub open spec fn trimmed(s: Seq<char>) -> Seq<char> {
    let a = skip_white_forward(s, 0);
    s.subrange(a, skip_white_backward(s, a, s.len() as int))
}

proof fn lemma_skip_forward(s: Seq<char>, i: int)
    requires
        0 <= i <= s.len(),
    ensures
        i <= skip_white_forward(s, i) <= s.len(),
        forall|q: int| i <= q < skip_white_forward(s, i) ==> is_white_space(s[q]),
        skip_white_forward(s, i) < s.len() ==> !is_white_space(s[skip_white_forward(s, i)]),
    decreases s.len() - i,
{
    if i < s.len() && is_white_space(s[i]) {
        lemma_skip_forward(s, i + 1);
    }
}

proof fn lemma_skip_backward(s: Seq<char>, lo: int, j: int)
    requires
        0 <= lo <= j <= s.len(),
    ensures
        lo <= skip_white_backward(s, lo, j) <= j,
        forall|q: int| skip_white_backward(s, lo, j) <= q < j ==> is_white_space(s[q]),
        skip_white_backward(s, lo, j) > lo ==> !is_white_space(s[skip_white_backward(s, lo, j) - 1]),
    decreases j - lo,
{
    if lo < j && is_white_space(s[j - 1]) {
        lemma_skip_backward(s, lo, j - 1);
    }
}

/// Trimming keeps a contiguous part `s[a..e]` of the text and drops only
/// white space: all of `s[..a]` and `s[e..]` is white space, and a kept
/// part that is not empty neither starts nor ends with white space.
pub proof fn lemma_trimmed(s: Seq<char>) -> (r: (int, int))
    ensures
        0 <= r.0 <= r.1 <= s.len(),
        trimmed(s) == s.subrange(r.0, r.1),
        forall|q: int| 0 <= q < r.0 ==> is_white_space(#[trigger] s[q]),
        forall|q: int| r.1 <= q < s.len() ==> is_white_space(#[trigger] s[q]),
        r.0 < r.1 ==> !is_white_space(s[r.0]) && !is_white_space(s[r.1 - 1]),
{
    let a = skip_white_forward(s, 0);
    lemma_skip_forward(s, 0);
    let e = skip_white_backward(s, a, s.len() as int);
    lemma_skip_backward(s, a, s.len() as int);
    (a, e)
}

/// The characters of a string slice, in order.
pub fn chars_of(s: &str) -> (r: Vec<char>)
    ensures
        r@ == s@,
{
    broadcast use vstd::string::group_string_axioms;

    let mut out: Vec<char> = Vec::new();
    for c in it: s.chars()
        invariant
            out@ == it.seq().take(it.index() as int),
            it.seq() == s@,
    {
        out.push(c);
    }
    assert(out@ =~= s@);
    out
}

/// Whether `c` is Unicode white space.
pub fn is_white_space_char(c: char) -> (b: bool)
    ensures
        b == is_white_space(c),
{
    let u: u32 = c as u32;
    (0x09 <= u && u <= 0x0D) || u == 0x20 || u == 0x85 || u == 0xA0 || u == 0x1680 || (0x2000
        <= u && u <= 0x200A) || u == 0x2028 || u == 0x2029 || u == 0x202F || u == 0x205F || u
        == 0x3000
}

/// `s` with leading and trailing white space removed.
pub fn trim_text(s: &str) -> (r: &str)
    ensures
        r@ == trimmed(s@),
{
    let cs = chars_of(s);
    let n = cs.len();
    let mut i: usize = 0;
    while i < n && is_white_space_char(cs[i])
        invariant
            i <= n,
            n == s@.len(),
            cs@ == s@,
            skip_white_forward(s@, 0) == skip_white_forward(s@, i as int),
        decreases n - i,
    {
        i = i + 1;
    }
    let mut j: usize = n;
    while j > i && is_white_space_char(cs[j - 1])
        invariant
            i <= j <= n,
            n == s@.len(),
            cs@ == s@,
            skip_white_forward(s@, 0) == i,
            skip_white_backward(s@, i as int, n as int) == skip_white_backward(
                s@,
                i as int,
                j as int,
            ),
        decreases j,
    {
        j = j - 1;
    }
    s.substring_char(i, j)
}

/// The index of the first `,` at or after `i`, or the length of `s`.
pub open spec fn next_comma(s: Seq<char>, i: int) -> int
    decreases s.len() - i,
{
    if i < 0 || i >= s.len() {
        s.len() as int
    } else if s[i] == ',' {
        i
    } else {
        next_comma(s, i + 1)
    }
}

/// Where the next comma can be, and that none comes before it.
pub proof fn lemma_next_comma_bounds(s: Seq<char>, i: int)
    requires
        0 <= i <= s.len(),
    ensures
        i <= next_comma(s, i) <= s.len(),
        next_comma(s, i) < s.len() ==> s[next_comma(s, i)] == ',',
        forall|k: int| i <= k < next_comma(s, i) ==> s[k] != ',',
    decreases s.len() - i,
{
    if i < s.len() && s[i] != ',' {
        lemma_next_comma_bounds(s, i + 1);
    }
}

/// The comma-separated pieces of `s[i..]` (`str::split(',')`).
pub open spec fn fields_from(s: Seq<char>, i: int) -> Seq<Seq<char>>
    decreases s.len() - i,
{
    if 0 <= i <= s.len() {
        let k = next_comma(s, i);
        proof {
            lemma_next_comma_bounds(s, i);
        }
        if k >= s.len() {
            seq![s.subrange(i, s.len() as int)]
        } else {
            seq![s.subrange(i, k)] + fields_from(s, k + 1)
        }
    } else {
        seq![]
    }
}

/// With no comma at or after `j`, the next comma from `j` is the end.
proof fn lemma_next_comma_none(s: Seq<char>, j: int)
    requires
        0 <= j <= s.len(),
        forall|k: int| j <= k < s.len() ==> s[k] != ',',
    ensures
        next_comma(s, j) == s.len(),
    decreases s.len() - j,
{
    if j < s.len() {
        lemma_next_comma_none(s, j + 1);
    }
}

/// Appending `,t` to `s` leaves the next comma within `s` where it was, and
/// otherwise finds the appended comma.
proof fn lemma_next_comma_append(s: Seq<char>, t: Seq<char>, i: int)
    requires
        0 <= i <= s.len(),
    ensures
        ({
            let x = s + seq![','] + t;
            &&& next_comma(s, i) < s.len() ==> next_comma(x, i) == next_comma(s, i)
            &&& next_comma(s, i) >= s.len() ==> next_comma(x, i) == s.len()
        }),
    decreases s.len() - i,
{
    let x = s + seq![','] + t;
    if i < s.len() {
        assert(x[i] == s[i]);
        if s[i] != ',' {
            lemma_next_comma_append(s, t, i + 1);
        }
    } else {
        assert(x[i] == ',');
    }
}

proof fn lemma_fields_from_append(s: Seq<char>, t: Seq<char>, i: int)
    requires
        0 <= i <= s.len(),
        !t.contains(','),
    ensures
        fields_from(s + seq![','] + t, i) == fields_from(s, i).push(t),
    decreases s.len() - i,
{
    let x = s + seq![','] + t;
    lemma_next_comma_bounds(s, i);
    lemma_next_comma_bounds(x, i);
    lemma_next_comma_append(s, t, i);
    let k = next_comma(s, i);
    if k < s.len() {
        lemma_fields_from_append(s, t, k + 1);
        assert(x.subrange(i, k) =~= s.subrange(i, k));
        assert(seq![s.subrange(i, k)] + fields_from(s, k + 1).push(t) =~= (seq![s.subrange(i, k)]
            + fields_from(s, k + 1)).push(t));
    } else {
        let j: int = s.len() as int + 1;
        assert forall|q: int| j <= q < x.len() implies x[q] != ',' by {
            assert(x[q] == t[q - j]);
        }
        lemma_next_comma_none(x, j);
        assert(x.subrange(i, s.len() as int) =~= s.subrange(i, s.len() as int));
        assert(x.subrange(j, x.len() as int) =~= t);
        assert(fields_from(s, i) == seq![s.subrange(i, s.len() as int)]);
        assert(fields_from(x, j) == seq![t]);
    }
}

/// Splitting text with a further field `,t` (`t` free of commas) gives the
/// fields of the text and then `t`.
pub proof fn lemma_split_commas_push(s: Seq<char>, t: Seq<char>)
    requires
        !t.contains(','),
    ensures
        split_commas(s + seq![','] + t) == split_commas(s).push(t),
{
    lemma_fields_from_append(s, t, 0);
}

/// Fields joined with commas between them.
pub open spec fn join_commas(fields: Seq<Seq<char>>) -> Seq<char>
    decreases fields.len(),
{
    if fields.len() == 0 {
        Seq::empty()
    } else if fields.len() == 1 {
        fields[0]
    } else {
        fields[0] + seq![','] + join_commas(fields.drop_first())
    }
}

proof fn lemma_fields_from_join(s: Seq<char>, i: int)
    requires
        0 <= i <= s.len(),
    ensures
        fields_from(s, i).len() >= 1,
        join_commas(fields_from(s, i)) == s.subrange(i, s.len() as int),
        forall|k: int| 0 <= k < fields_from(s, i).len() ==> !(#[trigger] fields_from(s, i)[k]).contains(','),
    decreases s.len() - i,
{
    lemma_next_comma_bounds(s, i);
    let k = next_comma(s, i);
    let f = fields_from(s, i);
    if k < s.len() {
        lemma_fields_from_join(s, k + 1);
        let rest = fields_from(s, k + 1);
        assert(f.drop_first() =~= rest);
        assert(s.subrange(i, s.len() as int) =~= s.subrange(i, k) + seq![','] + s.subrange(
            k + 1,
            s.len() as int,
        ));
        assert forall|q: int| 0 <= q < f.len() implies !(#[trigger] f[q]).contains(',') by {
            if q > 0 {
                assert(f[q] == rest[q - 1]);
            } else {
                assert forall|t: int| 0 <= t < f[0].len() implies f[0][t] != ',' by {
                    assert(f[0][t] == s[i + t]);
                }
            }
        }
    } else {
        assert forall|t: int| 0 <= t < f[0].len() implies f[0][t] != ',' by {
            assert(f[0][t] == s[i + t]);
        }
    }
}

/// Splitting at commas loses nothing: there is at least one field, no field
/// holds a comma, and the fields joined with commas give the text back.
pub proof fn lemma_split_commas_join(s: Seq<char>)
    ensures
        split_commas(s).len() >= 1,
        join_commas(split_commas(s)) == s,
        forall|k: int| 0 <= k < split_commas(s).len() ==> !(#[trigger] split_commas(s)[k]).contains(','),
{
    lemma_fields_from_join(s, 0);
    assert(s.subrange(0, s.len() as int) =~= s);
}

/// Text without a comma is a single field.
pub proof fn lemma_split_commas_single(t: Seq<char>)
    requires
        !t.contains(','),
    ensures
        split_commas(t) == seq![t],
{
    assert forall|q: int| 0 <= q < t.len() implies t[q] != ',' by {}
    lemma_next_comma_none(t, 0);
    assert(t.subrange(0, t.len() as int) =~= t);
}

/// The comma-separated pieces of a line.
pub open spec fn split_commas(s: Seq<char>) -> Seq<Seq<char>> {
    fields_from(s, 0)
}

/// The index of the first comma of `cs[i..]`, or its length.
fn find_comma(cs: &Vec<char>, i: usize) -> (k: usize)
    requires
        i <= cs.len(),
    ensures
        k == next_comma(cs@, i as int),
{
    let mut k: usize = i;
    while k < cs.len() && cs[k] != ','
        invariant
            i <= k <= cs.len(),
            next_comma(cs@, i as int) == next_comma(cs@, k as int),
        decreases cs.len() - k,
    {
        k = k + 1;
    }
    k
}

/// The comma-separated fields of `line`, each trimmed, as
/// `line.split(',').map(str::trim)` gives them.
pub fn split_fields(line: &str) -> (r: Vec<String>)
    ensures
        r.len() == split_commas(line@).len(),
        forall|t: int| 0 <= t < r.len() ==> r[t]@ == trimmed(#[trigger] split_commas(line@)[t]),
{
    let cs = chars_of(line);
    let n = cs.len();
    let mut out: Vec<String> = Vec::new();
    let ghost mut done: Seq<Seq<char>> = seq![];
    let mut i: usize = 0;
    loop
        invariant
            i <= n,
            n == line@.len(),
            cs@ == line@,
            done + fields_from(line@, i as int) == split_commas(line@),
            out.len() == done.len(),
            forall|t: int| 0 <= t < out.len() ==> out[t]@ == trimmed(#[trigger] done[t]),
        decreases n - i,
    {
        let k = find_comma(&cs, i);
        proof {
            lemma_next_comma_bounds(line@, i as int);
        }
        let piece = line.substring_char(i, k);
        let field = trim_text(piece);
        out.push(field.to_owned());
        proof {
            done = done.push(line@.subrange(i as int, k as int));
        }
        if k >= n {
            assert(done =~= split_commas(line@));
            return out;
        }
        assert(done + fields_from(line@, k + 1) =~= split_commas(line@));
        i = k + 1;
    }
}

/// Whether a byte is an ASCII digit.
pub open spec fn is_digit_byte(b: u8) -> bool {
    0x30 <= b <= 0x39
}

/// The first field of a data row: at least eight bytes of UTF-8, the
/// first an ASCII digit, and a `-` somewhere (`YYYY-MM-DD...`).
pub open spec fn looks_like_date(f: Seq<char>) -> bool {
    let b = vstd::utf8::encode_utf8(f);
    &&& b.len() >= 8
    &&& is_digit_byte(b[0])
    &&& f.contains('-')
}

/// Whether `f` has the shape of a date field.
pub fn field_looks_like_date(f: &str) -> (r: bool)
    ensures
        r == looks_like_date(f@),
{
    let b = f.as_bytes();
    if b.len() < 8 {
        return false;
    }
    if !(0x30 <= b[0] && b[0] <= 0x39) {
        return false;
    }
    let cs = chars_of(f);
    let mut k: usize = 0;
    while k < cs.len()
        invariant
            k <= cs.len(),
            cs@ == f@,
            b@ == vstd::utf8::encode_utf8(f@),
            b@.len() >= 8,
            is_digit_byte(b@[0]),
            forall|t: int| 0 <= t < k ==> cs@[t] != '-',
        decreases cs.len() - k,
    {
        if cs[k] == '-' {
            assert(f@[k as int] == '-');
            return true;
        }
        k = k + 1;
    }
    false
}

/// A byte with ASCII capitals made small (`u8::to_ascii_lowercase`).
pub open spec fn ascii_lower(b: u8) -> u8 {
    if 0x41 <= b <= 0x5A {
        (b + 0x20) as u8
    } else {
        b
    }
}

/// `f` equals `date` up to ASCII case (`eq_ignore_ascii_case("date")`).
pub open spec fn is_date_word(f: Seq<char>) -> bool {
    let b = vstd::utf8::encode_utf8(f);
    &&& b.len() == 4
    &&& ascii_lower(b[0]) == 0x64
    &&& ascii_lower(b[1]) == 0x61
    &&& ascii_lower(b[2]) == 0x74
    &&& ascii_lower(b[3]) == 0x65
}

fn lower_byte(b: u8) -> (r: u8)
    ensures
        r == ascii_lower(b),
{
    if 0x41 <= b && b <= 0x5A {
        b + 0x20
    } else {
        b
    }
}

/// Whether `f` is the word `date` in any ASCII case.
pub fn field_is_date_word(f: &str) -> (r: bool)
    ensures
        r == is_date_word(f@),
{
    let b = f.as_bytes();
    if b.len() != 4 {
        return false;
    }
    lower_byte(b[0]) == 0x64 && lower_byte(b[1]) == 0x61 && lower_byte(b[2]) == 0x74
        && lower_byte(b[3]) == 0x65
}

/// The date and value of a `date,value` line: the text before the first
/// comma and the text after it, both trimmed, when the first looks like a
/// date; `None` for a line without a comma or with another first field.
pub fn date_value_fields(line: &str) -> (r: Option<(String, String)>)
    ensures
        ({
            let k = next_comma(line@, 0);
            let date = trimmed(line@.subrange(0, k));
            match r {
                None => k == line@.len() || !looks_like_date(date),
                Some((d, v)) => {
                    &&& k < line@.len()
                    &&& looks_like_date(date)
                    &&& d@ == date
                    &&& v@ == trimmed(line@.subrange(k + 1, line@.len() as int))
                },
            }
        }),
{
    let cs = chars_of(line);
    let n = cs.len();
    let k = find_comma(&cs, 0);
    proof {
        lemma_next_comma_bounds(line@, 0);
    }
    if k == n {
        return None;
    }
    let date = trim_text(line.substring_char(0, k));
    if !field_looks_like_date(date) {
        return None;
    }
    let value = trim_text(line.substring_char(k + 1, n));
    Some((date.to_owned(), value.to_owned()))
}

/// The column names after `date` in a `date,col1,...` header: the trimmed
/// fields after the first, when there are at least two fields and the first
/// is `date` in any ASCII case; `None` otherwise.
pub fn header_columns(header: &str) -> (r: Option<Vec<String>>)
    ensures
        ({
            let f = split_commas(header@);
            match r {
                None => f.len() < 2 || !is_date_word(trimmed(f[0])),
                Some(cols) => {
                    &&& f.len() >= 2
                    &&& is_date_word(trimmed(f[0]))
                    &&& cols.len() == f.len() - 1
                    &&& forall|t: int|
                        0 <= t < cols.len() ==> cols[t]@ == trimmed(#[trigger] f[t + 1])
                },
            }
        }),
{
    let mut fields = split_fields(header);
    if fields.len() < 2 {
        return None;
    }
    if !field_is_date_word(fields[0].as_str()) {
        return None;
    }
    let ghost before = fields@;
    fields.remove(0);
    assert forall|t: int| 0 <= t < fields.len() implies fields[t]@ == trimmed(
        #[trigger] split_commas(header@)[t + 1],
    ) by {
        assert(fields@[t] == before[t + 1]);
    }
    Some(fields)
}

/// The date and the other fields of a `date,col1,...` data row with
/// `n_features` values: `None` unless the line splits into exactly
/// `n_features + 1` fields and the first, trimmed, looks like a date.
pub fn row_fields(line: &str, n_features: usize) -> (r: Option<(String, Vec<String>)>)
    ensures
        ({
            let f = split_commas(line@);
            match r {
                None => f.len() != n_features + 1 || !looks_like_date(trimmed(f[0])),
                Some((d, rest)) => {
                    &&& f.len() == n_features + 1
                    &&& looks_like_date(trimmed(f[0]))
                    &&& d@ == trimmed(f[0])
                    &&& rest.len() == n_features
                    &&& forall|t: int|
                        0 <= t < rest.len() ==> rest[t]@ == trimmed(#[trigger] f[t + 1])
                },
            }
        }),
{
    let mut fields = split_fields(line);
    if n_features == usize::MAX || fields.len() != n_features + 1 {
        return None;
    }
    if !field_looks_like_date(fields[0].as_str()) {
        return None;
    }
    let ghost before = fields@;
    let date = fields.remove(0);
    assert forall|t: int| 0 <= t < fields.len() implies fields[t]@ == trimmed(
        #[trigger] split_commas(line@)[t + 1],
    ) by {
        assert(fields@[t] == before[t + 1]);
    }
    Some((date, fields))
}

} // verus!
