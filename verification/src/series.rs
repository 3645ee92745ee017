//! Pairing of dated series by the exact text of their dates: the days of
//! the first series, in its order, whose date also occurs in the second,
//! taking the last occurrence in the second.
use std::collections::HashMap;
use vstd::prelude::*;
use vstd::std_specs::hash::group_hash_axioms;

verus! {

broadcast use group_hash_axioms;

/// Offset basis of the 64-bit FNV-1a hash.
pub const FNV_OFFSET: u64 = 0xcbf29ce484222325;

/// Prime of the 64-bit FNV-1a hash.
pub const FNV_PRIME: u64 = 0x100000001b3;

/// 64-bit FNV-1a hash of a byte sequence.
pub open spec fn fnv_hash(bytes: Seq<u8>) -> u64
    decreases bytes.len(),
{
    if bytes.len() == 0 {
        FNV_OFFSET
    } else {
        (fnv_hash(bytes.drop_last()) ^ (bytes.last() as u64)).wrapping_mul(FNV_PRIME)
    }
}

/// Bucket of a date text: the hash of its UTF-8 bytes. Equal texts share a
/// bucket; a bucket may hold different texts.
pub open spec fn text_bucket(s: Seq<char>) -> u64 {
    fnv_hash(vstd::utf8::encode_utf8(s))
}

/// The bucket of a string.
fn bucket_of(s: &String) -> (h: u64)
    ensures
        h == text_bucket(s@),
{
    let bytes = s.as_str().as_bytes();
    let mut h: u64 = FNV_OFFSET;
    let mut i: usize = 0;
    while i < bytes.len()
        invariant
            i <= bytes@.len(),
            bytes@ == vstd::utf8::encode_utf8(s@),
            h == fnv_hash(bytes@.take(i as int)),
        decreases bytes@.len() - i,
    {
        assert(bytes@.take(i + 1).drop_last() =~= bytes@.take(i as int));
        h = (h ^ (bytes[i] as u64)).wrapping_mul(FNV_PRIME);
        i = i + 1;
    }
    assert(bytes@.take(i as int) =~= bytes@);
    proof {
        reveal(text_bucket);
    }
    h
}

/// The largest index below `n` whose date text is `d`, or -1 if none.
pub open spec fn last_match(dates: Seq<String>, n: int, d: Seq<char>) -> int
    decreases n,
{
    if n <= 0 {
        -1
    } else if dates[n - 1]@ == d {
        n - 1
    } else {
        last_match(dates, n - 1, d)
    }
}

/// `last_match` is the last index below `n` holding `d`, and -1 exactly
/// when none does.
pub proof fn lemma_last_match(dates: Seq<String>, n: int, d: Seq<char>)
    requires
        0 <= n <= dates.len(),
    ensures
        last_match(dates, n, d) == -1 <==> forall|j: int| 0 <= j < n ==> dates[j]@ != d,
        last_match(dates, n, d) >= 0 ==> {
            let j = last_match(dates, n, d);
            &&& j < n
            &&& dates[j]@ == d
            &&& forall|t: int| j < t < n ==> dates[t]@ != d
        },
        last_match(dates, n, d) >= -1,
    decreases n,
{
    if n > 0 {
        lemma_last_match(dates, n - 1, d);
    }
}

/// Pairs `(i, j)`, for each `i < na` in order whose date text occurs among
/// the first `nb` dates of `b`, with `j` the last such occurrence.
pub open spec fn paired_indices(a: Seq<String>, na: int, b: Seq<String>, nb: int) -> Seq<(int, int)>
    decreases na,
{
    if na <= 0 {
        seq![]
    } else {
        let prev = paired_indices(a, na - 1, b, nb);
        let j = last_match(b, nb, a[na - 1]@);
        if j >= 0 {
            prev.push((na - 1, j))
        } else {
            prev
        }
    }
}

/// The pairs are in the order of `a`, each holds a date shared by both
/// series at the last index of `b` where it occurs, and there are none
/// exactly when no date of `a` occurs in `b`.
pub proof fn lemma_paired_indices(a: Seq<String>, na: int, b: Seq<String>, nb: int)
    requires
        0 <= na <= a.len(),
        0 <= nb <= b.len(),
    ensures
        ({
            let p = paired_indices(a, na, b, nb);
            &&& p.len() <= na
            &&& forall|k: int|
                0 <= k < p.len() ==> 0 <= (#[trigger] p[k]).0 < na && p[k].1 == last_match(
                    b,
                    nb,
                    a[p[k].0]@,
                ) && 0 <= p[k].1 < nb && b[p[k].1]@ == a[p[k].0]@
            &&& forall|k: int, l: int| 0 <= k < l < p.len() ==> (#[trigger] p[k]).0 < (#[trigger] p[l]).0
            &&& forall|i: int|
                0 <= i < na && last_match(b, nb, #[trigger] a[i]@) >= 0 ==> exists|k: int|
                    0 <= k < p.len() && (#[trigger] p[k]).0 == i
            &&& p.len() == 0 <==> forall|i: int, j: int|
                0 <= i < na && 0 <= j < nb ==> #[trigger] a[i]@ != #[trigger] b[j]@
        }),
    decreases na,
{
    if na > 0 {
        lemma_paired_indices(a, na - 1, b, nb);
        lemma_last_match(b, nb, a[na - 1]@);
        let p = paired_indices(a, na, b, nb);
        let prev = paired_indices(a, na - 1, b, nb);
        assert forall|i: int|
            0 <= i < na && last_match(b, nb, #[trigger] a[i]@) >= 0 implies exists|k: int|
            0 <= k < p.len() && (#[trigger] p[k]).0 == i by {
            if i < na - 1 {
                let k = choose|k: int| 0 <= k < prev.len() && (#[trigger] prev[k]).0 == i;
                assert(p[k] == prev[k]);
            } else {
                assert(p[p.len() - 1].0 == i);
            }
        }
        if p.len() == 0 {
            assert forall|i: int, j: int|
                0 <= i < na && 0 <= j < nb implies #[trigger] a[i]@ != #[trigger] b[j]@ by {
                lemma_last_match(b, nb, a[i]@);
                if last_match(b, nb, a[i]@) >= 0 {
                    let k = choose|k: int| 0 <= k < p.len() && (#[trigger] p[k]).0 == i;
                }
            }
        } else {
            let k = p.len() - 1;
            lemma_last_match(b, nb, a[p[k].0]@);
        }
    }
}

/// Indices below `n` whose bucket is `key`, in increasing order.
pub open spec fn bucket_indices(keys: Seq<u64>, n: int, key: u64) -> Seq<usize>
    decreases n,
{
    if n <= 0 {
        seq![]
    } else if keys[n - 1] == key {
        bucket_indices(keys, n - 1, key).push((n - 1) as usize)
    } else {
        bucket_indices(keys, n - 1, key)
    }
}

proof fn lemma_bucket_indices(keys: Seq<u64>, n: int, key: u64)
    requires
        0 <= n <= keys.len(),
        n <= usize::MAX + 1,
    ensures
        ({
            let s = bucket_indices(keys, n, key);
            &&& forall|u: int| 0 <= u < s.len() ==> (#[trigger] s[u]) < n && keys[s[u] as int] == key
            &&& forall|u: int, v: int| 0 <= u < v < s.len() ==> (#[trigger] s[u]) < (#[trigger] s[v])
            &&& forall|j: int|
                0 <= j < n && #[trigger] keys[j] == key ==> exists|u: int|
                    0 <= u < s.len() && s[u] == j
        }),
    decreases n,
{
    if n > 0 {
        lemma_bucket_indices(keys, n - 1, key);
        let s = bucket_indices(keys, n, key);
        let prev = bucket_indices(keys, n - 1, key);
        assert forall|j: int| 0 <= j < n && #[trigger] keys[j] == key implies exists|u: int|
            0 <= u < s.len() && s[u] == j by {
            if j < n - 1 {
                let u = choose|u: int| 0 <= u < prev.len() && prev[u] == j;
                assert(s[u] == prev[u]);
            } else {
                assert(s[s.len() - 1] == j);
            }
        }
    }
}

/// The buckets of the first `nb` dates of `b`: each key maps to the indices
/// of the dates with that bucket, in increasing order.
fn build_buckets(b_dates: &[String], nb: usize) -> (r: (HashMap<u64, Vec<usize>>, Ghost<Seq<u64>>))
    requires
        nb <= b_dates@.len(),
    ensures
        r.1@.len() == nb,
        forall|j: int| 0 <= j < nb ==> #[trigger] r.1@[j] == text_bucket(b_dates@[j]@),
        forall|key: u64|
            #![trigger r.0@.contains_key(key)]
            (if r.0@.contains_key(key) {
                r.0@[key]@
            } else {
                Seq::<usize>::empty()
            }) == bucket_indices(r.1@, nb as int, key),
{
    let mut map: HashMap<u64, Vec<usize>> = HashMap::new();
    let ghost mut keys: Seq<u64> = seq![];
    let mut j: usize = 0;
    while j < nb
        invariant
            j <= nb <= b_dates@.len(),
            keys.len() == j,
            forall|t: int| 0 <= t < j ==> #[trigger] keys[t] == text_bucket(b_dates@[t]@),
            forall|key: u64|
                #![trigger map@.contains_key(key)]
                (if map@.contains_key(key) {
                    map@[key]@
                } else {
                    Seq::<usize>::empty()
                }) == bucket_indices(keys, j as int, key),
        decreases nb - j,
    {
        let h = bucket_of(&b_dates[j]);
        let mut bucket = match map.remove(&h) {
            Some(v) => v,
            None => Vec::new(),
        };
        bucket.push(j);
        map.insert(h, bucket);
        proof {
            let old_keys = keys;
            keys = keys.push(h);
            assert forall|key: u64| #![trigger map@.contains_key(key)]
                (if map@.contains_key(key) {
                    map@[key]@
                } else {
                    Seq::<usize>::empty()
                }) == bucket_indices(keys, j + 1, key) by {
                assert(keys.subrange(0, j as int) =~= old_keys);
                assert(bucket_indices(keys, j as int, key) == bucket_indices(old_keys, j as int, key))
                    by {
                    lemma_bucket_prefix(keys, old_keys, j as int, key);
                }
            }
        }
        j = j + 1;
    }
    (map, Ghost(keys))
}

proof fn lemma_bucket_prefix(keys: Seq<u64>, shorter: Seq<u64>, n: int, key: u64)
    requires
        0 <= n <= shorter.len(),
        n <= keys.len(),
        forall|t: int| 0 <= t < n ==> keys[t] == shorter[t],
    ensures
        bucket_indices(keys, n, key) == bucket_indices(shorter, n, key),
    decreases n,
{
    if n > 0 {
        lemma_bucket_prefix(keys, shorter, n - 1, key);
    }
}

/// The buckets of `keys` as held in `map`, for the first `nb` dates of `b`.
pub open spec fn buckets_hold(
    map: HashMap<u64, Vec<usize>>,
    keys: Seq<u64>,
    b: Seq<String>,
    nb: int,
) -> bool {
    &&& 0 <= nb <= b.len()
    &&& keys.len() == nb
    &&& forall|j: int| 0 <= j < nb ==> #[trigger] keys[j] == text_bucket(b[j]@)
    &&& forall|key: u64|
        #![trigger map@.contains_key(key)]
        (if map@.contains_key(key) {
            map@[key]@
        } else {
            Seq::<usize>::empty()
        }) == bucket_indices(keys, nb, key)
}

/// Scanning the bucket of `d` from the back: the first match met is the
/// last index holding `d`, and a scan that meets none shows there is none.
proof fn lemma_scan_result(keys: Seq<u64>, b: Seq<String>, nb: int, d: Seq<char>, h: u64, t: int)
    requires
        keys.len() == nb,
        0 <= nb <= b.len(),
        nb <= usize::MAX,
        forall|j: int| 0 <= j < nb ==> #[trigger] keys[j] == text_bucket(b[j]@),
        h == text_bucket(d),
        0 <= t <= bucket_indices(keys, nb, h).len(),
        forall|u: int|
            t <= u < bucket_indices(keys, nb, h).len() ==> b[#[trigger] bucket_indices(
                keys,
                nb,
                h,
            )[u] as int]@ != d,
        t > 0 ==> b[bucket_indices(keys, nb, h)[t - 1] as int]@ == d,
    ensures
        t > 0 ==> last_match(b, nb, d) == bucket_indices(keys, nb, h)[t - 1],
        t == 0 ==> last_match(b, nb, d) == -1,
{
    let s = bucket_indices(keys, nb, h);
    lemma_bucket_indices(keys, nb, h);
    lemma_last_match(b, nb, d);
    if t > 0 {
        let j = s[t - 1] as int;
        assert forall|q: int| j < q < nb implies b[q]@ != d by {
            if b[q]@ == d {
                assert(keys[q] == h);
                let v = choose|v: int| 0 <= v < s.len() && s[v] == q;
                if v < t - 1 {
                    assert(s[v] < s[t - 1]);
                }
                assert(b[s[v] as int]@ != d);
            }
        }
    } else {
        assert forall|q: int| 0 <= q < nb implies b[q]@ != d by {
            if b[q]@ == d {
                assert(keys[q] == h);
                let v = choose|v: int| 0 <= v < s.len() && s[v] == q;
                assert(b[s[v] as int]@ != d);
            }
        }
    }
}

/// The index of the last of the first `nb` dates of `b` whose text is `d`.
fn find_last(
    map: &HashMap<u64, Vec<usize>>,
    Ghost(keys): Ghost<Seq<u64>>,
    b_dates: &[String],
    nb: usize,
    d: &String,
) -> (r: Option<usize>)
    requires
        buckets_hold(*map, keys, b_dates@, nb as int),
    ensures
        match r {
            None => last_match(b_dates@, nb as int, d@) == -1,
            Some(j) => j == last_match(b_dates@, nb as int, d@),
        },
{
    let h = bucket_of(d);
    proof {
        lemma_bucket_indices(keys, nb as int, h);
        lemma_last_match(b_dates@, nb as int, d@);
        assert(map@.contains_key(h) || !map@.contains_key(h));
    }
    let ghost bucket_view = bucket_indices(keys, nb as int, h);
    match map.get(&h) {
        None => {
            proof {
                assert(bucket_view.len() == 0);
                assert forall|j: int| 0 <= j < nb implies b_dates@[j]@ != d@ by {
                    if b_dates@[j]@ == d@ {
                        assert(keys[j] == h);
                    }
                }
            }
            None
        },
        Some(bucket) => {
            assert(bucket@ == bucket_view);
            let mut t: usize = bucket.len();
            while t > 0
                invariant
                    t <= bucket@.len(),
                    bucket@ == bucket_view,
                    bucket_view == bucket_indices(keys, nb as int, h),
                    keys.len() == nb,
                    nb <= b_dates@.len(),
                    forall|j: int| 0 <= j < nb ==> #[trigger] keys[j] == text_bucket(b_dates@[j]@),
                    h == text_bucket(d@),
                    forall|u: int|
                        t <= u < bucket_view.len() ==> b_dates@[#[trigger] bucket_view[u] as int]@
                            != d@,
                decreases t,
            {
                proof {
                    lemma_bucket_indices(keys, nb as int, h);
                }
                let j = bucket[t - 1];
                if b_dates[j] == *d {
                    proof {
                        lemma_scan_result(keys, b_dates@, nb as int, d@, h, t as int);
                    }
                    return Some(j);
                }
                t = t - 1;
            }
            proof {
                lemma_scan_result(keys, b_dates@, nb as int, d@, h, 0);
            }
            None
        },
    }
}

/// Number of pairs that zipping two sequences gives.
pub open spec fn zip_len(x: int, y: int) -> int {
    if x < y {
        x
    } else {
        y
    }
}

/// Pairs two dated series by the exact text of their dates, each series
/// read as its dates zipped with its values: the dates of `a`, in order,
/// that occur in `b`, with `a`'s value and the value at the last
/// occurrence of that date in `b`. `None` when the series share no date.
pub fn pair_by_date<T: Copy>(
    a_dates: &[String],
    a_values: &[T],
    b_dates: &[String],
    b_values: &[T],
) -> (r: Option<(Vec<String>, Vec<T>, Vec<T>)>)
    ensures
        ({
            let na = zip_len(a_dates@.len() as int, a_values@.len() as int);
            let nb = zip_len(b_dates@.len() as int, b_values@.len() as int);
            let p = paired_indices(a_dates@, na, b_dates@, nb);
            &&& r is None <==> forall|i: int, j: int|
                0 <= i < na && 0 <= j < nb ==> #[trigger] a_dates@[i]@ != #[trigger] b_dates@[j]@
            &&& r is None <==> p.len() == 0
            &&& r matches Some((d, va, vb)) ==> {
                &&& d@.len() == p.len()
                &&& va@.len() == p.len()
                &&& vb@.len() == p.len()
                &&& forall|k: int|
                    0 <= k < p.len() ==> (#[trigger] d@[k])@ == a_dates@[p[k].0]@ && va@[k]
                        == a_values@[p[k].0] && vb@[k] == b_values@[p[k].1]
            }
        }),
{
    let na = if a_dates.len() < a_values.len() { a_dates.len() } else { a_values.len() };
    let nb = if b_dates.len() < b_values.len() { b_dates.len() } else { b_values.len() };
    let (map, keys) = build_buckets(b_dates, nb);
    let mut d: Vec<String> = Vec::new();
    let mut va: Vec<T> = Vec::new();
    let mut vb: Vec<T> = Vec::new();
    let mut i: usize = 0;
    while i < na
        invariant
            i <= na,
            na == zip_len(a_dates@.len() as int, a_values@.len() as int),
            nb == zip_len(b_dates@.len() as int, b_values@.len() as int),
            buckets_hold(map, keys@, b_dates@, nb as int),
            d@.len() == paired_indices(a_dates@, i as int, b_dates@, nb as int).len(),
            va@.len() == d@.len(),
            vb@.len() == d@.len(),
            forall|k: int|
                0 <= k < d@.len() ==> {
                    let pk = #[trigger] paired_indices(a_dates@, i as int, b_dates@, nb as int)[k];
                    &&& d@[k]@ == a_dates@[pk.0]@
                    &&& va@[k] == a_values@[pk.0]
                    &&& vb@[k] == b_values@[pk.1]
                },
        decreases na - i,
    {
        let found = find_last(&map, keys, b_dates, nb, &a_dates[i]);
        proof {
            lemma_paired_indices(a_dates@, i as int, b_dates@, nb as int);
            lemma_last_match(b_dates@, nb as int, a_dates@[i as int]@);
        }
        match found {
            Some(j) => {
                d.push(a_dates[i].clone());
                va.push(a_values[i]);
                vb.push(b_values[j]);
            },
            None => {},
        }
        proof {
            let prev = paired_indices(a_dates@, i as int, b_dates@, nb as int);
            let next = paired_indices(a_dates@, i + 1, b_dates@, nb as int);
            assert forall|k: int| 0 <= k < prev.len() implies next[k] == prev[k] by {}
        }
        i = i + 1;
    }
    proof {
        lemma_paired_indices(a_dates@, na as int, b_dates@, nb as int);
    }
    if d.len() == 0 {
        None
    } else {
        Some((d, va, vb))
    }
}

/// Element `f` of row `k` of a matrix flattened by rows of `n`.
pub open spec fn flat_at<T>(s: Seq<T>, n: int, k: int, f: int) -> T {
    s[k * n + f]
}

proof fn lemma_row_index(k: int, rows: int, n: int, f: int)
    by (nonlinear_arith)
    requires
        0 <= k < rows,
        0 <= f < n,
    ensures
        0 <= k * n + f < rows * n,
        k * n + f < (k + 1) * n,
        (k + 1) * n <= rows * n,
{
}

/// Pairs a matrix of predictors, one row of `n_features` values per date of
/// `m_dates`, with dated observations, by the exact text of the dates: the
/// rows of the dates, in order, that occur among the observations (read as
/// their dates zipped with their values), flattened, with the value at the
/// last occurrence of each date. `None` when they share no date.
pub fn pair_matrix_series<T: Copy>(
    m_dates: &[String],
    m_data: &[T],
    n_features: usize,
    obs_dates: &[String],
    obs_values: &[T],
) -> (r: Option<(Vec<T>, usize, Vec<T>)>)
    requires
        m_data@.len() == m_dates@.len() * n_features,
    ensures
        ({
            let nm = m_dates@.len() as int;
            let nb = zip_len(obs_dates@.len() as int, obs_values@.len() as int);
            let p = paired_indices(m_dates@, nm, obs_dates@, nb);
            &&& r is None <==> forall|i: int, j: int|
                0 <= i < nm && 0 <= j < nb ==> #[trigger] m_dates@[i]@ != #[trigger] obs_dates@[j]@
            &&& r is None <==> p.len() == 0
            &&& r matches Some((data, n, y)) ==> {
                &&& n == n_features
                &&& y@.len() == p.len()
                &&& data@.len() == p.len() * n_features
                &&& forall|k: int| 0 <= k < p.len() ==> #[trigger] y@[k] == obs_values@[p[k].1]
                &&& forall|k: int, f: int|
                    0 <= k < p.len() && 0 <= f < n_features ==> #[trigger] flat_at(
                        data@,
                        n_features as int,
                        k,
                        f,
                    ) == flat_at(m_data@, n_features as int, p[k].0, f)
            }
        }),
{
    let nm = m_dates.len();
    let nb = if obs_dates.len() < obs_values.len() { obs_dates.len() } else { obs_values.len() };
    let n = n_features;
    let total = m_data.len();
    let (map, keys) = build_buckets(obs_dates, nb);
    let mut data: Vec<T> = Vec::new();
    let mut y: Vec<T> = Vec::new();
    let mut i: usize = 0;
    while i < nm
        invariant
            i <= nm == m_dates@.len(),
            m_data@.len() == nm * n,
            total == m_data@.len(),
            n == n_features,
            nb == zip_len(obs_dates@.len() as int, obs_values@.len() as int),
            buckets_hold(map, keys@, obs_dates@, nb as int),
            y@.len() == paired_indices(m_dates@, i as int, obs_dates@, nb as int).len(),
            data@.len() == y@.len() * n,
            forall|k: int|
                0 <= k < y@.len() ==> #[trigger] y@[k] == obs_values@[paired_indices(
                    m_dates@,
                    i as int,
                    obs_dates@,
                    nb as int,
                )[k].1],
            forall|k: int, f: int|
                0 <= k < y@.len() && 0 <= f < n ==> #[trigger] flat_at(data@, n as int, k, f)
                    == flat_at(
                    m_data@,
                    n as int,
                    paired_indices(m_dates@, i as int, obs_dates@, nb as int)[k].0,
                    f,
                ),
        decreases nm - i,
    {
        let found = find_last(&map, keys, obs_dates, nb, &m_dates[i]);
        proof {
            lemma_paired_indices(m_dates@, i as int, obs_dates@, nb as int);
            lemma_last_match(obs_dates@, nb as int, m_dates@[i as int]@);
        }
        let ghost prev = paired_indices(m_dates@, i as int, obs_dates@, nb as int);
        let ghost next = paired_indices(m_dates@, i + 1, obs_dates@, nb as int);
        match found {
            Some(j) => {
                let ghost rows = y@.len() as int;
                let ghost before = data@;
                let mut f: usize = 0;
                while f < n
                    invariant
                        f <= n == n_features,
                        i < nm == m_dates@.len(),
                        m_data@.len() == nm * n,
                        total == m_data@.len(),
                        data@.len() == rows * n + f,
                        data@.subrange(0, rows * n) == before,
                        before.len() == rows * n,
                        forall|g: int|
                            0 <= g < f ==> #[trigger] flat_at(data@, n as int, rows, g) == flat_at(
                                m_data@,
                                n as int,
                                i as int,
                                g,
                            ),
                    decreases n - f,
                {
                    proof {
                        lemma_row_index(i as int, nm as int, n as int, f as int);
                    }
                    let ghost d0 = data@;
                    data.push(m_data[i * n + f]);
                    proof {
                        assert(data@.subrange(0, rows * n) =~= before);
                        assert forall|g: int| 0 <= g < f + 1 implies #[trigger] flat_at(
                            data@,
                            n as int,
                            rows,
                            g,
                        ) == flat_at(m_data@, n as int, i as int, g) by {
                            if g < f {
                                assert(flat_at(d0, n as int, rows, g) == flat_at(
                                    m_data@,
                                    n as int,
                                    i as int,
                                    g,
                                ));
                            }
                        }
                    }
                    f = f + 1;
                }
                y.push(obs_values[j]);
                proof {
                    assert forall|k: int, g: int|
                        0 <= k < rows + 1 && 0 <= g < n implies #[trigger] flat_at(
                        data@,
                        n as int,
                        k,
                        g,
                    ) == flat_at(m_data@, n as int, next[k].0, g) by {
                        lemma_row_index(k, rows + 1, n as int, g);
                        if k < rows {
                            lemma_row_index(k, rows, n as int, g);
                            assert(flat_at(before, n as int, k, g) == flat_at(
                                m_data@,
                                n as int,
                                prev[k].0,
                                g,
                            ));
                            assert(data@[k * n + g] == before[k * n + g]);
                            assert(next[k] == prev[k]);
                        } else {
                            assert(next[k].0 == i);
                            assert(flat_at(data@, n as int, rows, g) == flat_at(m_data@, n as int, i as int, g));
                        }
                    }
                    assert(data@.len() == (rows + 1) * n) by (nonlinear_arith)
                        requires
                            data@.len() == rows * n + n,
                    ;
                }
            },
            None => {},
        }
        proof {
            assert forall|k: int| 0 <= k < prev.len() implies next[k] == prev[k] by {}
        }
        i = i + 1;
    }
    proof {
        lemma_paired_indices(m_dates@, nm as int, obs_dates@, nb as int);
    }
    if y.len() == 0 {
        None
    } else {
        Some((data, n, y))
    }
}

} // verus!
