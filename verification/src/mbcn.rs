//! Options, input checks and the random source of the rotations of the
//! N-dimensional multivariate bias correction.
use vstd::prelude::*;

use crate::analog::{check_matrix, matrix_verdict, MIN_FIT_ROWS};
use crate::error::DownscaleError;

verus! {

/// Parameters of the multivariate correction.
#[derive(Debug, Clone, Copy)]
pub struct MbcnOptions {
    /// Iterations of rotation plus marginal correction (default 30).
    pub n_iterations: usize,
    /// Quantiles of the inner quantile mapping (default 100).
    pub n_quantiles: usize,
    /// Seed of the rotations generator (reproducibility).
    pub seed: u64,
}

impl Default for MbcnOptions {
    fn default() -> (r: Self)
        ensures
            r.n_iterations == 30 && r.n_quantiles == 100 && r.seed == 42,
    {
        MbcnOptions { n_iterations: 30, n_quantiles: 100, seed: 42 }
    }
}

/// Multiplier of the generator's linear congruential step.
pub const PCG_MULTIPLIER: u64 = 6364136223846793005;

/// Increment of the generator's linear congruential step.
pub const PCG_INCREMENT: u64 = 1442695040888963407;

/// One step of the 64-bit linear congruential state.
pub open spec fn pcg_step(state: u64) -> u64 {
    ((state as nat * PCG_MULTIPLIER as nat + PCG_INCREMENT as nat) % 0x1_0000_0000_0000_0000nat) as u64
}

/// `x` rotated right by `r` bits (`r < 32`).
pub open spec fn rotate_right_u32(x: u32, r: u32) -> u32 {
    if r == 0 {
        x
    } else {
        ((x >> r) | (x << ((32 - r) as u32))) as u32
    }
}

/// Output of the generator for a state: xorshift high, random rotation
/// (PCG-XSH-RR).
pub open spec fn pcg_output(state: u64) -> u32 {
    rotate_right_u32((((state >> 18u64) ^ state) >> 27u64) as u32, (state >> 59u64) as u32)
}

/// 64-bit PCG-XSH-RR pseudo-random generator: deterministic, seeded.
pub struct Pcg(u64);

impl Pcg {
    /// State of the generator.
    pub closed spec fn state(self) -> u64 {
        self.0
    }

    /// Generator seeded with `seed`, after one mixing draw.
    pub fn new(seed: u64) -> (r: Self)
        ensures
            r.state() == pcg_step(pcg_step(seed)),
    {
        let mut p = Pcg(0);
        p.0 = seed.wrapping_mul(PCG_MULTIPLIER).wrapping_add(PCG_INCREMENT);
        proof {
            lemma_step(seed);
        }
        p.next_u32();
        p
    }

    /// Next 32-bit output.
    pub fn next_u32(&mut self) -> (r: u32)
        ensures
            final(self).state() == pcg_step(old(self).state()),
            r == pcg_output(old(self).state()),
    {
        let old = self.0;
        self.0 = old.wrapping_mul(PCG_MULTIPLIER).wrapping_add(PCG_INCREMENT);
        proof {
            lemma_step(old);
        }
        let xorshifted = (((old >> 18u64) ^ old) >> 27u64) as u32;
        let rot = (old >> 59u64) as u32;
        assert(rot < 32) by (bit_vector)
            requires
                rot == (old >> 59u64) as u32,
        ;
        rotate_right(xorshifted, rot)
    }
}

/// `x` rotated right by `r` bits.
fn rotate_right(x: u32, r: u32) -> (v: u32)
    requires
        r < 32,
    ensures
        v == rotate_right_u32(x, r),
{
    if r == 0 {
        x
    } else {
        (x >> r) | (x << (32 - r))
    }
}

proof fn lemma_step(s: u64)
    ensures
        vstd::wrapping::u64_specs::wrapping_add(
            vstd::wrapping::u64_specs::wrapping_mul(s, PCG_MULTIPLIER),
            PCG_INCREMENT,
        ) == pcg_step(s),
{
    let m: int = 0x1_0000_0000_0000_0000;
    let p: int = (s as nat * PCG_MULTIPLIER as nat) as int;
    vstd::arithmetic::div_mod::lemma_add_mod_noop(p, PCG_INCREMENT as int, m);
    vstd::arithmetic::div_mod::lemma_mod_bound(p, m);
    vstd::arithmetic::div_mod::lemma_small_mod(PCG_INCREMENT as nat, m as nat);
    let w = p % m;
    if w + PCG_INCREMENT >= m {
        vstd::arithmetic::div_mod::lemma_mod_sub_multiples_vanish(w + PCG_INCREMENT, m);
        vstd::arithmetic::div_mod::lemma_small_mod((w + PCG_INCREMENT - m) as nat, m as nat);
    } else {
        vstd::arithmetic::div_mod::lemma_small_mod((w + PCG_INCREMENT) as nat, m as nat);
    }
}


/// Column `j` of the first `n` rows of a row-major matrix with `d` columns.
pub fn matrix_column<T: Copy>(m: &[T], n: usize, d: usize, j: usize) -> (r: Vec<T>)
    requires
        n == 0 || (n - 1) * d + j < m@.len(),
    ensures
        r@.len() == n,
        forall|i: int| 0 <= i < n ==> #[trigger] r@[i] == m@[i * d + j],
{
    let len = m.len();
    let mut out: Vec<T> = Vec::with_capacity(n);
    let mut i: usize = 0;
    while i < n
        invariant
            i <= n,
            len == m@.len(),
            n == 0 || (n - 1) * d + j < m@.len(),
            out@.len() == i,
            forall|h: int| 0 <= h < i ==> #[trigger] out@[h] == m@[h * d + j],
        decreases n - i,
    {
        proof {
            assert(i * d <= (n - 1) * d) by (nonlinear_arith)
                requires
                    i <= n - 1,
            ;
            assert(i * d + j < m@.len());
        }
        out.push(m[i * d + j]);
        i = i + 1;
    }
    out
}

/// Checks a matrix of `len` values flattened by row, `n_vars` per row, and
/// returns its number of rows: `n_vars` must be at least one and divide the
/// length, and then the rows are checked as predictors with observations of
/// the same count (the first non-finite index, if any, given by the caller).
pub fn validate_matrix(len: usize, n_vars: usize, first_non_finite: Option<usize>) -> (r: Result<
    usize,
    DownscaleError,
>)
    requires
        n_vars == 0 || len % n_vars != 0 || MIN_FIT_ROWS * n_vars <= usize::MAX,
    ensures
        n_vars == 0 || len % n_vars != 0 ==> r == Err::<usize, DownscaleError>(
            DownscaleError::InvalidParameter {
                name: "n_vars",
                value: n_vars as i64,
                expected: "n_vars >= 1 y largo múltiplo de n_vars",
            },
        ),
        n_vars > 0 && len % n_vars == 0 ==> r == matrix_verdict(
            len,
            n_vars,
            first_non_finite,
            (len / n_vars) as usize,
            None,
        ),
        r matches Ok(rows) ==> rows * n_vars == len && rows >= MIN_FIT_ROWS,
{
    if n_vars == 0 || len % n_vars != 0 {
        return Err(
            DownscaleError::InvalidParameter {
                name: "n_vars",
                value: n_vars as i64,
                expected: "n_vars >= 1 y largo múltiplo de n_vars",
            },
        );
    }
    check_matrix(len, n_vars, first_non_finite, len / n_vars, None)
}

} // verus!
