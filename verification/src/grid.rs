//! Options of the cell-by-cell correction of gridded fields.
use vstd::prelude::*;

use crate::error::DownscaleError;
use crate::qm::{Kind, NodePlacement};

verus! {

/// Configuration of the gridded correction.
#[derive(Debug, Clone, Copy)]
pub struct GridOptions {
    /// Number of quantiles of the empirical distribution.
    pub n_quantiles: usize,
    /// Kind of correction in the tails.
    pub kind: Kind,
    /// Placement of the probability nodes.
    pub placement: NodePlacement,
}

impl Default for GridOptions {
    fn default() -> (r: Self)
        ensures
            r.n_quantiles == 100,
            r.kind == Kind::Multiplicative,
            r.placement == NodePlacement::Midpoint,
    {
        GridOptions {
            n_quantiles: 100,
            kind: Kind::Multiplicative,
            placement: NodePlacement::Midpoint,
        }
    }
}


/// Checks the shape of a gridded correction and returns the number of time
/// steps of `obs` and of `model` (both flattened row-major, `n_cells` cells
/// per step).
pub fn grid_dimensions<A, B>(obs: &[A], model: &[B], n_cells: usize, opts: &GridOptions) -> (r:
    Result<(usize, usize), DownscaleError>)
    ensures
        n_cells == 0 ==> r == Err::<(usize, usize), DownscaleError>(
            DownscaleError::InvalidParameter { name: "n_cells", value: 0, expected: ">= 1" },
        ),
        n_cells > 0 && (obs@.len() % n_cells as nat != 0 || model@.len() % n_cells as nat != 0)
            ==> r == Err::<(usize, usize), DownscaleError>(
            DownscaleError::InvalidParameter {
                name: "grid",
                value: model@.len() as i64,
                expected: "largos múltiplos de n_cells",
            },
        ),
        n_cells > 0 && obs@.len() % n_cells as nat == 0 && model@.len() % n_cells as nat == 0
            && opts.n_quantiles < 2 ==> r == Err::<(usize, usize), DownscaleError>(
            DownscaleError::InvalidParameter {
                name: "n_quantiles",
                value: opts.n_quantiles as i64,
                expected: ">= 2",
            },
        ),
        n_cells > 0 && obs@.len() % n_cells as nat == 0 && model@.len() % n_cells as nat == 0
            && opts.n_quantiles >= 2 ==> r == Ok::<(usize, usize), DownscaleError>(
            ((obs@.len() / n_cells as nat) as usize, (model@.len() / n_cells as nat) as usize),
        ),
        r matches Ok((n_obs, n_model)) ==> n_cells >= 1 && n_obs * n_cells == obs@.len()
            && n_model * n_cells == model@.len() && opts.n_quantiles >= 2,
{
    proof {
        if n_cells > 0 {
            vstd::arithmetic::div_mod::lemma_fundamental_div_mod(obs@.len() as int, n_cells as int);
            vstd::arithmetic::div_mod::lemma_fundamental_div_mod(model@.len() as int, n_cells as int);
            vstd::arithmetic::mul::lemma_mul_is_commutative(n_cells as int, (obs@.len() / n_cells as nat) as int);
            vstd::arithmetic::mul::lemma_mul_is_commutative(n_cells as int, (model@.len() / n_cells as nat) as int);
        }
    }
    if n_cells == 0 {
        return Err(DownscaleError::InvalidParameter { name: "n_cells", value: 0, expected: ">= 1" });
    }
    if obs.len() % n_cells != 0 || model.len() % n_cells != 0 {
        return Err(
            DownscaleError::InvalidParameter {
                name: "grid",
                value: model.len() as i64,
                expected: "largos múltiplos de n_cells",
            },
        );
    }
    if opts.n_quantiles < 2 {
        return Err(
            DownscaleError::InvalidParameter {
                name: "n_quantiles",
                value: opts.n_quantiles as i64,
                expected: ">= 2",
            },
        );
    }
    Ok((obs.len() / n_cells, model.len() / n_cells))
}

} // verus!
