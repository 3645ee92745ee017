//! Choices of the empirical quantile mapping.
use vstd::prelude::*;

use crate::csv_text::same_text;

verus! {

/// Kind of correction in the tails (outside the calibrated range).
///
/// Inside the calibrated range both kinds apply the same
/// quantile-to-quantile transformation; they differ only in extrapolation.
#[derive(Debug, Clone, Copy, PartialEq, Eq, Structural)]
pub enum Kind {
    /// Additive correction (`x + delta`). Usual for temperature.
    Additive,
    /// Multiplicative correction (`x * delta`). Usual for precipitation
    /// (keeps zero and avoids negative values).
    Multiplicative,
}

impl Default for Kind {
    fn default() -> (r: Self)
        ensures
            r == Kind::Additive,
    {
        Kind::Additive
    }
}

/// Placement of the probability nodes of the empirical distribution.
#[derive(Debug, Clone, Copy, PartialEq, Eq, Structural)]
pub enum NodePlacement {
    /// `i/(n-1)`, includes 0 and 1 (sample minimum and maximum). Default.
    Endpoints,
    /// `(i+0.5)/n`, without the ends.
    Midpoint,
}

impl Default for NodePlacement {
    fn default() -> (r: Self)
        ensures
            r == NodePlacement::Endpoints,
    {
        NodePlacement::Endpoints
    }
}

/// The kind named by `add`/`additive` or `mult`/`multiplicative`.
pub fn parse_kind(kind: &str) -> (r: Option<Kind>)
    ensures
        r == (if kind@ == "add"@ || kind@ == "additive"@ {
            Some(Kind::Additive)
        } else if kind@ == "mult"@ || kind@ == "multiplicative"@ {
            Some(Kind::Multiplicative)
        } else {
            None::<Kind>
        }),
{
    if same_text(kind, "add") || same_text(kind, "additive") {
        Some(Kind::Additive)
    } else if same_text(kind, "mult") || same_text(kind, "multiplicative") {
        Some(Kind::Multiplicative)
    } else {
        None
    }
}

/// The node placement named by `endpoints` or `midpoint`.
pub fn parse_nodes(nodes: &str) -> (r: Option<NodePlacement>)
    ensures
        r == (if nodes@ == "endpoints"@ {
            Some(NodePlacement::Endpoints)
        } else if nodes@ == "midpoint"@ {
            Some(NodePlacement::Midpoint)
        } else {
            None::<NodePlacement>
        }),
{
    if same_text(nodes, "endpoints") {
        Some(NodePlacement::Endpoints)
    } else if same_text(nodes, "midpoint") {
        Some(NodePlacement::Midpoint)
    } else {
        None
    }
}

} // verus!
