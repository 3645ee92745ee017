use downscale_core::error::check_same_len;
use downscale_core::forcing::Variable;
use downscale_core::grid::{grid_dimensions, GridOptions};
use downscale_core::mbcn::{matrix_column, MbcnOptions, Pcg};
use downscale_core::csv_text::same_text;
use downscale_core::qm::{parse_kind, parse_nodes, Kind, NodePlacement};
use downscale_core::DownscaleError;

#[test]
fn defaults_of_the_options() {
    assert_eq!(Kind::default(), Kind::Additive);
    assert_eq!(NodePlacement::default(), NodePlacement::Endpoints);
    let g = GridOptions::default();
    assert_eq!(g.n_quantiles, 100);
    assert_eq!(g.kind, Kind::Multiplicative);
    assert_eq!(g.placement, NodePlacement::Midpoint);
    let m = MbcnOptions::default();
    assert_eq!((m.n_iterations, m.n_quantiles, m.seed), (30, 100, 42));
}

#[test]
fn variable_names_and_units() {
    assert_eq!(Variable::Precipitation.column_name(), "pr");
    assert_eq!(Variable::Pet.column_name(), "pet");
    assert_eq!(Variable::TemperatureMean.column_name(), "tmean");
    assert_eq!(Variable::Precipitation.unit(), "mm/d");
    assert_eq!(Variable::Pet.unit(), "mm/d");
    assert_eq!(Variable::TemperatureMean.unit(), "degC");
}

#[test]
fn generator_outputs_follow_the_pcg_formula() {
    let mut p = Pcg::new(42);
    assert_eq!(p.next_u32(), 242089394);
    assert_eq!(p.next_u32(), 3457789919);
    assert_eq!(p.next_u32(), 3637502659);
    let mut q = Pcg::new(0);
    assert_eq!(q.next_u32(), 3894649422);
}

#[test]
fn generator_is_deterministic_for_a_seed() {
    let mut a = Pcg::new(7);
    let mut b = Pcg::new(7);
    for _ in 0..100 {
        assert_eq!(a.next_u32(), b.next_u32());
    }
}

#[test]
fn grid_dimensions_checks_shape() {
    let opts = GridOptions::default();
    assert_eq!(grid_dimensions(&[1.0; 6], &[1.0; 4], 2, &opts), Ok((3, 2)));
    assert_eq!(
        grid_dimensions(&[1.0, 2.0], &[1.0, 2.0], 0, &opts),
        Err(DownscaleError::InvalidParameter { name: "n_cells", value: 0, expected: ">= 1" })
    );
    assert!(matches!(
        grid_dimensions(&[1.0, 2.0, 3.0], &[1.0, 2.0], 2, &opts),
        Err(DownscaleError::InvalidParameter { name: "grid", value: 2, .. })
    ));
    let one = GridOptions { n_quantiles: 1, ..GridOptions::default() };
    assert!(matches!(
        grid_dimensions(&[1.0, 2.0], &[1.0, 2.0], 2, &one),
        Err(DownscaleError::InvalidParameter { name: "n_quantiles", value: 1, .. })
    ));
}

#[test]
fn column_of_a_row_major_matrix() {
    let m = [1, 2, 3, 4, 5, 6];
    assert_eq!(matrix_column(&m, 3, 2, 1), vec![2, 4, 6]);
    assert_eq!(matrix_column(&m, 2, 3, 0), vec![1, 4]);
    assert!(matrix_column(&m, 0, 2, 0).is_empty());
}

#[test]
fn same_length_check() {
    assert_eq!(check_same_len("a", &[1, 2], "b", &[3, 4]), Ok(()));
    assert_eq!(
        check_same_len("a", &[1, 2], "b", &[3]),
        Err(DownscaleError::LengthMismatch { left_name: "a", left: 2, right_name: "b", right: 1 })
    );
}

#[test]
fn parse_kind_accepts_short_and_long_names() {
    assert_eq!(parse_kind("add"), Some(Kind::Additive));
    assert_eq!(parse_kind("additive"), Some(Kind::Additive));
    assert_eq!(parse_kind("mult"), Some(Kind::Multiplicative));
    assert_eq!(parse_kind("multiplicative"), Some(Kind::Multiplicative));
    assert_eq!(parse_kind("Add"), None);
    assert_eq!(parse_kind(" add"), None);
    assert_eq!(parse_kind(""), None);
}

#[test]
fn parse_nodes_accepts_the_two_placements() {
    assert_eq!(parse_nodes("endpoints"), Some(NodePlacement::Endpoints));
    assert_eq!(parse_nodes("midpoint"), Some(NodePlacement::Midpoint));
    assert_eq!(parse_nodes("mid"), None);
    assert_eq!(parse_nodes("Midpoint"), None);
}

#[test]
fn same_text_compares_characters() {
    assert!(same_text("abc", "abc"));
    assert!(same_text("", ""));
    assert!(!same_text("abc", "abd"));
    assert!(!same_text("abc", "ab"));
    assert!(same_text("\u{e9}", "\u{e9}"));
}
