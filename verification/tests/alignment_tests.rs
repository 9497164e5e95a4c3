use bioinformatics::global::{align_global, align_global_strings};
use bioinformatics::global::Options as GlobalOptions;
use bioinformatics::hamming::hamming;
use bioinformatics::lcs::{lcs, lcs_string};
use bioinformatics::local::{align_local, align_local_strings};
use bioinformatics::local::Options as LocalOptions;
use bioinformatics::matrix::Matrix;

fn bottom_right_u32(m: &Matrix<u32>) -> u32 {
    m.get(m.row() - 1, m.col() - 1)
}

fn bottom_right_i32(m: &Matrix<i32>) -> i32 {
    m.get(m.row() - 1, m.col() - 1)
}

fn without_gaps(s: &str) -> String {
    s.chars().filter(|c| *c != '-').collect()
}

#[test]
fn matrix_new_fills_every_cell() {
    let m = Matrix::<i32>::new(3, 4, 7);
    assert_eq!(m.row(), 3);
    assert_eq!(m.col(), 4);
    for i in 0..3 {
        for j in 0..4 {
            assert_eq!(m.get(i, j), 7);
        }
    }
}

#[test]
fn matrix_set_changes_one_cell() {
    let mut m = Matrix::<i32>::new(2, 3, 0);
    m.set(1, 2, 42);
    assert_eq!(m.get(1, 2), 42);
    assert_eq!(m.get(0, 2), 0);
    assert_eq!(m.get(1, 1), 0);
}

#[test]
fn matrix_max_scans_all_cells() {
    let mut m = Matrix::<i32>::new(4, 4, 0);
    m.set(1, 1, 20);
    m.set(2, 3, 80);
    assert_eq!(m.max(), 80);
    let (v, i, j) = m.max_with_pos();
    assert_eq!(v, 80);
    assert_eq!(i, 2);
    assert_eq!(j, 3);
}

#[test]
fn matrix_max_tie_prefers_first_in_row_major_order() {
    let mut m = Matrix::<i32>::new(2, 2, 5);
    let (v, i, j) = m.max_with_pos();
    assert_eq!((v, i, j), (5, 0, 0));
    m.set(1, 0, 7);
    m.set(0, 1, 7);
    let (v, i, j) = m.max_with_pos();
    assert_eq!((v, i, j), (7, 0, 1));
}

#[test]
fn matrix_max_of_all_negative_cells() {
    let mut m = Matrix::<i32>::new(2, 2, -9);
    m.set(1, 1, -3);
    assert_eq!(m.max(), -3);
}

#[test]
fn lcs_scenario_score_is_three() {
    let (s, _b) = lcs("ATGAT", "TTAGT");
    assert_eq!(s.row(), 6);
    assert_eq!(s.col(), 6);
    assert_eq!(bottom_right_u32(&s), 3);
}

#[test]
fn lcs_scenario_reconstruction() {
    let (_s, b) = lcs("ATGAT", "TTAGT");
    assert_eq!(lcs_string(&b, "ATGAT"), "AGT");
}

#[test]
fn lcs_score_is_symmetric() {
    let pairs = [("ATGAT", "TTAGT"), ("ACGT", "TGCA"), ("", "AAA"), ("GATTACA", "GCAT")];
    for (u, v) in pairs {
        let (s1, _) = lcs(u, v);
        let (s2, _) = lcs(v, u);
        assert_eq!(bottom_right_u32(&s1), bottom_right_u32(&s2));
    }
}

#[test]
fn lcs_of_sequence_with_itself_is_the_sequence() {
    let u = "ATATAGGGAG";
    let (s, b) = lcs(u, u);
    assert_eq!(bottom_right_u32(&s) as usize, u.len());
    assert_eq!(lcs_string(&b, u), u);
}

#[test]
fn lcs_with_empty_sequence_is_empty() {
    let (s, b) = lcs("", "ATG");
    assert_eq!(s.row(), 1);
    assert_eq!(s.col(), 4);
    assert_eq!(bottom_right_u32(&s), 0);
    assert_eq!(lcs_string(&b, ""), "");
}

#[test]
fn global_scenario_score_is_36() {
    let opt = GlobalOptions { match_: 5, mismatch: -3, gap: -4 };
    let (s, _b) = align_global("ATATAGGGAGATATAGAGA", "AGAGGGGTTATAAGGGAGAG", &opt);
    assert_eq!(bottom_right_i32(&s), 36);
}

#[test]
fn global_boundary_holds_gap_multiples() {
    let opt = GlobalOptions { match_: 5, mismatch: -3, gap: -4 };
    let (s, _b) = align_global("ACG", "AC", &opt);
    for i in 0..4 {
        assert_eq!(s.get(i, 0), -4 * (i as i32));
    }
    for j in 0..3 {
        assert_eq!(s.get(0, j), -4 * (j as i32));
    }
}

#[test]
fn global_self_alignment_scores_match_times_length() {
    let opt = GlobalOptions { match_: 5, mismatch: -3, gap: -4 };
    for u in ["", "A", "ACGT", "ATATAGGGAGATATAGAGA"] {
        let (s, _b) = align_global(u, u, &opt);
        assert_eq!(bottom_right_i32(&s), 5 * (u.len() as i32));
    }
}

#[test]
fn global_self_alignment_reconstructs_both_inputs() {
    let opt = GlobalOptions { match_: 5, mismatch: -3, gap: -4 };
    let u = "GATTACA";
    let (_s, b) = align_global(u, u, &opt);
    let (au, av) = align_global_strings(&b, u, u);
    assert_eq!(au, u);
    assert_eq!(av, u);
}

#[test]
fn global_aligned_strings_have_equal_length_and_recover_suffixes() {
    let opt = GlobalOptions { match_: 5, mismatch: -3, gap: -4 };
    let u = "ATATAGGGAGATATAGAGA";
    let v = "AGAGGGGTTATAAGGGAGAG";
    let (_s, b) = align_global(u, v, &opt);
    let (au, av) = align_global_strings(&b, u, v);
    assert_eq!(au.chars().count(), av.chars().count());
    assert!(u.ends_with(&without_gaps(&au)));
    assert!(v.ends_with(&without_gaps(&av)));
}

#[test]
fn global_walk_may_stop_at_the_boundary() {
    // The backward walk stops as soon as one index reaches 0, so a
    // leading stretch of the longer sequence can stay unaligned.
    let opt = GlobalOptions { match_: 5, mismatch: -3, gap: -4 };
    let (_s, b) = align_global("A", "AA", &opt);
    let (au, av) = align_global_strings(&b, "A", "AA");
    assert_eq!(au, "A");
    assert_eq!(av, "A");
}

#[test]
fn local_scenario_max_score_is_48() {
    let opt = LocalOptions { match_: 5, mismatch: -3, gap: -4 };
    let (s, _b) = align_local("ATATAGGGAGATATAGAGA", "AGAGGGGTTATAAGGGAGAG", &opt);
    assert_eq!(s.max(), 48);
}

#[test]
fn local_cells_are_never_negative() {
    let opt = LocalOptions { match_: -2, mismatch: -3, gap: -4 };
    let (s, _b) = align_local("ATGAT", "TTAGT", &opt);
    for i in 0..s.row() {
        for j in 0..s.col() {
            assert!(s.get(i, j) >= 0);
        }
    }
    assert!(s.max() >= 0);
}

#[test]
fn local_alignment_of_embedded_stretch() {
    let opt = LocalOptions { match_: 5, mismatch: -3, gap: -4 };
    let (s, b) = align_local("GGAGACCATTATG", "CCAATATG", &opt);
    assert_eq!(s.max(), 32);
    let (au, av) = align_local_strings(&s, &b, "GGAGACCATTATG", "CCAATATG");
    assert_eq!(au, "CCATTATG");
    assert_eq!(av, "CCAATATG");
}

#[test]
fn local_max_equals_a_grid_cell_and_dominates_all() {
    let opt = LocalOptions { match_: 5, mismatch: -3, gap: -4 };
    let (s, _b) = align_local("ATGAT", "TTAGT", &opt);
    let (v, i, j) = s.max_with_pos();
    assert_eq!(s.get(i, j), v);
    for r in 0..s.row() {
        for c in 0..s.col() {
            assert!(s.get(r, c) <= v);
        }
    }
}

#[test]
fn hamming_scenario_distance_is_three() {
    assert_eq!(hamming("ATGAT", "TTAGT").unwrap(), 3);
}

#[test]
fn hamming_rejects_unequal_lengths() {
    let r = hamming("ATGAT", "TTAG");
    assert_eq!(r.unwrap_err(), "Strings must have the same length");
}

#[test]
fn hamming_is_symmetric_and_zero_on_self() {
    assert_eq!(hamming("ATGAT", "TTAGT").unwrap(), hamming("TTAGT", "ATGAT").unwrap());
    assert_eq!(hamming("ATGAT", "ATGAT").unwrap(), 0);
    assert_eq!(hamming("", "").unwrap(), 0);
}
