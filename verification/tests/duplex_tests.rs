use fast_ctc_decode::SearchError;
use fast_ctc_decode::duplex::beam_search_duplex;
use fast_ctc_decode::prob::{INCOMPARABLE, PROB_ONE};

fn scale(x: f64) -> u64 {
    (x * PROB_ONE as f64) as u64
}

fn alpha(xs: &[&str]) -> Vec<String> {
    xs.iter().map(|s| s.to_string()).collect()
}

fn row(xs: &[f64]) -> Vec<u64> {
    xs.iter().map(|&x| scale(x)).collect()
}

#[test]
fn duplex_single_label() {
    let net1 = vec![row(&[0.1, 0.9])];
    let net2 = vec![row(&[0.1, 0.9])];
    let r = beam_search_duplex(&net1, &net2, &alpha(&["N", "A"]), None, 2, 0).ok().unwrap();
    assert_eq!(r, "A");
}

#[test]
fn duplex_collapses_repeats() {
    let net1 = vec![row(&[0.1, 0.9]), row(&[0.1, 0.9]), row(&[0.1, 0.9])];
    let net2 = vec![row(&[0.1, 0.9]), row(&[0.1, 0.9])];
    let r = beam_search_duplex(&net1, &net2, &alpha(&["N", "A"]), None, 3, 0).ok().unwrap();
    assert_eq!(r, "A");
}

#[test]
fn duplex_with_envelope() {
    let net1 = vec![row(&[0.1, 0.9]), row(&[0.9, 0.1]), row(&[0.1, 0.9])];
    let net2 = vec![row(&[0.1, 0.9]), row(&[0.9, 0.1]), row(&[0.1, 0.9])];
    let env = vec![(0, 1), (0, 2), (1, 3)];
    let r = beam_search_duplex(&net1, &net2, &alpha(&["N", "A"]), Some(&env), 3, 0).ok().unwrap();
    assert_eq!(r, "AA");
}

#[test]
fn envelope_violation() {
    let net1 = vec![row(&[0.1, 0.9]), row(&[0.1, 0.9])];
    let net2 = vec![row(&[0.1, 0.9]); 6];
    let env = vec![(0, 6), (5, 3)];
    let r = beam_search_duplex(&net1, &net2, &alpha(&["N", "A"]), Some(&env), 2, 0);
    assert_eq!(r.err().unwrap(), SearchError::InvalidEnvelope);
}

#[test]
fn envelope_wrong_length() {
    let net1 = vec![row(&[0.1, 0.9]), row(&[0.1, 0.9])];
    let net2 = vec![row(&[0.1, 0.9])];
    let env = vec![(0, 1)];
    let r = beam_search_duplex(&net1, &net2, &alpha(&["N", "A"]), Some(&env), 2, 0);
    assert_eq!(r.err().unwrap(), SearchError::InvalidEnvelope);
}

#[test]
fn envelope_must_cover_second_matrix() {
    let net1 = vec![row(&[0.1, 0.9]), row(&[0.1, 0.9])];
    let net2 = vec![row(&[0.1, 0.9]); 4];
    // the last window stops short of the second matrix's end
    let env = vec![(0, 2), (1, 3)];
    let r = beam_search_duplex(&net1, &net2, &alpha(&["N", "A"]), Some(&env), 2, 0);
    assert_eq!(r.err().unwrap(), SearchError::InvalidEnvelope);
}

#[test]
fn duplex_nan_in_second_matrix() {
    let net1 = vec![row(&[0.1, 0.9])];
    let mut net2 = vec![row(&[0.1, 0.9])];
    net2[0][1] = INCOMPARABLE;
    let r = beam_search_duplex(&net1, &net2, &alpha(&["N", "A"]), None, 2, 0);
    assert_eq!(r.err().unwrap(), SearchError::IncomparableValues);
}

#[test]
fn duplex_wipeout() {
    let net1 = vec![row(&[0.45, 0.45])];
    let net2 = vec![row(&[0.1, 0.9])];
    let r = beam_search_duplex(&net1, &net2, &alpha(&["N", "A"]), None, 2, scale(0.45));
    assert_eq!(r.err().unwrap(), SearchError::RanOutOfBeam);
}

#[test]
fn duplex_threshold_at_bound_rejected() {
    let net1 = vec![row(&[0.5, 0.5])];
    let net2 = vec![row(&[0.1, 0.9])];
    let r = beam_search_duplex(&net1, &net2, &alpha(&["N", "A"]), None, 2, scale(0.5));
    assert_eq!(r.err().unwrap(), SearchError::InvalidThreshold);
}

#[test]
fn duplex_empty_first_matrix() {
    let net1: Vec<Vec<u64>> = Vec::new();
    let net2 = vec![row(&[0.1, 0.9])];
    let env: Vec<(usize, usize)> = Vec::new();
    let r = beam_search_duplex(&net1, &net2, &alpha(&["N", "A"]), Some(&env), 2, 0);
    assert_eq!(r.ok().unwrap(), "");
}

#[test]
fn duplex_rejects_mismatched_widths() {
    let net1 = vec![row(&[0.1, 0.9])];
    let net2 = vec![row(&[0.1, 0.5, 0.4])];
    let r = beam_search_duplex(&net1, &net2, &alpha(&["N", "A"]), None, 2, 0);
    assert_eq!(r.err().unwrap(), SearchError::InvalidAlphabet);
}
