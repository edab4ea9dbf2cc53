use fast_ctc_decode::SearchError;
use fast_ctc_decode::prob::{INCOMPARABLE, PROB_ONE};
use fast_ctc_decode::search::beam_search;

fn scale(x: f64) -> u64 {
    (x * PROB_ONE as f64) as u64
}

fn alpha(xs: &[&str]) -> Vec<String> {
    xs.iter().map(|s| s.to_string()).collect()
}

fn row(xs: &[f64]) -> Vec<u64> {
    xs.iter().map(|&x| scale(x)).collect()
}

#[test]
fn trivial_blank() {
    let net = vec![row(&[1.0, 0.0])];
    let r = beam_search(&net, &alpha(&["N", "A"]), 1, 0).ok().unwrap();
    assert_eq!(r.0, "");
    assert_eq!(r.1, Vec::<usize>::new());
}

#[test]
fn single_label() {
    let net = vec![row(&[0.1, 0.9])];
    let r = beam_search(&net, &alpha(&["N", "A"]), 1, 0).ok().unwrap();
    assert_eq!(r.0, "A");
    assert_eq!(r.1, vec![0]);
}

#[test]
fn collapse_duplicates() {
    let net = vec![row(&[0.1, 0.9]), row(&[0.1, 0.9]), row(&[0.1, 0.9])];
    let r = beam_search(&net, &alpha(&["N", "A"]), 2, 0).ok().unwrap();
    assert_eq!(r.0, "A");
    assert_eq!(r.1, vec![0]);
}

#[test]
fn separator_blank() {
    let net = vec![row(&[0.1, 0.9]), row(&[0.9, 0.1]), row(&[0.1, 0.9])];
    let r = beam_search(&net, &alpha(&["N", "A"]), 2, 0).ok().unwrap();
    assert_eq!(r.0, "AA");
    assert_eq!(r.1, vec![0, 2]);
}

#[test]
fn below_threshold_wipeout() {
    // rows whose entries sit at the (admitted) threshold: nothing clears it
    let net = vec![row(&[0.45, 0.45]), row(&[0.45, 0.45])];
    let r = beam_search(&net, &alpha(&["N", "A"]), 2, scale(0.45));
    assert_eq!(r.err().unwrap(), SearchError::RanOutOfBeam);
}

#[test]
fn threshold_at_bound_rejected() {
    // exactly 1/len(alphabet) is already too high
    let net = vec![row(&[0.5, 0.5])];
    let r = beam_search(&net, &alpha(&["N", "A"]), 1, scale(0.5));
    assert_eq!(r.err().unwrap(), SearchError::InvalidThreshold);
}

#[test]
fn nan_input() {
    let mut net = vec![row(&[0.1, 0.9]), row(&[0.9, 0.1])];
    net[1][0] = INCOMPARABLE;
    let r = beam_search(&net, &alpha(&["N", "A"]), 2, 0);
    assert_eq!(r.err().unwrap(), SearchError::IncomparableValues);
}

#[test]
fn empty_network() {
    let net: Vec<Vec<u64>> = Vec::new();
    let r = beam_search(&net, &alpha(&["N", "A"]), 4, 0).ok().unwrap();
    assert_eq!(r.0, "");
    assert_eq!(r.1, Vec::<usize>::new());
}

#[test]
fn short_alphabet_rejected() {
    let net = vec![row(&[1.0])];
    let r = beam_search(&net, &alpha(&["N"]), 1, 0);
    assert_eq!(r.err().unwrap(), SearchError::InvalidAlphabet);
}

#[test]
fn ragged_network_rejected() {
    let net = vec![row(&[0.1, 0.9]), row(&[1.0])];
    let r = beam_search(&net, &alpha(&["N", "A"]), 1, 0);
    assert_eq!(r.err().unwrap(), SearchError::InvalidAlphabet);
}

#[test]
fn zero_beam_rejected() {
    let net = vec![row(&[0.1, 0.9])];
    let r = beam_search(&net, &alpha(&["N", "A"]), 0, 0);
    assert_eq!(r.err().unwrap(), SearchError::InvalidBeamSize);
}

#[test]
fn oversized_threshold_rejected() {
    let net = vec![row(&[0.1, 0.9])];
    let r = beam_search(&net, &alpha(&["N", "A"]), 1, scale(0.6));
    assert_eq!(r.err().unwrap(), SearchError::InvalidThreshold);
}

#[test]
fn round_trip_one_hot() {
    // a one-hot encoding of "AB" with a separating blank comes back exactly
    let net = vec![
        row(&[0.0, 1.0, 0.0]),
        row(&[1.0, 0.0, 0.0]),
        row(&[0.0, 0.0, 1.0]),
    ];
    let r = beam_search(&net, &alpha(&["N", "A", "B"]), 3, 0).ok().unwrap();
    assert_eq!(r.0, "AB");
    assert_eq!(r.1, vec![0, 2]);
}

#[test]
fn zero_column_keeps_labels() {
    // an extra all-zero label column changes neither labels nor timesteps
    let net = vec![row(&[0.1, 0.9]), row(&[0.9, 0.1]), row(&[0.1, 0.9])];
    let wide = vec![
        row(&[0.1, 0.9, 0.0]),
        row(&[0.9, 0.1, 0.0]),
        row(&[0.1, 0.9, 0.0]),
    ];
    let r1 = beam_search(&net, &alpha(&["N", "A"]), 2, 0).ok().unwrap();
    let r2 = beam_search(&wide, &alpha(&["N", "A", "B"]), 2, 0).ok().unwrap();
    assert_eq!(r1.0, r2.0);
    assert_eq!(r1.1, r2.1);
}

#[test]
fn widening_beam_keeps_winner() {
    let net = vec![row(&[0.2, 0.5, 0.3]), row(&[0.6, 0.2, 0.2]), row(&[0.2, 0.3, 0.5])];
    let narrow = beam_search(&net, &alpha(&["N", "A", "B"]), 2, 0).ok().unwrap();
    let wide = beam_search(&net, &alpha(&["N", "A", "B"]), 4, 0).ok().unwrap();
    assert_eq!(narrow.0, wide.0);
}

#[test]
fn multi_character_symbols() {
    let net = vec![row(&[0.1, 0.9])];
    let r = beam_search(&net, &alpha(&["N", "AG"]), 1, 0).ok().unwrap();
    assert_eq!(r.0, "AG");
    assert_eq!(r.1, vec![0]);
}

#[test]
fn error_messages_are_distinct() {
    let msgs = [
        SearchError::RanOutOfBeam.message(),
        SearchError::IncomparableValues.message(),
        SearchError::InvalidEnvelope.message(),
        SearchError::InvalidAlphabet.message(),
        SearchError::InvalidBeamSize.message(),
        SearchError::InvalidThreshold.message(),
    ];
    for (i, a) in msgs.iter().enumerate() {
        assert!(!a.is_empty());
        for b in msgs.iter().skip(i + 1) {
            assert_ne!(a, b);
        }
    }
}
