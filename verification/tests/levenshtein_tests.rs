use omegat_core::levenshtein::{compute, compute_tokens};

fn toks(words: &[&str]) -> Vec<String> {
    words.iter().map(|s| (*s).to_string()).collect()
}

#[test]
fn identical_is_zero() {
    assert_eq!(
        compute_tokens(&toks(&["test", "example"]), &toks(&["test", "example"])),
        0
    );
}

#[test]
fn empty_is_other_len() {
    assert_eq!(compute_tokens(&toks(&["alpha", "beta"]), &[]), 2);
    assert_eq!(
        compute_tokens(&[], &toks(&["gamma", "delta", "epsilon"])),
        3
    );
}

#[test]
fn null_rejected() {
    assert!(compute(None, Some(&toks(&["null"]))).is_err());
    assert!(compute(Some(&toks(&["null"])), None).is_err());
}

#[test]
fn distance_never_exceeds_longer_input() {
    let a = toks(&["a", "b", "c"]);
    let b = toks(&["x", "y"]);
    assert_eq!(compute_tokens(&a, &b), 3);
    assert_eq!(compute(Some(&a), Some(&a)), Ok(0));
}

#[test]
fn distance_laws_on_samples() {
    let a = toks(&["a", "b", "c"]);
    let b = toks(&["a", "x"]);
    assert_eq!(compute_tokens(&a, &b), compute_tokens(&b, &a));
    assert_eq!(compute_tokens(&a, &b), 2);
    assert!(compute_tokens(&a, &b) >= 1);
    assert_eq!(compute_tokens(&a, &a), 0);
    assert_ne!(compute_tokens(&a, &toks(&["a", "b", "d"])), 0);
}
