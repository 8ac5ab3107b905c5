use markov::model::{train, Markov, MarkovError};

fn window(toks: &[&str]) -> Vec<String> {
    toks.iter().map(|t| t.to_string()).collect()
}

fn must_train(corpus: &str, n: usize) -> Markov {
    match train(corpus, n) {
        Ok(m) => m,
        Err(_) => panic!("training failed"),
    }
}

fn must_generate(m: &Markov, seed: &str, length: u64) -> String {
    match m.generate(seed, length) {
        Ok(s) => s,
        Err(_) => panic!("generation failed"),
    }
}

#[test]
fn output_has_exactly_the_clamped_length() {
    let m = must_train("a b a c a b a c", 1);
    for length in [0u64, 1, 2, 3, 4, 10, 25] {
        let out = must_generate(&m, "a", length);
        let want: usize = if length < 2 { 2 } else { length as usize };
        assert_eq!(out.split_whitespace().count(), want);
    }
}

#[test]
fn output_opens_with_the_seed_window() {
    let m = must_train("x y x y x y", 2);
    let out = must_generate(&m, "x y", 5);
    let toks: Vec<&str> = out.split_whitespace().collect();
    assert_eq!(&toks[..2], &["x", "y"]);
    // extra seed tokens beyond the window are ignored
    let out = must_generate(&m, "x y x q q", 4);
    let toks: Vec<&str> = out.split_whitespace().collect();
    assert_eq!(&toks[..2], &["x", "y"]);
}

#[test]
fn every_appended_token_is_a_recorded_successor() {
    // corpus "a b a c a b a c", N = 1: after "a" only "b" or "c" may come,
    // after "b" or "c" only "a".
    let m = must_train("a b a c a b a c", 1);
    let out = must_generate(&m, "a", 4);
    let toks: Vec<&str> = out.split_whitespace().collect();
    assert_eq!(toks.len(), 4);
    assert_eq!(toks[0], "a");
    for k in 1..toks.len() {
        let prev = window(&[toks[k - 1]]);
        assert!(m.successor_count(&prev, &toks[k].to_string()) >= 1);
    }
}

#[test]
fn single_successor_chains_are_deterministic() {
    let m = must_train("a b a b", 1);
    let out = must_generate(&m, "a", 6);
    assert_eq!(out, "a b a b a b");
    let m2 = must_train("x y x y x y", 2);
    let out2 = must_generate(&m2, "x y", 7);
    assert_eq!(out2, "x y x y x y x");
}

#[test]
fn output_is_joined_by_single_spaces() {
    let m = must_train("a b a b", 1);
    let out = must_generate(&m, "a", 3);
    assert_eq!(out, "a b a");
    assert!(!out.ends_with(' '));
}

#[test]
fn unknown_seed_window_is_a_lookup_error() {
    let m = must_train("a b a c a b a c", 1);
    assert_eq!(m.generate("z", 4), Err(MarkovError::WindowNotFound));
    let m2 = must_train("x y x y x y", 2);
    // both tokens known, but the pair ("y", "y") was never observed
    assert_eq!(m2.generate("y y", 4), Err(MarkovError::WindowNotFound));
}

#[test]
fn try_generate_checks_the_seed_length() {
    let m = must_train("x y x y x y", 2);
    assert_eq!(m.try_generate("x", 4), Err(MarkovError::SeedTooShort));
    assert_eq!(m.try_generate("", 4), Err(MarkovError::SeedTooShort));
    let out = match m.try_generate("x y", 4) {
        Ok(s) => s,
        Err(_) => panic!("generation failed"),
    };
    assert_eq!(out.split_whitespace().count(), 4);
}

#[test]
fn try_generate_rejects_lengths_below_the_window() {
    let m = must_train("p q r s p q r s", 3);
    assert_eq!(m.try_generate("p q r", 2), Err(MarkovError::UnsupportedWindowSize));
    let out = match m.try_generate("p q r", 3) {
        Ok(s) => s,
        Err(_) => panic!("generation failed"),
    };
    assert_eq!(out.split_whitespace().count(), 3);
}

#[test]
fn degenerate_single_token_loop() {
    let m = must_train("a a a", 1);
    let out = must_generate(&m, "a", 5);
    assert_eq!(out, "a a a a a");
}
