use markov::builder::MarkovBuilder;
use markov::model::{train, Markov, MarkovError};
use markov::tokens::tokenize;

fn window(toks: &[&str]) -> Vec<String> {
    toks.iter().map(|t| t.to_string()).collect()
}

fn must_train(corpus: &str, n: usize) -> Markov {
    match train(corpus, n) {
        Ok(m) => m,
        Err(_) => panic!("training failed"),
    }
}

#[test]
fn tokenize_splits_on_unicode_whitespace() {
    let toks = tokenize("  a\t b\nc ");
    let views: Vec<&str> = toks.iter().map(|t| t.as_str()).collect();
    assert_eq!(views, vec!["a", "b", "c"]);
}

#[test]
fn tokenize_empty_and_blank() {
    assert_eq!(tokenize("").len(), 0);
    assert_eq!(tokenize(" \t\n ").len(), 0);
}

#[test]
fn example_corpus_counts_n1() {
    // corpus "a b a c a b a c", N = 1: circular training gives
    // {"a"} -> {b:2, c:2}, {"b"} -> {a:2}, {"c"} -> {a:2}.
    let m = must_train("a b a c a b a c", 1);
    let wa = window(&["a"]);
    let wb = window(&["b"]);
    let wc = window(&["c"]);
    assert!(m.has_window(&wa));
    assert!(m.has_window(&wb));
    assert!(m.has_window(&wc));
    assert!(!m.has_window(&window(&["d"])));
    assert_eq!(m.window_count(), 3);
    assert_eq!(m.successor_count(&wa, &"b".to_string()), 2);
    assert_eq!(m.successor_count(&wa, &"c".to_string()), 2);
    assert_eq!(m.successor_count(&wb, &"a".to_string()), 2);
    assert_eq!(m.successor_count(&wc, &"a".to_string()), 2);
    assert_eq!(m.successor_count(&wa, &"a".to_string()), 0);
    assert_eq!(m.successor_count(&wb, &"b".to_string()), 0);
}

#[test]
fn circular_insertions_sum_to_corpus_length() {
    // One window-insertion event per token offset, wrap-around included:
    // the counts over all windows sum to the corpus length.
    let m = must_train("a b a c a b a c", 1);
    let mut total: usize = 0;
    for w in ["a", "b", "c"] {
        for t in ["a", "b", "c"] {
            total += m.successor_count(&window(&[w]), &t.to_string());
        }
    }
    assert_eq!(total, 8);
}

#[test]
fn window_size_two_wraps_around() {
    // corpus "x y x y x y", N = 2: circularly, ("x","y") is followed by "x"
    // three times and ("y","x") by "y" three times (one of them wrapping).
    let m = must_train("x y x y x y", 2);
    let wxy = window(&["x", "y"]);
    let wyx = window(&["y", "x"]);
    assert_eq!(m.window_size(), 2);
    assert_eq!(m.successor_count(&wxy, &"x".to_string()), 3);
    assert_eq!(m.successor_count(&wxy, &"y".to_string()), 0);
    assert_eq!(m.successor_count(&wyx, &"y".to_string()), 3);
    assert!(!m.has_window(&window(&["x", "x"])));
    assert_eq!(m.window_count(), 2);
}

#[test]
fn windows_have_length_n_and_a_successor() {
    let m = must_train("one two three two one", 2);
    // every stored window has length 2: a length-1 lookup misses
    assert!(!m.has_window(&window(&["two"])));
    assert!(m.has_window(&window(&["one", "two"])));
    // and has at least one successor
    assert_eq!(m.successor_count(&window(&["one", "two"]), &"three".to_string()), 1);
}

#[test]
fn training_twice_gives_identical_counts() {
    let corpus = "the cat sat on the mat the cat ran";
    let m1 = must_train(corpus, 1);
    let m2 = must_train(corpus, 1);
    let vocab = ["the", "cat", "sat", "on", "mat", "ran"];
    for w in vocab {
        let wv = window(&[w]);
        assert_eq!(m1.has_window(&wv), m2.has_window(&wv));
        for t in vocab {
            assert_eq!(
                m1.successor_count(&wv, &t.to_string()),
                m2.successor_count(&wv, &t.to_string())
            );
        }
    }
}

#[test]
fn corpus_shorter_than_window_fails() {
    assert!(matches!(train("a b", 2), Err(MarkovError::CorpusTooShort)));
    assert!(matches!(train("", 1), Err(MarkovError::CorpusTooShort)));
    assert!(matches!(train("lonely", 1), Err(MarkovError::CorpusTooShort)));
}

#[test]
fn zero_window_size_is_unsupported() {
    assert!(matches!(train("a b c", 0), Err(MarkovError::UnsupportedWindowSize)));
}

#[test]
fn exactly_n_plus_one_tokens_trains() {
    let m = must_train("a b", 1);
    assert_eq!(m.successor_count(&window(&["a"]), &"b".to_string()), 1);
    assert_eq!(m.successor_count(&window(&["b"]), &"a".to_string()), 1);
}

#[test]
fn builder_collects_configuration() {
    let b = MarkovBuilder::new();
    assert_eq!(b.input_length, 1);
    assert_eq!(b.data_path, "");
    let b = b.input_length(2).data_path("data".to_string());
    assert_eq!(b.input_length, 2);
    assert_eq!(b.data_path, "data");
    let m = match b.train("x y x y x y") {
        Ok(m) => m,
        Err(_) => panic!("training failed"),
    };
    assert_eq!(m.window_size(), 2);
    let r = b_train_err();
    assert!(matches!(r, Err(MarkovError::CorpusTooShort)));
}

fn b_train_err() -> Result<Markov, MarkovError> {
    MarkovBuilder::new().input_length(2).train("too short")
}

#[test]
fn tokens_keep_exact_content() {
    // no normalization: case and punctuation distinguish tokens
    let m = must_train("Ab ab Ab ab", 1);
    assert!(m.has_window(&window(&["Ab"])));
    assert!(m.has_window(&window(&["ab"])));
    assert_eq!(m.successor_count(&window(&["Ab"]), &"ab".to_string()), 2);
    assert_eq!(m.successor_count(&window(&["ab"]), &"Ab".to_string()), 2);
}

#[test]
fn non_ascii_whitespace_separates_tokens() {
    // U+00A0 (no-break space) and U+2028 (line separator) are Unicode
    // whitespace and split tokens just as ASCII blanks do
    let toks = tokenize("a\u{00A0}b\u{2028}c");
    let views: Vec<&str> = toks.iter().map(|t| t.as_str()).collect();
    assert_eq!(views, vec!["a", "b", "c"]);
}

#[test]
fn multibyte_tokens_survive_training() {
    let m = must_train("héllo wörld héllo wörld", 1);
    let w = window(&["héllo"]);
    assert!(m.has_window(&w));
    assert_eq!(m.successor_count(&w, &"wörld".to_string()), 2);
}
