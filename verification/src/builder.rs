//! The builder for a trained model: collects the window size and the path
//! of the corpus, then trains on the corpus text.

use vstd::prelude::*;
use crate::model::{is_trained, total_count, train, Markov, MarkovError};
use crate::tokens::tokens_of;

verus! {

/// Collects training configuration: the window size and the corpus path.
/// The path is only carried here; whoever loads the corpus resolves it and
/// hands the text to `train`.
pub struct MarkovBuilder {
    pub input_length: usize,
    pub data_path: String,
}

impl MarkovBuilder {
    /// A builder with the default window size of one and an empty path.
    pub fn new() -> (r: Self)
        ensures
            r.input_length == 1,
            r.data_path@ == Seq::<char>::empty(),
    {
        MarkovBuilder { input_length: 1, data_path: String::new() }
    }

    /// Sets the window size: how many consecutive tokens form one window.
    pub fn input_length(self, l: usize) -> (r: Self)
        ensures
            r.input_length == l,
            r.data_path == self.data_path,
    {
        MarkovBuilder { input_length: l, data_path: self.data_path }
    }

    /// Sets the path of the corpus file. Whether the path names a readable
    /// file is checked where the file is loaded.
    pub fn data_path(self, p: String) -> (r: Self)
        ensures
            r.input_length == self.input_length,
            r.data_path == p,
    {
        MarkovBuilder { input_length: self.input_length, data_path: p }
    }

    /// Trains a model on the corpus text with the configured window size.
    pub fn train(self, corpus: &str) -> (r: Result<Markov, MarkovError>)
        ensures
            self.input_length == 0 ==> r == Err::<Markov, MarkovError>(
                MarkovError::UnsupportedWindowSize,
            ),
            self.input_length >= 1 && tokens_of(corpus@).len() <= self.input_length ==> r
                == Err::<Markov, MarkovError>(MarkovError::CorpusTooShort),
            self.input_length >= 1 && tokens_of(corpus@).len() > self.input_length ==> r is Ok,
            r is Ok ==> r.unwrap().wf() && is_trained(
                r.unwrap(),
                tokens_of(corpus@),
                self.input_length as int,
            ) && total_count(r.unwrap().entries@) == tokens_of(corpus@).len(),
    {
        train(corpus, self.input_length)
    }
}

} // verus!
