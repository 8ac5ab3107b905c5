//! Text generation: starting from a seed phrase, repeatedly look up the
//! trailing window of the output and append one of its recorded successors,
//! drawn with probability proportional to its observation count.

use vstd::prelude::*;
use crate::model::{
    entry_wf, find_entry, lemma_entries_map_absent, lemma_entries_map_index,
    lemma_succ_map_index, succ_total, succ_wf, succs_wf, Markov, MarkovError, Succ,
};
use crate::sampling::{sample_weighted, sum_weights};
use crate::tokens::{
    join, join_tokens, lemma_tokens_of_join, lemma_tokens_wf, token_wf, tokenize, tokens_of,
    views_of,
};

verus! {

/// The number of tokens generation must produce: the requested length,
/// clamped to a minimum of two.
pub open spec fn out_len(length: u64) -> int {
    if length < 2 {
        2
    } else {
        length as int
    }
}

/// A list of weights read off a successor list sums like the list's counts.
proof fn lemma_sum_matches(ws: Seq<usize>, ss: Seq<Succ>)
    requires
        ws.len() == ss.len(),
        forall|q: int| 0 <= q < ws.len() ==> ws[q] == (#[trigger] ss[q]).count,
    ensures
        sum_weights(ws) == succ_total(ss),
    decreases ws.len(),
{
    if ws.len() > 0 {
        assert(forall|q: int|
            0 <= q < ws.drop_last().len() ==> ws.drop_last()[q] == (#[trigger] ss.drop_last()[q]).count);
        lemma_sum_matches(ws.drop_last(), ss.drop_last());
    }
}

impl Markov {
    /// What a successful generation run returns: its tokens joined by single
    /// spaces with no trailing separator; exactly `out_len(length)` tokens,
    /// opening with the seed's leading window, every later token a recorded
    /// successor of the window of the `n` tokens before it.
    pub open spec fn generate_ok(self, input: Seq<char>, length: u64, out_s: Seq<char>) -> bool {
        let out = tokens_of(out_s);
        &&& out_s == join_tokens(out)
        &&& out.len() == out_len(length)
        &&& out.take(self.n as int) == tokens_of(input).take(self.n as int)
        &&& forall|k: int|
            self.n <= k < out.len() ==> self.has_pair(
                out.subrange(k - self.n, k),
                #[trigger] out[k],
            )
    }

    /// Generates a text of `out_len(length)` tokens from the seed phrase
    /// `input`, joined by single spaces. Fails exactly when the seed's
    /// leading window of `n` tokens is not a trained window; on a trained
    /// seed window it always succeeds, since every trained window's
    /// successors lead to trained windows.
    #[verifier::rlimit(50)]
    pub fn generate(&self, input: &str, length: u64) -> (r: Result<String, MarkovError>)
        requires
            self.wf(),
            tokens_of(input@).len() >= self.n,
            self.n <= out_len(length),
        ensures
            r is Err <==> !self@.contains_key(tokens_of(input@).take(self.n as int)),
            r is Err ==> r == Err::<String, MarkovError>(MarkovError::WindowNotFound),
            r is Ok ==> self.generate_ok(input@, length, r.unwrap()@),
    {
        let n = self.n;
        let len_clamped: u64 = if length < 2 {
            2
        } else {
            length
        };
        let seed_toks = tokenize(input);
        proof {
            lemma_tokens_wf(input@);
        }
        let mut s: Vec<String> = Vec::new();
        let mut j: usize = 0;
        while j < n
            invariant
                j <= n,
                n == self.n,
                seed_toks@.len() >= n,
                views_of(seed_toks@) == tokens_of(input@),
                s@.len() == j,
                forall|p: int| 0 <= p < j ==> s@[p]@ == tokens_of(input@)[p],
            decreases n - j,
        {
            s.push(seed_toks[j].clone());
            j = j + 1;
        }
        proof {
            assert(views_of(s@) =~= tokens_of(input@).take(n as int));
        }
        let seed_window = match find_entry(&self.entries, &s) {
            None => {
                proof {
                    lemma_entries_map_absent(self.entries@, views_of(s@));
                }
                return Err(MarkovError::WindowNotFound);
            },
            Some(ei) => ei,
        };
        proof {
            lemma_entries_map_index(self.entries@, seed_window as int);
            assert(self@.contains_key(views_of(s@)));
            assert(views_of(s@).subrange(s@.len() - n, s@.len() as int) =~= views_of(s@));
            assert forall|k: int| 0 <= k < s@.len() implies token_wf(
                #[trigger] views_of(s@)[k],
            ) by {
                assert(views_of(s@)[k] == tokens_of(input@)[k]);
            }
        }
        while (s.len() as u64) < len_clamped
            invariant
                self.wf(),
                n == self.n,
                len_clamped as int == out_len(length),
                n <= s@.len(),
                s@.len() <= out_len(length),
                views_of(s@).take(n as int) == tokens_of(input@).take(n as int),
                self@.contains_key(views_of(s@).subrange(s@.len() - n, s@.len() as int)),
                forall|k: int|
                    n <= k < s@.len() ==> self.has_pair(
                        views_of(s@).subrange(k - n, k),
                        #[trigger] views_of(s@)[k],
                    ),
                forall|k: int| 0 <= k < s@.len() ==> token_wf(#[trigger] views_of(s@)[k]),
            decreases out_len(length) - s@.len(),
        {
            let ghost old_views = views_of(s@);
            let ghost trail = old_views.subrange(s@.len() - n, s@.len() as int);
            let start = s.len() - n;
            let mut wvec: Vec<String> = Vec::new();
            let mut j2: usize = 0;
            while j2 < n
                invariant
                    j2 <= n,
                    n <= s@.len(),
                    start == s@.len() - n,
                    start + n <= usize::MAX,
                    wvec@.len() == j2,
                    forall|p: int| 0 <= p < j2 ==> wvec@[p]@ == s@[start + p]@,
                decreases n - j2,
            {
                wvec.push(s[start + j2].clone());
                j2 = j2 + 1;
            }
            proof {
                assert(views_of(wvec@) =~= trail);
            }
            match find_entry(&self.entries, &wvec) {
                None => {
                    proof {
                        lemma_entries_map_absent(self.entries@, views_of(wvec@));
                        assert(false);
                    }
                    return Err(MarkovError::WindowNotFound);
                },
                Some(ei) => {
                    proof {
                        assert(entry_wf(self.entries@[ei as int], n as int));
                    }
                    let mut ws: Vec<usize> = Vec::new();
                    let mut q: usize = 0;
                    let succ_len = self.entries[ei].succs.len();
                    while q < succ_len
                        invariant
                            q <= succ_len,
                            ei < self.entries@.len(),
                            succ_len == self.entries@[ei as int].succs@.len(),
                            ws@.len() == q,
                            forall|p: int|
                                0 <= p < q ==> ws@[p] == (
                                #[trigger] self.entries@[ei as int].succs@[p]).count,
                        decreases succ_len - q,
                    {
                        ws.push(self.entries[ei].succs[q].count);
                        q = q + 1;
                    }
                    proof {
                        let ss = self.entries@[ei as int].succs@;
                        lemma_sum_matches(ws@, ss);
                        assert(succs_wf(ss));
                        assert forall|p: int| 0 <= p < ws@.len() implies ws@[p] >= 1 by {
                            assert(succ_wf(ss[p]));
                        }
                    }
                    let idx = sample_weighted(&ws);
                    let tok = self.entries[ei].succs[idx].token.clone();
                    proof {
                        lemma_entries_map_index(self.entries@, ei as int);
                        lemma_succ_map_index(self.entries@[ei as int].succs@, idx as int);
                        assert(self.has_pair(trail, tok@));
                        assert(succ_wf(self.entries@[ei as int].succs@[idx as int]));
                    }
                    s.push(tok);
                    proof {
                        let new_views = views_of(s@);
                        let new_len = s@.len() as int;
                        assert(new_views =~= old_views.push(new_views[new_len - 1]));
                        assert(new_views.subrange(new_len - n, new_len) =~= trail.drop_first().push(
                            new_views[new_len - 1],
                        ));
                        assert(self@.contains_key(new_views.subrange(new_len - n, new_len)));
                        assert(new_views.take(n as int) =~= old_views.take(n as int));
                        assert forall|k: int| n <= k < new_len implies self.has_pair(
                            new_views.subrange(k - n, k),
                            #[trigger] new_views[k],
                        ) by {
                            if k < new_len - 1 {
                                assert(new_views.subrange(k - n, k) =~= old_views.subrange(
                                    k - n,
                                    k,
                                ));
                                assert(new_views[k] == old_views[k]);
                            } else {
                                assert(new_views.subrange(k - n, k) =~= trail);
                            }
                        }
                    }
                },
            }
        }
        let out = join(&s);
        proof {
            lemma_tokens_of_join(views_of(s@));
        }
        Ok(out)
    }

    /// Like `generate`, with the preconditions turned into checks: a seed
    /// with fewer than `n` tokens is reported as `SeedTooShort`, and a
    /// requested length whose clamped value cannot even hold one window as
    /// `UnsupportedWindowSize`.
    pub fn try_generate(&self, input: &str, length: u64) -> (r: Result<String, MarkovError>)
        requires
            self.wf(),
        ensures
            tokens_of(input@).len() < self.n ==> r == Err::<String, MarkovError>(
                MarkovError::SeedTooShort,
            ),
            tokens_of(input@).len() >= self.n && out_len(length) < self.n ==> r == Err::<
                String,
                MarkovError,
            >(MarkovError::UnsupportedWindowSize),
            tokens_of(input@).len() >= self.n && out_len(length) >= self.n ==> {
                &&& (r is Err <==> !self@.contains_key(
                    tokens_of(input@).take(self.n as int),
                ))
                &&& (r is Err ==> r == Err::<String, MarkovError>(MarkovError::WindowNotFound))
                &&& (r is Ok ==> self.generate_ok(input@, length, r.unwrap()@))
            },
    {
        let seed_toks = tokenize(input);
        if seed_toks.len() < self.n {
            proof {
                assert(views_of(seed_toks@).len() == seed_toks@.len());
            }
            return Err(MarkovError::SeedTooShort);
        }
        proof {
            assert(views_of(seed_toks@).len() == seed_toks@.len());
        }
        let len_clamped: u64 = if length < 2 {
            2
        } else {
            length
        };
        if (self.n as u64) > len_clamped {
            return Err(MarkovError::UnsupportedWindowSize);
        }
        self.generate(input, length)
    }
}

} // verus!
