//! Whitespace tokenization of corpus text, and its inverse: joining tokens
//! with single spaces.

use vstd::prelude::*;
use vstd::std_specs::iter::IteratorSpec;

verus! {

/// Whether `c` is a Unicode whitespace character other than the ASCII space.
/// Left abstract: the full set is the Unicode `White_Space` table, which only
/// `char::is_whitespace` decides.
pub uninterp spec fn other_space(c: char) -> bool;

/// Whether `c` separates tokens: the ASCII space, or any other Unicode
/// whitespace character.
pub open spec fn is_space(c: char) -> bool {
    c == ' ' || other_space(c)
}

/// Relies on `char::is_whitespace`: true exactly on Unicode whitespace
/// characters, among which is the ASCII space `' '`.
#[verifier::external_body]
fn is_space_char(c: char) -> (r: bool)
    ensures
        r == (c == ' ' || other_space(c)),
{
    c.is_whitespace()
}

/// The tokens of `cur + s`, where `cur` is a (possibly empty) token prefix
/// already read and `s` is the text still to scan.
pub open spec fn tok_rec(s: Seq<char>, cur: Seq<char>) -> Seq<Seq<char>>
    decreases s.len(),
{
    if s.len() == 0 {
        if cur.len() == 0 {
            Seq::empty()
        } else {
            seq![cur]
        }
    } else if is_space(s[0]) {
        if cur.len() == 0 {
            tok_rec(s.drop_first(), Seq::empty())
        } else {
            seq![cur] + tok_rec(s.drop_first(), Seq::empty())
        }
    } else {
        tok_rec(s.drop_first(), cur.push(s[0]))
    }
}

/// The whitespace-delimited tokens of `s`, in order: maximal runs of
/// non-whitespace characters, with empty runs discarded.
pub open spec fn tokens_of(s: Seq<char>) -> Seq<Seq<char>> {
    tok_rec(s, Seq::empty())
}

/// The views of a vector of tokens.
pub open spec fn views_of(v: Seq<String>) -> Seq<Seq<char>> {
    v.map_values(|t: String| t@)
}

/// A well-formed token: non-empty, and free of whitespace.
pub open spec fn token_wf(t: Seq<char>) -> bool {
    t.len() > 0 && (forall|i: int| 0 <= i < t.len() ==> !is_space(t[i]))
}

/// Every token produced by `tok_rec` is non-empty and whitespace-free,
/// provided the pending prefix is whitespace-free.
pub proof fn lemma_tok_rec_wf(s: Seq<char>, cur: Seq<char>)
    requires
        forall|i: int| 0 <= i < cur.len() ==> !is_space(cur[i]),
    ensures
        forall|k: int| 0 <= k < tok_rec(s, cur).len() ==> #[trigger] token_wf(tok_rec(s, cur)[k]),
    decreases s.len(),
{
    if s.len() == 0 {
    } else if is_space(s[0]) {
        lemma_tok_rec_wf(s.drop_first(), Seq::empty());
        let rest = tok_rec(s.drop_first(), Seq::<char>::empty());
        if cur.len() > 0 {
            assert forall|k: int| 0 <= k < tok_rec(s, cur).len() implies #[trigger] token_wf(
                tok_rec(s, cur)[k],
            ) by {
                if k == 0 {
                    assert(tok_rec(s, cur)[0] == cur);
                } else {
                    assert(tok_rec(s, cur)[k] == rest[k - 1]);
                    assert(token_wf(rest[k - 1]));
                }
            }
        } else {
            assert forall|k: int| 0 <= k < tok_rec(s, cur).len() implies #[trigger] token_wf(
                tok_rec(s, cur)[k],
            ) by {
                assert(token_wf(rest[k]));
            }
        }
    } else {
        let cur2 = cur.push(s[0]);
        assert(forall|i: int| 0 <= i < cur2.len() ==> !is_space(cur2[i]));
        lemma_tok_rec_wf(s.drop_first(), cur2);
        assert forall|k: int| 0 <= k < tok_rec(s, cur).len() implies #[trigger] token_wf(
            tok_rec(s, cur)[k],
        ) by {
            assert(token_wf(tok_rec(s.drop_first(), cur2)[k]));
        }
    }
}

/// Every token of a tokenization is non-empty and whitespace-free.
pub proof fn lemma_tokens_wf(s: Seq<char>)
    ensures
        forall|k: int| 0 <= k < tokens_of(s).len() ==> #[trigger] token_wf(tokens_of(s)[k]),
{
    lemma_tok_rec_wf(s, Seq::empty());
}

/// Relies on `String::push`: appends one character at the end.
#[verifier::external_body]
fn push_char(s: &mut String, c: char)
    ensures
        final(s)@ == old(s)@.push(c),
{
    s.push(c)
}

/// Splits `s` into its whitespace-delimited tokens.
pub fn tokenize(s: &str) -> (r: Vec<String>)
    ensures
        views_of(r@) == tokens_of(s@),
{
    let mut toks: Vec<String> = Vec::new();
    let mut cur: String = String::new();
    let mut it = s.chars();
    proof {
        assert(views_of(toks@) + tok_rec(it.remaining(), cur@) =~= tokens_of(s@));
    }
    loop
        invariant_except_break
            it.decrease() is Some,
            views_of(toks@) + tok_rec(it.remaining(), cur@) == tokens_of(s@),
        ensures
            views_of(toks@) == tokens_of(s@),
        decreases it.decrease()->0,
    {
        let ghost prev = it.remaining();
        let ghost prev_toks = toks@;
        let ghost prev_cur = cur@;
        match it.next() {
            None => {
                proof {
                    assert(prev.len() == 0);
                }
                if !cur.as_str().is_empty() {
                    proof {
                        assert(tok_rec(prev, prev_cur) =~= seq![prev_cur]);
                    }
                    toks.push(cur);
                    proof {
                        assert(views_of(toks@) =~= views_of(prev_toks) + seq![prev_cur]);
                    }
                } else {
                    proof {
                        assert(tok_rec(prev, prev_cur) =~= Seq::<Seq<char>>::empty());
                        assert(views_of(toks@) =~= views_of(toks@) + Seq::<Seq<char>>::empty());
                    }
                }
                break;
            },
            Some(c) => {
                proof {
                    assert(prev.len() > 0 && prev[0] == c);
                    assert(it.remaining() == prev.drop_first());
                }
                if is_space_char(c) {
                    if !cur.as_str().is_empty() {
                        proof {
                            assert(tok_rec(prev, prev_cur) == seq![prev_cur] + tok_rec(
                                prev.drop_first(),
                                Seq::<char>::empty(),
                            ));
                        }
                        toks.push(cur);
                        cur = String::new();
                        proof {
                            assert(views_of(toks@) =~= views_of(prev_toks) + seq![prev_cur]);
                            assert(views_of(toks@) + tok_rec(it.remaining(), cur@)
                                =~= views_of(prev_toks) + tok_rec(prev, prev_cur));
                        }
                    } else {
                        proof {
                            assert(prev_cur =~= Seq::<char>::empty());
                            assert(tok_rec(prev, prev_cur) == tok_rec(
                                prev.drop_first(),
                                Seq::<char>::empty(),
                            ));
                        }
                    }
                } else {
                    push_char(&mut cur, c);
                    proof {
                        assert(tok_rec(prev, prev_cur) == tok_rec(prev.drop_first(), cur@));
                    }
                }
            },
        }
    }
    toks
}

/// The tokens of `ts` joined into one text, separated by single ASCII
/// spaces, with no trailing separator.
pub open spec fn join_tokens(ts: Seq<Seq<char>>) -> Seq<char>
    decreases ts.len(),
{
    if ts.len() == 0 {
        Seq::empty()
    } else if ts.len() == 1 {
        ts[0]
    } else {
        ts[0] + seq![' '] + join_tokens(ts.drop_first())
    }
}

/// Appending one token at the end of a join adds one separator and the token.
pub proof fn lemma_join_push(ts: Seq<Seq<char>>, x: Seq<char>)
    ensures
        ts.len() == 0 ==> join_tokens(ts.push(x)) == x,
        ts.len() > 0 ==> join_tokens(ts.push(x)) == join_tokens(ts) + seq![' '] + x,
    decreases ts.len(),
{
    if ts.len() == 0 {
        assert(ts.push(x)[0] == x);
    } else if ts.len() == 1 {
        assert(ts.push(x).drop_first() =~= seq![x]);
        assert(seq![x][0] == x);
        assert(join_tokens(seq![x]) == x);
        assert(ts.push(x)[0] == ts[0]);
        assert(join_tokens(ts.push(x)) == ts[0] + seq![' '] + x);
        assert(join_tokens(ts) == ts[0]);
    } else {
        lemma_join_push(ts.drop_first(), x);
        assert(ts.push(x).drop_first() =~= ts.drop_first().push(x));
        assert(ts[0] + seq![' '] + (join_tokens(ts.drop_first()) + seq![' '] + x) =~= (ts[0]
            + seq![' '] + join_tokens(ts.drop_first())) + seq![' '] + x);
    }
}

/// Scanning a run `u` of non-whitespace characters extends the pending token
/// by `u` and goes on with the rest of the text.
proof fn lemma_tok_rec_run(u: Seq<char>, rest: Seq<char>, cur: Seq<char>)
    requires
        forall|i: int| 0 <= i < u.len() ==> !is_space(u[i]),
    ensures
        tok_rec(u + rest, cur) == tok_rec(rest, cur + u),
    decreases u.len(),
{
    if u.len() == 0 {
        assert(u + rest =~= rest);
        assert(cur + u =~= cur);
    } else {
        assert((u + rest)[0] == u[0]);
        assert((u + rest).drop_first() =~= u.drop_first() + rest);
        lemma_tok_rec_run(u.drop_first(), rest, cur.push(u[0]));
        assert(cur.push(u[0]) + u.drop_first() =~= cur + u);
    }
}

/// Tokenizing a join gives the tokens back: for well-formed tokens,
/// `tokens_of` is a left inverse of `join_tokens`.
pub proof fn lemma_tokens_of_join(ts: Seq<Seq<char>>)
    requires
        forall|k: int| 0 <= k < ts.len() ==> #[trigger] token_wf(ts[k]),
    ensures
        tokens_of(join_tokens(ts)) == ts,
    decreases ts.len(),
{
    if ts.len() == 0 {
        assert(tokens_of(join_tokens(ts)) =~= ts);
    } else if ts.len() == 1 {
        assert(token_wf(ts[0]));
        lemma_tok_rec_run(ts[0], Seq::empty(), Seq::empty());
        assert(ts[0] + Seq::<char>::empty() =~= ts[0]);
        assert(Seq::<char>::empty() + ts[0] =~= ts[0]);
        assert(tok_rec(Seq::<char>::empty(), ts[0]) =~= ts);
    } else {
        assert(token_wf(ts[0]));
        let rest = ts.drop_first();
        let j = join_tokens(rest);
        lemma_tokens_of_join(rest);
        lemma_tok_rec_run(ts[0], seq![' '] + j, Seq::empty());
        assert(join_tokens(ts) =~= ts[0] + (seq![' '] + j));
        assert(Seq::<char>::empty() + ts[0] =~= ts[0]);
        assert((seq![' '] + j)[0] == ' ');
        assert(is_space(' '));
        assert((seq![' '] + j).drop_first() =~= j);
        assert(tokens_of(join_tokens(ts)) == seq![ts[0]] + tokens_of(j));
        assert(seq![ts[0]] + rest =~= ts);
    }
}

/// Joins `toks` with single ASCII spaces, no trailing separator.
pub fn join(toks: &Vec<String>) -> (r: String)
    ensures
        r@ == join_tokens(views_of(toks@)),
{
    let mut r = String::new();
    let mut i: usize = 0;
    proof {
        assert(r@ =~= join_tokens(views_of(toks@).take(0)));
    }
    while i < toks.len()
        invariant
            i <= toks.len(),
            r@ == join_tokens(views_of(toks@).take(i as int)),
        decreases toks.len() - i,
    {
        proof {
            lemma_join_push(views_of(toks@).take(i as int), toks@[i as int]@);
            assert(views_of(toks@).take(i as int).push(toks@[i as int]@) =~= views_of(
                toks@,
            ).take(i + 1));
        }
        if i > 0 {
            push_char(&mut r, ' ');
        }
        r.append(toks[i].as_str());
        i = i + 1;
    }
    proof {
        assert(views_of(toks@).take(toks@.len() as int) =~= views_of(toks@));
    }
    r
}

} // verus!
