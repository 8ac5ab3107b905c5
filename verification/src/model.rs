//! The Markov model: each window of `n` consecutive tokens is mapped to the
//! tokens observed immediately after it in the corpus, each with a positive
//! observation count. The model is built by one circular pass over the
//! token sequence and is immutable afterwards.

use vstd::prelude::*;
use crate::tokens::{lemma_tokens_wf, token_wf, tokenize, tokens_of, views_of};
use vstd::arithmetic::div_mod::{
    lemma_add_mod_noop, lemma_mod_add_multiples_vanish, lemma_mod_bound, lemma_mod_twice,
    lemma_small_mod,
};

verus! {

/// The errors of this library. Every failure is reported as a value; no
/// verified function panics.
#[derive(Clone, Copy, Debug, PartialEq, Eq, Structural)]
pub enum MarkovError {
    /// The requested window size is not supported (it must be positive).
    UnsupportedWindowSize,
    /// The corpus has fewer tokens than one window and its successor need.
    CorpusTooShort,
    /// A trailing window was not found among the trained windows.
    WindowNotFound,
    /// The seed phrase has fewer tokens than one window needs.
    SeedTooShort,
}

/// One observed successor token together with its observation count.
pub struct Succ {
    pub token: String,
    pub count: usize,
}

/// One trained window together with all its observed successors.
pub struct Entry {
    pub window: Vec<String>,
    pub succs: Vec<Succ>,
}

/// A trained model: a fixed window size and the table of windows.
pub struct Markov {
    pub n: usize,
    pub entries: Vec<Entry>,
}

/// The successor list as a map from token to count. A later occurrence of a
/// token overrides an earlier one; well-formed lists hold each token once.
pub open spec fn succ_map(ss: Seq<Succ>) -> Map<Seq<char>, int>
    decreases ss.len(),
{
    if ss.len() == 0 {
        Map::empty()
    } else {
        succ_map(ss.drop_last()).insert(ss.last().token@, ss.last().count as int)
    }
}

/// The entry list as a map from window to successor map. A later occurrence
/// of a window overrides an earlier one; well-formed lists hold each once.
pub open spec fn entries_map(es: Seq<Entry>) -> Map<Seq<Seq<char>>, Map<Seq<char>, int>>
    decreases es.len(),
{
    if es.len() == 0 {
        Map::empty()
    } else {
        entries_map(es.drop_last()).insert(
            views_of(es.last().window@),
            succ_map(es.last().succs@),
        )
    }
}

impl View for Markov {
    type V = Map<Seq<Seq<char>>, Map<Seq<char>, int>>;

    open spec fn view(&self) -> Map<Seq<Seq<char>>, Map<Seq<char>, int>> {
        entries_map(self.entries@)
    }
}

/// A well-formed successor record: a real token, observed at least once.
pub open spec fn succ_wf(s: Succ) -> bool {
    token_wf(s.token@) && s.count >= 1
}

/// A well-formed successor list: every record well-formed, tokens distinct.
pub open spec fn succs_wf(ss: Seq<Succ>) -> bool {
    &&& forall|i: int| 0 <= i < ss.len() ==> succ_wf(#[trigger] ss[i])
    &&& forall|i: int, j: int| 0 <= i < j < ss.len() ==> ss[i].token@ != ss[j].token@
}

/// A well-formed entry for window size `n`: the window holds exactly `n`
/// well-formed tokens and has at least one successor.
pub open spec fn entry_wf(e: Entry, n: int) -> bool {
    &&& e.window@.len() == n
    &&& forall|i: int| 0 <= i < e.window@.len() ==> token_wf(#[trigger] e.window@[i]@)
    &&& e.succs@.len() > 0
    &&& succs_wf(e.succs@)
}

impl Markov {
    /// The stored table is well-formed: a positive window size, well-formed
    /// entries, and no window listed twice.
    pub open spec fn table_wf(self) -> bool {
        &&& self.n >= 1
        &&& forall|i: int|
            0 <= i < self.entries@.len() ==> entry_wf(#[trigger] self.entries@[i], self.n as int)
        &&& forall|i: int, j: int|
            0 <= i < j < self.entries@.len() ==> views_of(self.entries@[i].window@) != views_of(
                self.entries@[j].window@,
            )
    }

    /// Every successor of a stored window leads to a stored window: the
    /// window shifted left by one with the successor appended is itself a
    /// key. Circular training establishes this, and it is what lets
    /// generation keep finding its trailing window.
    pub open spec fn closed(self) -> bool {
        forall|w: Seq<Seq<char>>, t: Seq<char>|
            self@.contains_key(w) && #[trigger] self@[w].contains_key(t) ==> self@.contains_key(
                #[trigger] w.drop_first().push(t),
            )
    }

    /// The counts of each stored window sum to a machine integer, so a
    /// weighted draw over them cannot overflow.
    pub open spec fn sums_bounded(self) -> bool {
        forall|p: int|
            0 <= p < self.entries@.len() ==> succ_total((#[trigger] self.entries@[p]).succs@)
                <= usize::MAX
    }

    /// A well-formed model: a non-empty well-formed table, closed under
    /// shifting windows by their successors, with bounded count sums.
    pub open spec fn wf(self) -> bool {
        &&& self.table_wf()
        &&& self.entries@.len() > 0
        &&& self.closed()
        &&& self.sums_bounded()
    }

    /// Whether `w` is a stored window with `t` among its successors.
    pub open spec fn has_pair(self, w: Seq<Seq<char>>, t: Seq<char>) -> bool {
        map_has_pair(self@, w, t)
    }

    /// The stored count for `(w, t)`, zero where the pair is not stored.
    pub open spec fn count_in(self, w: Seq<Seq<char>>, t: Seq<char>) -> int {
        map_count(self@, w, t)
    }
}

/// Whether the table `m` stores window `w` with `t` among its successors.
pub open spec fn map_has_pair(
    m: Map<Seq<Seq<char>>, Map<Seq<char>, int>>,
    w: Seq<Seq<char>>,
    t: Seq<char>,
) -> bool {
    m.contains_key(w) && m[w].contains_key(t)
}

/// The count `m` stores for `(w, t)`, zero where the pair is not stored.
pub open spec fn map_count(
    m: Map<Seq<Seq<char>>, Map<Seq<char>, int>>,
    w: Seq<Seq<char>>,
    t: Seq<char>,
) -> int {
    if map_has_pair(m, w, t) {
        m[w][t]
    } else {
        0
    }
}

/// The circular window of `n` tokens starting at offset `i` of `toks`.
pub open spec fn window_at(toks: Seq<Seq<char>>, n: int, i: int) -> Seq<Seq<char>> {
    Seq::new(n as nat, |j: int| toks[(i + j) % (toks.len() as int)])
}

/// The token immediately after the circular window starting at offset `i`.
pub open spec fn succ_at(toks: Seq<Seq<char>>, n: int, i: int) -> Seq<char> {
    toks[(i + n) % (toks.len() as int)]
}

/// How many offsets in `[0, k)` have window `w` followed by token `t`.
pub open spec fn pair_count_upto(
    toks: Seq<Seq<char>>,
    n: int,
    w: Seq<Seq<char>>,
    t: Seq<char>,
    k: int,
) -> int
    decreases k,
{
    if k <= 0 {
        0
    } else {
        pair_count_upto(toks, n, w, t, k - 1) + if window_at(toks, n, k - 1) == w && succ_at(
            toks,
            n,
            k - 1,
        ) == t {
            1int
        } else {
            0int
        }
    }
}

/// How many offsets of the whole circular pass have window `w` followed by
/// token `t`: the count the trained model must store for `(w, t)`.
pub open spec fn pair_count(toks: Seq<Seq<char>>, n: int, w: Seq<Seq<char>>, t: Seq<char>) -> int {
    pair_count_upto(toks, n, w, t, toks.len() as int)
}

/// What training on token sequence `toks` with window size `n` must return:
/// the model stores exactly the pairs the circular pass observes, with their
/// exact counts, and stores no window without a successor.
pub open spec fn is_trained(m: Markov, toks: Seq<Seq<char>>, n: int) -> bool {
    &&& m.n == n
    &&& forall|w: Seq<Seq<char>>|
        #[trigger] m@.contains_key(w) ==> exists|t: Seq<char>| m@[w].contains_key(t)
    &&& forall|w: Seq<Seq<char>>, t: Seq<char>|
        #[trigger] m.count_in(w, t) == pair_count(toks, n, w, t)
    &&& forall|w: Seq<Seq<char>>, t: Seq<char>| #[trigger] m.has_pair(w, t) ==> m@[w][t] >= 1
}

/// The sum of the observation counts of a successor list.
pub open spec fn succ_total(ss: Seq<Succ>) -> int
    decreases ss.len(),
{
    if ss.len() == 0 {
        0
    } else {
        succ_total(ss.drop_last()) + ss.last().count
    }
}

/// The sum of all observation counts stored in a table: how many
/// window-insertion events training performed.
pub open spec fn total_count(es: Seq<Entry>) -> int
    decreases es.len(),
{
    if es.len() == 0 {
        0
    } else {
        total_count(es.drop_last()) + succ_total(es.last().succs@)
    }
}

/// Appending a record adds its count to the sum.
pub proof fn lemma_succ_total_push(ss: Seq<Succ>, s: Succ)
    ensures
        succ_total(ss.push(s)) == succ_total(ss) + s.count,
{
    assert(ss.push(s).drop_last() =~= ss);
    assert(ss.push(s).last() == s);
}

/// Replacing the record at position `i` changes the sum by the difference
/// of the counts.
pub proof fn lemma_succ_total_update(ss: Seq<Succ>, i: int, s: Succ)
    requires
        0 <= i < ss.len(),
    ensures
        succ_total(ss.update(i, s)) == succ_total(ss) + s.count - ss[i].count,
    decreases ss.len(),
{
    let ss2 = ss.update(i, s);
    if i == ss.len() - 1 {
        assert(ss2.drop_last() =~= ss.drop_last());
        assert(ss2.last() == s);
    } else {
        assert(ss2.drop_last() =~= ss.drop_last().update(i, s));
        assert(ss.drop_last()[i] == ss[i]);
        lemma_succ_total_update(ss.drop_last(), i, s);
        assert(ss2.last() == ss.last());
    }
}

/// Appending an entry adds the sum of its counts to the total.
pub proof fn lemma_total_push(es: Seq<Entry>, e: Entry)
    ensures
        total_count(es.push(e)) == total_count(es) + succ_total(e.succs@),
{
    assert(es.push(e).drop_last() =~= es);
    assert(es.push(e).last() == e);
}

/// Replacing the entry at position `i` changes the total by the difference
/// of the sums.
pub proof fn lemma_total_update(es: Seq<Entry>, i: int, e: Entry)
    requires
        0 <= i < es.len(),
    ensures
        total_count(es.update(i, e)) == total_count(es) + succ_total(e.succs@) - succ_total(
            es[i].succs@,
        ),
    decreases es.len(),
{
    let es2 = es.update(i, e);
    if i == es.len() - 1 {
        assert(es2.drop_last() =~= es.drop_last());
        assert(es2.last() == e);
    } else {
        assert(es2.drop_last() =~= es.drop_last().update(i, e));
        assert(es.drop_last()[i] == es[i]);
        lemma_total_update(es.drop_last(), i, e);
        assert(es2.last() == es.last());
    }
}

/// With distinct windows, the table maps exactly as many windows as it has
/// entries.
pub proof fn lemma_entries_map_dom_len(es: Seq<Entry>)
    requires
        forall|p: int, q: int|
            0 <= p < q < es.len() ==> views_of(es[p].window@) != views_of(es[q].window@),
    ensures
        entries_map(es).dom().finite(),
        entries_map(es).dom().len() == es.len(),
    decreases es.len(),
{
    if es.len() == 0 {
        assert(entries_map(es).dom() =~= Set::<Seq<Seq<char>>>::empty());
    } else {
        let front = es.drop_last();
        assert(forall|p: int| 0 <= p < front.len() ==> (#[trigger] front[p]) == es[p]);
        lemma_entries_map_dom_len(front);
        assert(forall|p: int|
            0 <= p < front.len() ==> views_of((#[trigger] front[p]).window@) != views_of(
                es.last().window@,
            ));
        lemma_entries_map_absent(front, views_of(es.last().window@));
        assert(entries_map(es).dom() =~= entries_map(front).dom().insert(
            views_of(es.last().window@),
        ));
    }
}

/// A sum of observation counts is non-negative.
pub proof fn lemma_succ_total_nonneg(ss: Seq<Succ>)
    ensures
        succ_total(ss) >= 0,
    decreases ss.len(),
{
    if ss.len() > 0 {
        lemma_succ_total_nonneg(ss.drop_last());
    }
}

/// A total of count sums is non-negative.
pub proof fn lemma_total_nonneg(es: Seq<Entry>)
    ensures
        total_count(es) >= 0,
    decreases es.len(),
{
    if es.len() > 0 {
        lemma_total_nonneg(es.drop_last());
        lemma_succ_total_nonneg(es.last().succs@);
    }
}

/// The count sum of any one entry is at most the total over the table.
pub proof fn lemma_entry_total_bound(es: Seq<Entry>, p: int)
    requires
        0 <= p < es.len(),
    ensures
        succ_total(es[p].succs@) <= total_count(es),
    decreases es.len(),
{
    if p == es.len() - 1 {
        lemma_total_nonneg(es.drop_last());
    } else {
        assert(es.drop_last()[p] == es[p]);
        lemma_entry_total_bound(es.drop_last(), p);
        lemma_succ_total_nonneg(es.last().succs@);
    }
}

/// Whether two token vectors hold the same tokens in the same order.
fn window_eq(a: &Vec<String>, b: &Vec<String>) -> (r: bool)
    ensures
        r == (views_of(a@) == views_of(b@)),
{
    if a.len() != b.len() {
        proof {
            assert(views_of(a@).len() != views_of(b@).len());
        }
        return false;
    }
    let mut i: usize = 0;
    while i < a.len()
        invariant
            i <= a@.len(),
            a@.len() == b@.len(),
            forall|p: int| 0 <= p < i ==> a@[p]@ == b@[p]@,
        decreases a@.len() - i,
    {
        if !(a[i] == b[i]) {
            proof {
                assert(views_of(a@)[i as int] != views_of(b@)[i as int]);
            }
            return false;
        }
        i = i + 1;
    }
    proof {
        assert(views_of(a@) =~= views_of(b@));
    }
    true
}

/// The position of the entry whose window is `w`, if one is stored.
pub(crate) fn find_entry(es: &Vec<Entry>, w: &Vec<String>) -> (r: Option<usize>)
    ensures
        match r {
            Some(i) => i < es@.len() && views_of(es@[i as int].window@) == views_of(w@),
            None => forall|p: int|
                0 <= p < es@.len() ==> views_of((#[trigger] es@[p]).window@) != views_of(w@),
        },
{
    let mut i: usize = 0;
    while i < es.len()
        invariant
            i <= es@.len(),
            forall|p: int| 0 <= p < i ==> views_of((#[trigger] es@[p]).window@) != views_of(w@),
        decreases es@.len() - i,
    {
        if window_eq(&es[i].window, w) {
            return Some(i);
        }
        i = i + 1;
    }
    None
}

/// The position of the record whose token is `t`, if one is held.
pub(crate) fn find_succ(ss: &Vec<Succ>, t: &String) -> (r: Option<usize>)
    ensures
        match r {
            Some(i) => i < ss@.len() && ss@[i as int].token@ == t@,
            None => forall|p: int| 0 <= p < ss@.len() ==> (#[trigger] ss@[p]).token@ != t@,
        },
{
    let mut i: usize = 0;
    while i < ss.len()
        invariant
            i <= ss@.len(),
            forall|p: int| 0 <= p < i ==> (#[trigger] ss@[p]).token@ != t@,
        decreases ss@.len() - i,
    {
        if ss[i].token == *t {
            return Some(i);
        }
        i = i + 1;
    }
    None
}

/// With distinct tokens, the record at position `i` gives the map its value
/// at that token.
pub proof fn lemma_succ_map_index(ss: Seq<Succ>, i: int)
    requires
        0 <= i < ss.len(),
        forall|p: int, q: int| 0 <= p < q < ss.len() ==> ss[p].token@ != ss[q].token@,
    ensures
        succ_map(ss).contains_key(ss[i].token@),
        succ_map(ss)[ss[i].token@] == ss[i].count as int,
    decreases ss.len(),
{
    if i < ss.len() - 1 {
        assert(ss.drop_last()[i] == ss[i]);
        lemma_succ_map_index(ss.drop_last(), i);
    }
}

/// A token held by no record is not in the map.
pub proof fn lemma_succ_map_absent(ss: Seq<Succ>, t: Seq<char>)
    requires
        forall|p: int| 0 <= p < ss.len() ==> (#[trigger] ss[p]).token@ != t,
    ensures
        !succ_map(ss).contains_key(t),
    decreases ss.len(),
{
    if ss.len() > 0 {
        assert(forall|p: int|
            0 <= p < ss.drop_last().len() ==> (#[trigger] ss.drop_last()[p]) == ss[p]);
        lemma_succ_map_absent(ss.drop_last(), t);
    }
}

/// Every key of the map is the token of some record.
pub proof fn lemma_succ_map_key(ss: Seq<Succ>, t: Seq<char>)
    requires
        succ_map(ss).contains_key(t),
    ensures
        exists|p: int| 0 <= p < ss.len() && (#[trigger] ss[p]).token@ == t,
    decreases ss.len(),
{
    if ss.len() > 0 && ss.last().token@ != t {
        lemma_succ_map_key(ss.drop_last(), t);
        let p = choose|p: int| 0 <= p < ss.drop_last().len() && (#[trigger] ss.drop_last()[p]).token@ == t;
        assert(ss[p].token@ == t);
    }
}

/// Appending a record inserts its token into the map.
pub proof fn lemma_succ_map_push(ss: Seq<Succ>, s: Succ)
    ensures
        succ_map(ss.push(s)) == succ_map(ss).insert(s.token@, s.count as int),
{
    assert(ss.push(s).drop_last() =~= ss);
    assert(ss.push(s).last() == s);
}

/// With distinct tokens, replacing the record at position `i` by one with
/// the same token updates the map at that token alone.
pub proof fn lemma_succ_map_update(ss: Seq<Succ>, i: int, s: Succ)
    requires
        0 <= i < ss.len(),
        s.token@ == ss[i].token@,
        forall|p: int, q: int| 0 <= p < q < ss.len() ==> ss[p].token@ != ss[q].token@,
    ensures
        succ_map(ss.update(i, s)) == succ_map(ss).insert(s.token@, s.count as int),
    decreases ss.len(),
{
    let ss2 = ss.update(i, s);
    if i == ss.len() - 1 {
        assert(ss2.drop_last() =~= ss.drop_last());
        assert(ss2.last() == s);
        assert(succ_map(ss2) =~= succ_map(ss).insert(s.token@, s.count as int));
    } else {
        assert(ss2.drop_last() =~= ss.drop_last().update(i, s));
        assert(ss.drop_last()[i] == ss[i]);
        lemma_succ_map_update(ss.drop_last(), i, s);
        assert(ss2.last() == ss.last());
        assert(s.token@ != ss.last().token@);
        assert(succ_map(ss2) =~= succ_map(ss).insert(s.token@, s.count as int));
    }
}

/// With distinct windows, the entry at position `i` gives the map its value
/// at that window.
pub proof fn lemma_entries_map_index(es: Seq<Entry>, i: int)
    requires
        0 <= i < es.len(),
        forall|p: int, q: int|
            0 <= p < q < es.len() ==> views_of(es[p].window@) != views_of(es[q].window@),
    ensures
        entries_map(es).contains_key(views_of(es[i].window@)),
        entries_map(es)[views_of(es[i].window@)] == succ_map(es[i].succs@),
    decreases es.len(),
{
    if i < es.len() - 1 {
        assert(es.drop_last()[i] == es[i]);
        lemma_entries_map_index(es.drop_last(), i);
    }
}

/// A window held by no entry is not in the map.
pub proof fn lemma_entries_map_absent(es: Seq<Entry>, w: Seq<Seq<char>>)
    requires
        forall|p: int| 0 <= p < es.len() ==> views_of((#[trigger] es[p]).window@) != w,
    ensures
        !entries_map(es).contains_key(w),
    decreases es.len(),
{
    if es.len() > 0 {
        assert(forall|p: int|
            0 <= p < es.drop_last().len() ==> (#[trigger] es.drop_last()[p]) == es[p]);
        lemma_entries_map_absent(es.drop_last(), w);
    }
}

/// Every key of the map is the window of some entry.
pub proof fn lemma_entries_map_key(es: Seq<Entry>, w: Seq<Seq<char>>)
    requires
        entries_map(es).contains_key(w),
    ensures
        exists|p: int| 0 <= p < es.len() && views_of((#[trigger] es[p]).window@) == w,
    decreases es.len(),
{
    if es.len() > 0 && views_of(es.last().window@) != w {
        lemma_entries_map_key(es.drop_last(), w);
        let p = choose|p: int|
            0 <= p < es.drop_last().len() && views_of((#[trigger] es.drop_last()[p]).window@) == w;
        assert(views_of(es[p].window@) == w);
    }
}

/// Appending an entry inserts its window into the map.
pub proof fn lemma_entries_map_push(es: Seq<Entry>, e: Entry)
    ensures
        entries_map(es.push(e)) == entries_map(es).insert(
            views_of(e.window@),
            succ_map(e.succs@),
        ),
{
    assert(es.push(e).drop_last() =~= es);
    assert(es.push(e).last() == e);
}

/// With distinct windows, replacing the entry at position `i` by one with
/// the same window updates the map at that window alone.
pub proof fn lemma_entries_map_update(es: Seq<Entry>, i: int, e: Entry)
    requires
        0 <= i < es.len(),
        views_of(e.window@) == views_of(es[i].window@),
        forall|p: int, q: int|
            0 <= p < q < es.len() ==> views_of(es[p].window@) != views_of(es[q].window@),
    ensures
        entries_map(es.update(i, e)) == entries_map(es).insert(
            views_of(e.window@),
            succ_map(e.succs@),
        ),
    decreases es.len(),
{
    let es2 = es.update(i, e);
    if i == es.len() - 1 {
        assert(es2.drop_last() =~= es.drop_last());
        assert(es2.last() == e);
        assert(entries_map(es2) =~= entries_map(es).insert(
            views_of(e.window@),
            succ_map(e.succs@),
        ));
    } else {
        assert(es2.drop_last() =~= es.drop_last().update(i, e));
        assert(es.drop_last()[i] == es[i]);
        lemma_entries_map_update(es.drop_last(), i, e);
        assert(es2.last() == es.last());
        assert(views_of(e.window@) != views_of(es.last().window@));
        assert(entries_map(es2) =~= entries_map(es).insert(
            views_of(e.window@),
            succ_map(e.succs@),
        ));
    }
}

/// A prefix count is non-negative and at most the number of offsets counted,
/// and it is positive exactly when some counted offset matches.
pub proof fn lemma_count_bounds(toks: Seq<Seq<char>>, n: int, w: Seq<Seq<char>>, t: Seq<char>, k: int)
    ensures
        0 <= pair_count_upto(toks, n, w, t, k),
        pair_count_upto(toks, n, w, t, k) <= (if k <= 0 { 0int } else { k }),
        pair_count_upto(toks, n, w, t, k) > 0 <==> exists|i: int|
            0 <= i < k && #[trigger] window_at(toks, n, i) == w && succ_at(toks, n, i) == t,
    decreases k,
{
    if k <= 0 {
    } else {
        lemma_count_bounds(toks, n, w, t, k - 1);
        if window_at(toks, n, k - 1) == w && succ_at(toks, n, k - 1) == t {
        } else {
            if pair_count_upto(toks, n, w, t, k) > 0 {
                let i = choose|i: int|
                    0 <= i < k - 1 && #[trigger] window_at(toks, n, i) == w && succ_at(toks, n, i)
                        == t;
                assert(0 <= i < k && window_at(toks, n, i) == w && succ_at(toks, n, i) == t);
            }
            if exists|i: int|
                0 <= i < k && #[trigger] window_at(toks, n, i) == w && succ_at(toks, n, i) == t {
                let i = choose|i: int|
                    0 <= i < k && #[trigger] window_at(toks, n, i) == w && succ_at(toks, n, i)
                        == t;
                assert(0 <= i < k - 1 && window_at(toks, n, i) == w && succ_at(toks, n, i) == t);
            }
        }
    }
}

/// An offset that matches `(w, t)` makes the count over any longer prefix
/// positive.
pub proof fn lemma_count_pos_at(
    toks: Seq<Seq<char>>,
    n: int,
    w: Seq<Seq<char>>,
    t: Seq<char>,
    i: int,
    k: int,
)
    requires
        0 <= i < k,
        window_at(toks, n, i) == w,
        succ_at(toks, n, i) == t,
    ensures
        pair_count_upto(toks, n, w, t, k) > 0,
{
    lemma_count_bounds(toks, n, w, t, k);
}

/// Moving one offset forward shifts the window: the window at the next
/// circular offset drops the first token and appends the successor.
pub proof fn lemma_window_shift(toks: Seq<Seq<char>>, n: int, i: int)
    requires
        1 <= n < toks.len(),
        0 <= i < toks.len(),
    ensures
        window_at(toks, n, (i + 1) % (toks.len() as int)) == window_at(
            toks,
            n,
            i,
        ).drop_first().push(succ_at(toks, n, i)),
{
    let l = toks.len() as int;
    let i2 = (i + 1) % l;
    assert forall|j: int| 0 <= j < n implies #[trigger] ((i2 + j) % l) == (i + 1 + j) % l by {
        lemma_mod_twice(i + 1, l);
        lemma_small_mod(j as nat, l as nat);
        lemma_add_mod_noop(i + 1, j, l);
    }
    assert(window_at(toks, n, i2) =~= window_at(toks, n, i).drop_first().push(
        succ_at(toks, n, i),
    ));
}

impl Markov {
    /// The window size the model was trained with.
    pub fn window_size(&self) -> (r: usize)
        ensures
            r == self.n,
    {
        self.n
    }

    /// How many distinct windows the model stores.
    pub fn window_count(&self) -> (r: usize)
        requires
            self.table_wf(),
        ensures
            r as int == self@.dom().len(),
    {
        proof {
            lemma_entries_map_dom_len(self.entries@);
        }
        self.entries.len()
    }

    /// Whether `w` is a stored window.
    pub fn has_window(&self, w: &Vec<String>) -> (r: bool)
        requires
            self.table_wf(),
        ensures
            r == self@.contains_key(views_of(w@)),
    {
        match find_entry(&self.entries, w) {
            None => {
                proof {
                    lemma_entries_map_absent(self.entries@, views_of(w@));
                }
                false
            },
            Some(i) => {
                proof {
                    lemma_entries_map_index(self.entries@, i as int);
                }
                true
            },
        }
    }

    /// The stored observation count for window `w` and successor `t`, zero
    /// where the pair was never observed.
    pub fn successor_count(&self, w: &Vec<String>, t: &String) -> (r: usize)
        requires
            self.table_wf(),
        ensures
            r as int == self.count_in(views_of(w@), t@),
    {
        match find_entry(&self.entries, w) {
            None => {
                proof {
                    lemma_entries_map_absent(self.entries@, views_of(w@));
                }
                0
            },
            Some(i) => {
                proof {
                    lemma_entries_map_index(self.entries@, i as int);
                    assert(entry_wf(self.entries@[i as int], self.n as int));
                }
                match find_succ(&self.entries[i].succs, t) {
                    None => {
                        proof {
                            lemma_succ_map_absent(self.entries@[i as int].succs@, t@);
                        }
                        0
                    },
                    Some(q) => {
                        proof {
                            lemma_succ_map_index(self.entries@[i as int].succs@, q as int);
                        }
                        self.entries[i].succs[q].count
                    },
                }
            },
        }
    }
}

/// Every window a trained model stores has length exactly `n`, and every
/// stored window has at least one recorded successor.
pub proof fn lemma_trained_windows(m: Markov, toks: Seq<Seq<char>>, n: int)
    requires
        is_trained(m, toks, n),
    ensures
        forall|w: Seq<Seq<char>>|
            #[trigger] m@.contains_key(w) ==> w.len() == n && exists|t: Seq<char>|
                m@[w].contains_key(t),
{
    assert forall|w: Seq<Seq<char>>| #[trigger] m@.contains_key(w) implies w.len() == n
        && exists|t: Seq<char>| m@[w].contains_key(t) by {
        let t = choose|t: Seq<char>| m@[w].contains_key(t);
        assert(m.has_pair(w, t));
        assert(m.count_in(w, t) == pair_count(toks, n, w, t));
        lemma_count_bounds(toks, n, w, t, toks.len() as int);
        let i = choose|i: int|
            0 <= i < toks.len() && #[trigger] window_at(toks, n, i) == w && succ_at(toks, n, i)
                == t;
        assert(window_at(toks, n, i).len() == n);
    }
}

/// Training is deterministic: two models trained on the same token sequence
/// with the same window size store the same windows, the same successors,
/// and the same counts.
pub proof fn lemma_train_deterministic(m1: Markov, m2: Markov, toks: Seq<Seq<char>>, n: int)
    requires
        is_trained(m1, toks, n),
        is_trained(m2, toks, n),
    ensures
        m1@ == m2@,
{
    assert forall|w: Seq<Seq<char>>| #[trigger] m1@.contains_key(w) implies m2@.contains_key(
        w,
    ) by {
        let t = choose|t: Seq<char>| m1@[w].contains_key(t);
        assert(m1.has_pair(w, t));
        assert(m1.count_in(w, t) == pair_count(toks, n, w, t));
        assert(m2.count_in(w, t) == pair_count(toks, n, w, t));
        assert(m2.count_in(w, t) >= 1);
    }
    assert forall|w: Seq<Seq<char>>| #[trigger] m2@.contains_key(w) implies m1@.contains_key(
        w,
    ) by {
        let t = choose|t: Seq<char>| m2@[w].contains_key(t);
        assert(m2.has_pair(w, t));
        assert(m2.count_in(w, t) == pair_count(toks, n, w, t));
        assert(m1.count_in(w, t) == pair_count(toks, n, w, t));
        assert(m1.count_in(w, t) >= 1);
    }
    assert forall|w: Seq<Seq<char>>| #[trigger] m1@.contains_key(w) implies m1@[w] == m2@[w] by {
        assert forall|t: Seq<char>| #[trigger] m1@[w].contains_key(t) implies m2@[w].contains_key(
            t,
        ) && m1@[w][t] == m2@[w][t] by {
            assert(m1.has_pair(w, t));
            assert(m1.count_in(w, t) == pair_count(toks, n, w, t));
            assert(m2.count_in(w, t) == pair_count(toks, n, w, t));
            assert(m2.count_in(w, t) >= 1);
            assert(m2.has_pair(w, t));
        }
        assert forall|t: Seq<char>| #[trigger] m2@[w].contains_key(t) implies m1@[w].contains_key(
            t,
        ) by {
            assert(m2.has_pair(w, t));
            assert(m2.count_in(w, t) == pair_count(toks, n, w, t));
            assert(m1.count_in(w, t) == pair_count(toks, n, w, t));
            assert(m1.count_in(w, t) >= 1);
        }
        assert(m1@[w] =~= m2@[w]);
    }
    assert(m1@ =~= m2@);
}

/// The circular offset `(i + j) mod l`, computed without overflow.
fn circular_add(i: usize, j: usize, l: usize) -> (r: usize)
    requires
        i < l,
        j < l,
    ensures
        r < l,
        r as int == (i + j) % (l as int),
{
    if j < l - i {
        proof {
            lemma_small_mod((i + j) as nat, l as nat);
        }
        i + j
    } else {
        proof {
            lemma_mod_add_multiples_vanish((i + j - l) as int, l as int);
            lemma_small_mod((i + j - l) as nat, l as nat);
        }
        j - (l - i)
    }
}

/// Trains a model on `corpus` with window size `n`: tokenizes the corpus,
/// slides a circular window of `n` tokens over the token sequence, and for
/// each offset counts the token following the window. Fails on an
/// unsupported (zero) window size, and on a corpus with fewer than `n + 1`
/// tokens; succeeds on every other input.
pub fn train(corpus: &str, n: usize) -> (r: Result<Markov, MarkovError>)
    ensures
        n == 0 ==> r == Err::<Markov, MarkovError>(MarkovError::UnsupportedWindowSize),
        n >= 1 && tokens_of(corpus@).len() <= n ==> r == Err::<Markov, MarkovError>(
            MarkovError::CorpusTooShort,
        ),
        n >= 1 && tokens_of(corpus@).len() > n ==> r is Ok,
        r is Ok ==> r.unwrap().wf() && is_trained(r.unwrap(), tokens_of(corpus@), n as int)
            && total_count(r.unwrap().entries@) == tokens_of(corpus@).len(),
{
    let toks = tokenize(corpus);
    let ghost tv = views_of(toks@);
    if n == 0 {
        return Err(MarkovError::UnsupportedWindowSize);
    }
    if toks.len() <= n {
        proof {
            assert(tv.len() == toks@.len());
        }
        return Err(MarkovError::CorpusTooShort);
    }
    proof {
        lemma_tokens_wf(corpus@);
    }
    let l = toks.len();
    let mut entries: Vec<Entry> = Vec::new();
    let mut i: usize = 0;
    proof {
        assert(entries_map(entries@) =~= Map::<Seq<Seq<char>>, Map<Seq<char>, int>>::empty());
        assert forall|w: Seq<Seq<char>>, t2: Seq<char>|
            #[trigger] map_count(entries_map(entries@), w, t2) == pair_count_upto(
                tv,
                n as int,
                w,
                t2,
                0,
            ) by {
            assert(!entries_map(entries@).contains_key(w));
        }
    }
    while i < l
        invariant
            toks@.len() == l,
            tv == views_of(toks@),
            tv == tokens_of(corpus@),
            tv.len() == l,
            1 <= n < l,
            i <= l,
            forall|k: int| 0 <= k < tv.len() ==> token_wf(#[trigger] tv[k]),
            forall|p: int|
                0 <= p < entries@.len() ==> entry_wf(#[trigger] entries@[p], n as int),
            forall|p: int, q: int|
                0 <= p < q < entries@.len() ==> views_of(entries@[p].window@) != views_of(
                    entries@[q].window@,
                ),
            forall|w: Seq<Seq<char>>, t2: Seq<char>|
                #[trigger] map_count(entries_map(entries@), w, t2) == pair_count_upto(
                    tv,
                    n as int,
                    w,
                    t2,
                    i as int,
                ),
            total_count(entries@) == i,
            i > 0 ==> entries@.len() > 0,
        decreases l - i,
    {
        let mut wvec: Vec<String> = Vec::new();
        let mut j: usize = 0;
        while j < n
            invariant
                toks@.len() == l,
                tv == views_of(toks@),
                tv.len() == l,
                1 <= n < l,
                i < l,
                j <= n,
                wvec@.len() == j,
                forall|p: int|
                    0 <= p < j ==> wvec@[p]@ == tv[(i as int + p) % (l as int)],
            decreases n - j,
        {
            let idx = circular_add(i, j, l);
            wvec.push(toks[idx].clone());
            proof {
                assert(wvec@[j as int]@ == tv[(i as int + j as int) % (l as int)]);
            }
            j = j + 1;
        }
        let ghost wv = window_at(tv, n as int, i as int);
        proof {
            assert(views_of(wvec@) =~= wv);
            assert forall|p: int| 0 <= p < n implies token_wf(#[trigger] wvec@[p]@) by {
                lemma_mod_bound(i as int + p, l as int);
            }
        }
        let sidx = circular_add(i, n, l);
        let t = toks[sidx].clone();
        let ghost t_v = t@;
        proof {
            assert(t_v == succ_at(tv, n as int, i as int));
            assert(token_wf(t_v));
        }
        let ghost old_entries = entries@;
        let ghost old_map = entries_map(old_entries);
        match find_entry(&entries, &wvec) {
            None => {
                proof {
                    lemma_entries_map_absent(old_entries, wv);
                }
                let mut ss: Vec<Succ> = Vec::new();
                ss.push(Succ { token: t, count: 1 });
                let e = Entry { window: wvec, succs: ss };
                let ghost e_g = e;
                entries.push(e);
                proof {
                    assert(e_g.succs@.drop_last() =~= Seq::<Succ>::empty());
                    assert(succ_map(Seq::<Succ>::empty()) =~= Map::<Seq<char>, int>::empty());
                    assert(succ_total(Seq::<Succ>::empty()) == 0);
                    assert(succ_map(e_g.succs@) =~= Map::<Seq<char>, int>::empty().insert(
                        t_v,
                        1int,
                    ));
                    lemma_entries_map_push(old_entries, e_g);
                    let new_map = entries_map(entries@);
                    assert(new_map == old_map.insert(wv, succ_map(e_g.succs@)));
                    assert forall|w: Seq<Seq<char>>, t2: Seq<char>|
                        #[trigger] map_count(new_map, w, t2) == pair_count_upto(
                            tv,
                            n as int,
                            w,
                            t2,
                            i as int + 1,
                        ) by {
                        assert(map_count(old_map, w, t2) == pair_count_upto(
                            tv,
                            n as int,
                            w,
                            t2,
                            i as int,
                        ));
                        if w == wv {
                            assert(map_count(old_map, w, t2) == 0);
                            if t2 == t_v {
                                assert(map_count(new_map, w, t2) == 1);
                            } else {
                                assert(!new_map[w].contains_key(t2));
                                assert(map_count(new_map, w, t2) == 0);
                            }
                        } else {
                            assert(map_count(new_map, w, t2) == map_count(old_map, w, t2));
                            assert(window_at(tv, n as int, i as int) != w);
                        }
                    }
                    lemma_total_push(old_entries, e_g);
                    assert(succ_total(e_g.succs@) == 1);
                    assert(entry_wf(e_g, n as int));
                }
            },
            Some(ei) => {
                let ghost e0 = entries@[ei as int];
                proof {
                    assert(entry_wf(e0, n as int));
                    lemma_entries_map_index(old_entries, ei as int);
                }
                match find_succ(&entries[ei].succs, &t) {
                    None => {
                        proof {
                            lemma_succ_map_absent(e0.succs@, t_v);
                        }
                        entries[ei].succs.push(Succ { token: t, count: 1 });
                        let ghost e1 = entries@[ei as int];
                        let ghost s_g = e1.succs@.last();
                        proof {
                            assert(entries@ == old_entries.update(ei as int, e1));
                            assert(e1.succs@ == e0.succs@.push(s_g));
                            assert(s_g.token@ == t_v && s_g.count == 1);
                            lemma_succ_map_push(e0.succs@, s_g);
                            lemma_entries_map_update(old_entries, ei as int, e1);
                            let new_map = entries_map(entries@);
                            let new_inner = succ_map(e1.succs@);
                            assert(new_map == old_map.insert(wv, new_inner));
                            assert forall|w: Seq<Seq<char>>, t2: Seq<char>|
                                #[trigger] map_count(new_map, w, t2) == pair_count_upto(
                                    tv,
                                    n as int,
                                    w,
                                    t2,
                                    i as int + 1,
                                ) by {
                                assert(map_count(old_map, w, t2) == pair_count_upto(
                                    tv,
                                    n as int,
                                    w,
                                    t2,
                                    i as int,
                                ));
                                if w == wv {
                                    if t2 == t_v {
                                        assert(!old_map[w].contains_key(t2));
                                        assert(map_count(old_map, w, t2) == 0);
                                        assert(map_count(new_map, w, t2) == 1);
                                    } else {
                                        assert(map_count(new_map, w, t2) == map_count(
                                            old_map,
                                            w,
                                            t2,
                                        ));
                                    }
                                } else {
                                    assert(map_count(new_map, w, t2) == map_count(
                                        old_map,
                                        w,
                                        t2,
                                    ));
                                    assert(window_at(tv, n as int, i as int) != w);
                                }
                            }
                            lemma_total_update(old_entries, ei as int, e1);
                            lemma_succ_total_push(e0.succs@, s_g);
                            assert(entry_wf(e1, n as int));
                        }
                    },
                    Some(si) => {
                        let c = entries[ei].succs[si].count;
                        proof {
                            lemma_succ_map_index(e0.succs@, si as int);
                            assert(map_count(old_map, wv, t_v) == c);
                            lemma_count_bounds(tv, n as int, wv, t_v, i as int);
                            assert(c <= i);
                        }
                        entries[ei].succs[si] = Succ { token: t, count: c + 1 };
                        let ghost e1 = entries@[ei as int];
                        let ghost s1 = e1.succs@[si as int];
                        proof {
                            assert(entries@ == old_entries.update(ei as int, e1));
                            assert(e1.succs@ == e0.succs@.update(si as int, s1));
                            assert(s1.token@ == e0.succs@[si as int].token@);
                            assert(s1.count == c + 1);
                            lemma_succ_map_update(e0.succs@, si as int, s1);
                            lemma_entries_map_update(old_entries, ei as int, e1);
                            let new_map = entries_map(entries@);
                            let new_inner = succ_map(e1.succs@);
                            assert(new_map == old_map.insert(wv, new_inner));
                            assert forall|w: Seq<Seq<char>>, t2: Seq<char>|
                                #[trigger] map_count(new_map, w, t2) == pair_count_upto(
                                    tv,
                                    n as int,
                                    w,
                                    t2,
                                    i as int + 1,
                                ) by {
                                assert(map_count(old_map, w, t2) == pair_count_upto(
                                    tv,
                                    n as int,
                                    w,
                                    t2,
                                    i as int,
                                ));
                                if w == wv {
                                    if t2 == t_v {
                                        assert(map_count(new_map, w, t2) == c + 1);
                                    } else {
                                        assert(map_count(new_map, w, t2) == map_count(
                                            old_map,
                                            w,
                                            t2,
                                        ));
                                    }
                                } else {
                                    assert(map_count(new_map, w, t2) == map_count(
                                        old_map,
                                        w,
                                        t2,
                                    ));
                                    assert(window_at(tv, n as int, i as int) != w);
                                }
                            }
                            lemma_total_update(old_entries, ei as int, e1);
                            lemma_succ_total_update(e0.succs@, si as int, s1);
                            assert forall|p: int|
                                0 <= p < entries@.len() implies entry_wf(
                                #[trigger] entries@[p],
                                n as int,
                            ) by {
                                if p != ei as int {
                                    assert(entries@[p] == old_entries[p]);
                                }
                            }
                        }
                    },
                }
            },
        }
        i = i + 1;
    }
    let m = Markov { n, entries };
    proof {
        let es = m.entries@;
        assert forall|w: Seq<Seq<char>>, t2: Seq<char>|
            #[trigger] m.count_in(w, t2) == pair_count(tv, n as int, w, t2) by {
            assert(map_count(entries_map(es), w, t2) == pair_count_upto(
                tv,
                n as int,
                w,
                t2,
                l as int,
            ));
        }
        assert forall|w: Seq<Seq<char>>| #[trigger] m@.contains_key(w) implies exists|t2: Seq<char>|
            m@[w].contains_key(t2) by {
            lemma_entries_map_key(es, w);
            let p = choose|p: int| 0 <= p < es.len() && views_of((#[trigger] es[p]).window@) == w;
            lemma_entries_map_index(es, p);
            assert(entry_wf(es[p], n as int));
            lemma_succ_map_index(es[p].succs@, 0);
            assert(m@[w].contains_key(es[p].succs@[0].token@));
        }
        assert forall|w: Seq<Seq<char>>, t2: Seq<char>| #[trigger] m.has_pair(w, t2) implies m@[w][t2]
            >= 1 by {
            lemma_entries_map_key(es, w);
            let p = choose|p: int| 0 <= p < es.len() && views_of((#[trigger] es[p]).window@) == w;
            lemma_entries_map_index(es, p);
            assert(entry_wf(es[p], n as int));
            lemma_succ_map_key(es[p].succs@, t2);
            let q = choose|q: int|
                0 <= q < es[p].succs@.len() && (#[trigger] es[p].succs@[q]).token@ == t2;
            lemma_succ_map_index(es[p].succs@, q);
            assert(succ_wf(es[p].succs@[q]));
        }
        assert forall|w: Seq<Seq<char>>, t2: Seq<char>|
            m@.contains_key(w) && #[trigger] m@[w].contains_key(t2) implies m@.contains_key(
            #[trigger] w.drop_first().push(t2),
        ) by {
            assert(m.has_pair(w, t2));
            assert(m.count_in(w, t2) == pair_count(tv, n as int, w, t2));
            lemma_count_bounds(tv, n as int, w, t2, l as int);
            let i0 = choose|i0: int|
                0 <= i0 < l && #[trigger] window_at(tv, n as int, i0) == w && succ_at(
                    tv,
                    n as int,
                    i0,
                ) == t2;
            lemma_window_shift(tv, n as int, i0);
            lemma_mod_bound(i0 + 1, l as int);
            let i2 = (i0 + 1) % (l as int);
            lemma_count_pos_at(
                tv,
                n as int,
                window_at(tv, n as int, i2),
                succ_at(tv, n as int, i2),
                i2,
                l as int,
            );
            assert(m.count_in(window_at(tv, n as int, i2), succ_at(tv, n as int, i2)) > 0);
        }
        assert forall|p: int|
            0 <= p < es.len() implies succ_total((#[trigger] es[p]).succs@) <= usize::MAX by {
            lemma_entry_total_bound(es, p);
        }
        assert(m.wf());
        assert(is_trained(m, tokens_of(corpus@), n as int));
    }
    Ok(m)
}

} // verus!

