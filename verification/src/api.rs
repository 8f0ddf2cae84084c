//! The paginated ranking feed: one entry per member, and the policy that
//! accumulates successive pages and decides when pagination has reached
//! the end of the feed.
//!
//! Fetching a page is the caller's business (it is network work); the
//! paginator only consumes fetched pages. Pagination stops when a page
//! raises no new highest rank (stagnation) or when a fetch fails; a
//! failure is treated as end of data, never as an error, so the
//! accumulated entries so far are always returned.

use vstd::prelude::*;

verus! {

use vstd::multiset::Multiset;

/// One entry of the ranking feed: a member name, the member's rank for
/// the metric, and the score in fixed-point units of
/// [`crate::SCORE_SCALE`] per whole unit.
pub struct Ranking {
    pub nation: String,
    pub rank: u64,
    pub score: i64,
}

/// The highest rank among the entries, zero if there are none.
pub open spec fn max_rank(s: Seq<Ranking>) -> u64
    decreases s.len(),
{
    if s.len() == 0 {
        0u64
    } else if s.last().rank > max_rank(s.drop_last()) {
        s.last().rank
    } else {
        max_rank(s.drop_last())
    }
}

/// The highest rank of a concatenation is the higher of the two
/// highest ranks.
proof fn lemma_max_rank_concat(a: Seq<Ranking>, b: Seq<Ranking>)
    ensures
        max_rank(a + b) == if max_rank(b) > max_rank(a) {
            max_rank(b)
        } else {
            max_rank(a)
        },
    decreases b.len(),
{
    if b.len() == 0 {
        assert(a + b =~= a);
    } else {
        assert((a + b).drop_last() =~= a + b.drop_last());
        lemma_max_rank_concat(a, b.drop_last());
    }
}

/// Inserts an entry into a score-sorted sequence, after every entry
/// whose score is not above it, so that entries with equal scores keep
/// their arrival order.
pub open spec fn insert_by_score(s: Seq<Ranking>, x: Ranking) -> Seq<Ranking>
    decreases s.len(),
{
    if s.len() == 0 {
        seq![x]
    } else if s.last().score <= x.score {
        s.push(x)
    } else {
        insert_by_score(s.drop_last(), x).push(s.last())
    }
}

/// The entries sorted ascending by score; entries with equal scores
/// keep their relative order.
pub open spec fn sort_by_score(s: Seq<Ranking>) -> Seq<Ranking>
    decreases s.len(),
{
    if s.len() == 0 {
        s
    } else {
        insert_by_score(sort_by_score(s.drop_last()), s.last())
    }
}

/// Ascending score order.
pub open spec fn sorted_by_score(s: Seq<Ranking>) -> bool {
    forall|i: int, j: int| 0 <= i < j < s.len() ==> s[i].score <= s[j].score
}

proof fn lemma_insert_by_score_props(s: Seq<Ranking>, x: Ranking)
    ensures
        insert_by_score(s, x).len() == s.len() + 1,
        insert_by_score(s, x).to_multiset() == s.to_multiset().insert(x),
        forall|k: int|
            0 <= k < s.len() + 1 ==> (#[trigger] insert_by_score(s, x)[k] == x || s.contains(
                insert_by_score(s, x)[k],
            )),
        sorted_by_score(s) ==> sorted_by_score(insert_by_score(s, x)),
    decreases s.len(),
{
    broadcast use vstd::seq_lib::group_to_multiset_ensures;

    let r = insert_by_score(s, x);
    if s.len() == 0 {
        assert(r =~= Seq::empty().push(x));
        assert(Seq::<Ranking>::empty().to_multiset() =~= Multiset::empty());
        assert(r.to_multiset() =~= s.to_multiset().insert(x));
    } else if s.last().score <= x.score {
        assert forall|k: int| 0 <= k < s.len() + 1 implies (#[trigger] r[k] == x || s.contains(
            r[k],
        )) by {
            if k < s.len() {
                assert(r[k] == s[k]);
            }
        }
        if sorted_by_score(s) {
            assert forall|i: int, j: int| 0 <= i < j < r.len() implies r[i].score <= r[j].score by {
                if j < s.len() {
                } else {
                    assert(r[j] == x);
                    if i < s.len() - 1 {
                        assert(s[i].score <= s[s.len() - 1].score);
                    }
                }
            }
        }
    } else {
        let t = s.drop_last();
        lemma_insert_by_score_props(t, x);
        let u = insert_by_score(t, x);
        assert(r == u.push(s.last()));
        assert(t.push(s.last()) =~= s);
        assert(s.to_multiset() == t.to_multiset().insert(s.last()));
        assert(r.to_multiset() == u.to_multiset().insert(s.last()));
        assert(r.to_multiset() =~= s.to_multiset().insert(x));
        assert forall|k: int| 0 <= k < s.len() + 1 implies (#[trigger] r[k] == x || s.contains(
            r[k],
        )) by {
            if k < u.len() {
                assert(r[k] == u[k]);
                if u[k] != x {
                    assert(t.contains(u[k]));
                    let l = choose|l: int| 0 <= l < t.len() && t[l] == u[k];
                    assert(s[l] == u[k]);
                }
            } else {
                assert(r[k] == s.last());
                assert(s[s.len() - 1] == s.last());
            }
        }
        if sorted_by_score(s) {
            assert forall|i: int, j: int| 0 <= i < j < t.len() implies t[i].score
                <= t[j].score by {
                assert(s[i].score <= s[j].score);
            }
            assert forall|i: int, j: int| 0 <= i < j < r.len() implies r[i].score <= r[j].score by {
                if j < u.len() {
                } else {
                    assert(r[j] == s.last());
                    assert(r[i] == u[i]);
                    if u[i] == x {
                    } else {
                        assert(t.contains(u[i]));
                        let l = choose|l: int| 0 <= l < t.len() && t[l] == u[i];
                        assert(s[l].score <= s[s.len() - 1].score);
                    }
                }
            }
        }
    }
}

/// The score sort is a permutation of its input and leaves it sorted
/// ascending by score.
pub proof fn lemma_sort_by_score_props(s: Seq<Ranking>)
    ensures
        sort_by_score(s).len() == s.len(),
        sort_by_score(s).to_multiset() == s.to_multiset(),
        sorted_by_score(sort_by_score(s)),
    decreases s.len(),
{
    broadcast use vstd::seq_lib::group_to_multiset_ensures;

    if s.len() == 0 {
    } else {
        let t = s.drop_last();
        lemma_sort_by_score_props(t);
        lemma_insert_by_score_props(sort_by_score(t), s.last());
        assert(t.push(s.last()) =~= s);
        assert(s.to_multiset() == t.to_multiset().insert(s.last()));
    }
}

/// Where an entry must be placed: every entry from `p` on has a higher
/// score, and the entry before `p`, if any, does not. Then inserting is
/// splicing at `p`.
proof fn lemma_insert_by_score_at(s: Seq<Ranking>, x: Ranking, p: int)
    requires
        0 <= p <= s.len(),
        forall|k: int| p <= k < s.len() ==> s[k].score > x.score,
        p > 0 ==> s[p - 1].score <= x.score,
    ensures
        insert_by_score(s, x) == s.subrange(0, p) + seq![x] + s.subrange(p, s.len() as int),
    decreases s.len(),
{
    if p == s.len() {
        if s.len() == 0 {
            assert(insert_by_score(s, x) =~= s.subrange(0, p) + seq![x] + s.subrange(
                p,
                s.len() as int,
            ));
        } else {
            assert(s.last().score <= x.score);
            assert(s.subrange(0, p) =~= s);
            assert(s.subrange(p, s.len() as int) =~= Seq::empty());
            assert(s.push(x) =~= s.subrange(0, p) + seq![x] + s.subrange(p, s.len() as int));
        }
    } else {
        assert(s.last().score > x.score);
        let t = s.drop_last();
        lemma_insert_by_score_at(t, x, p);
        assert(t.subrange(0, p) =~= s.subrange(0, p));
        assert(t.subrange(p, t.len() as int) =~= s.subrange(p, s.len() - 1));
        assert((s.subrange(0, p) + seq![x] + s.subrange(p, s.len() - 1)).push(s.last()) =~= s
            .subrange(0, p) + seq![x] + s.subrange(p, s.len() as int));
    }
}

fn insert_ranking(v: &mut Vec<Ranking>, x: Ranking)
    ensures
        final(v)@ == insert_by_score(old(v)@, x),
{
    let mut p: usize = v.len();
    while p > 0 && v[p - 1].score > x.score
        invariant
            0 <= p <= v@.len(),
            v@ == old(v)@,
            forall|k: int| p <= k < v@.len() ==> v@[k].score > x.score,
        decreases p,
    {
        p = p - 1;
    }
    proof {
        lemma_insert_by_score_at(v@, x, p as int);
        assert(old(v)@.insert(p as int, x) =~= old(v)@.subrange(0, p as int) + seq![x] + old(
            v,
        )@.subrange(p as int, old(v)@.len() as int));
    }
    v.insert(p, x);
}

/// Sorts the entries ascending by score; entries with equal scores keep
/// their relative order.
pub fn sort_rankings(rankings: Vec<Ranking>) -> (r: Vec<Ranking>)
    ensures
        r@ == sort_by_score(rankings@),
{
    let mut rest = rankings;
    let ghost orig = rest@;
    let ghost done = Seq::<Ranking>::empty();
    let mut out: Vec<Ranking> = Vec::new();
    while rest.len() > 0
        invariant
            orig == done + rest@,
            out@ == sort_by_score(done),
        decreases rest@.len(),
    {
        let x = rest.remove(0);
        insert_ranking(&mut out, x);
        proof {
            assert(done.push(x).drop_last() =~= done);
            assert(orig =~= done.push(x) + rest@);
            done = done.push(x);
        }
    }
    proof {
        assert(orig =~= done);
    }
    out
}

/// The pagination policy of the ranking fetch. The caller requests one
/// page at a time, starting at one past the highest rank seen so far,
/// and feeds each fetched page to [`Paginator::absorb_page`]; a fetch
/// that fails simply ends the loop. [`Paginator::finish`] returns the
/// accumulated entries sorted by score.
pub struct Paginator {
    rankings: Vec<Ranking>,
    highest_rank: u64,
}

impl Paginator {
    /// The entries accumulated so far, in arrival order.
    pub closed spec fn entries(&self) -> Seq<Ranking> {
        self.rankings@
    }

    /// The paginator carries the highest rank seen so far.
    pub closed spec fn well_formed(&self) -> bool {
        self.highest_rank == max_rank(self.rankings@)
    }

    pub fn new() -> (r: Paginator)
        ensures
            r.well_formed(),
            r.entries() == Seq::<Ranking>::empty(),
    {
        Paginator { rankings: Vec::new(), highest_rank: 0 }
    }

    /// The highest rank seen so far, zero before the first page.
    pub fn highest_rank(&self) -> (r: u64)
        requires
            self.well_formed(),
        ensures
            r == max_rank(self.entries()),
    {
        self.highest_rank
    }

    /// The start rank for the next page request: one past the highest
    /// rank seen so far.
    pub fn next_start(&self) -> (r: u64)
        requires
            self.well_formed(),
            max_rank(self.entries()) < u64::MAX,
        ensures
            r == max_rank(self.entries()) + 1,
    {
        self.highest_rank + 1
    }

    /// Appends one fetched page to the accumulator and recomputes the
    /// highest rank seen. Returns whether a further page should be
    /// requested: false means the page raised no new highest rank, so
    /// the feed has nothing more to offer (stagnation).
    pub fn absorb_page(&mut self, page: Vec<Ranking>) -> (cont: bool)
        requires
            old(self).well_formed(),
        ensures
            final(self).well_formed(),
            final(self).entries() == old(self).entries() + page@,
            cont == (max_rank(final(self).entries()) != max_rank(old(self).entries())),
    {
        let mut page = page;
        let ghost pview = page@;
        let prev = self.highest_rank;
        let mut high = self.highest_rank;
        let mut j: usize = 0;
        while j < page.len()
            invariant
                0 <= j <= page@.len(),
                page@ == pview,
                high == if max_rank(pview.take(j as int)) > prev {
                    max_rank(pview.take(j as int))
                } else {
                    prev
                },
            decreases page@.len() - j,
        {
            proof {
                assert(pview.take(j + 1 as int).drop_last() =~= pview.take(j as int));
                assert(pview.take(j + 1 as int).last() == pview[j as int]);
            }
            if page[j].rank > high {
                high = page[j].rank;
            }
            j = j + 1;
        }
        proof {
            assert(pview.take(page@.len() as int) =~= pview);
            lemma_max_rank_concat(self.rankings@, pview);
        }
        self.rankings.append(&mut page);
        self.highest_rank = high;
        high != prev
    }

    /// Ends pagination: the accumulated entries, sorted ascending by
    /// score. Entries with equal scores keep their arrival order.
    pub fn finish(self) -> (r: Vec<Ranking>)
        ensures
            r@ == sort_by_score(self.entries()),
    {
        sort_rankings(self.rankings)
    }
}

/// The entries of one page result; a failed fetch contributes none.
pub open spec fn page_entries(p: Option<Seq<Ranking>>) -> Seq<Ranking> {
    match p {
        Some(v) => v,
        None => Seq::empty(),
    }
}

/// The page results as sequences of entries.
pub open spec fn page_views(pages: Seq<Option<Vec<Ranking>>>) -> Seq<Option<Seq<Ranking>>> {
    pages.map_values(
        |p: Option<Vec<Ranking>>|
            match p {
                Some(v) => Some(v@),
                None => None,
            },
    )
}

/// All entries of the first `n` page results, in feed order.
pub open spec fn pages_concat(pages: Seq<Option<Seq<Ranking>>>, n: int) -> Seq<Ranking>
    decreases n,
{
    if n <= 0 {
        Seq::empty()
    } else {
        pages_concat(pages, n - 1) + page_entries(pages[n - 1])
    }
}

/// What the pagination policy accumulates, given the page results the
/// feed would serve in order: pages are absorbed one by one; a page
/// that raises no new highest rank is the last one absorbed, and a
/// failed fetch ends the loop with the accumulator as it stands.
pub open spec fn paginate_from(acc: Seq<Ranking>, pages: Seq<Option<Seq<Ranking>>>) -> Seq<Ranking>
    decreases pages.len(),
{
    if pages.len() == 0 {
        acc
    } else {
        match pages[0] {
            None => acc,
            Some(p) => {
                if max_rank(acc + p) == max_rank(acc) {
                    acc + p
                } else {
                    paginate_from(acc + p, pages.drop_first())
                }
            },
        }
    }
}

/// The entries pagination accumulates from a feed, before the final
/// score sort.
pub open spec fn paginate(pages: Seq<Option<Seq<Ranking>>>) -> Seq<Ranking> {
    paginate_from(Seq::empty(), pages)
}

/// The first `k` pages all fetch successfully and each raises the
/// highest rank seen strictly.
pub open spec fn pages_advance(pages: Seq<Option<Seq<Ranking>>>, k: int) -> bool {
    forall|j: int|
        0 <= j < k ==> (pages[j] is Some && max_rank(#[trigger] pages_concat(pages, j + 1))
            > max_rank(pages_concat(pages, j)))
}

proof fn lemma_paginate_from_failure(pages: Seq<Option<Seq<Ranking>>>, j: int, k: int)
    requires
        0 <= j <= k < pages.len(),
        pages_advance(pages, k),
        pages[k] is None,
    ensures
        paginate_from(pages_concat(pages, j), pages.skip(j)) == pages_concat(pages, k),
    decreases k - j,
{
    let rest = pages.skip(j);
    assert(rest[0] == pages[j]);
    if j == k {
    } else {
        let acc = pages_concat(pages, j);
        let p = page_entries(pages[j]);
        assert(acc + p == pages_concat(pages, j + 1));
        assert(max_rank(acc + p) != max_rank(acc));
        lemma_paginate_from_failure(pages, j + 1, k);
        assert(rest.drop_first() =~= pages.skip(j + 1));
    }
}

proof fn lemma_paginate_from_stagnation(pages: Seq<Option<Seq<Ranking>>>, j: int, k: int)
    requires
        0 <= j <= k < pages.len(),
        pages_advance(pages, k),
        pages[k] is Some,
        max_rank(pages_concat(pages, k + 1)) == max_rank(pages_concat(pages, k)),
    ensures
        paginate_from(pages_concat(pages, j), pages.skip(j)) == pages_concat(pages, k + 1),
    decreases k - j,
{
    let rest = pages.skip(j);
    assert(rest[0] == pages[j]);
    let acc = pages_concat(pages, j);
    let p = page_entries(pages[j]);
    assert(acc + p == pages_concat(pages, j + 1));
    if j == k {
    } else {
        assert(max_rank(acc + p) != max_rank(acc));
        lemma_paginate_from_stagnation(pages, j + 1, k);
        assert(rest.drop_first() =~= pages.skip(j + 1));
    }
}

/// Termination by failure: if the first `k` pages fetch successfully
/// and each strictly raises the highest rank, and fetching page `k`
/// fails, pagination returns exactly the entries of the first `k`
/// pages, and no error.
pub proof fn lemma_pagination_failure(pages: Seq<Option<Seq<Ranking>>>, k: int)
    requires
        0 <= k < pages.len(),
        pages_advance(pages, k),
        pages[k] is None,
    ensures
        paginate(pages) == pages_concat(pages, k),
{
    lemma_paginate_from_failure(pages, 0, k);
    assert(pages.skip(0) =~= pages);
}

/// Termination by stagnation: if the first `k` pages each strictly
/// raise the highest rank and page `k` is fetched but raises no new
/// highest rank, pagination returns exactly the entries of pages
/// `0 ..= k` — the stagnant page is absorbed before the loop stops.
pub proof fn lemma_pagination_stagnation(pages: Seq<Option<Seq<Ranking>>>, k: int)
    requires
        0 <= k < pages.len(),
        pages_advance(pages, k),
        pages[k] is Some,
        max_rank(pages_concat(pages, k + 1)) == max_rank(pages_concat(pages, k)),
    ensures
        paginate(pages) == pages_concat(pages, k + 1),
{
    lemma_paginate_from_stagnation(pages, 0, k);
    assert(pages.skip(0) =~= pages);
}

/// As sets of entries, a stagnant page whose entries were all already
/// seen adds nothing: the result is the union of the entries of the
/// pages before it.
pub proof fn lemma_pagination_stagnation_set(pages: Seq<Option<Seq<Ranking>>>, k: int)
    requires
        0 <= k < pages.len(),
        pages_advance(pages, k),
        pages[k] is Some,
        max_rank(pages_concat(pages, k + 1)) == max_rank(pages_concat(pages, k)),
        forall|e: Ranking|
            page_entries(pages[k]).contains(e) ==> #[trigger] pages_concat(pages, k).contains(e),
    ensures
        paginate(pages).to_set() == pages_concat(pages, k).to_set(),
{
    lemma_pagination_stagnation(pages, k);
    let before = pages_concat(pages, k);
    let whole = pages_concat(pages, k + 1);
    assert(whole == before + page_entries(pages[k]));
    assert forall|e: Ranking| #[trigger] whole.to_set().contains(e) implies before.to_set().contains(
        e,
    ) by {
        let i = choose|i: int| 0 <= i < whole.len() && whole[i] == e;
        if i < before.len() {
            assert(before[i] == e);
        } else {
            assert(page_entries(pages[k])[i - before.len()] == e);
            assert(page_entries(pages[k]).contains(e));
        }
    }
    assert forall|e: Ranking| #[trigger] before.to_set().contains(e) implies whole.to_set().contains(
        e,
    ) by {
        let i = choose|i: int| 0 <= i < before.len() && before[i] == e;
        assert(whole[i] == e);
    }
    assert(whole.to_set() =~= before.to_set());
}

/// Runs the pagination policy over a sequence of already-fetched page
/// results (`Some` entries for a fetched page, `None` for a failed
/// fetch) and returns what the ranking fetch would return: the
/// accumulated entries, sorted ascending by score.
pub fn collect_pages(pages: Vec<Option<Vec<Ranking>>>) -> (r: Vec<Ranking>)
    ensures
        r@ == sort_by_score(paginate(page_views(pages@))),
{
    let ghost orig = page_views(pages@);
    let mut rest = pages;
    let mut pager = Paginator::new();
    let mut done = false;
    while !done && rest.len() > 0
        invariant
            pager.well_formed(),
            !done ==> paginate(orig) == paginate_from(pager.entries(), page_views(rest@)),
            done ==> pager.entries() == paginate(orig),
        decreases rest@.len(), (if done { 0int } else { 1int }),
    {
        let ghost pre = page_views(rest@);
        let page_opt = rest.remove(0);
        proof {
            assert(page_views(rest@) =~= pre.drop_first());
            assert(pre[0] == match page_opt {
                Some(v) => Some::<Seq<Ranking>>(v@),
                None => None::<Seq<Ranking>>,
            });
        }
        match page_opt {
            None => {
                done = true;
            },
            Some(page) => {
                let cont = pager.absorb_page(page);
                if !cont {
                    done = true;
                }
            },
        }
    }
    proof {
        if !done {
            assert(rest@.len() == 0);
            assert(page_views(rest@) =~= Seq::<Option<Seq<Ranking>>>::empty());
        }
    }
    pager.finish()
}

} // verus!
