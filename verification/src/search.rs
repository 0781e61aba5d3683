//! Exact search: the best `k` of the documents offered, by score.
//!
//! The caller scores each document against the query with the metric and
//! offers the scored documents. The search admits those that pass the
//! filter, ranks them by score (for Euclidean distance the smallest first,
//! for the other metrics the largest first), breaks ties by the lower
//! internal number, and returns the first `k`.

use vstd::prelude::*;
use crate::codec::{clone_text, text_of};
use crate::distance::{negate, negated, score_key, score_rank, Distance};
use crate::filter::{admits, passes, Filter, Json};

verus! {

/// A search request.
#[derive(Debug)]
pub struct Search {
    vector: Vec<u32>,
    top_k: usize,
    distance: Distance,
    approximate: bool,
    ef: Option<usize>,
    filter: Option<Filter>,
}

impl Search {
    /// The query vector, one single-precision bit pattern per component.
    pub closed spec fn query(&self) -> Seq<u32> {
        self.vector@
    }

    /// The number of results asked for.
    pub closed spec fn limit(&self) -> usize {
        self.top_k
    }

    /// The metric asked for.
    pub closed spec fn metric(&self) -> Distance {
        self.distance
    }

    /// Whether approximate search is asked for.
    pub closed spec fn wants_approximate(&self) -> bool {
        self.approximate
    }

    /// The size of the candidate list asked for, if any.
    pub closed spec fn scope(&self) -> Option<usize> {
        self.ef
    }

    /// The filter, if any.
    pub closed spec fn condition(&self) -> Option<Filter> {
        self.filter
    }

    /// A request for the 10 nearest documents by cosine similarity, exact,
    /// without a filter.
    pub fn new(vector: Vec<u32>) -> (s: Search)
        ensures
            s.query() == vector@,
            s.limit() == 10,
            s.metric() == Distance::Cosine,
            !s.wants_approximate(),
            s.scope() is None,
            s.condition() is None,
    {
        Search {
            vector,
            top_k: 10,
            distance: Distance::Cosine,
            approximate: false,
            ef: None,
            filter: None,
        }
    }

    /// Sets the number of results.
    pub fn top_k(self, k: usize) -> (s: Search)
        ensures
            s.limit() == k,
            s.query() == self.query(),
            s.metric() == self.metric(),
            s.wants_approximate() == self.wants_approximate(),
            s.scope() == self.scope(),
            s.condition() == self.condition(),
    {
        let mut s = self;
        s.top_k = k;
        s
    }

    /// Sets the metric.
    pub fn distance(self, distance: Distance) -> (s: Search)
        ensures
            s.metric() == distance,
            s.query() == self.query(),
            s.limit() == self.limit(),
            s.wants_approximate() == self.wants_approximate(),
            s.scope() == self.scope(),
            s.condition() == self.condition(),
    {
        let mut s = self;
        s.distance = distance;
        s
    }

    /// Chooses approximate or exact search.
    pub fn approximate(self, approximate: bool) -> (s: Search)
        ensures
            s.wants_approximate() == approximate,
            s.query() == self.query(),
            s.limit() == self.limit(),
            s.metric() == self.metric(),
            s.scope() == self.scope(),
            s.condition() == self.condition(),
    {
        let mut s = self;
        s.approximate = approximate;
        s
    }

    /// Sets the size of the candidate list of an approximate search.
    pub fn ef(self, ef: usize) -> (s: Search)
        ensures
            s.scope() == Some(ef),
            s.query() == self.query(),
            s.limit() == self.limit(),
            s.metric() == self.metric(),
            s.wants_approximate() == self.wants_approximate(),
            s.condition() == self.condition(),
    {
        let mut s = self;
        s.ef = Some(ef);
        s
    }

    /// Sets the filter.
    pub fn filter(self, filter: Filter) -> (s: Search)
        ensures
            s.condition() == Some(filter),
            s.query() == self.query(),
            s.limit() == self.limit(),
            s.metric() == self.metric(),
            s.wants_approximate() == self.wants_approximate(),
            s.scope() == self.scope(),
    {
        let mut s = self;
        s.filter = Some(filter);
        s
    }

    /// The query vector.
    pub fn vector(&self) -> (r: &Vec<u32>)
        ensures
            r@ == self.query(),
    {
        &self.vector
    }

    /// The number of results asked for.
    pub fn top_k_value(&self) -> (r: usize)
        ensures
            r == self.limit(),
    {
        self.top_k
    }

    /// The metric asked for.
    pub fn distance_metric(&self) -> (r: Distance)
        ensures
            r == self.metric(),
    {
        self.distance
    }

    /// Whether approximate search is asked for.
    pub fn is_approximate(&self) -> (r: bool)
        ensures
            r == self.wants_approximate(),
    {
        self.approximate
    }

    /// The size of the candidate list asked for, if any.
    pub fn ef_value(&self) -> (r: Option<usize>)
        ensures
            r == self.scope(),
    {
        self.ef
    }

    /// The filter, if any.
    pub fn filter_ref(&self) -> (r: Option<&Filter>)
        ensures
            r is Some == self.condition() is Some,
            r matches Some(f) ==> Some(*f) == self.condition(),
    {
        self.filter.as_ref()
    }
}

/// One search result.
#[derive(Debug, Clone, PartialEq)]
pub struct Match {
    /// External id of the document.
    pub id: String,
    /// The metric's value for query and document, as a single-precision
    /// bit pattern.
    pub score: u32,
    /// JSON text of the payload, if any.
    pub payload: Option<String>,
}

/// A search result as mathematical values.
pub struct MatchView {
    /// External id of the document.
    pub id: Seq<char>,
    /// The score.
    pub score: u32,
    /// JSON text of the payload, if any.
    pub payload: Option<Seq<char>>,
}

impl View for Match {
    type V = MatchView;

    open spec fn view(&self) -> MatchView {
        MatchView { id: self.id@, score: self.score, payload: text_of(self.payload) }
    }
}

impl Match {
    /// A result with the given id, score and payload.
    pub fn new(id: String, score: u32, payload: Option<String>) -> (m: Match)
        ensures
            m.id == id,
            m.score == score,
            m.payload == payload,
    {
        Match { id, score, payload }
    }
}

/// A document offered to a search, with its score.
#[derive(Debug)]
pub struct Scored {
    /// Internal number of the document where it is stored.
    pub internal_id: u32,
    /// External id.
    pub id: String,
    /// The metric's value for query and document, as a single-precision
    /// bit pattern.
    pub score: u32,
    /// JSON text of the payload, if any.
    pub payload: Option<String>,
    /// The payload as a value, for the filter.
    pub fields: Option<Json>,
}

impl Scored {
    /// The result that this document gives.
    pub open spec fn as_match(&self) -> MatchView {
        MatchView { id: self.id@, score: self.score, payload: text_of(self.payload) }
    }
}

/// How results are ranked.
#[derive(Debug, Clone, Copy, PartialEq, Eq, Structural)]
pub enum Ranking {
    /// By the metric's value, best first, ties by the lower internal
    /// number.
    Exact(Distance),
    /// By score, highest first, ties in the order offered.
    Approximate,
}

/// The rank of a score under a metric: larger is better. For Euclidean
/// distance the sign is changed first, so that the smallest distance ranks
/// highest.
pub open spec fn search_rank(d: Distance, score: u32) -> u32 {
    if d == Distance::Euclidean {
        score_rank(negated(score))
    } else {
        score_rank(score)
    }
}

/// Whether `a` comes strictly before `b` in the results. In an exact
/// search: it has the better score, or the same score and the lower
/// internal number. In an approximate search: it has the higher score.
pub open spec fn before(d: Ranking, a: Scored, b: Scored) -> bool {
    match d {
        Ranking::Exact(metric) => search_rank(metric, a.score) > search_rank(metric, b.score)
            || (search_rank(metric, a.score) == search_rank(metric, b.score) && a.internal_id
            < b.internal_id),
        Ranking::Approximate => score_rank(a.score) > score_rank(b.score),
    }
}

/// Decides whether `a` comes strictly before `b`.
pub fn comes_before(d: Ranking, a: &Scored, b: &Scored) -> (r: bool)
    ensures
        r == before(d, *a, *b),
{
    match d {
        Ranking::Exact(metric) => {
            let x = search_key(metric, a.score);
            let y = search_key(metric, b.score);
            x > y || (x == y && a.internal_id < b.internal_id)
        },
        Ranking::Approximate => score_key(a.score) > score_key(b.score),
    }
}

/// Where `c` goes into the ranked list `s`: in front of the first entry
/// that it comes strictly before, or at the end.
pub open spec fn rank_position(d: Ranking, s: Seq<Scored>, c: Scored) -> int
    decreases s.len(),
{
    if s.len() == 0 {
        0
    } else if before(d, c, s[0]) {
        0
    } else {
        1 + rank_position(d, s.drop_first(), c)
    }
}

/// The documents in rank order: each is put into the ranking of those
/// offered before it, behind every entry that it does not come strictly
/// before.
pub open spec fn ranked(d: Ranking, cands: Seq<Scored>) -> Seq<Scored>
    decreases cands.len(),
{
    if cands.len() == 0 {
        Seq::empty()
    } else {
        let front = ranked(d, cands.drop_last());
        front.insert(rank_position(d, front, cands.last()), cands.last())
    }
}

/// The documents that pass the filter, in the order offered.
pub open spec fn admitted(filter: Option<Filter>, cands: Seq<Scored>) -> Seq<Scored>
    decreases cands.len(),
{
    if cands.len() == 0 {
        Seq::empty()
    } else if passes(filter, cands.last().fields) {
        admitted(filter, cands.drop_last()).push(cands.last())
    } else {
        admitted(filter, cands.drop_last())
    }
}

/// The first `k` entries of `s`, or all of it if it has fewer.
pub open spec fn prefix<A>(s: Seq<A>, k: int) -> Seq<A> {
    if k <= 0 {
        Seq::empty()
    } else if k >= s.len() {
        s
    } else {
        s.take(k)
    }
}

/// The best `k` of the documents that pass the filter.
pub open spec fn top_ranked(
    d: Ranking,
    filter: Option<Filter>,
    cands: Seq<Scored>,
    k: int,
) -> Seq<Scored> {
    prefix(ranked(d, admitted(filter, cands)), k)
}

/// The results that a list of documents gives.
pub open spec fn as_matches(s: Seq<Scored>) -> Seq<MatchView> {
    Seq::new(s.len(), |i: int| s[i].as_match())
}

/// The results of a list of matches as mathematical values.
pub open spec fn matches_view(v: Seq<Match>) -> Seq<MatchView> {
    Seq::new(v.len(), |i: int| v[i]@)
}

/// The place of `c` is inside the list or at its end; `c` comes strictly
/// before the entry there and before none in front of it.
pub proof fn lemma_rank_position(d: Ranking, s: Seq<Scored>, c: Scored)
    ensures
        0 <= rank_position(d, s, c) <= s.len(),
        forall|i: int| 0 <= i < rank_position(d, s, c) ==> !before(d, c, #[trigger] s[i]),
        rank_position(d, s, c) < s.len() ==> before(d, c, s[rank_position(d, s, c)]),
    decreases s.len(),
{
    if s.len() > 0 && !before(d, c, s[0]) {
        lemma_rank_position(d, s.drop_first(), c);
        assert forall|i: int| 0 <= i < rank_position(d, s, c) implies !before(
            d,
            c,
            #[trigger] s[i],
        ) by {
            if i > 0 {
                assert(s.drop_first()[i - 1] == s[i]);
            }
        }
    }
}

/// A place with those properties is the place of `c`.
pub proof fn lemma_rank_position_is(d: Ranking, s: Seq<Scored>, c: Scored, p: int)
    requires
        0 <= p <= s.len(),
        forall|i: int| 0 <= i < p ==> !before(d, c, #[trigger] s[i]),
        p < s.len() ==> before(d, c, s[p]),
    ensures
        rank_position(d, s, c) == p,
    decreases s.len(),
{
    if s.len() > 0 {
        if p == 0 {
        } else {
            assert(!before(d, c, s[0]));
            assert forall|i: int| 0 <= i < p - 1 implies !before(
                d,
                c,
                #[trigger] s.drop_first()[i],
            ) by {
                assert(s.drop_first()[i] == s[i + 1]);
            }
            lemma_rank_position_is(d, s.drop_first(), c, p - 1);
        }
    }
}

/// Putting a document into the first `k` of a ranking and keeping the
/// first `k` gives the first `k` of the ranking with the document put in.
pub proof fn lemma_bounded_insert(d: Ranking, s: Seq<Scored>, c: Scored, k: int)
    ensures
        ({
            let full = s.insert(rank_position(d, s, c), c);
            let head = prefix(s, k);
            prefix(full, k) == prefix(head.insert(rank_position(d, head, c), c), k)
        }),
{
    let p = rank_position(d, s, c);
    let head = prefix(s, k);
    lemma_rank_position(d, s, c);
    let q = if p <= head.len() {
        p
    } else {
        head.len() as int
    };
    assert forall|i: int| 0 <= i < q implies !before(d, c, #[trigger] head[i]) by {
        assert(head[i] == s[i]);
    }
    if q < head.len() {
        assert(head[q] == s[q]);
    }
    lemma_rank_position_is(d, head, c, q);
    let full = s.insert(p, c);
    let small = head.insert(q, c);
    assert(prefix(full, k) =~= prefix(small, k));
}

/// A ranking has the length of what was ranked.
pub proof fn lemma_ranked_len(d: Ranking, cands: Seq<Scored>)
    ensures
        ranked(d, cands).len() == cands.len(),
    decreases cands.len(),
{
    if cands.len() > 0 {
        lemma_ranked_len(d, cands.drop_last());
        lemma_rank_position(d, ranked(d, cands.drop_last()), cands.last());
    }
}

/// Brute-force reference, first half: a ranking is in order. No entry
/// comes strictly before one that stands in front of it.
pub proof fn law_ranked_sorted(d: Ranking, cands: Seq<Scored>)
    ensures
        forall|i: int, j: int|
            0 <= i < j < ranked(d, cands).len() ==> !before(
                d,
                #[trigger] ranked(d, cands)[j],
                #[trigger] ranked(d, cands)[i],
            ),
    decreases cands.len(),
{
    if cands.len() > 0 {
        let front = ranked(d, cands.drop_last());
        let c = cands.last();
        let p = rank_position(d, front, c);
        let all = ranked(d, cands);
        law_ranked_sorted(d, cands.drop_last());
        lemma_rank_position(d, front, c);
        assert forall|i: int, j: int| 0 <= i < j < all.len() implies !before(
            d,
            #[trigger] all[j],
            #[trigger] all[i],
        ) by {
            let i0 = if i < p { i } else { i - 1 };
            let j0 = if j < p { j } else { j - 1 };
            if i == p {
                // `c` stands at `i`; what follows is at or behind `front[p]`
                assert(all[j] == front[j - 1]);
                assert(before(d, c, front[p]));
                if j - 1 > p {
                    assert(!before(d, front[j - 1], front[p]));
                }
            } else if j == p {
                assert(all[i] == front[i]);
                assert(!before(d, c, front[i]));
            } else {
                assert(all[i] == front[i0]);
                assert(all[j] == front[j0]);
                assert(!before(d, front[j0], front[i0]));
            }
        }
    }
}

/// Brute-force reference, second half: a ranking holds exactly the
/// documents that were ranked, each as often as it was offered.
pub proof fn law_ranked_permutation(d: Ranking, cands: Seq<Scored>)
    ensures
        ranked(d, cands).to_multiset() == cands.to_multiset(),
    decreases cands.len(),
{
    broadcast use vstd::seq_lib::to_multiset_build, vstd::seq_lib::to_multiset_insert;

    if cands.len() == 0 {
        assert(ranked(d, cands) =~= cands);
    } else {
        let front = ranked(d, cands.drop_last());
        let c = cands.last();
        law_ranked_permutation(d, cands.drop_last());
        lemma_rank_position(d, front, c);
        assert(cands =~= cands.drop_last().push(c));
        assert(cands.drop_last().push(c).to_multiset() == cands.drop_last().to_multiset().insert(
            c,
        ));
        assert(front.insert(rank_position(d, front, c), c).to_multiset()
            == front.to_multiset().insert(c));
    }
}

/// The rank of a score under a metric.
pub fn search_key(d: Distance, score: u32) -> (r: u32)
    ensures
        r == search_rank(d, score),
{
    match d {
        Distance::Euclidean => score_key(negate(score)),
        _ => score_key(score),
    }
}

/// The documents at the positions `idx` of `cands`.
pub open spec fn picked(cands: Seq<Scored>, idx: Seq<usize>) -> Seq<Scored> {
    Seq::new(idx.len(), |j: int| cands[idx[j] as int])
}

/// The best `k` of the candidates that pass the filter, under the given
/// ranking, best first.
pub fn select_top(candidates: &Vec<Scored>, filter: Option<&Filter>, k: usize, d: Ranking) -> (r:
    Vec<Match>)
    ensures
        matches_view(r@) == as_matches(
            top_ranked(
                d,
                match filter {
                    Some(f) => Some(*f),
                    None => None,
                },
                candidates@,
                k as int,
            ),
        ),
{
    let ghost cond = match filter {
        Some(f) => Some(*f),
        None => None,
    };
    let mut best: Vec<usize> = Vec::new();
    let mut i: usize = 0;
    assert(candidates@.take(0) =~= Seq::empty());
    assert(picked(candidates@, best@) =~= top_ranked(d, cond, candidates@.take(0), k as int));
    while i < candidates.len()
        invariant
            i <= candidates@.len(),
            filter is Some == cond is Some,
            filter matches Some(f) ==> Some(*f) == cond,
            forall|j: int| 0 <= j < best@.len() ==> (#[trigger] best@[j]) < candidates@.len(),
            picked(candidates@, best@) == top_ranked(
                d,
                cond,
                candidates@.take(i as int),
                k as int,
            ),
        decreases candidates@.len() - i,
    {
        let ghost done = candidates@.take(i as int);
        let ghost next = candidates@.take(i as int + 1);
        let ghost old_best = picked(candidates@, best@);
        proof {
            assert(next.drop_last() =~= done);
            assert(next.last() == candidates@[i as int]);
        }
        let c = &candidates[i];
        if k > 0 && admits(filter, c.fields.as_ref()) {
            let mut p: usize = 0;
            while p < best.len() && !comes_before(d, c, &candidates[best[p]])
                invariant
                    p <= best@.len(),
                    i < candidates@.len(),
                    *c == candidates@[i as int],
                    old_best == picked(candidates@, best@),
                    forall|j: int| 0 <= j < best@.len() ==> (#[trigger] best@[j]) < candidates@.len(),
                    forall|j: int| 0 <= j < p ==> !before(d, *c, #[trigger] old_best[j]),
                decreases best@.len() - p,
            {
                assert(old_best[p as int] == candidates@[best@[p as int] as int]);
                p += 1;
            }
            proof {
                let all = ranked(d, admitted(cond, done));
                if p < best@.len() {
                    assert(old_best[p as int] == candidates@[best@[p as int] as int]);
                }
                lemma_rank_position_is(d, old_best, *c, p as int);
                lemma_bounded_insert(d, all, *c, k as int);
                lemma_ranked_len(d, admitted(cond, done));
                assert(passes(cond, c.fields));
                assert(admitted(cond, next) == admitted(cond, done).push(*c));
                assert(admitted(cond, next).drop_last() =~= admitted(cond, done));
                assert(admitted(cond, next).last() == *c);
                assert(ranked(d, admitted(cond, next)) == all.insert(
                    rank_position(d, all, *c),
                    *c,
                ));
                assert(old_best == prefix(all, k as int));
                assert(top_ranked(d, cond, next, k as int) == prefix(
                    old_best.insert(p as int, *c),
                    k as int,
                ));
            }
            best.insert(p, i);
            if best.len() > k {
                best.truncate(k);
            }
            proof {
                let put = old_best.insert(p as int, *c);
                assert(picked(candidates@, best@) =~= prefix(put, k as int));
            }
        } else {
            proof {
                if k == 0 {
                    assert(top_ranked(d, cond, next, 0) =~= Seq::empty());
                    assert(old_best =~= Seq::empty());
                } else {
                    assert(!passes(cond, c.fields));
                    assert(admitted(cond, next) == admitted(cond, done));
                }
            }
        }
        i += 1;
    }
    assert(candidates@.take(candidates@.len() as int) =~= candidates@);
    let ghost chosen = picked(candidates@, best@);
    let mut out: Vec<Match> = Vec::new();
    let mut j: usize = 0;
    while j < best.len()
        invariant
            j <= best@.len(),
            chosen == picked(candidates@, best@),
            forall|q: int| 0 <= q < best@.len() ==> (#[trigger] best@[q]) < candidates@.len(),
            out@.len() == j,
            forall|q: int| 0 <= q < j ==> (#[trigger] out@[q])@ == chosen[q].as_match(),
        decreases best@.len() - j,
    {
        let c = &candidates[best[j]];
        out.push(Match { id: c.id.clone(), score: c.score, payload: clone_text(&c.payload) });
        j += 1;
    }
    assert(matches_view(out@) =~= as_matches(chosen));
    out
}

/// Exact search: the best `top_k` of the candidates that pass the filter
/// of `search`, ranked under its metric, best first. Each candidate
/// carries the metric's value for the query and its vector.
pub fn exact_search(candidates: &Vec<Scored>, search: &Search) -> (r: Vec<Match>)
    ensures
        matches_view(r@) == as_matches(
            top_ranked(
                Ranking::Exact(search.metric()),
                search.condition(),
                candidates@,
                search.limit() as int,
            ),
        ),
{
    select_top(
        candidates,
        search.filter_ref(),
        search.top_k_value(),
        Ranking::Exact(search.distance_metric()),
    )
}

/// The results of an approximate search: of the candidates that the graph
/// search gave, each with its score, those that pass the filter of
/// `search`, the highest score first, cut to `top_k`.
pub fn approximate_matches(candidates: &Vec<Scored>, search: &Search) -> (r: Vec<Match>)
    ensures
        matches_view(r@) == as_matches(
            top_ranked(
                Ranking::Approximate,
                search.condition(),
                candidates@,
                search.limit() as int,
            ),
        ),
{
    select_top(candidates, search.filter_ref(), search.top_k_value(), Ranking::Approximate)
}

} // verus!
