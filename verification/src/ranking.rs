//! Ranking the candidates of a domain by their score against a query.

use crate::matching::{folded, fuzzy_match, law_score_in_range, match_of};
use crate::score::{lemma_at_least_transitive, Measure, Score};
use vstd::prelude::*;

verus! {

/// The mathematical content of a [`FuzzySearchResult`].
pub struct Hit {
    /// The score of the candidate.
    pub score: Measure,
    /// The candidate's text as it was given.
    pub text: Seq<char>,
}

/// One accepted candidate: its score, and an owned copy of the candidate's
/// text (not of the query).
#[derive(Debug)]
pub struct FuzzySearchResult {
    /// The score of the candidate against the query.
    pub score: Score,
    /// The candidate's text as it was given, not in uppercase form.
    pub pattern: String,
}

impl View for FuzzySearchResult {
    type V = Hit;

    open spec fn view(&self) -> Hit {
        Hit { score: self.score@, text: self.pattern@ }
    }
}

/// The contents of a list of results.
pub open spec fn hits(results: Seq<FuzzySearchResult>) -> Seq<Hit> {
    Seq::new(results.len(), |k: int| results[k]@)
}

/// The texts of a domain.
pub open spec fn texts(domain: Seq<&str>) -> Seq<Seq<char>> {
    Seq::new(domain.len(), |k: int| domain[k]@)
}

/// The candidates that have a score against `query`, each with its score, in
/// the order of the domain.
pub open spec fn accepted(query: Seq<char>, domain: Seq<Seq<char>>) -> Seq<Hit>
    decreases domain.len(),
{
    if domain.len() == 0 {
        Seq::empty()
    } else {
        let before = accepted(query, domain.drop_last());
        match match_of(query, domain.last()) {
            Some(score) => before.push(Hit { score, text: domain.last() }),
            None => before,
        }
    }
}

/// Every score in the list is well-formed.
pub open spec fn all_wf(list: Seq<Hit>) -> bool {
    forall|k: int| 0 <= k < list.len() ==> (#[trigger] list[k]).score.wf()
}

/// No entry is worth more than an entry before it.
pub open spec fn non_increasing(list: Seq<Hit>) -> bool {
    forall|i: int, j: int|
        0 <= i < j < list.len() ==> (#[trigger] list[i]).score.at_least((#[trigger] list[j]).score)
}

/// `p` is where an entry of the given score goes: behind every leading entry
/// that is worth at least as much, before the first that is worth less.
pub open spec fn is_place(list: Seq<Hit>, score: Measure, p: int) -> bool {
    &&& 0 <= p <= list.len()
    &&& forall|k: int| 0 <= k < p ==> (#[trigger] list[k]).score.at_least(score)
    &&& p < list.len() ==> !list[p].score.at_least(score)
}

/// The place of an entry of the given score in `list`.
pub open spec fn place(list: Seq<Hit>, score: Measure) -> int {
    choose|p: int| is_place(list, score, p)
}

/// `list` with `hit` put at its place.
pub open spec fn placed(list: Seq<Hit>, hit: Hit) -> Seq<Hit> {
    list.insert(place(list, hit.score), hit)
}

/// The entries of `list` in descending order of score, entries of equal
/// worth in the order in which `list` has them.
pub open spec fn ranked(list: Seq<Hit>) -> Seq<Hit>
    decreases list.len(),
{
    if list.len() == 0 {
        Seq::empty()
    } else {
        placed(ranked(list.drop_last()), list.last())
    }
}

/// A place is unique.
pub proof fn lemma_place_unique(list: Seq<Hit>, score: Measure, p: int)
    requires
        is_place(list, score, p),
    ensures
        place(list, score) == p,
{
    let q = place(list, score);
    assert(is_place(list, score, q));
    if q < p {
        assert(list[q].score.at_least(score));
    }
    if p < q {
        assert(list[p].score.at_least(score));
    }
}

/// Every score has a place, at or behind any run of leading entries that are
/// all worth at least as much.
pub proof fn lemma_place_exists(list: Seq<Hit>, score: Measure, from: int)
    requires
        0 <= from <= list.len(),
        forall|k: int| 0 <= k < from ==> (#[trigger] list[k]).score.at_least(score),
    ensures
        is_place(list, score, place(list, score)),
        from <= place(list, score) <= list.len(),
    decreases list.len() - from,
{
    if from < list.len() && list[from].score.at_least(score) {
        lemma_place_exists(list, score, from + 1);
    } else {
        assert(is_place(list, score, from));
        lemma_place_unique(list, score, from);
    }
}

/// Putting an entry at its place keeps a descending list descending, and
/// keeps every other entry.
pub proof fn lemma_placed(list: Seq<Hit>, hit: Hit)
    requires
        all_wf(list),
        hit.score.wf(),
        non_increasing(list),
    ensures
        all_wf(placed(list, hit)),
        non_increasing(placed(list, hit)),
        placed(list, hit).len() == list.len() + 1,
        placed(list, hit).to_multiset() == list.to_multiset().insert(hit),
{
    lemma_place_exists(list, hit.score, 0);
    let p = place(list, hit.score);
    let out = placed(list, hit);
    assert forall|i: int, j: int| 0 <= i < j < out.len() implies (#[trigger] out[i]).score.at_least(
        (#[trigger] out[j]).score,
    ) by {
        if j < p {
            assert(out[i] == list[i] && out[j] == list[j]);
        } else if j == p {
            assert(out[i] == list[i]);
        } else if i < p {
            assert(out[i] == list[i] && out[j] == list[j - 1]);
        } else if i == p {
            assert(out[j] == list[j - 1]);
            assert(list[p].score.wf());
            if j - 1 > p {
                lemma_at_least_transitive(hit.score, list[p].score, list[j - 1].score);
            }
        } else {
            assert(out[i] == list[i - 1] && out[j] == list[j - 1]);
        }
    }
    assert forall|k: int| 0 <= k < out.len() implies (#[trigger] out[k]).score.wf() by {
        if k < p {
            assert(out[k] == list[k]);
        } else if k > p {
            assert(out[k] == list[k - 1]);
        }
    }
    vstd::seq_lib::to_multiset_insert(list, p, hit);
}

/// The ranking of a list is in descending order of score and holds each
/// entry of the list as often as the list does.
pub proof fn law_ranked_descending_permutation(list: Seq<Hit>)
    requires
        all_wf(list),
    ensures
        all_wf(ranked(list)),
        non_increasing(ranked(list)),
        ranked(list).len() == list.len(),
        ranked(list).to_multiset() == list.to_multiset(),
    decreases list.len(),
{
    broadcast use vstd::seq_lib::group_to_multiset_ensures;

    if list.len() == 0 {
        assert(list =~= Seq::empty());
    } else {
        let before = list.drop_last();
        assert(all_wf(before)) by {
            assert forall|k: int| 0 <= k < before.len() implies (#[trigger] before[k]).score.wf() by {
                assert(before[k] == list[k]);
            }
        }
        law_ranked_descending_permutation(before);
        lemma_placed(ranked(before), list.last());
        assert(list =~= before.push(list.last()));
        assert(list.to_multiset() =~= before.to_multiset().insert(list.last()));
    }
}

/// `order` tells where each entry of `out` stands in `list`: entry `k` of
/// `out` is entry `order[k]` of `list`, no entry is worth more than one
/// before it, and entries of equal worth stand as they do in `list`.
pub open spec fn is_stable_order(list: Seq<Hit>, out: Seq<Hit>, order: Seq<int>) -> bool {
    &&& out.len() == list.len()
    &&& order.len() == list.len()
    &&& forall|k: int|
        0 <= k < order.len() ==> 0 <= #[trigger] order[k] < list.len() && out[k] == list[order[k]]
    &&& forall|k: int, l: int|
        0 <= k < l < order.len() ==> {
            &&& list[#[trigger] order[k]].score.at_least(list[#[trigger] order[l]].score)
            &&& list[order[l]].score.at_least(list[order[k]].score) ==> order[k] < order[l]
        }
}

/// The ranking is stable: it rearranges the list so that the scores
/// descend, and entries of equal worth keep the order they had. The result
/// says where in `list` each entry of the ranking comes from.
pub proof fn law_ranked_stable(list: Seq<Hit>) -> (order: Seq<int>)
    requires
        all_wf(list),
    ensures
        is_stable_order(list, ranked(list), order),
    decreases list.len(),
{
    if list.len() == 0 {
        Seq::empty()
    } else {
        let before = list.drop_last();
        let last = list.last();
        assert(all_wf(before)) by {
            assert forall|k: int| 0 <= k < before.len() implies (#[trigger] before[k]).score.wf() by {
                assert(before[k] == list[k]);
            }
        }
        let inner = law_ranked_stable(before);
        law_ranked_descending_permutation(before);
        let r = ranked(before);
        lemma_place_exists(r, last.score, 0);
        let p = place(r, last.score);
        let n = list.len() - 1;
        let order = inner.insert(p, n);
        let out = ranked(list);
        assert(out == r.insert(p, last));
        assert forall|k: int| 0 <= k < order.len() implies 0 <= #[trigger] order[k] < list.len()
            && out[k] == list[order[k]] by {
            if k < p {
                assert(order[k] == inner[k] && out[k] == r[k]);
                assert(before[inner[k]] == list[inner[k]]);
            } else if k > p {
                assert(order[k] == inner[k - 1] && out[k] == r[k - 1]);
                assert(before[inner[k - 1]] == list[inner[k - 1]]);
            }
        }
        lemma_placed(r, last);
        assert forall|k: int, l: int| 0 <= k < l < order.len() implies {
            &&& list[#[trigger] order[k]].score.at_least(list[#[trigger] order[l]].score)
            &&& list[order[l]].score.at_least(list[order[k]].score) ==> order[k] < order[l]
        } by {
            assert(out[k] == list[order[k]] && out[l] == list[order[l]]);
            assert(out[k].score.at_least(out[l].score));
            if l == p {
                assert(order[k] == inner[k]);
            } else if k == p {
                assert(out[l] == r[l - 1]);
                assert(r[p].score.wf() && r[l - 1].score.wf());
                if r[l - 1].score.at_least(last.score) {
                    if l - 1 > p {
                        lemma_at_least_transitive(r[p].score, r[l - 1].score, last.score);
                    }
                }
            } else {
                let k0 = if k < p { k } else { k - 1 };
                let l0 = if l < p { l } else { l - 1 };
                assert(order[k] == inner[k0] && order[l] == inner[l0]);
                assert(before[inner[k0]] == list[inner[k0]]);
                assert(before[inner[l0]] == list[inner[l0]]);
            }
        }
        order
    }
}

/// A list of `n` different numbers below `n` holds each number below `n`.
pub proof fn lemma_order_covers(order: Seq<int>, target: int) -> (q: int)
    requires
        order.no_duplicates(),
        forall|k: int| 0 <= k < order.len() ==> 0 <= #[trigger] order[k] < order.len(),
        0 <= target < order.len(),
    ensures
        0 <= q < order.len(),
        order[q] == target,
{
    broadcast use vstd::seq_lib::group_seq_properties;

    let n = order.len() as int;
    let range = vstd::set_lib::set_int_range(0, n);
    order.unique_seq_to_set();
    vstd::set_lib::lemma_int_range(0, n);
    assert(order.to_set().subset_of(range)) by {
        assert forall|x: int| order.to_set().contains(x) implies range.contains(x) by {
            let k = choose|k: int| 0 <= k < order.len() && order[k] == x;
            assert(0 <= order[k] < n);
        }
    }
    vstd::set_lib::lemma_subset_equality(order.to_set(), range);
    assert(range.contains(target));
    assert(order.to_set().contains(target));
    assert(order.contains(target));
    choose|q: int| 0 <= q < order.len() && order[q] == target
}

/// The ranking is the only stable descending arrangement: a list that
/// arranges `list` in a stable order is the ranking of `list`.
pub proof fn law_stable_order_is_ranked(list: Seq<Hit>, out: Seq<Hit>, order: Seq<int>)
    requires
        all_wf(list),
        is_stable_order(list, out, order),
    ensures
        out == ranked(list),
    decreases list.len(),
{
    if list.len() == 0 {
        assert(out =~= Seq::empty());
    } else {
        let n = list.len() - 1;
        let last = list.last();
        let before = list.drop_last();
        assert forall|i: int, j: int| 0 <= i < j < order.len() implies order[i] != order[j] by {
            if list[order[j]].score.at_least(list[order[i]].score) {
                assert(order[i] < order[j]);
            }
        }
        assert(order.no_duplicates());
        let q = lemma_order_covers(order, n);
        let out1 = out.remove(q);
        let order1 = order.remove(q);
        assert forall|k: int| 0 <= k < order1.len() implies 0 <= #[trigger] order1[k]
            < before.len() && out1[k] == before[order1[k]] by {
            let k0 = if k < q { k } else { k + 1 };
            assert(order1[k] == order[k0] && out1[k] == out[k0]);
            assert(order[k0] != order[q]);
            assert(before[order[k0]] == list[order[k0]]);
        }
        assert forall|k: int, l: int| 0 <= k < l < order1.len() implies {
            &&& before[#[trigger] order1[k]].score.at_least(before[#[trigger] order1[l]].score)
            &&& before[order1[l]].score.at_least(before[order1[k]].score) ==> order1[k]
                < order1[l]
        } by {
            let k0 = if k < q { k } else { k + 1 };
            let l0 = if l < q { l } else { l + 1 };
            assert(order1[k] == order[k0] && order1[l] == order[l0]);
            assert(before[order1[k]] == list[order[k0]]);
            assert(before[order1[l]] == list[order[l0]]);
        }
        assert(all_wf(before)) by {
            assert forall|k: int| 0 <= k < before.len() implies (#[trigger] before[k]).score.wf() by {
                assert(before[k] == list[k]);
            }
        }
        law_stable_order_is_ranked(before, out1, order1);
        assert(out[q] == last);
        assert forall|k: int| 0 <= k < q implies (#[trigger] out1[k]).score.at_least(
            last.score,
        ) by {
            assert(out1[k] == out[k] && out[k] == list[order[k]]);
        }
        if q < out1.len() {
            assert(out1[q] == out[q + 1] && out[q + 1] == list[order[q + 1]]);
            assert(order[q + 1] != order[q]);
            assert(!out1[q].score.at_least(last.score));
        }
        lemma_place_unique(out1, last.score, q);
        assert(out =~= out1.insert(q, last));
    }
}

/// The result of a search is determined by the query and the domain: two
/// lists that both hold the ranking of the accepted candidates are equal,
/// entry by entry, and every entry is a candidate of the domain, with its
/// text as given and the score it has against the query.
pub proof fn law_search_repeatable(
    query: Seq<char>,
    domain: Seq<Seq<char>>,
    first: Seq<Hit>,
    second: Seq<Hit>,
)
    requires
        first == ranked(accepted(query, domain)),
        second == ranked(accepted(query, domain)),
    ensures
        first.len() == second.len(),
        forall|k: int| 0 <= k < first.len() ==> first[k] == second[k],
        forall|k: int|
            0 <= k < first.len() ==> exists|d: int|
                0 <= d < domain.len() && domain[d] == (#[trigger] first[k]).text && match_of(
                    query,
                    domain[d],
                ) == Some(first[k].score),
{
    broadcast use vstd::seq_lib::group_to_multiset_ensures;

    let a = accepted(query, domain);
    let source = law_accepted_is_selection(query, domain);
    law_ranked_descending_permutation(a);
    assert forall|k: int| 0 <= k < first.len() implies exists|d: int|
        0 <= d < domain.len() && domain[d] == (#[trigger] first[k]).text && match_of(
            query,
            domain[d],
        ) == Some(first[k].score) by {
        assert(first.contains(first[k]));
        assert(first.to_multiset().count(first[k]) > 0);
        assert(a.contains(first[k]));
        let i = choose|i: int| 0 <= i < a.len() && a[i] == first[k];
        assert(domain[source[i]] == first[k].text);
    }
}

/// `source` tells which candidates of the domain the entries of `list`
/// are: entry `k` is candidate `source[k]` with the score it has against the
/// query, the candidates come in the order of the domain, and no candidate
/// that has a score is missing.
pub open spec fn is_selection(
    query: Seq<char>,
    domain: Seq<Seq<char>>,
    list: Seq<Hit>,
    source: Seq<int>,
) -> bool {
    &&& source.len() == list.len()
    &&& forall|k: int|
        0 <= k < source.len() ==> {
            &&& 0 <= #[trigger] source[k] < domain.len()
            &&& match_of(query, domain[source[k]]) == Some(list[k].score)
            &&& list[k].text == domain[source[k]]
        }
    &&& forall|k: int, l: int|
        0 <= k < l < source.len() ==> #[trigger] source[k] < #[trigger] source[l]
    &&& forall|d: int|
        0 <= d < domain.len() && match_of(query, #[trigger] domain[d]) is Some
            ==> source.contains(d)
}

/// The accepted candidates are exactly the candidates of the domain that
/// have a score against the query, one entry for each, in the order of the
/// domain, each with its text as given and with that score; the scores are
/// well-formed. The result says which candidate each entry is.
pub proof fn law_accepted_is_selection(query: Seq<char>, domain: Seq<Seq<char>>) -> (source: Seq<
    int,
>)
    ensures
        is_selection(query, domain, accepted(query, domain), source),
        all_wf(accepted(query, domain)),
        accepted(query, domain).len() <= domain.len(),
    decreases domain.len(),
{
    if domain.len() == 0 {
        Seq::empty()
    } else {
        let n = domain.len() - 1;
        let before = domain.drop_last();
        let inner = law_accepted_is_selection(query, before);
        let a = accepted(query, domain);
        let b = accepted(query, before);
        assert forall|k: int| 0 <= k < inner.len() implies domain[#[trigger] inner[k]]
            == before[inner[k]] by {}
        if match_of(query, domain.last()) is Some {
            law_score_in_range(folded(query), folded(domain.last()));
            let source = inner.push(n);
            assert forall|d: int|
                0 <= d < domain.len() && match_of(query, #[trigger] domain[d]) is Some
                implies source.contains(d) by {
                if d < n {
                    assert(before[d] == domain[d]);
                    let k = choose|k: int| 0 <= k < inner.len() && inner[k] == d;
                    assert(source[k] == d);
                } else {
                    assert(source[inner.len() as int] == d);
                }
            }
            assert forall|k: int| 0 <= k < a.len() implies (#[trigger] a[k]).score.wf() by {
                if k < b.len() {
                    assert(a[k] == b[k]);
                }
            }
            source
        } else {
            assert forall|d: int|
                0 <= d < domain.len() && match_of(query, #[trigger] domain[d]) is Some
                implies inner.contains(d) by {
                assert(before[d] == domain[d]);
            }
            inner
        }
    }
}

/// Puts `hit` into `ranked` at its place: behind every leading entry that is
/// worth at least as much, before the first that is worth less.
pub fn insert_ranked(ranked: &mut Vec<FuzzySearchResult>, hit: FuzzySearchResult)
    requires
        all_wf(hits(old(ranked)@)),
        hit.score.wf(),
    ensures
        hits(final(ranked)@) == placed(hits(old(ranked)@), hit@),
{
    let ghost before = hits(ranked@);
    let ghost entry = hit@;
    let mut p: usize = 0;
    assert forall|k: int| 0 <= k < ranked@.len() implies (#[trigger] ranked@[k]).score.wf() by {
        assert(before[k] == ranked@[k]@);
    }
    while p < ranked.len() && ranked[p].score.ge(&hit.score)
        invariant
            hits(ranked@) == before,
            forall|k: int| 0 <= k < ranked@.len() ==> (#[trigger] ranked@[k]).score.wf(),
            hit@ == entry,
            hit.score.wf(),
            p <= ranked.len(),
            forall|k: int| 0 <= k < p ==> (#[trigger] before[k]).score.at_least(entry.score),
        decreases ranked.len() - p,
    {
        assert(before[p as int] == ranked@[p as int]@);
        p += 1;
    }
    proof {
        if p < ranked.len() {
            assert(before[p as int] == ranked@[p as int]@);
        }
        lemma_place_unique(before, entry.score, p as int);
    }
    ranked.insert(p, hit);
    assert(hits(ranked@) =~= before.insert(p as int, entry));
}

/// Scores every candidate of `domain` against `query`, leaves out those
/// without a score, and returns the others in descending order of score,
/// each with a copy of the candidate's text. Candidates of equal worth keep
/// the order of the domain.
pub fn fuzzy_search(query: &str, domain: &[&str]) -> (results: Vec<FuzzySearchResult>)
    ensures
        hits(results@) == ranked(accepted(query@, texts(domain@))),
        non_increasing(hits(results@)),
        all_wf(hits(results@)),
        hits(results@).to_multiset() == accepted(query@, texts(domain@)).to_multiset(),
        results@.len() == accepted(query@, texts(domain@)).len(),
        exists|order: Seq<int>|
            is_stable_order(accepted(query@, texts(domain@)), hits(results@), order),
{
    let mut results: Vec<FuzzySearchResult> = Vec::new();
    let ghost all = texts(domain@);
    let mut i: usize = 0;
    assert(all.take(0) =~= Seq::empty());
    assert(hits(results@) =~= Seq::empty());
    while i < domain.len()
        invariant
            i <= domain.len(),
            all == texts(domain@),
            hits(results@) == ranked(accepted(query@, all.take(i as int))),
            all_wf(accepted(query@, all.take(i as int))),
            all_wf(hits(results@)),
        decreases domain.len() - i,
    {
        let searched: &str = domain[i];
        let ghost seen = accepted(query@, all.take(i as int));
        let ghost next = accepted(query@, all.take(i + 1));
        proof {
            assert(all.take(i + 1).drop_last() =~= all.take(i as int));
            assert(all.take(i + 1).last() == searched@);
            law_accepted_is_selection(query@, all.take(i + 1));
            law_ranked_descending_permutation(next);
        }
        match fuzzy_match(query, searched) {
            Some(score) => {
                let hit = FuzzySearchResult { score, pattern: searched.to_owned() };
                proof {
                    assert(next == seen.push(hit@));
                    assert(next.drop_last() =~= seen);
                    assert(next.last() == hit@);
                }
                insert_ranked(&mut results, hit);
            },
            None => {
                assert(next == seen);
            },
        }
        i += 1;
    }
    proof {
        assert(all.take(i as int) =~= all);
        law_ranked_descending_permutation(accepted(query@, all));
        let order = law_ranked_stable(accepted(query@, all));
        assert(is_stable_order(accepted(query@, all), hits(results@), order));
    }
    results
}

} // verus!
