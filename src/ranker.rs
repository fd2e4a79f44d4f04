//! Fuzzy ranking of history entries against a query.
//!
//! Each entry is scored by the skim matcher of `fuzzy_matcher`, ignoring
//! ASCII case. Entries that do not match are left out; the others follow in
//! descending score, and entries with equal scores keep their order in the
//! history. The query itself always comes first.
use vstd::prelude::*;
use fuzzy_matcher::FuzzyMatcher;
use fuzzy_matcher::skim::SkimMatcherV2;

verus! {

/// A character code with ASCII upper case letters made lower case.
pub open spec fn ascii_lower(c: char) -> u32 {
    if 65 <= c as u32 <= 90 {
        (c as u32 + 32) as u32
    } else {
        c as u32
    }
}

/// `pattern` occurs in `choice` as a subsequence, ignoring ASCII case.
pub open spec fn is_ci_subsequence(pattern: Seq<char>, choice: Seq<char>) -> bool
    decreases choice.len(),
{
    if pattern.len() == 0 {
        true
    } else if choice.len() == 0 {
        false
    } else if ascii_lower(choice[0]) == ascii_lower(pattern[0]) {
        is_ci_subsequence(pattern.drop_first(), choice.drop_first())
    } else {
        is_ci_subsequence(pattern, choice.drop_first())
    }
}

/// The score that the case-ignoring skim matcher gives to `choice` for `pattern`.
pub uninterp spec fn skim_score(choice: Seq<char>, pattern: Seq<char>) -> i64;

/// The matcher's answer: a score where `pattern` matches `choice`, `None` elsewhere.
pub open spec fn skim_result(choice: Seq<char>, pattern: Seq<char>) -> Option<i64> {
    if is_ci_subsequence(pattern, choice) {
        Some(skim_score(choice, pattern))
    } else {
        None
    }
}

/// Relies on `SkimMatcherV2::fuzzy_match` with case ignored: it answers with a
/// score exactly when the pattern's characters occur in order in the choice,
/// compared with `eq_ignore_ascii_case`, and the score depends on the two
/// strings alone.
#[verifier::external_body]
fn fuzzy_match(choice: &str, pattern: &str) -> (r: Option<i64>)
    ensures
        r is Some <==> is_ci_subsequence(pattern@, choice@),
        r is Some ==> r->0 == skim_score(choice@, pattern@),
{
    SkimMatcherV2::default().ignore_case().fuzzy_match(choice, pattern)
}

/// Entry `i` goes before entry `j`: a higher score, or an equal score and an
/// earlier place.
pub open spec fn goes_before(scores: Seq<Option<i64>>, i: int, j: int) -> bool {
    scores[i]->0 > scores[j]->0 || (scores[i]->0 == scores[j]->0 && i < j)
}

/// `order` lists the entries with a score, each once, best first.
pub open spec fn is_rank_order(scores: Seq<Option<i64>>, order: Seq<usize>) -> bool {
    &&& scores.len() <= usize::MAX
    &&& forall|k: int| 0 <= k < order.len() ==> #[trigger] order[k] < scores.len() && scores[order[k] as int] is Some
    &&& forall|i: int| 0 <= i < scores.len() && #[trigger] scores[i] is Some ==> order.contains(i as usize)
    &&& forall|a: int, b: int| 0 <= a < b < order.len() ==> goes_before(scores, #[trigger] order[a] as int, #[trigger] order[b] as int)
}

/// The order of the entries with a score, best first.
pub open spec fn rank_order_of(scores: Seq<Option<i64>>) -> Seq<usize> {
    choose|order: Seq<usize>| is_rank_order(scores, order)
}

/// At most `n` items of `s`, from the front.
pub open spec fn at_most(s: Seq<Seq<char>>, n: nat) -> Seq<Seq<char>> {
    if s.len() <= n {
        s
    } else {
        s.take(n as int)
    }
}

/// The titles offered for `query`: the query itself, then the entries with a
/// score in rank order, `max_entries` at most.
pub open spec fn ranked(query: Seq<char>, items: Seq<Seq<char>>, scores: Seq<Option<i64>>, max_entries: nat) -> Seq<Seq<char>> {
    at_most(seq![query] + rank_order_of(scores).map_values(|k: usize| items[k as int]), max_entries)
}

/// The scores of the entries for `query`.
pub open spec fn scores_for(items: Seq<Seq<char>>, query: Seq<char>) -> Seq<Option<i64>> {
    items.map_values(|c: Seq<char>| skim_result(c, query))
}

/// Two rank orders of the same scores are equal.
pub proof fn lemma_rank_order_unique(scores: Seq<Option<i64>>, o1: Seq<usize>, o2: Seq<usize>)
    requires
        is_rank_order(scores, o1),
        is_rank_order(scores, o2),
    ensures
        o1 == o2,
    decreases o1.len(),
{
    if o1.len() == 0 {
        if o2.len() > 0 {
            assert(scores[o2[0] as int] is Some);
            assert(o1.contains(o2[0]));
        }
    } else {
        assert(scores[o1[0] as int] is Some);
        assert(o2.contains(o1[0]));
        assert(o2.len() > 0);
        assert(scores[o2[0] as int] is Some);
        assert(o1.contains(o2[0]));
        let a = o1.index_of(o2[0]);
        let b = o2.index_of(o1[0]);
        if a > 0 && b > 0 {
            assert(goes_before(scores, o1[0] as int, o1[a] as int));
            assert(goes_before(scores, o2[0] as int, o2[b] as int));
        }
        if a == 0 {
            assert(o1[0] == o2[0]);
        } else if b == 0 {
            assert(o1[0] == o2[0]);
        }
        assert(o1[0] == o2[0]);
        let s = scores.update(o1[0] as int, None);
        let t1 = o1.drop_first();
        let t2 = o2.drop_first();
        assert forall|k: int| 0 <= k < t1.len() implies #[trigger] t1[k] < s.len() && s[t1[k] as int] is Some by {
            assert(goes_before(scores, o1[0] as int, o1[k + 1] as int));
        }
        assert forall|k: int| 0 <= k < t2.len() implies #[trigger] t2[k] < s.len() && s[t2[k] as int] is Some by {
            assert(goes_before(scores, o2[0] as int, o2[k + 1] as int));
        }
        assert forall|i: int| 0 <= i < s.len() && #[trigger] s[i] is Some implies t1.contains(i as usize) by {
            assert(scores[i] is Some);
            assert(o1.contains(i as usize));
            let k = o1.index_of(i as usize);
            assert(k != 0);
            assert(t1[k - 1] == i as usize);
        }
        assert forall|i: int| 0 <= i < s.len() && #[trigger] s[i] is Some implies t2.contains(i as usize) by {
            assert(scores[i] is Some);
            assert(o2.contains(i as usize));
            let k = o2.index_of(i as usize);
            assert(k != 0);
            assert(t2[k - 1] == i as usize);
        }
        assert forall|x: int, y: int| 0 <= x < y < t1.len() implies goes_before(s, #[trigger] t1[x] as int, #[trigger] t1[y] as int) by {
            assert(goes_before(scores, o1[x + 1] as int, o1[y + 1] as int));
        }
        assert forall|x: int, y: int| 0 <= x < y < t2.len() implies goes_before(s, #[trigger] t2[x] as int, #[trigger] t2[y] as int) by {
            assert(goes_before(scores, o2[x + 1] as int, o2[y + 1] as int));
        }
        lemma_rank_order_unique(s, t1, t2);
        assert(t1 == t2);
        assert(o1.len() == t1.len() + 1 && o2.len() == t2.len() + 1);
        assert forall|k: int| 0 <= k < o1.len() implies o1[k] == o2[k] by {
            if k > 0 {
                assert(o1[k] == t1[k - 1]);
                assert(o2[k] == t2[k - 1]);
            }
        }
        assert(o1 =~= o2);
    }
}

/// Placing entry `i`, of score `x`, after the entries that score at least `x`
/// extends a rank order of the first `i` entries to the first `i + 1`.
proof fn lemma_insert_ranked(scores: Seq<Option<i64>>, i: int, x: i64, before: Seq<usize>, p: int)
    requires
        0 <= i < scores.len(),
        scores.len() <= usize::MAX,
        scores[i] == Some(x),
        is_rank_order(scores.take(i), before),
        0 <= p <= before.len(),
        forall|q: int| 0 <= q < p ==> scores[before[q] as int]->0 >= x,
        forall|q: int| p <= q < before.len() ==> scores[before[q] as int]->0 < x,
    ensures
        is_rank_order(scores.take(i + 1), before.insert(p, i as usize)),
{
    let sc = scores.take(i);
    let sc1 = scores.take(i + 1);
    let o = before.insert(p, i as usize);
    assert forall|k: int| 0 <= k < o.len() implies #[trigger] o[k] < sc1.len() && sc1[o[k] as int] is Some by {
        if k < p {
            assert(o[k] == before[k]);
        } else if k > p {
            assert(o[k] == before[k - 1]);
        }
    }
    assert forall|j: int| 0 <= j < sc1.len() && #[trigger] sc1[j] is Some implies o.contains(j as usize) by {
        if j == i {
            assert(o[p] == i as usize);
        } else {
            assert(sc[j] is Some);
            let k = before.index_of(j as usize);
            if k < p {
                assert(o[k] == before[k]);
            } else {
                assert(o[k + 1] == before[k]);
            }
        }
    }
    assert forall|a: int, b: int| 0 <= a < b < o.len() implies goes_before(sc1, #[trigger] o[a] as int, #[trigger] o[b] as int) by {
        if b < p {
            assert(goes_before(sc, before[a] as int, before[b] as int));
        } else if b == p {
            assert(o[a] == before[a]);
            assert(before[a] < i);
        } else if a < p {
            assert(goes_before(sc, before[a] as int, before[b - 1] as int));
        } else if a == p {
            assert(o[b] == before[b - 1]);
        } else {
            assert(goes_before(sc, before[a - 1] as int, before[b - 1] as int));
        }
    }
}

/// An entry without a score leaves a rank order as it is.
proof fn lemma_skip_unscored(scores: Seq<Option<i64>>, i: int, o: Seq<usize>)
    requires
        0 <= i < scores.len(),
        scores.len() <= usize::MAX,
        scores[i] is None,
        is_rank_order(scores.take(i), o),
    ensures
        is_rank_order(scores.take(i + 1), o),
{
    let sc = scores.take(i);
    let sc1 = scores.take(i + 1);
    assert forall|j: int| 0 <= j < sc1.len() && #[trigger] sc1[j] is Some implies o.contains(j as usize) by {
        assert(sc[j] is Some);
    }
    assert forall|a: int, b: int| 0 <= a < b < o.len() implies goes_before(sc1, #[trigger] o[a] as int, #[trigger] o[b] as int) by {
        assert(goes_before(sc, o[a] as int, o[b] as int));
    }
}

/// The first place from `q` on where an entry of `o` scores below `x`, or the end.
spec fn first_below(scores: Seq<Option<i64>>, o: Seq<usize>, x: i64, q: int) -> int
    decreases o.len() - q,
{
    if q >= o.len() {
        o.len() as int
    } else if scores[o[q] as int]->0 < x {
        q
    } else {
        first_below(scores, o, x, q + 1)
    }
}

proof fn lemma_first_below(scores: Seq<Option<i64>>, o: Seq<usize>, x: i64, q: int)
    requires
        0 <= q <= o.len(),
    ensures
        q <= first_below(scores, o, x, q) <= o.len(),
        forall|k: int| q <= k < first_below(scores, o, x, q) ==> scores[o[k] as int]->0 >= x,
        first_below(scores, o, x, q) < o.len() ==> scores[o[first_below(scores, o, x, q)] as int]->0 < x,
    decreases o.len() - q,
{
    if q < o.len() && scores[o[q] as int]->0 >= x {
        lemma_first_below(scores, o, x, q + 1);
    }
}

proof fn lemma_rank_prefix_exists(scores: Seq<Option<i64>>, i: int)
    requires
        0 <= i <= scores.len(),
        scores.len() <= usize::MAX,
    ensures
        exists|o: Seq<usize>| #[trigger] is_rank_order(scores.take(i), o),
    decreases i,
{
    if i == 0 {
        assert(is_rank_order(scores.take(0), Seq::<usize>::empty()));
    } else {
        lemma_rank_prefix_exists(scores, i - 1);
        let o = choose|o: Seq<usize>| #[trigger] is_rank_order(scores.take(i - 1), o);
        match scores[i - 1] {
            Some(x) => {
                let sc = scores.take(i - 1);
                lemma_first_below(scores, o, x, 0);
                let p = first_below(scores, o, x, 0);
                assert forall|q: int| 0 <= q < p implies scores[o[q] as int]->0 >= x by {
                }
                assert forall|q: int| p <= q < o.len() implies scores[o[q] as int]->0 < x by {
                    if p < q {
                        assert(goes_before(sc, o[p] as int, o[q] as int));
                        assert(sc[o[q] as int] is Some);
                        assert(sc[o[p] as int] is Some);
                    }
                }
                assert forall|q: int| 0 <= q < o.len() implies #[trigger] sc[o[q] as int] == scores[o[q] as int] by {
                    assert(sc[o[q] as int] is Some);
                }
                lemma_insert_ranked(scores, i - 1, x, o, p);
                assert(is_rank_order(scores.take(i), o.insert(p, (i - 1) as usize)));
            },
            None => {
                lemma_skip_unscored(scores, i - 1, o);
                assert(is_rank_order(scores.take(i), o));
            },
        }
    }
}

/// Every score sequence held in memory has a rank order.
pub proof fn lemma_rank_order_exists(scores: Seq<Option<i64>>)
    requires
        scores.len() <= usize::MAX,
    ensures
        is_rank_order(scores, rank_order_of(scores)),
{
    lemma_rank_prefix_exists(scores, scores.len() as int);
    assert(scores.take(scores.len() as int) =~= scores);
}

/// Every string matches itself.
pub proof fn lemma_matches_itself(s: Seq<char>)
    ensures
        is_ci_subsequence(s, s),
    decreases s.len(),
{
    if s.len() > 0 {
        lemma_matches_itself(s.drop_first());
    }
}

/// A query equal to a stored command ranks that command among the matches,
/// and it is offered whenever the limit leaves room for every match.
pub proof fn lemma_exact_query_ranked(query: Seq<char>, items: Seq<Seq<char>>, max_entries: nat)
    requires
        items.contains(query),
        items.len() <= usize::MAX,
    ensures
        rank_order_of(scores_for(items, query)).map_values(|k: usize| items[k as int]).contains(query),
        max_entries > rank_order_of(scores_for(items, query)).len() ==>
            ranked(query, items, scores_for(items, query), max_entries).drop_first().contains(query),
{
    let scores = scores_for(items, query);
    lemma_rank_order_exists(scores);
    let o = rank_order_of(scores);
    let k = items.index_of(query);
    lemma_matches_itself(query);
    assert(scores[k] == skim_result(items[k], query));
    assert(scores[k] is Some);
    let m = o.index_of(k as usize);
    let mapped = o.map_values(|k: usize| items[k as int]);
    assert(mapped[m] == query);
    let full = seq![query] + mapped;
    if max_entries > o.len() {
        assert(full.len() <= max_entries);
        assert(full.drop_first() =~= mapped);
    }
}

/// A query that no stored command matches is offered alone.
pub proof fn lemma_no_match_only_query(query: Seq<char>, items: Seq<Seq<char>>, max_entries: nat)
    requires
        forall|k: int| 0 <= k < items.len() ==> !is_ci_subsequence(query, #[trigger] items[k]),
        items.len() <= usize::MAX,
        max_entries >= 1,
    ensures
        ranked(query, items, scores_for(items, query), max_entries) == seq![query],
{
    let scores = scores_for(items, query);
    let e = Seq::<usize>::empty();
    assert forall|i: int| 0 <= i < scores.len() implies !(#[trigger] scores[i] is Some) by {
        assert(scores[i] == skim_result(items[i], query));
    }
    assert(is_rank_order(scores, e));
    lemma_rank_order_unique(scores, e, rank_order_of(scores));
    assert(e.map_values(|k: usize| items[k as int]) =~= Seq::<Seq<char>>::empty());
    assert(seq![query] + Seq::<Seq<char>>::empty() =~= seq![query]);
}

/// The entries with a score, best first; equal scores keep their order.
pub fn rank_order(scores: &Vec<Option<i64>>) -> (r: Vec<usize>)
    ensures
        is_rank_order(scores@, r@),
{
    let mut out: Vec<usize> = Vec::new();
    let mut i: usize = 0;
    while i < scores.len()
        invariant
            i <= scores.len(),
            is_rank_order(scores@.take(i as int), out@),
        decreases scores.len() - i,
    {
        let ghost sc = scores@.take(i as int);
        match scores[i] {
            Some(x) => {
                let mut p: usize = 0;
                let mut stop = false;
                while p < out.len() && !stop
                    invariant
                        stop ==> p < out.len() && scores@[out@[p as int] as int]->0 < x,
                        is_rank_order(sc, out@),
                        sc == scores@.take(i as int),
                        i < scores.len(),
                        scores@[i as int] == Some(x),
                        p <= out.len(),
                        forall|q: int| 0 <= q < p ==> scores@[out@[q] as int]->0 >= x,
                    decreases out.len() - p + (if stop { 0int } else { 1int }),
                {
                    let k = out[p];
                    let y = match scores[k] {
                        Some(y) => y,
                        None => x,
                    };
                    proof {
                        assert(sc[out@[p as int] as int] is Some);
                    }
                    if y < x {
                        stop = true;
                    } else {
                        p = p + 1;
                    }
                }
                proof {
                    assert forall|q: int| p <= q < out@.len() implies scores@[out@[q] as int]->0 < x by {
                        if p < q {
                            assert(goes_before(sc, out@[p as int] as int, out@[q] as int));
                            assert(out@[p as int] < i && out@[q] < i);
                            assert(sc[out@[q] as int] is Some);
                        }
                    }
                }
                let ghost before = out@;
                out.insert(p, i);
                proof {
                    lemma_insert_ranked(scores@, i as int, x, before, p as int);
                }
            },
            None => {
                proof {
                    lemma_skip_unscored(scores@, i as int, out@);
                }
            },
        }
        i = i + 1;
    }
    proof {
        assert(scores@.take(i as int) =~= scores@);
    }
    out
}

/// The titles offered for `query`: the query itself first, then the entries
/// with a score in rank order, `max_entries` at most. `scores[k]` is the
/// matcher's answer for `items[k]`.
pub fn rank(query: &str, items: &Vec<String>, scores: &Vec<Option<i64>>, max_entries: usize) -> (r: Vec<String>)
    requires
        items.len() == scores.len(),
    ensures
        r@.map_values(|x: String| x@) == ranked(query@, items@.map_values(|x: String| x@), scores@, max_entries as nat),
{
    let order = rank_order(scores);
    let ghost iv = items@.map_values(|x: String| x@);
    let ghost full = seq![query@] + order@.map_values(|k: usize| iv[k as int]);
    proof {
        lemma_rank_order_unique(scores@, order@, rank_order_of(scores@));
    }
    let n: usize = if order.len() < max_entries {
        order.len() + 1
    } else {
        max_entries
    };
    let mut out: Vec<String> = Vec::new();
    let mut j: usize = 0;
    while j < n
        invariant
            n <= full.len(),
            n == (if full.len() <= max_entries { full.len() } else { max_entries as nat }),
            j <= n,
            is_rank_order(scores@, order@),
            items.len() == scores.len(),
            iv == items@.map_values(|x: String| x@),
            full == seq![query@] + order@.map_values(|k: usize| iv[k as int]),
            out@.map_values(|x: String| x@) == full.take(j as int),
        decreases n - j,
    {
        let ghost prev = out@;
        if j == 0 {
            out.push(query.to_owned());
            proof {
                assert(full[0] == query@);
            }
        } else {
            let k = order[j - 1];
            out.push(items[k].clone());
            proof {
                assert(full[j as int] == iv[k as int]);
            }
        }
        proof {
            assert(out@ == prev.push(out@.last()));
            assert(out@.map_values(|x: String| x@) =~= full.take(j as int).push(full[j as int]));
            assert(full.take(j + 1) =~= full.take(j as int).push(full[j as int]));
        }
        j = j + 1;
    }
    proof {
        if full.len() <= max_entries {
            assert(full.take(n as int) =~= full);
        }
    }
    out
}

/// The matcher's answer for each entry against `query`.
pub fn scores_of(items: &Vec<String>, query: &str) -> (r: Vec<Option<i64>>)
    ensures
        r@ == scores_for(items@.map_values(|x: String| x@), query@),
{
    let ghost iv = items@.map_values(|x: String| x@);
    let mut out: Vec<Option<i64>> = Vec::new();
    let mut i: usize = 0;
    while i < items.len()
        invariant
            i <= items.len(),
            iv == items@.map_values(|x: String| x@),
            out@ == scores_for(iv.take(i as int), query@),
        decreases items.len() - i,
    {
        let s = fuzzy_match(items[i].as_str(), query);
        out.push(s);
        proof {
            assert(scores_for(iv.take(i + 1), query@) =~= scores_for(iv.take(i as int), query@).push(skim_result(iv[i as int], query@)));
        }
        i = i + 1;
    }
    proof {
        assert(iv.take(i as int) =~= iv);
    }
    out
}

} // verus!
