use crate::tokenizers::TokenId;
use std::collections::HashMap;
use vstd::prelude::*;

verus! {

broadcast use vstd::std_specs::hash::group_hash_axioms;

/// A pair of neighbouring tokens and the number of places where it occurs.
#[derive(Debug, Clone, Copy, PartialEq, Eq)]
pub struct PairCount {
    pub pair: (TokenId, TokenId),
    pub count: usize,
}

/// The pair of neighbours that starts at position `i` of `tokens`.
pub open spec fn pair_at(tokens: Seq<TokenId>, i: int) -> (TokenId, TokenId)
    recommends
        0 <= i < tokens.len() - 1,
{
    (tokens[i], tokens[i + 1])
}

/// The number of positions of `tokens` at which `pair` starts.
pub open spec fn pair_count(tokens: Seq<TokenId>, pair: (TokenId, TokenId)) -> nat
    decreases tokens.len(),
{
    if tokens.len() < 2 {
        0
    } else {
        pair_count(tokens.drop_last(), pair) + (if pair_at(tokens, tokens.len() - 2) == pair {
            1nat
        } else {
            0nat
        })
    }
}

/// The distinct pairs of neighbours in `tokens`, in the order in which a
/// scan from the left meets each of them for the first time.
pub open spec fn distinct_pairs(tokens: Seq<TokenId>) -> Seq<(TokenId, TokenId)>
    decreases tokens.len(),
{
    if tokens.len() < 2 {
        Seq::empty()
    } else {
        let before = distinct_pairs(tokens.drop_last());
        let pair = pair_at(tokens, tokens.len() - 2);
        if before.contains(pair) {
            before
        } else {
            before.push(pair)
        }
    }
}

/// Every distinct pair of `tokens` with its number of occurrences, in the
/// order of first occurrence.
pub open spec fn census(tokens: Seq<TokenId>) -> Seq<PairCount> {
    distinct_pairs(tokens).map_values(
        |pair: (TokenId, TokenId)| PairCount { pair, count: pair_count(tokens, pair) as usize },
    )
}

/// The sum of the counts of `stats`.
pub open spec fn total_count(stats: Seq<PairCount>) -> nat
    decreases stats.len(),
{
    if stats.len() == 0 {
        0
    } else {
        total_count(stats.drop_last()) + stats.last().count as nat
    }
}

/// The position of the first entry of `stats` that has the highest count
/// (0 for an empty sequence).
pub open spec fn first_most_frequent(stats: Seq<PairCount>) -> int
    decreases stats.len(),
{
    if stats.len() <= 1 {
        0
    } else {
        let best = first_most_frequent(stats.drop_last());
        if stats.last().count > stats[best].count {
            stats.len() - 1
        } else {
            best
        }
    }
}

/// `tokens` after one pass from the left in which each occurrence of `pair`
/// is replaced by `id`. A position that a replacement has used is not used
/// by another.
pub open spec fn merged(tokens: Seq<TokenId>, pair: (TokenId, TokenId), id: TokenId) -> Seq<
    TokenId,
>
    decreases tokens.len(),
{
    if tokens.len() < 2 {
        tokens
    } else if pair_at(tokens, 0) == pair {
        seq![id] + merged(tokens.skip(2), pair, id)
    } else {
        seq![tokens[0]] + merged(tokens.skip(1), pair, id)
    }
}

/// The key under which a pair is filed: both identifiers side by side in
/// one 64-bit number.
pub open spec fn pair_key(pair: (TokenId, TokenId)) -> u64 {
    (pair.0 as u64 * 0x1_0000_0000 + pair.1 as u64) as u64
}

/// Among equally frequent entries the first wins: the entry that
/// `first_most_frequent` names has a count that no entry exceeds and that
/// no entry before it reaches.
pub proof fn lemma_first_most_frequent(stats: Seq<PairCount>)
    requires
        stats.len() > 0,
    ensures
        0 <= first_most_frequent(stats) < stats.len(),
        forall|j: int|
            0 <= j < stats.len() ==> (#[trigger] stats[j]).count <= stats[first_most_frequent(
                stats,
            )].count,
        forall|j: int|
            0 <= j < first_most_frequent(stats) ==> (#[trigger] stats[j]).count
                < stats[first_most_frequent(stats)].count,
    decreases stats.len(),
{
    if stats.len() > 1 {
        let before = stats.drop_last();
        lemma_first_most_frequent(before);
        let best = first_most_frequent(before);
        assert forall|j: int| 0 <= j < stats.len() implies (#[trigger] stats[j]).count
            <= stats[first_most_frequent(stats)].count by {
            if j < before.len() {
                assert(before[j].count <= before[best].count);
            }
        }
        assert forall|j: int| 0 <= j < first_most_frequent(stats) implies (#[trigger] stats[j]).count
            < stats[first_most_frequent(stats)].count by {
            assert(before[j].count <= before[best].count);
        }
    }
}

/// No pair occurs twice among the distinct pairs.
pub proof fn lemma_distinct_pairs_differ(tokens: Seq<TokenId>)
    ensures
        distinct_pairs(tokens).no_duplicates(),
    decreases tokens.len(),
{
    if tokens.len() >= 2 {
        lemma_distinct_pairs_differ(tokens.drop_last());
    }
}

/// A pair is among the distinct pairs exactly if it occurs.
pub proof fn lemma_listed_iff_occurs(tokens: Seq<TokenId>, pair: (TokenId, TokenId))
    ensures
        distinct_pairs(tokens).contains(pair) <==> pair_count(tokens, pair) > 0,
    decreases tokens.len(),
{
    if tokens.len() >= 2 {
        lemma_listed_iff_occurs(tokens.drop_last(), pair);
        let before = distinct_pairs(tokens.drop_last());
        let last = pair_at(tokens, tokens.len() - 2);
        if !before.contains(last) {
            assert(before.push(last)[before.len() as int] == last);
            if before.contains(pair) {
                let k = choose|k: int| 0 <= k < before.len() && before[k] == pair;
                assert(before.push(last)[k] == pair);
            }
        }
    }
}

/// A pair is among the distinct pairs exactly if it starts at some
/// position.
pub proof fn lemma_listed_iff_at(tokens: Seq<TokenId>, pair: (TokenId, TokenId))
    ensures
        distinct_pairs(tokens).contains(pair) <==> exists|i: int|
            0 <= i < tokens.len() - 1 && #[trigger] pair_at(tokens, i) == pair,
    decreases tokens.len(),
{
    if tokens.len() >= 2 {
        let before = tokens.drop_last();
        let listed = distinct_pairs(before);
        let last = pair_at(tokens, tokens.len() - 2);
        lemma_listed_iff_at(before, pair);
        if distinct_pairs(tokens).contains(pair) {
            let k = choose|k: int|
                0 <= k < distinct_pairs(tokens).len() && distinct_pairs(tokens)[k] == pair;
            if k < listed.len() {
                let i = choose|i: int| 0 <= i < before.len() - 1 && pair_at(before, i) == pair;
                assert(pair_at(tokens, i) == pair);
            }
        }
        if exists|i: int| 0 <= i < tokens.len() - 1 && #[trigger] pair_at(tokens, i) == pair {
            let i = choose|i: int| 0 <= i < tokens.len() - 1 && #[trigger] pair_at(tokens, i) == pair;
            if i < before.len() - 1 {
                assert(pair_at(before, i) == pair);
                let k = choose|k: int| 0 <= k < listed.len() && listed[k] == pair;
                if !listed.contains(last) {
                    assert(listed.push(last)[k] == pair);
                }
            } else if !listed.contains(last) {
                assert(listed.push(last)[listed.len() as int] == pair);
            }
        }
    }
}

/// A pair occurs at most once per pair of neighbours.
pub proof fn lemma_pair_count_bound(tokens: Seq<TokenId>, pair: (TokenId, TokenId))
    ensures
        tokens.len() == 0 ==> pair_count(tokens, pair) == 0,
        tokens.len() > 0 ==> pair_count(tokens, pair) <= tokens.len() - 1,
    decreases tokens.len(),
{
    if tokens.len() >= 2 {
        lemma_pair_count_bound(tokens.drop_last(), pair);
    }
}

/// The census of `tokens` in terms of the census of `tokens` without its
/// last token, where the last pair was listed before: the count of that
/// pair grows by one.
pub proof fn lemma_census_repeat(tokens: Seq<TokenId>, k: int)
    requires
        2 <= tokens.len() <= usize::MAX,
        0 <= k < distinct_pairs(tokens.drop_last()).len(),
        distinct_pairs(tokens.drop_last())[k] == pair_at(tokens, tokens.len() - 2),
    ensures
        census(tokens) == census(tokens.drop_last()).update(
            k,
            PairCount {
                pair: pair_at(tokens, tokens.len() - 2),
                count: (census(tokens.drop_last())[k].count + 1) as usize,
            },
        ),
        census(tokens.drop_last())[k].count + 1 <= tokens.len() - 1,
{
    let before = tokens.drop_last();
    let pair = pair_at(tokens, tokens.len() - 2);
    lemma_distinct_pairs_differ(before);
    lemma_pair_count_bound(before, pair);
    lemma_pair_count_bound(tokens, pair);
    let updated = census(before).update(
        k,
        PairCount { pair, count: (census(before)[k].count + 1) as usize },
    );
    assert forall|j: int| 0 <= j < updated.len() implies updated[j] == census(tokens)[j] by {
        let other = distinct_pairs(before)[j];
        lemma_pair_count_bound(before, other);
        lemma_pair_count_bound(tokens, other);
    }
}

/// The census of `tokens` in terms of the census of `tokens` without its
/// last token, where the last pair is new: it is listed last, with count 1.
pub proof fn lemma_census_fresh(tokens: Seq<TokenId>)
    requires
        tokens.len() >= 2,
        !distinct_pairs(tokens.drop_last()).contains(pair_at(tokens, tokens.len() - 2)),
    ensures
        census(tokens) == census(tokens.drop_last()).push(
            PairCount { pair: pair_at(tokens, tokens.len() - 2), count: 1 },
        ),
{
    let before = tokens.drop_last();
    let pair = pair_at(tokens, tokens.len() - 2);
    lemma_listed_iff_occurs(before, pair);
    let pushed = census(before).push(PairCount { pair, count: 1 });
    assert forall|j: int| 0 <= j < pushed.len() implies pushed[j] == census(tokens)[j] by {
        if j < distinct_pairs(before).len() {
            let other = distinct_pairs(before)[j];
            lemma_pair_count_bound(before, other);
            lemma_pair_count_bound(tokens, other);
        }
    }
}

/// Replacing an entry changes the sum of the counts by the difference of
/// the two counts.
proof fn lemma_total_count_update(stats: Seq<PairCount>, k: int, entry: PairCount)
    requires
        0 <= k < stats.len(),
    ensures
        total_count(stats.update(k, entry)) == total_count(stats) - stats[k].count + entry.count,
    decreases stats.len(),
{
    if k == stats.len() - 1 {
        assert(stats.update(k, entry).drop_last() == stats.drop_last());
    } else {
        lemma_total_count_update(stats.drop_last(), k, entry);
        assert(stats.update(k, entry).drop_last() == stats.drop_last().update(k, entry));
    }
}

/// The counts of a census add up to the number of pairs of neighbours.
pub proof fn lemma_census_total(tokens: Seq<TokenId>)
    requires
        tokens.len() <= usize::MAX,
    ensures
        total_count(census(tokens)) == (if tokens.len() == 0 {
            0
        } else {
            tokens.len() - 1
        }),
    decreases tokens.len(),
{
    if tokens.len() >= 2 {
        let before = tokens.drop_last();
        let pair = pair_at(tokens, tokens.len() - 2);
        lemma_census_total(before);
        if distinct_pairs(before).contains(pair) {
            let k = choose|k: int|
                0 <= k < distinct_pairs(before).len() && distinct_pairs(before)[k] == pair;
            lemma_census_repeat(tokens, k);
            lemma_total_count_update(
                census(before),
                k,
                PairCount { pair, count: (census(before)[k].count + 1) as usize },
            );
        } else {
            lemma_census_fresh(tokens);
            assert(census(tokens).drop_last() == census(before));
        }
    }
}

/// The counts of the first entries add up to no more than all counts.
pub proof fn lemma_total_count_prefix(stats: Seq<PairCount>, k: int)
    requires
        0 <= k <= stats.len(),
    ensures
        total_count(stats.take(k)) <= total_count(stats),
    decreases stats.len() - k,
{
    if k < stats.len() {
        lemma_total_count_prefix(stats, k + 1);
        assert(stats.take(k + 1).drop_last() == stats.take(k));
    } else {
        assert(stats.take(k) == stats);
    }
}

/// Two pairs with the same key are the same pair.
proof fn lemma_pair_key_injective(a: (TokenId, TokenId), b: (TokenId, TokenId))
    requires
        pair_key(a) == pair_key(b),
    ensures
        a == b,
{
}

/// Computes the key of `pair`.
fn key_of(pair: (TokenId, TokenId)) -> (key: u64)
    ensures
        key == pair_key(pair),
{
    pair.0 as u64 * 0x1_0000_0000 + pair.1 as u64
}

/// Counts the pairs of neighbours of `tokens`: one entry for each distinct
/// pair, in the order of first occurrence.
pub fn count_pairs(tokens: &Vec<TokenId>) -> (stats: Vec<PairCount>)
    ensures
        stats@ == census(tokens@),
{
    let mut stats: Vec<PairCount> = Vec::new();
    let mut places: HashMap<u64, usize> = HashMap::new();
    if tokens.len() < 2 {
        return stats;
    }
    let mut i: usize = 0;
    while i + 1 < tokens.len()
        invariant
            i + 1 <= tokens.len(),
            stats@ == census(tokens@.take(i + 1)),
            forall|k: int|
                0 <= k < stats@.len() ==> places@.contains_key(#[trigger] pair_key(stats@[k].pair))
                    && places@[pair_key(stats@[k].pair)] == k,
            forall|key: u64| #[trigger]
                places@.contains_key(key) ==> 0 <= places@[key] < stats@.len() && pair_key(
                    stats@[places@[key] as int].pair,
                ) == key,
        decreases tokens.len() - i,
    {
        let pair = (tokens[i], tokens[i + 1]);
        let key = key_of(pair);
        let ghost before = tokens@.take(i + 1);
        let ghost now = tokens@.take(i + 2);
        proof {
            assert(now.drop_last() == before);
        }
        let found = match places.get(&key) {
            Some(place) => Some(*place),
            None => None,
        };
        match found {
            Some(k) => {
                proof {
                    lemma_pair_key_injective(stats@[k as int].pair, pair);
                    lemma_census_repeat(now, k as int);
                }
                let count = stats[k].count;
                stats.set(k, PairCount { pair, count: count + 1 });
            },
            None => {
                proof {
                    if distinct_pairs(before).contains(pair) {
                        let k = choose|k: int|
                            0 <= k < distinct_pairs(before).len() && distinct_pairs(before)[k]
                                == pair;
                        assert(places@.contains_key(pair_key(stats@[k].pair)));
                    }
                    lemma_census_fresh(now);
                }
                places.insert(key, stats.len());
                stats.push(PairCount { pair, count: 1 });
            },
        }
        i += 1;
    }
    assert(tokens@.take(i + 1) == tokens@);
    stats
}

/// Finds the first entry of `stats` that has the highest count.
pub fn most_frequent(stats: &Vec<PairCount>) -> (best: Option<PairCount>)
    ensures
        stats@.len() == 0 ==> best is None,
        stats@.len() > 0 ==> best == Some(stats@[first_most_frequent(stats@)]),
{
    if stats.len() == 0 {
        return None;
    }
    let mut best: usize = 0;
    let mut i: usize = 1;
    while i < stats.len()
        invariant
            1 <= i <= stats.len(),
            best == first_most_frequent(stats@.take(i as int)),
            0 <= best < i,
        decreases stats.len() - i,
    {
        proof {
            assert(stats@.take(i + 1).drop_last() == stats@.take(i as int));
        }
        if stats[i].count > stats[best].count {
            best = i;
        }
        i += 1;
    }
    assert(stats@.take(i as int) == stats@);
    Some(stats[best])
}

/// Replaces each occurrence of `pair` in `tokens` by `id`, in one pass from
/// the left.
pub fn merge_pair(tokens: &Vec<TokenId>, pair: (TokenId, TokenId), id: TokenId) -> (out: Vec<
    TokenId,
>)
    ensures
        out@ == merged(tokens@, pair, id),
{
    let mut out: Vec<TokenId> = Vec::new();
    let mut i: usize = 0;
    assert(tokens@.skip(0) == tokens@);
    while i < tokens.len()
        invariant
            i <= tokens.len(),
            out@ + merged(tokens@.skip(i as int), pair, id) == merged(tokens@, pair, id),
        decreases tokens.len() - i,
    {
        let ghost rest = tokens@.skip(i as int);
        if i + 1 < tokens.len() && tokens[i] == pair.0 && tokens[i + 1] == pair.1 {
            proof {
                assert(rest.skip(2) == tokens@.skip(i + 2));
                assert(out@.push(id) + merged(rest.skip(2), pair, id) =~= out@ + merged(
                    rest,
                    pair,
                    id,
                ));
            }
            out.push(id);
            i += 2;
        } else {
            proof {
                if rest.len() >= 2 {
                    assert(rest.skip(1) == tokens@.skip(i + 1));
                    assert(out@.push(tokens@[i as int]) + merged(rest.skip(1), pair, id) =~= out@
                        + merged(rest, pair, id));
                } else {
                    assert(out@.push(tokens@[i as int]) + merged(
                        tokens@.skip(i + 1),
                        pair,
                        id,
                    ) =~= out@ + merged(rest, pair, id));
                }
            }
            out.push(tokens[i]);
            i += 1;
        }
    }
    out
}

} // verus!
