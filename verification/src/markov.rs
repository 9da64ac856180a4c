use crate::pairs::{
    census, count_pairs, lemma_census_total, lemma_total_count_prefix, total_count, PairCount,
};
use crate::tokenizers::TokenId;
use crate::weighted_list::{lemma_pick_partition, pick, total_weight, WeightedVec};
use rand::rngs::ThreadRng;
use rand::Rng;
use std::collections::HashMap;
use vstd::prelude::*;

verus! {

broadcast use vstd::std_specs::hash::group_hash_axioms;

/// The handle to the random number generator of a thread, as `rand` defines
/// it. Nothing is known of what it holds.
#[verifier::external_type_specification]
#[verifier::external_body]
pub struct ExThreadRng(rand::rngs::ThreadRng);

/// `rand::thread_rng` hands out the generator of the current thread. No
/// claim is made of the generator. The first call in a thread seeds it and
/// stops the program where the entropy source of the system fails.
pub assume_specification[ rand::thread_rng ]() -> (generator: ThreadRng);

/// Draws a number below `bound`: `Rng::gen_range` on the range `0..bound`,
/// which returns a number that lies in the range it was given. It panics on
/// an empty range, so `bound` must not be 0. Which number comes back is left
/// open.
///
/// The generator of a thread also stops the program where the entropy
/// source of the system fails, when it is seeded for the first time and
/// when it is seeded again after some use. No argument has a part in that,
/// so no condition on the arguments can rule it out; like running out of
/// memory it lies outside what this contract speaks of.
#[verifier::external_body]
fn draw_below(generator: &mut ThreadRng, bound: usize) -> (index: usize)
    requires
        bound > 0,
    ensures
        index < bound,
{
    generator.gen_range(0..bound)
}

/// The weighted successors of `token` among the pairs of `stats`: for each
/// pair that `token` starts, in the order of `stats`, the count of the pair
/// and the token that follows.
pub open spec fn successors(stats: Seq<PairCount>, token: TokenId) -> Seq<(usize, TokenId)>
    decreases stats.len(),
{
    if stats.len() == 0 {
        Seq::empty()
    } else {
        let before = successors(stats.drop_last(), token);
        if stats.last().pair.0 == token {
            before.push((stats.last().count, stats.last().pair.1))
        } else {
            before
        }
    }
}

/// The model that `corpus` defines: every token that has a successor
/// somewhere in `corpus` is mapped to its distinct successors, in the order
/// of first occurrence, each weighted by the number of times it follows.
pub open spec fn markov_model(corpus: Seq<TokenId>) -> Map<TokenId, Seq<(usize, TokenId)>> {
    Map::new(
        |token: TokenId| successors(census(corpus), token).len() > 0,
        |token: TokenId| successors(census(corpus), token),
    )
}

/// The successor of `prev` that `index` selects in `model`, if `prev` has
/// successors and `index` is below their total weight.
pub open spec fn sampled(
    model: Map<TokenId, Seq<(usize, TokenId)>>,
    prev: TokenId,
    index: nat,
) -> Option<TokenId> {
    if model.contains_key(prev) {
        pick(model[prev], index)
    } else {
        None
    }
}

/// Simple random based language model which next token
/// prediction based only on one previous token and probabilities of
/// next tokens
pub struct MarkovChain {
    pub rand: ThreadRng,
    pub chain: HashMap<TokenId, WeightedVec<TokenId>>,
}

impl View for MarkovChain {
    type V = Map<TokenId, Seq<(usize, TokenId)>>;

    /// The weighted successors of each token that has any.
    open spec fn view(&self) -> Map<TokenId, Seq<(usize, TokenId)>> {
        model_of(self.chain@)
    }
}

/// The model that a table of samplers holds.
pub open spec fn model_of(chain: Map<TokenId, WeightedVec<TokenId>>) -> Map<
    TokenId,
    Seq<(usize, TokenId)>,
> {
    Map::new(|token: TokenId| chain.contains_key(token), |token: TokenId| chain[token]@)
}

/// The successors of a token weigh no more than all pairs together.
proof fn lemma_successors_weight(stats: Seq<PairCount>, token: TokenId)
    ensures
        total_weight(successors(stats, token)) <= total_count(stats),
    decreases stats.len(),
{
    if stats.len() > 0 {
        lemma_successors_weight(stats.drop_last(), token);
        if stats.last().pair.0 == token {
            let before = successors(stats.drop_last(), token);
            assert(successors(stats, token).drop_last() == before);
        }
    }
}

/// A token has successors among the pairs of `stats` exactly if it starts
/// one of them.
proof fn lemma_successors_exist(stats: Seq<PairCount>, token: TokenId)
    ensures
        successors(stats, token).len() > 0 <==> exists|k: int|
            0 <= k < stats.len() && (#[trigger] stats[k]).pair.0 == token,
    decreases stats.len(),
{
    if stats.len() > 0 {
        let before = stats.drop_last();
        lemma_successors_exist(before, token);
        if exists|k: int| 0 <= k < stats.len() && (#[trigger] stats[k]).pair.0 == token {
            let k = choose|k: int| 0 <= k < stats.len() && (#[trigger] stats[k]).pair.0 == token;
            if k < before.len() {
                assert(before[k].pair.0 == token);
            }
        }
    }
}

/// The model of a corpus holds successors for exactly the tokens that
/// stand somewhere in the corpus before another token. For any other token
/// no index selects a successor.
pub proof fn lemma_model_keys(corpus: Seq<TokenId>, token: TokenId)
    ensures
        markov_model(corpus).contains_key(token) <==> exists|i: int|
            0 <= i < corpus.len() - 1 && #[trigger] corpus[i] == token,
        !markov_model(corpus).contains_key(token) ==> forall|index: nat|
            (#[trigger] sampled(markov_model(corpus), token, index)) is None,
{
    let stats = census(corpus);
    let listed = crate::pairs::distinct_pairs(corpus);
    lemma_successors_exist(stats, token);
    if markov_model(corpus).contains_key(token) {
        let k = choose|k: int| 0 <= k < stats.len() && (#[trigger] stats[k]).pair.0 == token;
        crate::pairs::lemma_listed_iff_at(corpus, listed[k]);
        let i = choose|i: int|
            0 <= i < corpus.len() - 1 && #[trigger] crate::pairs::pair_at(corpus, i) == listed[k];
    }
    if exists|i: int| 0 <= i < corpus.len() - 1 && #[trigger] corpus[i] == token {
        let i = choose|i: int| 0 <= i < corpus.len() - 1 && #[trigger] corpus[i] == token;
        let pair = crate::pairs::pair_at(corpus, i);
        crate::pairs::lemma_listed_iff_at(corpus, pair);
        let k = choose|k: int| 0 <= k < listed.len() && listed[k] == pair;
        assert(stats[k].pair.0 == token);
    }
}

/// Drawing a successor by index is a function of the model, the token and
/// the index: two outcomes for chains that hold the same model are the
/// same.
pub proof fn lemma_sample_deterministic(
    first: &MarkovChain,
    second: &MarkovChain,
    prev: TokenId,
    index: usize,
    one: Option<TokenId>,
    other: Option<TokenId>,
)
    requires
        first@ == second@,
        call_ensures(MarkovChain::sample, (first, prev, index), one),
        call_ensures(MarkovChain::sample, (second, prev, index), other),
    ensures
        one == other,
{
}

/// The number of places of `corpus` where `token` stands before another
/// token.
pub open spec fn predecessor_count(corpus: Seq<TokenId>, token: TokenId) -> nat
    decreases corpus.len(),
{
    if corpus.len() < 2 {
        0
    } else {
        predecessor_count(corpus.drop_last(), token) + (if corpus[corpus.len() - 2] == token {
            1nat
        } else {
            0nat
        })
    }
}

/// Where the count of one pair changes, the weight of the successors of
/// the token that starts the pair changes by as much, and no other weight
/// changes.
proof fn lemma_successors_update(stats: Seq<PairCount>, k: int, count: usize, token: TokenId)
    requires
        0 <= k < stats.len(),
    ensures
        total_weight(
            successors(stats.update(k, PairCount { pair: stats[k].pair, count }), token),
        ) == total_weight(successors(stats, token)) + (if stats[k].pair.0 == token {
            count - stats[k].count
        } else {
            0
        }),
    decreases stats.len(),
{
    let entry = PairCount { pair: stats[k].pair, count };
    let changed = stats.update(k, entry);
    if k == stats.len() - 1 {
        assert(changed.drop_last() == stats.drop_last());
    } else {
        lemma_successors_update(stats.drop_last(), k, count, token);
        assert(changed.drop_last() == stats.drop_last().update(k, entry));
    }
    if changed.last().pair.0 == token {
        assert(successors(changed, token).drop_last() == successors(changed.drop_last(), token));
        assert(successors(stats, token).drop_last() == successors(stats.drop_last(), token));
    }
}

/// The weights of the successors of a token add up to the number of places
/// where the token stands before another token.
pub proof fn lemma_model_weights(corpus: Seq<TokenId>, token: TokenId)
    requires
        corpus.len() <= usize::MAX,
    ensures
        total_weight(successors(census(corpus), token)) == predecessor_count(corpus, token),
        markov_model(corpus).contains_key(token) ==> total_weight(markov_model(corpus)[token])
            == predecessor_count(corpus, token),
    decreases corpus.len(),
{
    if corpus.len() >= 2 {
        let before = corpus.drop_last();
        let pair = crate::pairs::pair_at(corpus, corpus.len() - 2);
        let listed = crate::pairs::distinct_pairs(before);
        lemma_model_weights(before, token);
        if listed.contains(pair) {
            let k = choose|k: int| 0 <= k < listed.len() && listed[k] == pair;
            crate::pairs::lemma_census_repeat(corpus, k);
            lemma_successors_update(
                census(before),
                k,
                (census(before)[k].count + 1) as usize,
                token,
            );
        } else {
            crate::pairs::lemma_census_fresh(corpus);
            let stats = census(corpus);
            assert(stats.drop_last() == census(before));
            if pair.0 == token {
                assert(successors(stats, token).drop_last() == successors(census(before), token));
            }
        }
    } else {
        assert(census(corpus) =~= Seq::<PairCount>::empty());
    }
}

/// In the model of a corpus every token that has successors has a positive
/// total weight, so that some index selects a successor.
pub proof fn lemma_model_weights_positive(corpus: Seq<TokenId>, token: TokenId)
    requires
        corpus.len() <= usize::MAX,
        markov_model(corpus).contains_key(token),
    ensures
        total_weight(markov_model(corpus)[token]) > 0,
{
    lemma_listed_counts_positive(corpus, census(corpus).len() as int, token);
    assert(census(corpus).take(census(corpus).len() as int) == census(corpus));
}

/// Every entry of a census counts at least one occurrence, so a token with
/// successors among the first `k` entries has a positive weight there.
proof fn lemma_listed_counts_positive(corpus: Seq<TokenId>, k: int, token: TokenId)
    requires
        corpus.len() <= usize::MAX,
        0 <= k <= census(corpus).len(),
    ensures
        successors(census(corpus).take(k), token).len() > 0 ==> total_weight(
            successors(census(corpus).take(k), token),
        ) > 0,
    decreases k,
{
    if k > 0 {
        let stats = census(corpus).take(k);
        lemma_listed_counts_positive(corpus, k - 1, token);
        assert(stats.drop_last() == census(corpus).take(k - 1));
        if stats.last().pair.0 == token {
            let pair = crate::pairs::distinct_pairs(corpus)[k - 1];
            crate::pairs::lemma_listed_iff_occurs(corpus, pair);
            crate::pairs::lemma_pair_count_bound(corpus, pair);
        }
    }
}

impl MarkovChain {
    /// A chain that holds no successors yet, with the random number
    /// generator of the current thread.
    pub fn new() -> (model: Self)
        ensures
            model@ == Map::<TokenId, Seq<(usize, TokenId)>>::empty(),
    {
        Self { rand: rand::thread_rng(), chain: HashMap::new() }
    }

    /// Creates token-to-token-set distribution based on
    /// given sequence of `TokenId`, in place of whatever the chain held
    pub fn train_chain(&mut self, corpus: &Vec<TokenId>)
        ensures
            final(self)@ == markov_model(corpus@),
    {
        let stats = count_pairs(corpus);
        let mut chain: HashMap<TokenId, WeightedVec<TokenId>> = HashMap::new();
        let mut k: usize = 0;
        proof {
            assert(corpus@.len() == corpus.len());
            lemma_census_total(corpus@);
        }
        while k < stats.len()
            invariant
                k <= stats.len(),
                stats@ == census(corpus@),
                total_count(stats@) <= usize::MAX,
                forall|token: TokenId|
                    chain@.contains_key(token) <==> (#[trigger] successors(
                        stats@.take(k as int),
                        token,
                    )).len() > 0,
                forall|token: TokenId| #[trigger]
                    chain@.contains_key(token) ==> chain@[token]@ == successors(
                        stats@.take(k as int),
                        token,
                    ),
            decreases stats.len() - k,
        {
            let entry = stats[k];
            let token = entry.pair.0;
            let ghost before = stats@.take(k as int);
            let ghost now = stats@.take(k + 1);
            proof {
                assert(now.drop_last() == before);
                lemma_successors_weight(now, token);
                lemma_total_count_prefix(stats@, k + 1);
                assert(successors(now, token).drop_last() == successors(before, token));
            }
            let mut sampler = match chain.remove(&token) {
                Some(sampler) => sampler,
                None => WeightedVec::new(),
            };
            sampler.push(entry.count, entry.pair.1);
            chain.insert(token, sampler);
            k += 1;
            proof {
                assert forall|other: TokenId| other != token implies successors(now, other)
                    == successors(before, other) by {}
            }
        }
        assert(stats@.take(k as int) == stats@);
        self.chain = chain;
    }

    /// The successor of `prev` that `random_index` selects: the one whose
    /// range of weights holds the index. There is none where `prev` has no
    /// successors or the index is not below their total weight.
    pub fn sample(&self, prev: TokenId, random_index: usize) -> (next: Option<TokenId>)
        ensures
            next == sampled(self@, prev, random_index as nat),
    {
        match self.chain.get(&prev) {
            Some(sampler) => match sampler.choose_at(random_index) {
                Some(next) => Some(*next),
                None => None,
            },
            None => None,
        }
    }

    /// Generates next token depending on previous `TokenId`: a successor of
    /// `token` drawn at random by weight, or `None` where `token` has no
    /// successors
    pub fn next_token(&mut self, token: TokenId) -> (next: Option<TokenId>)
        ensures
            final(self)@ == old(self)@,
            match next {
                Some(next) => exists|index: nat|
                    index < total_weight(old(self)@[token]) && #[trigger] sampled(
                        old(self)@,
                        token,
                        index,
                    ) == Some(next),
                None => !old(self)@.contains_key(token) || total_weight(old(self)@[token]) == 0,
            },
    {
        let size = match self.chain.get(&token) {
            Some(sampler) => sampler.total_weight(),
            None => {
                return None;
            },
        };
        if size == 0 {
            return None;
        }
        let index = draw_below(&mut self.rand, size);
        let next = self.sample(token, index);
        proof {
            lemma_pick_partition(self@[token], index as nat);
            assert(sampled(old(self)@, token, index as nat) == next);
        }
        next
    }
}

} // verus!
