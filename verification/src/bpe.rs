use crate::pairs::{
    census, count_pairs, first_most_frequent, lemma_first_most_frequent, merge_pair, merged,
    most_frequent,
};
use crate::token::{layered, with_new_token, TableModel, Token, TokenTable, TokenValue};
use crate::tokenizers::chars_of;
use vstd::prelude::*;

verus! {

/// The largest number of merges that one call makes.
pub const MERGE_LIMIT: usize = 200;

/// The table after `value` was looked up and, where it had no token,
/// given a new one; and the token that stands for `value`.
pub open spec fn with_value(model: TableModel, value: TokenValue) -> (TableModel, Token) {
    if model.tokens.contains_key(value) {
        (model, model.tokens[value])
    } else {
        (with_new_token(model, value), model.next)
    }
}

/// The table after every character of `content` was looked up and, where
/// it had no token, given a new one, from the left; and the tokens of the
/// characters.
pub open spec fn primary_values(model: TableModel, content: Seq<char>) -> (TableModel, Seq<Token>)
    decreases content.len(),
{
    if content.len() == 0 {
        (model, Seq::empty())
    } else {
        let before = primary_values(model, content.drop_last());
        let step = with_value(before.0, TokenValue::Primary(content.last()));
        (step.0, before.1.push(step.1))
    }
}

/// The number of new tokens that the characters of `content` take: one for
/// each character that has no token when its turn comes.
pub open spec fn new_characters(model: TableModel, content: Seq<char>) -> nat
    decreases content.len(),
{
    if content.len() == 0 {
        0
    } else {
        let before = primary_values(model, content.drop_last()).0;
        new_characters(model, content.drop_last()) + (if before.tokens.contains_key(
            TokenValue::Primary(content.last()),
        ) {
            0nat
        } else {
            1nat
        })
    }
}

/// The table after at most `rounds` rounds of merging over `tokens`. A
/// round takes the most frequent pair of neighbours, the one met first
/// among equally frequent ones, gives it a new token and replaces the pair
/// in `tokens`. Merging ends early where no pair occurs twice or no token
/// is left to give.
pub open spec fn pair_rounds(model: TableModel, tokens: Seq<Token>, rounds: nat) -> TableModel
    decreases rounds,
{
    let stats = census(tokens);
    if rounds == 0 || stats.len() == 0 {
        model
    } else {
        let best = stats[first_most_frequent(stats)];
        if best.count < 2 || model.next == u32::MAX {
            model
        } else {
            pair_rounds(
                with_new_token(model, TokenValue::Pair(best.pair.0, best.pair.1)),
                merged(tokens, best.pair, model.next),
                (rounds - 1) as nat,
            )
        }
    }
}

/// Whether every token of `tokens` is smaller than `limit`.
pub open spec fn all_below(tokens: Seq<Token>, limit: Token) -> bool {
    forall|i: int| 0 <= i < tokens.len() ==> #[trigger] tokens[i] < limit
}

/// No character takes more than one new token, and a longer text takes no
/// fewer new tokens than its beginning.
pub proof fn lemma_new_characters_bound(model: TableModel, content: Seq<char>, k: int)
    requires
        0 <= k <= content.len(),
    ensures
        new_characters(model, content.take(k)) <= new_characters(model, content),
        new_characters(model, content) <= content.len(),
    decreases content.len() - k,
{
    if k < content.len() {
        lemma_new_characters_bound(model, content, k + 1);
        assert(content.take(k + 1).drop_last() == content.take(k));
        lemma_new_characters_length(model, content.take(k + 1));
    } else {
        assert(content.take(k) == content);
        lemma_new_characters_length(model, content);
    }
}

/// No character takes more than one new token.
proof fn lemma_new_characters_length(model: TableModel, content: Seq<char>)
    ensures
        new_characters(model, content) <= content.len(),
    decreases content.len(),
{
    if content.len() > 0 {
        lemma_new_characters_length(model, content.drop_last());
    }
}

/// Convert string to vector of simple tokens represening chars.
/// Adds unknown chars to table
pub fn string_to_primary_tokens(content: &str, table: &mut TokenTable) -> (tokens: Vec<Token>)
    requires
        old(table)@.next + new_characters(old(table)@, content@) <= u32::MAX,
    ensures
        (final(table)@, tokens@) == primary_values(old(table)@, content@),
        final(table)@.next == old(table)@.next + new_characters(old(table)@, content@),
        layered(old(table)@.values) ==> layered(final(table)@.values),
{
    let chars = chars_of(content);
    let mut tokens: Vec<Token> = Vec::new();
    let mut i: usize = 0;
    while i < chars.len()
        invariant
            i <= chars.len(),
            chars@ == content@,
            (table@, tokens@) == primary_values(old(table)@, content@.take(i as int)),
            table@.next == old(table)@.next + new_characters(old(table)@, content@.take(i as int)),
            old(table)@.next + new_characters(old(table)@, content@) <= u32::MAX,
            layered(old(table)@.values) ==> layered(table@.values),
        decreases chars.len() - i,
    {
        proof {
            assert(content@.take(i + 1).drop_last() == content@.take(i as int));
            lemma_new_characters_bound(old(table)@, content@, i + 1);
        }
        let value = TokenValue::Primary(chars[i]);
        let ghost before = table@;
        let token = match table.get_token(value) {
            Some(token) => token,
            None => table.new_token(value),
        };
        proof {
            if layered(before.values) {
                lemma_primary_keeps_layers(before, chars@[i as int]);
            }
        }
        tokens.push(token);
        i += 1;
    }
    assert(content@.take(i as int) == content@);
    tokens
}

/// What a merging pass leaves is smaller than `limit` where the tokens
/// before and the new token were.
proof fn lemma_merged_below(tokens: Seq<Token>, pair: (Token, Token), id: Token, limit: Token)
    requires
        all_below(tokens, limit),
        id < limit,
    ensures
        all_below(merged(tokens, pair, id), limit),
    decreases tokens.len(),
{
    if tokens.len() < 2 {
    } else if crate::pairs::pair_at(tokens, 0) == pair {
        lemma_merged_below(tokens.skip(2), pair, id, limit);
    } else {
        lemma_merged_below(tokens.skip(1), pair, id, limit);
    }
}

/// Every pair that the census lists is made of tokens below `limit` where
/// all tokens are.
proof fn lemma_census_below(tokens: Seq<Token>, limit: Token, k: int)
    requires
        all_below(tokens, limit),
        0 <= k < census(tokens).len(),
    ensures
        census(tokens)[k].pair.0 < limit,
        census(tokens)[k].pair.1 < limit,
    decreases tokens.len(),
{
    if tokens.len() >= 2 {
        let before = tokens.drop_last();
        if k < census(before).len() {
            lemma_census_below(before, limit, k);
        }
    }
}

/// Fills token table with pair tokens made using bpe: up to 200 times the
/// most frequent pair of neighbours, the one met first among equally
/// frequent ones, gets a new token
pub fn fill_token_table(content: &Vec<Token>, table: &mut TokenTable)
    ensures
        final(table)@ == pair_rounds(old(table)@, content@, MERGE_LIMIT as nat),
        layered(old(table)@.values) && all_below(content@, old(table)@.next) ==> layered(
            final(table)@.values,
        ),
{
    let mut content = content.clone();
    let ghost goal = pair_rounds(old(table)@, content@, MERGE_LIMIT as nat);
    let ghost sound = layered(old(table)@.values) && all_below(content@, old(table)@.next);
    let mut round: usize = 0;
    while round < MERGE_LIMIT
        invariant
            round <= MERGE_LIMIT,
            pair_rounds(table@, content@, (MERGE_LIMIT - round) as nat) == goal,
            sound ==> layered(table@.values) && all_below(content@, table@.next),
        ensures
            table@ == goal,
            sound ==> layered(table@.values),
        decreases MERGE_LIMIT - round,
    {
        let stats = count_pairs(&content);
        let best = match most_frequent(&stats) {
            Some(best) => best,
            None => {
                break ;
            },
        };
        if best.count < 2 || table.next_token() == u32::MAX {
            break ;
        }
        proof {
            lemma_first_most_frequent(stats@);
            if sound {
                lemma_census_below(content@, table@.next, first_most_frequent(stats@));
            }
        }
        let ghost before = content@;
        let token = table.new_token(TokenValue::Pair(best.pair.0, best.pair.1));
        content = merge_pair(&content, best.pair, token);
        proof {
            if sound {
                lemma_merged_below(before, best.pair, token, table@.next);
            }
        }
        round += 1;
    }
}

/// Whether the next token is above every token that has a value.
pub open spec fn capped(model: TableModel) -> bool {
    forall|token: Token| #[trigger] model.values.contains_key(token) ==> token < model.next
}

/// Whether the token of every value has that value, and the next token is
/// above every token that has a value. A new table is so, and stays so
/// under `new_token`.
pub open spec fn consistent(model: TableModel) -> bool {
    &&& capped(model)
    &&& forall|value: TokenValue| #[trigger]
        model.tokens.contains_key(value) ==> model.values.contains_key(model.tokens[value])
            && model.values[model.tokens[value]] == value
}

/// Whether `after` gives every token of `before` the value it had.
pub open spec fn keeps_values(
    before: Map<Token, TokenValue>,
    after: Map<Token, TokenValue>,
) -> bool {
    forall|token: Token| #[trigger]
        before.contains_key(token) ==> after.contains_key(token) && after[token] == before[token]
}

/// The token that a character gets decodes to the character: in a
/// consistent table the token that stands for a character after it was
/// looked up or added has that character as its value; the table stays
/// consistent and the values that were there stay.
pub proof fn lemma_character_decodes(model: TableModel, ch: char)
    requires
        consistent(model),
        model.next < u32::MAX || model.tokens.contains_key(TokenValue::Primary(ch)),
    ensures
        consistent(with_value(model, TokenValue::Primary(ch)).0),
        keeps_values(model.values, with_value(model, TokenValue::Primary(ch)).0.values),
        with_value(model, TokenValue::Primary(ch)).0.values.contains_key(
            with_value(model, TokenValue::Primary(ch)).1,
        ),
        with_value(model, TokenValue::Primary(ch)).0.values[with_value(
            model,
            TokenValue::Primary(ch),
        ).1] == TokenValue::Primary(ch),
        crate::token::decoded(
            with_value(model, TokenValue::Primary(ch)).0.values,
            with_value(model, TokenValue::Primary(ch)).1,
        ) == seq![ch],
{
    let value = TokenValue::Primary(ch);
    let after = with_value(model, value).0;
    let token = with_value(model, value).1;
    if model.tokens.contains_key(value) {
        assert(model.values.contains_key(model.tokens[value]));
    } else {
        assert forall|other: TokenValue| #[trigger] after.tokens.contains_key(other) implies {
            after.values.contains_key(after.tokens[other]) && after.values[after.tokens[other]]
                == other
        } by {
            if other != value {
                assert(model.tokens.contains_key(other));
                assert(model.values.contains_key(model.tokens[other]));
            }
        }
    }
    crate::token::lemma_decoded_found(after.values, token, 1);
}

/// A character keeps decoding to itself while values are only added: a
/// token whose value is a character decodes to that character whatever
/// else the table holds.
pub proof fn lemma_kept_character_decodes(
    before: Map<Token, TokenValue>,
    after: Map<Token, TokenValue>,
    token: Token,
    ch: char,
)
    requires
        keeps_values(before, after),
        before.contains_key(token),
        before[token] == TokenValue::Primary(ch),
    ensures
        crate::token::decoded(after, token) == seq![ch],
{
    crate::token::lemma_decoded_found(after, token, 1);
}

/// Merging keeps the values that were there and gives new tokens, from the
/// next token on, to pairs only: what decoded to a character before
/// decodes to it afterwards.
pub proof fn lemma_pair_rounds_keep(model: TableModel, tokens: Seq<Token>, rounds: nat)
    requires
        capped(model),
    ensures
        capped(pair_rounds(model, tokens, rounds)),
        keeps_values(model.values, pair_rounds(model, tokens, rounds).values),
        model.next <= pair_rounds(model, tokens, rounds).next <= model.next + rounds,
        forall|token: Token| #[trigger]
            pair_rounds(model, tokens, rounds).values.contains_key(token)
                && !model.values.contains_key(token) ==> model.next <= token && pair_rounds(
                model,
                tokens,
                rounds,
            ).values[token] is Pair,
    decreases rounds,
{
    let stats = census(tokens);
    if rounds > 0 && stats.len() > 0 {
        let best = stats[first_most_frequent(stats)];
        if best.count >= 2 && model.next < u32::MAX {
            let next = with_new_token(model, TokenValue::Pair(best.pair.0, best.pair.1));
            let last = pair_rounds(model, tokens, rounds);
            lemma_pair_rounds_keep(next, merged(tokens, best.pair, model.next), (rounds - 1) as nat);
            assert forall|token: Token| #[trigger] model.values.contains_key(token) implies {
                last.values.contains_key(token) && last.values[token] == model.values[token]
            } by {
                assert(next.values.contains_key(token));
            }
            assert forall|token: Token| #[trigger]
                last.values.contains_key(token) && !model.values.contains_key(
                    token,
                ) implies model.next <= token && last.values[token] is Pair by {
                if next.values.contains_key(token) {
                    assert(token == model.next);
                }
            }
        }
    }
}

/// A table whose pairs are made of smaller tokens stays so when a character
/// gets a token.
proof fn lemma_primary_keeps_layers(model: TableModel, ch: char)
    requires
        layered(model.values),
    ensures
        layered(with_value(model, TokenValue::Primary(ch)).0.values),
{
    let after = with_value(model, TokenValue::Primary(ch)).0.values;
    assert forall|token: Token| #[trigger] after.contains_key(token) implies match after[token] {
        TokenValue::Primary(_) => true,
        TokenValue::Pair(left, right) => left < token && right < token,
    } by {}
}

} // verus!
