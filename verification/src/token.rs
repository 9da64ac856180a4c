use crate::vocab_text::{decimal, push_decimal};
use std::collections::HashMap;
use vstd::prelude::*;
use vstd::string::StringExecFns;

verus! {

broadcast use vstd::std_specs::hash::group_hash_axioms;

/// Token identifier
pub type Token = u32;

/// Represent value associated with Token identifier
#[derive(Debug, Clone, Copy, Hash, PartialEq, Eq)]
pub enum TokenValue {
    Primary(char),
    Pair(Token, Token),
}

/// What a token table holds: the token of each value, the value of each
/// token, and the token that the next value will get.
#[verifier::ext_equal]
pub struct TableModel {
    pub tokens: Map<TokenValue, Token>,
    pub values: Map<Token, TokenValue>,
    pub next: Token,
}

/// The number under which a value is filed. Different values have
/// different numbers.
pub open spec fn value_code(value: TokenValue) -> u128 {
    match value {
        TokenValue::Primary(ch) => ch as u128,
        TokenValue::Pair(left, right) => (0x1_0000_0000_0000_0000 + left as u128 * 0x1_0000_0000
            + right as u128) as u128,
    }
}

/// The text that a value is shown as: a character between double quotes,
/// or the two tokens of a pair with ` + ` between them.
pub open spec fn described(value: TokenValue) -> Seq<char> {
    match value {
        TokenValue::Primary(ch) => seq!['"', ch, '"'],
        TokenValue::Pair(left, right) => decimal(left as nat) + seq![' ', '+', ' '] + decimal(
            right as nat,
        ),
    }
}

/// The table after `value` was bound to the next token, in both
/// directions, with the next token left as it was.
pub open spec fn with_token(model: TableModel, value: TokenValue) -> TableModel {
    TableModel {
        tokens: model.tokens.insert(value, model.next),
        values: model.values.insert(model.next, value),
        next: model.next,
    }
}

/// The table after `value` was bound to the next token, in both
/// directions, and the next token moved on by one.
pub open spec fn with_new_token(model: TableModel, value: TokenValue) -> TableModel {
    TableModel {
        tokens: model.tokens.insert(value, model.next),
        values: model.values.insert(model.next, value),
        next: (model.next + 1) as Token,
    }
}

/// Whether every pair among `values` is made of tokens smaller than its
/// own.
pub open spec fn layered(values: Map<Token, TokenValue>) -> bool {
    forall|token: Token| #[trigger]
        values.contains_key(token) ==> match values[token] {
            TokenValue::Primary(_) => true,
            TokenValue::Pair(left, right) => left < token && right < token,
        }
}

/// The text that `token` stands for, where it is found by going down at
/// most `depth` levels of pairs: the character of a token that has one,
/// the texts of the two members of a pair, one after the other, and
/// nothing for a token without a value. `None` where `depth` levels do not
/// reach the end of every pair.
pub open spec fn decoded_within(values: Map<Token, TokenValue>, token: Token, depth: nat) -> Option<
    Seq<char>,
>
    decreases depth,
{
    if depth == 0 {
        None
    } else if !values.contains_key(token) {
        Some(Seq::empty())
    } else {
        match values[token] {
            TokenValue::Primary(ch) => Some(seq![ch]),
            TokenValue::Pair(left, right) => match (
                decoded_within(values, left, (depth - 1) as nat),
                decoded_within(values, right, (depth - 1) as nat),
            ) {
                (Some(head), Some(tail)) => Some(head + tail),
                _ => None,
            },
        }
    }
}

/// Whether `token` stands for a text: going down its pairs comes to an end
/// everywhere. It does not where a pair contains itself, directly or
/// through other pairs.
pub open spec fn decodable(values: Map<Token, TokenValue>, token: Token) -> bool {
    exists|depth: nat| decoded_within(values, token, depth) is Some
}

/// The text that `token` stands for (see `decoded_within`), where it
/// stands for one.
pub open spec fn decoded(values: Map<Token, TokenValue>, token: Token) -> Seq<char> {
    let depth = choose|depth: nat| decoded_within(values, token, depth) is Some;
    match decoded_within(values, token, depth) {
        Some(text) => text,
        None => Seq::empty(),
    }
}

/// A text that is found within some depth is found, and is the same,
/// within every greater depth.
pub proof fn lemma_decoded_within_stable(
    values: Map<Token, TokenValue>,
    token: Token,
    depth: nat,
    deeper: nat,
)
    requires
        decoded_within(values, token, depth) is Some,
        depth <= deeper,
    ensures
        decoded_within(values, token, deeper) == decoded_within(values, token, depth),
    decreases depth,
{
    if values.contains_key(token) {
        match values[token] {
            TokenValue::Primary(_) => {},
            TokenValue::Pair(left, right) => {
                lemma_decoded_within_stable(
                    values,
                    left,
                    (depth - 1) as nat,
                    (deeper - 1) as nat,
                );
                lemma_decoded_within_stable(
                    values,
                    right,
                    (depth - 1) as nat,
                    (deeper - 1) as nat,
                );
            },
        }
    }
}

/// A text that is found within some depth is the text that the token
/// stands for.
pub proof fn lemma_decoded_found(values: Map<Token, TokenValue>, token: Token, depth: nat)
    requires
        decoded_within(values, token, depth) is Some,
    ensures
        decodable(values, token),
        decoded_within(values, token, depth) == Some(decoded(values, token)),
{
    let chosen = choose|chosen: nat| decoded_within(values, token, chosen) is Some;
    if chosen <= depth {
        lemma_decoded_within_stable(values, token, chosen, depth);
    } else {
        lemma_decoded_within_stable(values, token, depth, chosen);
    }
}

/// What a token stands for is what its value says: nothing without a
/// value, the character of a character, and for a pair the texts of its
/// two members, which both stand for a text, one after the other.
pub proof fn lemma_decoded_unfolds(values: Map<Token, TokenValue>, token: Token)
    requires
        decodable(values, token),
    ensures
        !values.contains_key(token) ==> decoded(values, token) == Seq::<char>::empty(),
        values.contains_key(token) ==> match values[token] {
            TokenValue::Primary(ch) => decoded(values, token) == seq![ch],
            TokenValue::Pair(left, right) => decodable(values, left) && decodable(values, right)
                && decoded(values, token) == decoded(values, left) + decoded(values, right),
        },
{
    let depth = choose|depth: nat| decoded_within(values, token, depth) is Some;
    lemma_decoded_found(values, token, depth);
    if values.contains_key(token) {
        match values[token] {
            TokenValue::Primary(_) => {},
            TokenValue::Pair(left, right) => {
                lemma_decoded_found(values, left, (depth - 1) as nat);
                lemma_decoded_found(values, right, (depth - 1) as nat);
            },
        }
    }
}

/// Where every pair is made of tokens smaller than its own, every token
/// stands for a text.
pub proof fn lemma_layered_decodable(values: Map<Token, TokenValue>, token: Token)
    requires
        layered(values),
    ensures
        decoded_within(values, token, (token + 1) as nat) is Some,
        decodable(values, token),
    decreases token,
{
    if values.contains_key(token) {
        match values[token] {
            TokenValue::Primary(_) => {},
            TokenValue::Pair(left, right) => {
                lemma_layered_decodable(values, left);
                lemma_layered_decodable(values, right);
                lemma_decoded_within_stable(values, left, (left + 1) as nat, token as nat);
                lemma_decoded_within_stable(values, right, (right + 1) as nat, token as nat);
            },
        }
    }
}

/// The least depth within which the text of a token is found.
proof fn lemma_least_depth(values: Map<Token, TokenValue>, token: Token, depth: nat) -> (least:
    nat)
    requires
        decoded_within(values, token, depth) is Some,
    ensures
        least <= depth,
        decoded_within(values, token, least) is Some,
        forall|shallow: nat| shallow < least ==> decoded_within(values, token, shallow) is None,
    decreases depth,
{
    if exists|shallow: nat| shallow < depth && decoded_within(values, token, shallow) is Some {
        let shallow = choose|shallow: nat|
            shallow < depth && decoded_within(values, token, shallow) is Some;
        lemma_least_depth(values, token, shallow)
    } else {
        depth
    }
}

/// A text that is found without going through the token `gone` is found
/// in the same way where `gone` has no value.
proof fn lemma_found_without(
    values: Map<Token, TokenValue>,
    gone: Token,
    token: Token,
    depth: nat,
)
    requires
        decoded_within(values, token, depth) is Some,
        decoded_within(values, gone, depth) is None,
    ensures
        decoded_within(values.remove(gone), token, depth) == decoded_within(values, token, depth),
    decreases depth,
{
    if values.contains_key(token) {
        match values[token] {
            TokenValue::Primary(_) => {},
            TokenValue::Pair(left, right) => {
                let below = (depth - 1) as nat;
                if decoded_within(values, gone, below) is Some {
                    lemma_decoded_within_stable(values, gone, below, depth);
                }
                lemma_found_without(values, gone, left, below);
                lemma_found_without(values, gone, right, below);
            },
        }
    }
}

/// A text that is found within `shallow` levels where `gone` has no
/// value, and at some depth without going through `gone` where it has one,
/// is found within `shallow` levels there too.
proof fn lemma_found_with(
    values: Map<Token, TokenValue>,
    gone: Token,
    token: Token,
    depth: nat,
    shallow: nat,
)
    requires
        decoded_within(values.remove(gone), token, shallow) is Some,
        decoded_within(values, token, depth) is Some,
        decoded_within(values, gone, depth) is None,
    ensures
        decoded_within(values, token, shallow) is Some,
    decreases shallow,
{
    if values.contains_key(token) {
        match values[token] {
            TokenValue::Primary(_) => {},
            TokenValue::Pair(left, right) => {
                let below = (depth - 1) as nat;
                if decoded_within(values, gone, below) is Some {
                    lemma_decoded_within_stable(values, gone, below, depth);
                }
                lemma_found_with(values, gone, left, below, (shallow - 1) as nat);
                lemma_found_with(values, gone, right, below, (shallow - 1) as nat);
            },
        }
    }
}

/// A token that stands for a text at all stands for it within one level
/// more than the table has values: on the way down no token comes twice.
pub proof fn lemma_depth_suffices(values: Map<Token, TokenValue>, token: Token, depth: nat)
    requires
        values.dom().finite(),
        decoded_within(values, token, depth) is Some,
    ensures
        decoded_within(values, token, values.len() + 1) is Some,
    decreases values.len(),
{
    let least = lemma_least_depth(values, token, depth);
    if values.contains_key(token) && values[token] is Pair {
        let below = (least - 1) as nat;
        let rest = values.remove(token);
        let left = values[token]->Pair_0;
        let right = values[token]->Pair_1;
        lemma_found_without(values, token, left, below);
        lemma_found_without(values, token, right, below);
        lemma_depth_suffices(rest, left, below);
        lemma_depth_suffices(rest, right, below);
        lemma_found_with(values, token, left, below, rest.len() + 1);
        lemma_found_with(values, token, right, below, rest.len() + 1);
    } else {
        lemma_decoded_within_stable(values, token, least, values.len() + 1);
    }
}

impl TokenValue {
    /// Shows the value as text: a character between double quotes, or the
    /// two tokens of a pair with ` + ` between them.
    pub fn describe(&self) -> (text: String)
        ensures
            text@ == described(*self),
    {
        let mut text = String::new();
        match self {
            TokenValue::Primary(ch) => {
                text.push('"');
                text.push(*ch);
                text.push('"');
            },
            TokenValue::Pair(left, right) => {
                push_decimal(&mut text, *left);
                text.push(' ');
                text.push('+');
                text.push(' ');
                push_decimal(&mut text, *right);
            },
        }
        text
    }
}

/// Dictionary where each token identifier matched with token value
#[derive(Debug)]
pub struct TokenTable {
    encode: HashMap<u128, Token>,
    decode: HashMap<Token, TokenValue>,
    next_token: Token,
}

impl View for TokenTable {
    type V = TableModel;

    /// What the table holds.
    closed spec fn view(&self) -> TableModel {
        TableModel {
            tokens: Map::new(
                |value: TokenValue| self.encode@.contains_key(value_code(value)),
                |value: TokenValue| self.encode@[value_code(value)],
            ),
            values: self.decode@,
            next: self.next_token,
        }
    }
}

/// Computes the code of `value`.
fn code_of(value: TokenValue) -> (code: u128)
    ensures
        code == value_code(value),
{
    match value {
        TokenValue::Primary(ch) => ch as u128,
        TokenValue::Pair(left, right) => 0x1_0000_0000_0000_0000 + left as u128 * 0x1_0000_0000
            + right as u128,
    }
}

/// Two values with the same code are the same value.
proof fn lemma_value_code_injective(a: TokenValue, b: TokenValue)
    requires
        value_code(a) == value_code(b),
    ensures
        a == b,
{
}

impl TokenTable {
    /// No token beyond the next one has a value.
    #[verifier::type_invariant]
    spec fn well_formed(&self) -> bool {
        forall|token: Token| #[trigger] self.decode@.contains_key(token) ==> token <= self.next_token
    }

    /// A table without tokens; the first value will get token 0.
    pub fn new() -> (table: Self)
        ensures
            table@.tokens == Map::<TokenValue, Token>::empty(),
            table@.values == Map::<Token, TokenValue>::empty(),
            table@.next == 0,
    {
        Self { encode: HashMap::new(), decode: HashMap::new(), next_token: 0 }
    }

    /// The value of `token`, if it has one.
    pub fn get_value(&self, token: Token) -> (value: Option<TokenValue>)
        ensures
            value == (if self@.values.contains_key(token) {
                Some(self@.values[token])
            } else {
                None
            }),
    {
        match self.decode.get(&token) {
            Some(value) => Some(*value),
            None => None,
        }
    }

    /// The token that `value` was bound to last, if it was bound at all.
    pub fn get_token(&self, value: TokenValue) -> (token: Option<Token>)
        ensures
            token == (if self@.tokens.contains_key(value) {
                Some(self@.tokens[value])
            } else {
                None
            }),
    {
        let code = code_of(value);
        match self.encode.get(&code) {
            Some(token) => Some(*token),
            None => None,
        }
    }

    /// Whether `value` was bound to a token.
    pub fn contains_value(&self, value: TokenValue) -> (known: bool)
        ensures
            known == self@.tokens.contains_key(value),
    {
        let code = code_of(value);
        self.encode.contains_key(&code)
    }

    /// Binds `value` to the next token without moving on: the value added
    /// next takes the same token.
    pub fn add_token(&mut self, value: TokenValue)
        ensures
            final(self)@ == with_token(old(self)@, value),
    {
        proof {
            use_type_invariant(&*self);
        }
        let mut taken = TokenTable::new();
        core::mem::swap(self, &mut taken);
        let TokenTable { mut encode, mut decode, next_token } = taken;
        encode.insert(code_of(value), next_token);
        decode.insert(next_token, value);
        *self = TokenTable { encode, decode, next_token };
        proof {
            assert forall|other: TokenValue| #[trigger]
                self@.tokens.contains_key(other) == with_token(
                    old(self)@,
                    value,
                ).tokens.contains_key(other) by {
                if value_code(other) == value_code(value) {
                    lemma_value_code_injective(other, value);
                }
            }
        }
    }

    /// Binds `value` to the next token, returns that token and moves on to
    /// the token after it.
    pub fn new_token(&mut self, value: TokenValue) -> (token: Token)
        requires
            old(self)@.next < u32::MAX,
        ensures
            token == old(self)@.next,
            final(self)@ == with_new_token(old(self)@, value),
    {
        proof {
            use_type_invariant(&*self);
        }
        let mut taken = TokenTable::new();
        core::mem::swap(self, &mut taken);
        let TokenTable { mut encode, mut decode, mut next_token } = taken;
        encode.insert(code_of(value), next_token);
        decode.insert(next_token, value);

        let out = next_token;
        while decode.contains_key(&next_token)
            invariant
                out < u32::MAX,
                out <= next_token <= out + 1,
                forall|token: Token| #[trigger] decode@.contains_key(token) ==> token <= out,
                decode@.contains_key(out),
            decreases out + 1 - next_token,
        {
            next_token += 1;
        }
        *self = TokenTable { encode, decode, next_token };
        proof {
            assert forall|other: TokenValue| #[trigger]
                self@.tokens.contains_key(other) == with_new_token(
                    old(self)@,
                    value,
                ).tokens.contains_key(other) by {
                if value_code(other) == value_code(value) {
                    lemma_value_code_injective(other, value);
                }
            }
        }
        out
    }

    /// The token that the next value will get.
    pub fn next_token(&self) -> (next: Token)
        ensures
            next == self@.next,
    {
        self.next_token
    }
}

impl Clone for TokenTable {
    /// The copy holds the same tokens and values.
    fn clone(&self) -> (copy: Self)
        ensures
            copy@ == self@,
    {
        proof {
            use_type_invariant(self);
        }
        TokenTable {
            encode: self.encode.clone(),
            decode: self.decode.clone(),
            next_token: self.next_token,
        }
    }
}

/// Decodes `token` as `decode_token` does, along a way that is known to
/// end within `depth` levels.
fn decode_within(token: Token, table: &TokenTable, Ghost(depth): Ghost<nat>) -> (text: String)
    requires
        decoded_within(table@.values, token, depth) is Some,
    ensures
        decoded_within(table@.values, token, depth) == Some(text@),
    decreases depth,
{
    match table.get_value(token) {
        Some(TokenValue::Primary(ch)) => {
            let mut text = String::new();
            text.push(ch);
            text
        },
        Some(TokenValue::Pair(left, right)) => {
            let mut result = decode_within(left, table, Ghost((depth - 1) as nat));
            let tail = decode_within(right, table, Ghost((depth - 1) as nat));
            result.append(tail.as_str());
            result
        },
        None => String::new(),
    }
}

/// The text that `token` stands for in `table`. A token whose pairs
/// contain themselves stands for none and is not accepted.
pub fn decode_token(token: Token, table: &TokenTable) -> (text: String)
    requires
        decodable(table@.values, token),
    ensures
        text@ == decoded(table@.values, token),
{
    let ghost depth = choose|depth: nat| decoded_within(table@.values, token, depth) is Some;
    decode_within(token, table, Ghost(depth))
}

/// Decodes `token` by going down at most `budget` levels of pairs.
fn decode_bounded(token: Token, table: &TokenTable, budget: u128) -> (text: Option<String>)
    ensures
        match text {
            Some(text) => decoded_within(table@.values, token, budget as nat) == Some(text@),
            None => decoded_within(table@.values, token, budget as nat) is None,
        },
    decreases budget,
{
    if budget == 0 {
        return None;
    }
    match table.get_value(token) {
        Some(TokenValue::Primary(ch)) => {
            let mut text = String::new();
            text.push(ch);
            Some(text)
        },
        Some(TokenValue::Pair(left, right)) => {
            let head = match decode_bounded(left, table, budget - 1) {
                Some(head) => head,
                None => {
                    return None;
                },
            };
            let tail = match decode_bounded(right, table, budget - 1) {
                Some(tail) => tail,
                None => {
                    return None;
                },
            };
            let mut result = head;
            result.append(tail.as_str());
            Some(result)
        },
        None => Some(String::new()),
    }
}

/// The text that `token` stands for in `table`, or `None` where it stands
/// for none because one of its pairs contains itself.
pub fn try_decode_token(token: Token, table: &TokenTable) -> (text: Option<String>)
    ensures
        match text {
            Some(text) => decodable(table@.values, token) && text@ == decoded(
                table@.values,
                token,
            ),
            None => !decodable(table@.values, token),
        },
{
    let size = table.decode.len();
    let text = decode_bounded(token, table, size as u128 + 1);
    proof {
        let limit = (size + 1) as nat;
        if decoded_within(table@.values, token, limit) is Some {
            lemma_decoded_found(table@.values, token, limit);
        } else if decodable(table@.values, token) {
            let depth = choose|depth: nat| decoded_within(table@.values, token, depth) is Some;
            lemma_depth_suffices(table@.values, token, depth);
        }
    }
    text
}

} // verus!
