use crate::pairs::{
    census, count_pairs, first_most_frequent, lemma_first_most_frequent, merge_pair, merged,
    most_frequent,
};
use crate::vocab::{first_free, has_text, id_of, Vocabulary};
use vstd::prelude::*;
use vstd::std_specs::iter::IteratorSpec;
use vstd::string::StringExecFns;

verus! {

broadcast use vstd::string::group_string_axioms;

/// Token identifier
pub type TokenId = u32;

/// `String::push` appends the given character to the end of the string.
pub assume_specification[ String::push ](text: &mut String, ch: char)
    ensures
        final(text)@ == old(text)@.push(ch),
;

/// The identifier that stands for a piece of text that the vocabulary does
/// not hold: the one bound to `[UNK]`, or 0 where `[UNK]` is not bound.
pub open spec fn unknown_id(m: Map<TokenId, Seq<char>>) -> TokenId {
    match id_of(m, "[UNK]"@) {
        Some(id) => id,
        None => 0,
    }
}

/// The bindings after `text` was looked up and, where it was not bound,
/// added under the smallest free identifier; and the identifier that stands
/// for `text` from then on. Where `text` is not bound and no identifier is
/// free, that is the identifier of the unknown token.
pub open spec fn interned(m: Map<TokenId, Seq<char>>, text: Seq<char>) -> (
    Map<TokenId, Seq<char>>,
    TokenId,
) {
    match id_of(m, text) {
        Some(id) => (m, id),
        None => match first_free(m) {
            Some(id) => (m.insert(id, text), id),
            None => (m, unknown_id(m)),
        },
    }
}

/// The bindings after every character of `text` was interned as a text of
/// length one, from the left, and the identifiers of the characters.
pub open spec fn primary_tokens(m: Map<TokenId, Seq<char>>, text: Seq<char>) -> (
    Map<TokenId, Seq<char>>,
    Seq<TokenId>,
)
    decreases text.len(),
{
    if text.len() == 0 {
        (m, Seq::empty())
    } else {
        let (before, ids) = primary_tokens(m, text.drop_last());
        let (after, id) = interned(before, seq![text.last()]);
        (after, ids.push(id))
    }
}

/// The bindings after at most `rounds` rounds of merging over `tokens`. A
/// round takes the most frequent pair of neighbours, the one met first among
/// equally frequent ones, binds the joined text of its two members (unless
/// it is bound already) and replaces the pair in `tokens`. Merging ends
/// early where no pair occurs twice or no identifier is free.
pub open spec fn merge_rounds(m: Map<TokenId, Seq<char>>, tokens: Seq<TokenId>, rounds: nat) -> Map<
    TokenId,
    Seq<char>,
>
    decreases rounds,
{
    let stats = census(tokens);
    if rounds == 0 || stats.len() == 0 {
        m
    } else {
        let best = stats[first_most_frequent(stats)];
        if best.count < 2 {
            m
        } else {
            let text = m[best.pair.0] + m[best.pair.1];
            match id_of(m, text) {
                Some(id) => merge_rounds(m, merged(tokens, best.pair, id), (rounds - 1) as nat),
                None => match first_free(m) {
                    Some(id) => merge_rounds(
                        m.insert(id, text),
                        merged(tokens, best.pair, id),
                        (rounds - 1) as nat,
                    ),
                    None => m,
                },
            }
        }
    }
}

/// The number of merging rounds that a size limit leaves to a vocabulary of
/// `size` entries.
pub open spec fn rounds_left(max_size: usize, size: nat) -> nat {
    if max_size > size {
        (max_size - size) as nat
    } else {
        0
    }
}

/// The bindings after training on `corpus`, starting from `m`: first every
/// character is interned, then pairs are merged as long as the size limit
/// allows.
pub open spec fn trained(m: Map<TokenId, Seq<char>>, corpus: Seq<char>, max_size: usize) -> Map<
    TokenId,
    Seq<char>,
> {
    let (after, tokens) = primary_tokens(m, corpus);
    merge_rounds(after, tokens, rounds_left(max_size, after.len()))
}

/// `text` cut into pieces of one character each.
pub open spec fn single_pieces(text: Seq<char>) -> Seq<Seq<char>> {
    Seq::new(text.len(), |i: int| seq![text[i]])
}

/// `pieces` after one pass from the left: a piece takes up the piece that
/// follows it for as long as the joined text is bound in `m`.
pub open spec fn scanned(m: Map<TokenId, Seq<char>>, pieces: Seq<Seq<char>>) -> Seq<Seq<char>>
    decreases pieces.len(),
{
    if pieces.len() < 2 {
        pieces
    } else if has_text(m, pieces[0] + pieces[1]) {
        scanned(m, seq![pieces[0] + pieces[1]] + pieces.skip(2))
    } else {
        seq![pieces[0]] + scanned(m, pieces.skip(1))
    }
}

/// `pieces` after as many passes as it takes until a pass joins nothing.
pub open spec fn settled(m: Map<TokenId, Seq<char>>, pieces: Seq<Seq<char>>) -> Seq<Seq<char>>
    decreases pieces.len(),
{
    let next = scanned(m, pieces);
    if next.len() < pieces.len() {
        settled(m, next)
    } else {
        pieces
    }
}

/// The identifier of `piece`, or that of the unknown token where `piece` is
/// not bound.
pub open spec fn id_or_unknown(m: Map<TokenId, Seq<char>>, piece: Seq<char>) -> TokenId {
    match id_of(m, piece) {
        Some(id) => id,
        None => unknown_id(m),
    }
}

/// The identifiers that encode `text` under the bindings `m`.
pub open spec fn encoded(m: Map<TokenId, Seq<char>>, text: Seq<char>) -> Seq<TokenId> {
    settled(m, single_pieces(text)).map_values(|piece: Seq<char>| id_or_unknown(m, piece))
}

/// The texts of a sequence of strings.
pub open spec fn texts_of(pieces: Seq<String>) -> Seq<Seq<char>> {
    pieces.map_values(|piece: String| piece@)
}

/// Whether every token of `tokens` is bound in `m`.
pub open spec fn all_bound(m: Map<TokenId, Seq<char>>, tokens: Seq<TokenId>) -> bool {
    forall|i: int| 0 <= i < tokens.len() ==> m.contains_key(#[trigger] tokens[i])
}

/// A way to learn a vocabulary from a corpus and to encode text with it.
pub trait Tokenizer: Sized {
    /// A tokenizer with its default settings.
    fn new() -> Self;

    /// Fills [`Vocabulary`] using [`TokenId`]s from given corpus
    fn fill_vocab(&self, corpus: &str, vocab: &mut Vocabulary);

    /// Converts given text to sequence of [`TokenId`]
    fn tokenize(&self, text: &str, vocab: &Vocabulary) -> Vec<TokenId>;
}

/// Character based BPE tokenizer
pub struct BpeTokenizer {
    pub max_size: usize,
}

/// The characters of `text`.
pub fn chars_of(text: &str) -> (chars: Vec<char>)
    ensures
        chars@ == text@,
{
    let mut chars: Vec<char> = Vec::new();
    let mut rest = text.chars();
    loop
        invariant
            chars@ + rest.remaining() == text@,
            rest.decrease() is Some,
        ensures
            chars@ == text@,
        decreases rest.decrease()->0,
    {
        match rest.next() {
            Some(ch) => {
                chars.push(ch);
            },
            None => {
                break ;
            },
        }
    }
    chars
}

/// The string that holds the one character `ch`.
fn string_of(ch: char) -> (text: String)
    ensures
        text@ == seq![ch],
{
    let mut text = String::new();
    text.push(ch);
    text
}

/// The text that `vocab` binds to `id`.
fn text_of(vocab: &Vocabulary, id: TokenId) -> (text: &str)
    requires
        vocab@.contains_key(id),
    ensures
        text@ == vocab@[id],
{
    match vocab.get_token(id) {
        Some(text) => text,
        None => "",
    }
}

/// Looks `text` up in `vocab` and adds it where it is unknown; returns the
/// identifier that stands for it from then on.
fn intern(vocab: &mut Vocabulary, text: String) -> (id: TokenId)
    ensures
        (final(vocab)@, id) == interned(old(vocab)@, text@),
{
    match vocab.get_token_id(text.as_str()) {
        Some(id) => id,
        None => match vocab.try_add_token(text) {
            Some(id) => id,
            None => match vocab.get_token_id("[UNK]") {
                Some(id) => id,
                None => 0,
            },
        },
    }
}

/// What `interned` adds, it adds beside what was bound before, and the
/// identifier it gives is bound afterwards.
proof fn lemma_interned_grows(m: Map<TokenId, Seq<char>>, text: Seq<char>)
    ensures
        forall|id: TokenId| m.contains_key(id) ==> #[trigger] interned(m, text).0.contains_key(id),
        interned(m, text).0.contains_key(interned(m, text).1),
{
    if id_of(m, text) is None && first_free(m) is None && !m.contains_key(unknown_id(m)) {
        lemma_free_has_first(m, unknown_id(m));
    }
}

/// Where some identifier is free, there is a smallest free identifier.
proof fn lemma_free_has_first(m: Map<TokenId, Seq<char>>, id: TokenId)
    requires
        !m.contains_key(id),
    ensures
        exists|first: TokenId| crate::vocab::is_first_free(m, first),
    decreases id,
{
    if !crate::vocab::is_first_free(m, id) {
        let lower = choose|lower: TokenId| lower < id && !m.contains_key(lower);
        lemma_free_has_first(m, lower);
    }
}

/// Interns every character of `corpus`, from the left.
fn intern_chars(corpus: &str, vocab: &mut Vocabulary) -> (tokens: Vec<TokenId>)
    ensures
        (final(vocab)@, tokens@) == primary_tokens(old(vocab)@, corpus@),
        all_bound(final(vocab)@, tokens@),
{
    let chars = chars_of(corpus);
    let mut tokens: Vec<TokenId> = Vec::new();
    let mut i: usize = 0;
    while i < chars.len()
        invariant
            i <= chars.len(),
            chars@ == corpus@,
            (vocab@, tokens@) == primary_tokens(old(vocab)@, corpus@.take(i as int)),
            all_bound(vocab@, tokens@),
        decreases chars.len() - i,
    {
        proof {
            assert(corpus@.take(i + 1).drop_last() == corpus@.take(i as int));
            lemma_interned_grows(vocab@, seq![chars@[i as int]]);
        }
        let id = intern(vocab, string_of(chars[i]));
        tokens.push(id);
        i += 1;
    }
    assert(corpus@.take(i as int) == corpus@);
    tokens
}

/// Every token that a merging pass leaves is one that was there before or
/// the new one.
proof fn lemma_merged_tokens(tokens: Seq<TokenId>, pair: (TokenId, TokenId), id: TokenId, i: int)
    requires
        0 <= i < merged(tokens, pair, id).len(),
    ensures
        merged(tokens, pair, id)[i] == id || tokens.contains(merged(tokens, pair, id)[i]),
    decreases tokens.len(),
{
    if tokens.len() < 2 {
    } else if crate::pairs::pair_at(tokens, 0) == pair {
        if i > 0 {
            lemma_merged_tokens(tokens.skip(2), pair, id, i - 1);
        }
    } else {
        if i > 0 {
            lemma_merged_tokens(tokens.skip(1), pair, id, i - 1);
        }
    }
}

/// Every pair that the census lists is a pair of tokens of the sequence.
proof fn lemma_census_pairs(tokens: Seq<TokenId>, k: int)
    requires
        0 <= k < census(tokens).len(),
    ensures
        tokens.contains(census(tokens)[k].pair.0),
        tokens.contains(census(tokens)[k].pair.1),
    decreases tokens.len(),
{
    if tokens.len() >= 2 {
        let before = tokens.drop_last();
        if k < census(before).len() {
            lemma_census_pairs(before, k);
        }
    }
}

impl Tokenizer for BpeTokenizer {
    /// A tokenizer that fills a vocabulary up to 100 entries.
    fn new() -> (tokenizer: Self)
        ensures
            tokenizer.max_size == 100,
    {
        Self { max_size: 100 }
    }

    /// Interns the characters of `corpus` and then merges the most frequent
    /// pair of neighbours, round after round, until the vocabulary has
    /// `max_size` entries or no pair occurs twice.
    fn fill_vocab(&self, corpus: &str, vocab: &mut Vocabulary)
        ensures
            final(vocab)@ == trained(old(vocab)@, corpus@, self.max_size),
    {
        let mut tokens = intern_chars(corpus, vocab);
        let size = vocab.len();
        let rounds = if self.max_size > size {
            self.max_size - size
        } else {
            0
        };
        let ghost goal = trained(old(vocab)@, corpus@, self.max_size);
        let mut round: usize = 0;
        while round < rounds
            invariant
                round <= rounds,
                all_bound(vocab@, tokens@),
                merge_rounds(vocab@, tokens@, (rounds - round) as nat) == goal,
            ensures
                vocab@ == goal,
            decreases rounds - round,
        {
            let stats = count_pairs(&tokens);
            let best = match most_frequent(&stats) {
                Some(best) => best,
                None => {
                    break ;
                },
            };
            if best.count < 2 {
                break ;
            }
            proof {
                lemma_first_most_frequent(stats@);
                lemma_census_pairs(tokens@, first_most_frequent(stats@));
            }
            let text = String::from_str(text_of(vocab, best.pair.0)).concat(
                text_of(vocab, best.pair.1),
            );
            let id = match vocab.get_token_id(text.as_str()) {
                Some(id) => id,
                None => match vocab.try_add_token(text) {
                    Some(id) => id,
                    None => {
                        break ;
                    },
                },
            };
            let ghost old_tokens = tokens@;
            tokens = merge_pair(&tokens, best.pair, id);
            proof {
                assert forall|i: int| 0 <= i < tokens@.len() implies vocab@.contains_key(
                    #[trigger] tokens@[i],
                ) by {
                    lemma_merged_tokens(old_tokens, best.pair, id, i);
                }
            }
            round += 1;
        }
    }

    /// Cuts `text` into characters, joins neighbouring pieces whose joined
    /// text is in the vocabulary, pass after pass until nothing joins, and
    /// gives each piece its identifier, or that of the unknown token.
    fn tokenize(&self, text: &str, vocab: &Vocabulary) -> (tokens: Vec<TokenId>)
        ensures
            tokens@ == encoded(vocab@, text@),
    {
        let mut pieces = pieces_of(text);
        loop
            invariant
                settled(vocab@, texts_of(pieces@)) == settled(vocab@, single_pieces(text@)),
            ensures
                texts_of(pieces@) == settled(vocab@, single_pieces(text@)),
            decreases pieces@.len(),
        {
            proof {
                lemma_scanned_len(vocab@, texts_of(pieces@));
            }
            let next = join_pass(&pieces, vocab);
            if next.len() >= pieces.len() {
                break ;
            }
            pieces = next;
        }
        let unknown = match vocab.get_token_id("[UNK]") {
            Some(id) => id,
            None => 0,
        };
        let mut tokens: Vec<TokenId> = Vec::new();
        let mut i: usize = 0;
        while i < pieces.len()
            invariant
                i <= pieces.len(),
                unknown == unknown_id(vocab@),
                tokens@ == texts_of(pieces@).take(i as int).map_values(
                    |piece: Seq<char>| id_or_unknown(vocab@, piece),
                ),
            decreases pieces.len() - i,
        {
            let id = match vocab.get_token_id(pieces[i].as_str()) {
                Some(id) => id,
                None => unknown,
            };
            tokens.push(id);
            i += 1;
            assert(tokens@ =~= texts_of(pieces@).take(i as int).map_values(
                |piece: Seq<char>| id_or_unknown(vocab@, piece),
            ));
        }
        tokens
    }
}

/// A pass leaves no more pieces than it found.
pub proof fn lemma_scanned_len(m: Map<TokenId, Seq<char>>, pieces: Seq<Seq<char>>)
    ensures
        scanned(m, pieces).len() <= pieces.len(),
    decreases pieces.len(),
{
    if pieces.len() < 2 {
    } else if has_text(m, pieces[0] + pieces[1]) {
        lemma_scanned_len(m, seq![pieces[0] + pieces[1]] + pieces.skip(2));
    } else {
        lemma_scanned_len(m, pieces.skip(1));
    }
}

/// Whether `after` binds every identifier of `before` to the same text.
pub open spec fn keeps(before: Map<TokenId, Seq<char>>, after: Map<TokenId, Seq<char>>) -> bool {
    forall|id: TokenId| #[trigger]
        before.contains_key(id) ==> after.contains_key(id) && after[id] == before[id]
}

/// Merging keeps what was bound and binds at most one more text in each
/// round.
pub proof fn lemma_merge_rounds_len(m: Map<TokenId, Seq<char>>, tokens: Seq<TokenId>, rounds: nat)
    requires
        m.dom().finite(),
    ensures
        merge_rounds(m, tokens, rounds).dom().finite(),
        m.len() <= merge_rounds(m, tokens, rounds).len() <= m.len() + rounds,
        keeps(m, merge_rounds(m, tokens, rounds)),
    decreases rounds,
{
    let stats = census(tokens);
    if rounds > 0 && stats.len() > 0 {
        let best = stats[first_most_frequent(stats)];
        if best.count >= 2 {
            let text = m[best.pair.0] + m[best.pair.1];
            match id_of(m, text) {
                Some(id) => {
                    lemma_merge_rounds_len(m, merged(tokens, best.pair, id), (rounds - 1) as nat);
                },
                None => {
                    if let Some(id) = first_free(m) {
                        let next = m.insert(id, text);
                        lemma_merge_rounds_len(
                            next,
                            merged(tokens, best.pair, id),
                            (rounds - 1) as nat,
                        );
                        assert forall|known: TokenId| #[trigger] m.contains_key(known) implies {
                            let after = merge_rounds(m, tokens, rounds);
                            after.contains_key(known) && after[known] == m[known]
                        } by {
                            assert(next.contains_key(known));
                        }
                    }
                },
            }
        }
    }
}

/// Interning the characters of a text keeps what was bound and binds at
/// most one more text for each character.
pub proof fn lemma_primary_tokens_len(m: Map<TokenId, Seq<char>>, text: Seq<char>)
    requires
        m.dom().finite(),
    ensures
        primary_tokens(m, text).0.dom().finite(),
        m.len() <= primary_tokens(m, text).0.len() <= m.len() + text.len(),
        keeps(m, primary_tokens(m, text).0),
    decreases text.len(),
{
    if text.len() > 0 {
        lemma_primary_tokens_len(m, text.drop_last());
        assert forall|known: TokenId| #[trigger] m.contains_key(known) implies {
            let after = primary_tokens(m, text).0;
            after.contains_key(known) && after[known] == m[known]
        } by {}
    }
}

/// Training keeps every binding it starts from, leaves the vocabulary as
/// it found it where the corpus holds no character, and once the
/// characters are interned binds no more texts than the size limit leaves
/// room for.
pub proof fn lemma_trained_size(m: Map<TokenId, Seq<char>>, corpus: Seq<char>, max_size: usize)
    requires
        m.dom().finite(),
    ensures
        keeps(m, trained(m, corpus, max_size)),
        corpus.len() == 0 ==> trained(m, corpus, max_size) == m,
        trained(m, corpus, max_size).len() <= primary_tokens(m, corpus).0.len() || trained(
            m,
            corpus,
            max_size,
        ).len() <= max_size,
{
    let (after, tokens) = primary_tokens(m, corpus);
    lemma_primary_tokens_len(m, corpus);
    lemma_merge_rounds_len(after, tokens, rounds_left(max_size, after.len()));
    assert forall|known: TokenId| #[trigger] m.contains_key(known) implies {
        let last = trained(m, corpus, max_size);
        last.contains_key(known) && last[known] == m[known]
    } by {}
}

/// Whether `m` binds `text`, or has no identifier left to bind it to.
pub open spec fn bound_or_full(m: Map<TokenId, Seq<char>>, text: Seq<char>) -> bool {
    has_text(m, text) || first_free(m) is None
}

/// Interning binds the text unless no identifier is free, and what was
/// bound, or could not be for want of an identifier, stays so.
proof fn lemma_interned_binds(m: Map<TokenId, Seq<char>>, text: Seq<char>, other: Seq<char>)
    ensures
        bound_or_full(interned(m, text).0, text),
        bound_or_full(m, other) ==> bound_or_full(interned(m, text).0, other),
{
    let after = interned(m, text).0;
    if id_of(m, text) is None && first_free(m) is Some {
        let fresh = first_free(m)->0;
        assert(after.contains_key(fresh) && after[fresh] == text);
        if has_text(m, other) {
            let held = choose|held: TokenId| #[trigger] m.contains_key(held) && m[held] == other;
            assert(!m.contains_key(fresh));
            assert(after.contains_key(held) && after[held] == other);
        }
    }
}

/// After the characters of a text were interned each of them is bound,
/// unless no identifier is free.
proof fn lemma_primary_tokens_bind(m: Map<TokenId, Seq<char>>, text: Seq<char>, i: int)
    requires
        0 <= i < text.len(),
    ensures
        bound_or_full(primary_tokens(m, text).0, seq![text[i]]),
    decreases text.len(),
{
    let before = primary_tokens(m, text.drop_last()).0;
    if i < text.len() - 1 {
        lemma_primary_tokens_bind(m, text.drop_last(), i);
    }
    lemma_interned_binds(before, seq![text.last()], seq![text[i]]);
}

/// What is bound, or cannot be for want of an identifier, stays so through
/// the rounds of merging.
proof fn lemma_merge_rounds_bind(
    m: Map<TokenId, Seq<char>>,
    tokens: Seq<TokenId>,
    rounds: nat,
    text: Seq<char>,
)
    requires
        bound_or_full(m, text),
    ensures
        bound_or_full(merge_rounds(m, tokens, rounds), text),
    decreases rounds,
{
    let stats = census(tokens);
    if rounds > 0 && stats.len() > 0 {
        let best = stats[first_most_frequent(stats)];
        if best.count >= 2 {
            let joined = m[best.pair.0] + m[best.pair.1];
            match id_of(m, joined) {
                Some(id) => {
                    lemma_merge_rounds_bind(
                        m,
                        merged(tokens, best.pair, id),
                        (rounds - 1) as nat,
                        text,
                    );
                },
                None => {
                    if let Some(id) = first_free(m) {
                        let next = m.insert(id, joined);
                        let held = choose|held: TokenId| #[trigger]
                            m.contains_key(held) && m[held] == text;
                        assert(!m.contains_key(id));
                        assert(next.contains_key(held) && next[held] == text);
                        lemma_merge_rounds_bind(
                            next,
                            merged(tokens, best.pair, id),
                            (rounds - 1) as nat,
                            text,
                        );
                    }
                },
            }
        }
    }
}

/// Training binds every character of the corpus, unless the identifiers
/// run out. Where no pair of neighbours occurs twice it binds nothing but
/// the characters: the vocabulary ends as it is once they are interned.
pub proof fn lemma_trained_binds_characters(
    m: Map<TokenId, Seq<char>>,
    corpus: Seq<char>,
    max_size: usize,
    i: int,
)
    requires
        0 <= i < corpus.len(),
    ensures
        bound_or_full(trained(m, corpus, max_size), seq![corpus[i]]),
        (forall|k: int|
            0 <= k < census(primary_tokens(m, corpus).1).len() ==> (#[trigger] census(
                primary_tokens(m, corpus).1,
            )[k]).count < 2) ==> trained(m, corpus, max_size) == primary_tokens(m, corpus).0,
{
    let after = primary_tokens(m, corpus).0;
    let tokens = primary_tokens(m, corpus).1;
    lemma_primary_tokens_bind(m, corpus, i);
    lemma_merge_rounds_bind(after, tokens, rounds_left(max_size, after.len()), seq![corpus[i]]);
    if census(tokens).len() > 0 {
        lemma_first_most_frequent(census(tokens));
    }
}

/// The texts that `m` binds to `tokens`, one after the other.
pub open spec fn spelled(m: Map<TokenId, Seq<char>>, tokens: Seq<TokenId>) -> Seq<char>
    decreases tokens.len(),
{
    if tokens.len() == 0 {
        Seq::empty()
    } else {
        m[tokens[0]] + spelled(m, tokens.skip(1))
    }
}

/// Whether `text` stands somewhere in `whole`, character after character.
pub open spec fn part_of(text: Seq<char>, whole: Seq<char>) -> bool {
    exists|start: int, end: int|
        0 <= start <= end <= whole.len() && #[trigger] whole.subrange(start, end) == text
}

/// What stands in a text stands in every text that holds that text.
proof fn lemma_part_of_larger(text: Seq<char>, before: Seq<char>, whole: Seq<char>, after: Seq<char>)
    requires
        part_of(text, whole),
    ensures
        part_of(text, before + whole + after),
{
    let (start, end) = choose|start: int, end: int|
        0 <= start <= end <= whole.len() && #[trigger] whole.subrange(start, end) == text;
    let all = before + whole + after;
    assert(all.subrange(before.len() + start, before.len() + end) =~= whole.subrange(start, end));
}

/// More bindings spell the same, as long as the tokens were bound before.
proof fn lemma_spelled_keeps(
    m: Map<TokenId, Seq<char>>,
    more: Map<TokenId, Seq<char>>,
    tokens: Seq<TokenId>,
)
    requires
        keeps(m, more),
        all_bound(m, tokens),
    ensures
        spelled(more, tokens) == spelled(m, tokens),
    decreases tokens.len(),
{
    if tokens.len() > 0 {
        let rest = tokens.skip(1);
        assert forall|i: int| 0 <= i < rest.len() implies m.contains_key(#[trigger] rest[i]) by {
            assert(rest[i] == tokens[i + 1]);
        }
        lemma_spelled_keeps(m, more, rest);
        assert(m.contains_key(tokens[0]));
    }
}

/// One more token spells one more text at the end.
proof fn lemma_spelled_push(m: Map<TokenId, Seq<char>>, tokens: Seq<TokenId>, token: TokenId)
    ensures
        spelled(m, tokens.push(token)) == spelled(m, tokens) + m[token],
    decreases tokens.len(),
{
    let longer = tokens.push(token);
    if tokens.len() == 0 {
        assert(longer.skip(1) =~= Seq::<TokenId>::empty());
        assert(spelled(m, longer) == m[longer[0]] + spelled(m, longer.skip(1)));
        assert(spelled(m, longer) =~= spelled(m, tokens) + m[token]);
    } else {
        lemma_spelled_push(m, tokens.skip(1), token);
        assert(longer.skip(1) =~= tokens.skip(1).push(token));
        assert(spelled(m, longer) == m[longer[0]] + spelled(m, longer.skip(1)));
        assert(spelled(m, longer) =~= spelled(m, tokens) + m[token]);
    }
}

/// The joined text of two neighbouring tokens stands in what the tokens
/// spell.
proof fn lemma_spelled_window(m: Map<TokenId, Seq<char>>, tokens: Seq<TokenId>, i: int)
    requires
        0 <= i < tokens.len() - 1,
    ensures
        part_of(m[tokens[i]] + m[tokens[i + 1]], spelled(m, tokens)),
    decreases tokens.len(),
{
    let rest = tokens.skip(1);
    let text = m[tokens[i]] + m[tokens[i + 1]];
    assert(spelled(m, tokens) == m[tokens[0]] + spelled(m, rest));
    if i == 0 {
        assert(rest[0] == tokens[1]);
        assert(spelled(m, rest) == m[rest[0]] + spelled(m, rest.skip(1)));
        assert(text.subrange(0, text.len() as int) == text);
        lemma_part_of_larger(text, Seq::empty(), text, spelled(m, rest.skip(1)));
        assert(Seq::<char>::empty() + text + spelled(m, rest.skip(1)) =~= spelled(m, tokens));
    } else {
        lemma_spelled_window(m, rest, i - 1);
        assert(rest[i - 1] == tokens[i] && rest[i] == tokens[i + 1]);
        lemma_part_of_larger(text, m[tokens[0]], spelled(m, rest), Seq::empty());
        assert(m[tokens[0]] + spelled(m, rest) + Seq::<char>::empty() =~= spelled(m, tokens));
    }
}

/// Replacing a pair by a token that is bound to the joined text of the
/// pair spells the same.
proof fn lemma_spelled_merged(
    m: Map<TokenId, Seq<char>>,
    tokens: Seq<TokenId>,
    pair: (TokenId, TokenId),
    id: TokenId,
)
    requires
        m[id] == m[pair.0] + m[pair.1],
    ensures
        spelled(m, merged(tokens, pair, id)) == spelled(m, tokens),
    decreases tokens.len(),
{
    if tokens.len() < 2 {
    } else if crate::pairs::pair_at(tokens, 0) == pair {
        let rest = tokens.skip(2);
        let after = seq![id] + merged(rest, pair, id);
        lemma_spelled_merged(m, rest, pair, id);
        assert(after.skip(1) == merged(rest, pair, id));
        assert(spelled(m, after) == m[after[0]] + spelled(m, after.skip(1)));
        assert(tokens.skip(1).skip(1) == rest);
        assert(tokens.skip(1)[0] == tokens[1]);
        assert(spelled(m, tokens.skip(1)) == m[tokens[1]] + spelled(m, rest));
        assert(spelled(m, tokens) == m[tokens[0]] + spelled(m, tokens.skip(1)));
        assert((m[tokens[0]] + m[tokens[1]]) + spelled(m, rest) =~= m[tokens[0]] + (m[tokens[1]]
            + spelled(m, rest)));
    } else {
        let rest = tokens.skip(1);
        let after = seq![tokens[0]] + merged(rest, pair, id);
        lemma_spelled_merged(m, rest, pair, id);
        assert(after.skip(1) == merged(rest, pair, id));
        assert(spelled(m, after) == m[after[0]] + spelled(m, after.skip(1)));
        assert(spelled(m, tokens) == m[tokens[0]] + spelled(m, rest));
    }
}

/// While identifiers are left, the tokens of the characters of a text
/// spell the text, and every text that is bound for them is a character of
/// the text.
proof fn lemma_primary_tokens_spell(m: Map<TokenId, Seq<char>>, text: Seq<char>)
    requires
        first_free(primary_tokens(m, text).0) is Some,
    ensures
        keeps(m, primary_tokens(m, text).0),
        all_bound(primary_tokens(m, text).0, primary_tokens(m, text).1),
        spelled(primary_tokens(m, text).0, primary_tokens(m, text).1) == text,
        forall|id: TokenId| #[trigger]
            primary_tokens(m, text).0.contains_key(id) && !m.contains_key(id) ==> part_of(
                primary_tokens(m, text).0[id],
                text,
            ),
    decreases text.len(),
{
    if text.len() > 0 {
        let head = text.drop_last();
        let before = primary_tokens(m, head).0;
        let firsts = primary_tokens(m, head).1;
        let piece = seq![text.last()];
        let after = interned(before, piece).0;
        let token = interned(before, piece).1;
        lemma_interned_grows(before, piece);
        let free = first_free(after)->0;
        assert(crate::vocab::is_first_free(after, free));
        assert(!before.contains_key(free));
        lemma_free_has_first(before, free);
        lemma_primary_tokens_spell(m, head);
        assert(after.contains_key(token) && after[token] == piece) by {
            if id_of(before, piece) is None {
                assert(!before.contains_key(first_free(before)->0));
            }
        }
        assert(keeps(before, after)) by {
            if id_of(before, piece) is None {
                assert(!before.contains_key(first_free(before)->0));
            }
        }
        assert(keeps(m, after)) by {
            assert forall|id: TokenId| #[trigger] m.contains_key(id) implies after.contains_key(id)
                && after[id] == m[id] by {
                assert(before.contains_key(id));
            }
        }
        lemma_spelled_keeps(before, after, firsts);
        lemma_spelled_push(after, firsts, token);
        assert(head + piece =~= text);
        assert(all_bound(after, firsts.push(token))) by {
            assert forall|i: int| 0 <= i < firsts.push(token).len() implies after.contains_key(
                #[trigger] firsts.push(token)[i],
            ) by {
                if i < firsts.len() {
                    assert(before.contains_key(firsts[i]));
                }
            }
        }
        assert forall|id: TokenId| #[trigger]
            after.contains_key(id) && !m.contains_key(id) implies part_of(after[id], text) by {
            if before.contains_key(id) {
                lemma_part_of_larger(before[id], Seq::empty(), head, piece);
                assert(Seq::<char>::empty() + head + piece =~= text);
            } else {
                assert(after[id] == piece);
                assert(piece.subrange(0, 1) == piece);
                lemma_part_of_larger(piece, head, piece, Seq::empty());
                assert(head + piece + Seq::<char>::empty() =~= text);
            }
        }
    }
}

/// Where the tokens spell a text, every text that merging binds stands in
/// that text.
proof fn lemma_merge_rounds_parts(
    m: Map<TokenId, Seq<char>>,
    tokens: Seq<TokenId>,
    rounds: nat,
    whole: Seq<char>,
)
    requires
        all_bound(m, tokens),
        spelled(m, tokens) == whole,
    ensures
        keeps(m, merge_rounds(m, tokens, rounds)),
        forall|id: TokenId| #[trigger]
            merge_rounds(m, tokens, rounds).contains_key(id) && !m.contains_key(id) ==> part_of(
                merge_rounds(m, tokens, rounds)[id],
                whole,
            ),
    decreases rounds,
{
    let stats = census(tokens);
    let last = merge_rounds(m, tokens, rounds);
    if rounds > 0 && stats.len() > 0 {
        let best = stats[first_most_frequent(stats)];
        if best.count >= 2 {
            let joined = m[best.pair.0] + m[best.pair.1];
            lemma_first_most_frequent(stats);
            let listed = crate::pairs::distinct_pairs(tokens);
            assert(listed.contains(listed[first_most_frequent(stats)]));
            crate::pairs::lemma_listed_iff_at(tokens, best.pair);
            let i = choose|i: int|
                0 <= i < tokens.len() - 1 && #[trigger] crate::pairs::pair_at(tokens, i)
                    == best.pair;
            lemma_spelled_window(m, tokens, i);
            assert(m.contains_key(tokens[i]) && m.contains_key(tokens[i + 1]));
            match id_of(m, joined) {
                Some(id) => {
                    let next = merged(tokens, best.pair, id);
                    lemma_spelled_merged(m, tokens, best.pair, id);
                    assert forall|k: int| 0 <= k < next.len() implies m.contains_key(
                        #[trigger] next[k],
                    ) by {
                        lemma_merged_tokens(tokens, best.pair, id, k);
                    }
                    lemma_merge_rounds_parts(m, next, (rounds - 1) as nat, whole);
                },
                None => {
                    if let Some(id) = first_free(m) {
                        let more = m.insert(id, joined);
                        let next = merged(tokens, best.pair, id);
                        assert(!m.contains_key(id));
                        assert(keeps(m, more));
                        lemma_spelled_keeps(m, more, tokens);
                        lemma_spelled_merged(more, tokens, best.pair, id);
                        assert forall|k: int| 0 <= k < next.len() implies more.contains_key(
                            #[trigger] next[k],
                        ) by {
                            lemma_merged_tokens(tokens, best.pair, id, k);
                        }
                        lemma_merge_rounds_parts(more, next, (rounds - 1) as nat, whole);
                        assert forall|known: TokenId| #[trigger] m.contains_key(known) implies {
                            last.contains_key(known) && last[known] == m[known]
                        } by {
                            assert(more.contains_key(known));
                        }
                        assert forall|new: TokenId| #[trigger]
                            last.contains_key(new) && !m.contains_key(new) implies part_of(
                            last[new],
                            whole,
                        ) by {
                            if new == id {
                                assert(more.contains_key(id));
                            }
                        }
                    }
                },
            }
        }
    }
}

/// Training binds only what stands in the corpus: every text that it adds
/// to the vocabulary is a part of the corpus, as long as the identifiers
/// do not run out.
pub proof fn lemma_trained_binds_parts(
    m: Map<TokenId, Seq<char>>,
    corpus: Seq<char>,
    max_size: usize,
    id: TokenId,
)
    requires
        first_free(trained(m, corpus, max_size)) is Some,
        trained(m, corpus, max_size).contains_key(id),
        !m.contains_key(id),
    ensures
        part_of(trained(m, corpus, max_size)[id], corpus),
{
    let after = primary_tokens(m, corpus).0;
    let tokens = primary_tokens(m, corpus).1;
    let rounds = rounds_left(max_size, after.len());
    let last = trained(m, corpus, max_size);
    let free = first_free(last)->0;
    assert(crate::vocab::is_first_free(last, free));
    lemma_merge_rounds_keeps(after, tokens, rounds);
    assert(!after.contains_key(free));
    lemma_free_has_first(after, free);
    lemma_primary_tokens_spell(m, corpus);
    lemma_merge_rounds_parts(after, tokens, rounds, corpus);
    if after.contains_key(id) {
        assert(last[id] == after[id]);
    }
}

/// Merging keeps what was bound.
proof fn lemma_merge_rounds_keeps(m: Map<TokenId, Seq<char>>, tokens: Seq<TokenId>, rounds: nat)
    ensures
        keeps(m, merge_rounds(m, tokens, rounds)),
    decreases rounds,
{
    let stats = census(tokens);
    if rounds > 0 && stats.len() > 0 {
        let best = stats[first_most_frequent(stats)];
        if best.count >= 2 {
            let joined = m[best.pair.0] + m[best.pair.1];
            match id_of(m, joined) {
                Some(id) => {
                    lemma_merge_rounds_keeps(m, merged(tokens, best.pair, id), (rounds - 1) as nat);
                },
                None => {
                    if let Some(id) = first_free(m) {
                        let more = m.insert(id, joined);
                        lemma_merge_rounds_keeps(
                            more,
                            merged(tokens, best.pair, id),
                            (rounds - 1) as nat,
                        );
                        assert(!m.contains_key(id));
                        assert forall|known: TokenId| #[trigger] m.contains_key(known) implies {
                            let last = merge_rounds(m, tokens, rounds);
                            last.contains_key(known) && last[known] == m[known]
                        } by {
                            assert(more.contains_key(known));
                        }
                    }
                },
            }
        }
    }
}

/// Training is a function of the corpus and the size limit: the
/// vocabularies that two calls return for the same corpus and limit bind
/// the same texts to the same identifiers.
pub proof fn lemma_train_deterministic(
    corpus: &str,
    again: &str,
    max_size: usize,
    first: Vocabulary,
    second: Vocabulary,
)
    requires
        corpus@ == again@,
        call_ensures(train, (corpus, max_size), first),
        call_ensures(train, (again, max_size), second),
    ensures
        first@ == second@,
{
}

/// Filling a vocabulary is a function of the bindings it starts from, the
/// corpus and the size limit, whatever else the two vocabularies and
/// tokenizers have been through.
pub proof fn lemma_fill_vocab_deterministic(
    tokenizer: &BpeTokenizer,
    other: &BpeTokenizer,
    corpus: &str,
    again: &str,
    first: &mut Vocabulary,
    second: &mut Vocabulary,
)
    requires
        tokenizer.max_size == other.max_size,
        corpus@ == again@,
        old(first)@ == old(second)@,
        call_ensures(BpeTokenizer::fill_vocab, (tokenizer, corpus, first), ()),
        call_ensures(BpeTokenizer::fill_vocab, (other, again, second), ()),
    ensures
        final(first)@ == final(second)@,
{
}

/// Encoding is a function of the text and the bindings of the vocabulary:
/// two calls on the same text with vocabularies that bind the same texts
/// to the same identifiers return the same identifiers.
pub proof fn lemma_tokenize_deterministic(
    tokenizer: &BpeTokenizer,
    other: &BpeTokenizer,
    text: &str,
    again: &str,
    vocab: &Vocabulary,
    same: &Vocabulary,
    first: Vec<TokenId>,
    second: Vec<TokenId>,
)
    requires
        text@ == again@,
        vocab@ == same@,
        call_ensures(BpeTokenizer::tokenize, (tokenizer, text, vocab), first),
        call_ensures(BpeTokenizer::tokenize, (other, again, same), second),
    ensures
        first@ == second@,
{
}

/// The text of piece `i` of `pieces` and the piece after it, joined.
pub open spec fn joined_at(pieces: Seq<Seq<char>>, i: int) -> Seq<char> {
    pieces[i] + pieces[i + 1]
}

/// The text made of character `i` of `text` and the character after it.
pub open spec fn neighbours_at(text: Seq<char>, i: int) -> Seq<char> {
    seq![text[i], text[i + 1]]
}

/// A pass leaves as many pieces as it found exactly if no piece can take up
/// the piece that follows it.
pub proof fn lemma_scanned_same_len(m: Map<TokenId, Seq<char>>, pieces: Seq<Seq<char>>)
    ensures
        scanned(m, pieces).len() == pieces.len() <==> forall|i: int|
            0 <= i < pieces.len() - 1 ==> !has_text(m, #[trigger] joined_at(pieces, i)),
    decreases pieces.len(),
{
    if pieces.len() < 2 {
    } else if has_text(m, pieces[0] + pieces[1]) {
        lemma_scanned_len(m, seq![pieces[0] + pieces[1]] + pieces.skip(2));
        assert(has_text(m, joined_at(pieces, 0)));
    } else {
        let rest = pieces.skip(1);
        lemma_scanned_same_len(m, rest);
        if scanned(m, pieces).len() == pieces.len() {
            assert forall|i: int| 0 <= i < pieces.len() - 1 implies !has_text(
                m,
                #[trigger] joined_at(pieces, i),
            ) by {
                if i > 0 {
                    assert(joined_at(rest, i - 1) == joined_at(pieces, i));
                }
            }
        } else {
            let i = choose|i: int|
                0 <= i < rest.len() - 1 && has_text(m, #[trigger] joined_at(rest, i));
            assert(joined_at(pieces, i + 1) == joined_at(rest, i));
        }
    }
}

/// Settling leaves no more pieces than it found, and as many only where
/// the first pass joins nothing.
pub proof fn lemma_settled_len(m: Map<TokenId, Seq<char>>, pieces: Seq<Seq<char>>)
    ensures
        settled(m, pieces).len() <= pieces.len(),
        settled(m, pieces).len() == pieces.len() <==> scanned(m, pieces).len() == pieces.len(),
    decreases pieces.len(),
{
    lemma_scanned_len(m, pieces);
    if scanned(m, pieces).len() < pieces.len() {
        lemma_settled_len(m, scanned(m, pieces));
    }
}

/// The texts of `pieces`, one after the other.
pub open spec fn joined(pieces: Seq<Seq<char>>) -> Seq<char>
    decreases pieces.len(),
{
    if pieces.len() == 0 {
        Seq::empty()
    } else {
        pieces[0] + joined(pieces.skip(1))
    }
}

/// A pass joins pieces and loses no character.
pub proof fn lemma_scanned_joined(m: Map<TokenId, Seq<char>>, pieces: Seq<Seq<char>>)
    ensures
        joined(scanned(m, pieces)) == joined(pieces),
    decreases pieces.len(),
{
    if pieces.len() < 2 {
    } else if has_text(m, pieces[0] + pieces[1]) {
        let next = seq![pieces[0] + pieces[1]] + pieces.skip(2);
        lemma_scanned_joined(m, next);
        assert(next.skip(1) == pieces.skip(2));
        assert(pieces.skip(1).skip(1) == pieces.skip(2));
        assert(joined(next) == (pieces[0] + pieces[1]) + joined(pieces.skip(2)));
        assert(joined(pieces.skip(1)) == pieces[1] + joined(pieces.skip(2)));
        assert(joined(pieces) == pieces[0] + joined(pieces.skip(1)));
        assert((pieces[0] + pieces[1]) + joined(pieces.skip(2)) =~= pieces[0] + (pieces[1]
            + joined(pieces.skip(2))));
    } else {
        lemma_scanned_joined(m, pieces.skip(1));
        let after = seq![pieces[0]] + scanned(m, pieces.skip(1));
        assert(after.skip(1) == scanned(m, pieces.skip(1)));
        assert(joined(after) == pieces[0] + joined(after.skip(1)));
        assert(joined(pieces) == pieces[0] + joined(pieces.skip(1)));
    }
}

/// Settling joins pieces and loses no character.
pub proof fn lemma_settled_joined(m: Map<TokenId, Seq<char>>, pieces: Seq<Seq<char>>)
    ensures
        joined(settled(m, pieces)) == joined(pieces),
    decreases pieces.len(),
{
    lemma_scanned_joined(m, pieces);
    if scanned(m, pieces).len() < pieces.len() {
        lemma_settled_joined(m, scanned(m, pieces));
    }
}

/// The characters of a text, each a piece of its own, spell the text.
pub proof fn lemma_single_pieces_joined(text: Seq<char>)
    ensures
        joined(single_pieces(text)) == text,
    decreases text.len(),
{
    if text.len() > 0 {
        lemma_single_pieces_joined(text.skip(1));
        assert(single_pieces(text).skip(1) == single_pieces(text.skip(1)));
        assert(seq![text[0]] + text.skip(1) =~= text);
    }
}

/// The pieces that a text is cut into spell the text, and the identifier
/// that stands for a piece which the vocabulary holds is bound to that
/// piece: where every piece is held, the texts of the identifiers, one
/// after the other, are the text.
pub proof fn lemma_encoded_spells(m: Map<TokenId, Seq<char>>, text: Seq<char>)
    ensures
        joined(settled(m, single_pieces(text))) == text,
        encoded(m, text).len() == settled(m, single_pieces(text)).len(),
        forall|i: int|
            0 <= i < encoded(m, text).len() && has_text(m, settled(m, single_pieces(text))[i])
                ==> m.contains_key(#[trigger] encoded(m, text)[i]) && m[encoded(m, text)[i]]
                == settled(m, single_pieces(text))[i],
{
    lemma_settled_joined(m, single_pieces(text));
    lemma_single_pieces_joined(text);
}

/// A text is encoded by at most one identifier for each of its characters,
/// and by exactly one for each character only where no two neighbouring
/// characters together are a bound text.
pub proof fn lemma_encoded_len(m: Map<TokenId, Seq<char>>, text: Seq<char>)
    ensures
        encoded(m, text).len() <= text.len(),
        encoded(m, text).len() == text.len() <==> forall|i: int|
            0 <= i < text.len() - 1 ==> !has_text(m, #[trigger] neighbours_at(text, i)),
{
    let pieces = single_pieces(text);
    lemma_settled_len(m, pieces);
    lemma_scanned_same_len(m, pieces);
    assert forall|i: int| 0 <= i < text.len() - 1 implies #[trigger] joined_at(pieces, i)
        == neighbours_at(text, i) by {}
    if forall|i: int| 0 <= i < pieces.len() - 1 ==> !has_text(m, #[trigger] joined_at(pieces, i)) {
        assert forall|i: int| 0 <= i < text.len() - 1 implies !has_text(
            m,
            #[trigger] neighbours_at(text, i),
        ) by {
            assert(!has_text(m, joined_at(pieces, i)));
        }
    }
}

/// Cuts `text` into strings of one character each.
fn pieces_of(text: &str) -> (pieces: Vec<String>)
    ensures
        texts_of(pieces@) == single_pieces(text@),
{
    let chars = chars_of(text);
    let mut pieces: Vec<String> = Vec::new();
    let mut i: usize = 0;
    while i < chars.len()
        invariant
            i <= chars.len(),
            chars@ == text@,
            texts_of(pieces@) == single_pieces(text@.take(i as int)),
        decreases chars.len() - i,
    {
        let ghost before = pieces@;
        assert(texts_of(before).len() == single_pieces(text@.take(i as int)).len());
        let piece = string_of(chars[i]);
        pieces.push(piece);
        i += 1;
        assert forall|k: int| 0 <= k < i implies #[trigger] texts_of(pieces@)[k] == seq![
            text@[k],
        ] by {
            if k < i - 1 {
                assert(texts_of(before)[k] == single_pieces(text@.take(i - 1))[k]);
            }
        }
    }
    pieces
}

/// One pass over `pieces` from the left, in which a piece takes up the
/// pieces that follow it for as long as the joined text is in `vocab`.
fn join_pass(pieces: &Vec<String>, vocab: &Vocabulary) -> (out: Vec<String>)
    ensures
        texts_of(out@) == scanned(vocab@, texts_of(pieces@)),
{
    let mut out: Vec<String> = Vec::new();
    if pieces.len() == 0 {
        return out;
    }
    let mut current = pieces[0].clone();
    let mut j: usize = 1;
    let ghost all = texts_of(pieces@);
    assert(seq![current@] + all.skip(1) =~= all);
    while j < pieces.len()
        invariant
            1 <= j <= pieces.len(),
            all == texts_of(pieces@),
            texts_of(out@) + scanned(vocab@, seq![current@] + all.skip(j as int)) == scanned(
                vocab@,
                all,
            ),
        decreases pieces.len() - j,
    {
        let ghost rest = seq![current@] + all.skip(j as int);
        let joined = current.clone().concat(pieces[j].as_str());
        if vocab.contains_token(joined.as_str()) {
            proof {
                assert(seq![joined@] + rest.skip(2) =~= seq![joined@] + all.skip(j + 1));
            }
            current = joined;
        } else {
            proof {
                assert(rest.skip(1) =~= seq![all[j as int]] + all.skip(j + 1));
                assert(texts_of(out@.push(current)) + scanned(vocab@, rest.skip(1)) =~= texts_of(
                    out@,
                ) + scanned(vocab@, rest));
            }
            out.push(current);
            current = pieces[j].clone();
        }
        j += 1;
    }
    out.push(current);
    out
}

/// Trains a vocabulary on `corpus`: the unknown token `[UNK]` is bound to
/// identifier 0 before anything else, then the vocabulary is filled from
/// the corpus up to `max_size` entries.
pub fn train(corpus: &str, max_size: usize) -> (vocab: Vocabulary)
    ensures
        vocab@ == trained(
            Map::<TokenId, Seq<char>>::empty().insert(0, "[UNK]"@),
            corpus@,
            max_size,
        ),
{
    let mut vocab = Vocabulary::new();
    vocab.add_token(String::from_str("[UNK]"), 0);
    assert(vocab@ =~= Map::<TokenId, Seq<char>>::empty().insert(0, "[UNK]"@));
    let tokenizer = BpeTokenizer { max_size };
    tokenizer.fill_vocab(corpus, &mut vocab);
    vocab
}

} // verus!
