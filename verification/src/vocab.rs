use crate::tokenizers::TokenId;
use std::collections::BTreeMap;
use vstd::hash_map::StringHashMap;
use vstd::prelude::*;
use vstd::std_specs::btree::increasing_seq;
use vstd::std_specs::cmp::OrdSpec;
use vstd::std_specs::iter::IteratorSpec;

verus! {

broadcast use {vstd::std_specs::btree::group_btree_axioms, vstd::laws_cmp::group_laws_cmp};

/// Whether some identifier of `m` is bound to `text`.
pub open spec fn has_text(m: Map<TokenId, Seq<char>>, text: Seq<char>) -> bool {
    exists|id: TokenId| #[trigger] m.contains_key(id) && m[id] == text
}

/// The identifier that `m` binds to `text`, if there is one.
pub open spec fn id_of(m: Map<TokenId, Seq<char>>, text: Seq<char>) -> Option<TokenId> {
    if has_text(m, text) {
        Some(choose|id: TokenId| #[trigger] m.contains_key(id) && m[id] == text)
    } else {
        None
    }
}

/// Whether `id` is the smallest identifier that `m` does not bind.
pub open spec fn is_first_free(m: Map<TokenId, Seq<char>>, id: TokenId) -> bool {
    &&& !m.contains_key(id)
    &&& forall|lower: TokenId| lower < id ==> #[trigger] m.contains_key(lower)
}

/// The smallest identifier that `m` does not bind, if there is one.
pub open spec fn first_free(m: Map<TokenId, Seq<char>>) -> Option<TokenId> {
    if exists|id: TokenId| is_first_free(m, id) {
        Some(choose|id: TokenId| is_first_free(m, id))
    } else {
        None
    }
}

/// No two identifiers of `m` are bound to the same text.
pub open spec fn distinct_texts(m: Map<TokenId, Seq<char>>) -> bool {
    forall|a: TokenId, b: TokenId|
        #![trigger m.contains_key(a), m.contains_key(b)]
        m.contains_key(a) && m.contains_key(b) && m[a] == m[b] ==> a == b
}

/// The bindings of `m` after `text` was bound to `id` by force: what `id`
/// held before is overwritten, and `text` leaves the identifier it had.
pub open spec fn bound(m: Map<TokenId, Seq<char>>, text: Seq<char>, id: TokenId) -> Map<
    TokenId,
    Seq<char>,
> {
    Map::new(
        |k: TokenId| k == id || (m.contains_key(k) && m[k] != text),
        |k: TokenId|
            if k == id {
                text
            } else {
                m[k]
            },
    )
}

/// The bindings of `m` after an attempt to add `text` under the smallest
/// free identifier, and the identifier it got. Nothing is added, and no
/// identifier is reported, where `text` is bound already or no identifier
/// is free.
pub open spec fn added(m: Map<TokenId, Seq<char>>, text: Seq<char>) -> (
    Map<TokenId, Seq<char>>,
    Option<TokenId>,
) {
    if has_text(m, text) {
        (m, None)
    } else {
        match first_free(m) {
            Some(id) => (m.insert(id, text), Some(id)),
            None => (m, None),
        }
    }
}

/// Adding a text is idempotent: a second attempt with the same text changes
/// nothing and reports no new identifier, and an identifier that the first
/// attempt reported stays the one that the text is bound to.
pub proof fn lemma_added_again(m: Map<TokenId, Seq<char>>, text: Seq<char>)
    ensures
        added(added(m, text).0, text) == (added(m, text).0, None::<TokenId>),
        added(m, text).1 is Some ==> id_of(added(m, text).0, text) == added(m, text).1,
{
    let (after, id) = added(m, text);
    if !has_text(m, text) && first_free(m) is Some {
        let fresh = first_free(m)->0;
        assert(after.contains_key(fresh) && after[fresh] == text);
    }
}

/// Whether `ids` grows from each element to the next.
pub open spec fn ascending(ids: Seq<TokenId>) -> bool {
    forall|i: int, j: int| 0 <= i < j < ids.len() ==> ids[i] < ids[j]
}

/// A sequence of references that the standard library calls increasing
/// grows from each number to the next.
proof fn lemma_increasing_is_ascending(ids: Seq<&TokenId>)
    requires
        increasing_seq(ids),
    ensures
        ascending(ids.unref()),
{
    vstd::std_specs::btree::axiom_increasing_seq_meaning::<&TokenId>(ids);
    assert forall|i: int, j: int| 0 <= i < j < ids.len() implies ids.unref()[i] < ids.unref()[j] by {
        assert(OrdSpec::cmp_spec(&ids[i], &ids[j]) is Less);
    }
}

/// Contains token-value pairs
pub struct Vocabulary {
    decode: BTreeMap<TokenId, String>,
    encode: StringHashMap<TokenId>,
    next_token: u64,
}

impl View for Vocabulary {
    type V = Map<TokenId, Seq<char>>;

    /// The text bound to each identifier.
    closed spec fn view(&self) -> Map<TokenId, Seq<char>> {
        Map::new(|id: TokenId| self.decode@.contains_key(id), |id: TokenId| self.decode@[id]@)
    }
}

/// The two lookup tables are inverses of each other, and the cursor is the
/// smallest identifier that is not bound.
spec fn tables_agree(
    decode: Map<TokenId, String>,
    encode: Map<Seq<char>, TokenId>,
    next_token: u64,
) -> bool {
    &&& forall|id: TokenId| #[trigger]
        decode.contains_key(id) ==> encode.contains_key(decode[id]@) && encode[decode[id]@] == id
    &&& forall|text: Seq<char>| #[trigger]
        encode.contains_key(text) ==> decode.contains_key(encode[text]) && decode[encode[text]]@
            == text
    &&& next_token <= 0x1_0000_0000
    &&& forall|id: TokenId| id < next_token ==> #[trigger] decode.contains_key(id)
    &&& next_token < 0x1_0000_0000 ==> !decode.contains_key(next_token as TokenId)
}

impl Vocabulary {
    #[verifier::type_invariant]
    spec fn well_formed(&self) -> bool {
        tables_agree(self.decode@, self.encode@, self.next_token)
    }

    /// A vocabulary without entries.
    pub fn new() -> (vocab: Self)
        ensures
            vocab@ == Map::<TokenId, Seq<char>>::empty(),
    {
        Self { decode: BTreeMap::new(), encode: StringHashMap::new(), next_token: 0 }
    }

    /// If token is unknown adds token to vocabulary under the smallest free
    /// identifier and returns its [`TokenId`]; if token is already known, or
    /// every identifier is taken, returns `None` and changes nothing
    pub fn try_add_token(&mut self, value: String) -> (id: Option<TokenId>)
        ensures
            (final(self)@, id) == added(old(self)@, value@),
    {
        proof {
            use_type_invariant(&*self);
            self.lemma_lookups(value@);
        }
        if self.encode.contains_key(value.as_str()) {
            None
        } else if self.next_token > u32::MAX as u64 {
            None
        } else {
            let token = self.next_token as TokenId;
            self.add_token(value, token);
            Some(token)
        }
    }

    /// Adds token to vocabulary with given [`TokenId`], in place of whatever
    /// that identifier held; a token that is known already moves to `id`
    pub fn add_token(&mut self, token: String, id: TokenId)
        ensures
            final(self)@ == bound(old(self)@, token@, id),
    {
        proof {
            use_type_invariant(&*self);
        }
        let mut taken = Vocabulary::new();
        core::mem::swap(self, &mut taken);
        let Vocabulary { mut decode, mut encode, mut next_token } = taken;

        match decode.get(&id) {
            Some(overwritten) => {
                encode.remove(overwritten.as_str());
            },
            None => {},
        }
        let prior = match encode.get(token.as_str()) {
            Some(held) => Some(*held),
            None => None,
        };
        match prior {
            Some(held) => {
                decode.remove(&held);
                if (held as u64) < next_token {
                    next_token = held as u64;
                }
            },
            None => {},
        }
        encode.insert(token.clone(), id);
        decode.insert(id, token);
        let ghost bound_decode = decode@;

        while next_token <= u32::MAX as u64 && decode.contains_key(&(next_token as TokenId))
            invariant
                decode@ == bound_decode,
                next_token <= 0x1_0000_0000,
                forall|lower: TokenId| lower < next_token ==> #[trigger] decode@.contains_key(lower),
            decreases 0x1_0000_0000 - next_token,
        {
            next_token += 1;
        }
        *self = Vocabulary { decode, encode, next_token };
    }

    /// Returns `true` if vocabulary contains token
    pub fn contains_token(&self, token: &str) -> (known: bool)
        ensures
            known == has_text(self@, token@),
    {
        proof {
            use_type_invariant(self);
            self.lemma_lookups(token@);
        }
        self.encode.contains_key(token)
    }

    /// Returns `true` if vocabulary contains [`TokenId`]
    pub fn contains_token_id(&self, id: TokenId) -> (known: bool)
        ensures
            known == self@.contains_key(id),
    {
        self.decode.contains_key(&id)
    }

    /// Returns [`TokenId`] if token is in vocabulary,
    /// otherwise returns `None`
    pub fn get_token_id(&self, token: &str) -> (id: Option<TokenId>)
        ensures
            id == id_of(self@, token@),
    {
        proof {
            use_type_invariant(self);
            self.lemma_lookups(token@);
        }
        match self.encode.get(token) {
            Some(id) => Some(*id),
            None => None,
        }
    }

    /// Returns token if [`TokenId`] is in vocabulary,
    /// otherwise returns `None`
    pub fn get_token(&self, id: TokenId) -> (token: Option<&str>)
        ensures
            match token {
                Some(text) => self@.contains_key(id) && text@ == self@[id],
                None => !self@.contains_key(id),
            },
    {
        match self.decode.get(&id) {
            Some(text) => Some(text.as_str()),
            None => None,
        }
    }

    /// Returns vocabulary lenght: the number of identifiers that are bound,
    /// no two of them to the same text
    pub fn len(&self) -> (n: usize)
        ensures
            self@.dom().finite(),
            distinct_texts(self@),
            n == self@.len(),
    {
        proof {
            use_type_invariant(self);
            self.lemma_lookups(Seq::empty());
            assert(self@.dom() =~= self.decode@.dom());
        }
        self.decode.len()
    }

    /// Returns the identifiers that are bound, from the smallest to the
    /// greatest; no two of them are bound to the same text
    pub fn token_ids(&self) -> (ids: Vec<TokenId>)
        ensures
            ascending(ids@),
            forall|id: TokenId| ids@.contains(id) <==> self@.contains_key(id),
            distinct_texts(self@),
    {
        proof {
            use_type_invariant(self);
            self.lemma_lookups(Seq::empty());
        }
        let mut ids: Vec<TokenId> = Vec::new();
        for id in keys: self.decode.keys()
            invariant
                ids@ == keys.seq().take(keys.index()).unref(),
        {
            assert(keys.seq().take(keys.index() + 1).unref() =~= keys.seq().take(
                keys.index(),
            ).unref().push(*id));
            ids.push(*id);
        }
        proof {
            let all = self.decode.keys().remaining();
            assert(ids@ =~= all.unref());
            lemma_increasing_is_ascending(all);
        }
        ids
    }

    /// What the lookup table by text says of `text` is what the bindings say.
    proof fn lemma_lookups(&self, text: Seq<char>)
        requires
            self.well_formed(),
        ensures
            self.encode@.contains_key(text) == has_text(self@, text),
            self.encode@.contains_key(text) ==> id_of(self@, text) == Some(self.encode@[text]),
            distinct_texts(self@),
            self.next_token < 0x1_0000_0000 ==> first_free(self@) == Some(
                self.next_token as TokenId,
            ),
            self.next_token == 0x1_0000_0000 ==> first_free(self@) is None,
    {
        if self.encode@.contains_key(text) {
            let id = self.encode@[text];
            assert(self@.contains_key(id) && self@[id] == text);
        }
        if self.next_token < 0x1_0000_0000 {
            let cursor = self.next_token as TokenId;
            assert(is_first_free(self@, cursor));
            let chosen = choose|id: TokenId| is_first_free(self@, id);
            assert(chosen == cursor);
        }
    }
}

impl Clone for Vocabulary {
    /// The copy binds the same texts to the same identifiers.
    fn clone(&self) -> (copy: Self)
        ensures
            copy@ == self@,
    {
        proof {
            use_type_invariant(self);
            self.lemma_lookups(Seq::empty());
        }
        let ids = self.token_ids();
        let mut copy = Vocabulary::new();
        let mut k: usize = 0;
        while k < ids.len()
            invariant
                k <= ids.len(),
                distinct_texts(self@),
                ascending(ids@),
                forall|id: TokenId| ids@.contains(id) <==> self@.contains_key(id),
                forall|id: TokenId|
                    copy@.contains_key(id) <==> exists|i: int| 0 <= i < k && ids@[i] == id,
                forall|id: TokenId| #[trigger] copy@.contains_key(id) ==> copy@[id] == self@[id],
            decreases ids.len() - k,
        {
            let id = ids[k];
            assert(ids@.contains(id));
            let ghost before = copy@;
            match self.get_token(id) {
                Some(token) => {
                    let ghost text = token@;
                    copy.add_token(token.to_owned(), id);
                    proof {
                        assert forall|other: TokenId|
                            before.contains_key(other) implies before[other] != text by {
                            assert(ids@.contains(other));
                        }
                    }
                },
                None => {},
            }
            k += 1;
        }
        assert(copy@ =~= self@) by {
            assert forall|id: TokenId| self@.contains_key(id) implies copy@.contains_key(id) by {
                assert(ids@.contains(id));
            }
            assert forall|id: TokenId| copy@.contains_key(id) implies self@.contains_key(id) by {
                assert(ids@.contains(id));
            }
        }
        copy
    }
}

/// Builds a vocabulary by a chain of calls.
pub struct VocabularyBuilder {
    vocab: Vocabulary,
}

impl View for VocabularyBuilder {
    type V = Map<TokenId, Seq<char>>;

    /// The bindings of the vocabulary under construction.
    closed spec fn view(&self) -> Map<TokenId, Seq<char>> {
        self.vocab@
    }
}

impl VocabularyBuilder {
    /// Starts from a vocabulary without entries.
    pub fn new() -> (builder: Self)
        ensures
            builder@ == Map::<TokenId, Seq<char>>::empty(),
    {
        Self { vocab: Vocabulary::new() }
    }

    /// Hands out the vocabulary that was built.
    pub fn build(self) -> (vocab: Vocabulary)
        ensures
            vocab@ == self@,
    {
        self.vocab
    }

    /// Adds `token` under the smallest free identifier, unless it is known
    /// already.
    pub fn try_add_token(self, token: String) -> (builder: Self)
        ensures
            builder@ == added(self@, token@).0,
    {
        let mut vocab = self.vocab;
        vocab.try_add_token(token);
        Self { vocab }
    }

    /// Binds `token` to `id` by force.
    pub fn add_token(self, token: String, id: TokenId) -> (builder: Self)
        ensures
            builder@ == bound(self@, token@, id),
    {
        let mut vocab = self.vocab;
        vocab.add_token(token, id);
        Self { vocab }
    }
}

} // verus!
