use crate::tokenizers::{chars_of, TokenId};
use crate::vocab::{ascending, bound, distinct_texts, Vocabulary};
use vstd::prelude::*;
use vstd::string::StringExecFns;

verus! {

/// The character that stands for the digit `d`.
pub open spec fn digit_char(d: nat) -> char
    recommends
        d < 10,
{
    ('0' as nat + d) as char
}

/// Whether `c` is one of the characters `0` to `9`.
pub open spec fn is_digit(c: char) -> bool {
    '0' <= c && c <= '9'
}

/// The number that `n` is written as in base ten, without leading zeros.
pub open spec fn decimal(n: nat) -> Seq<char>
    decreases n,
{
    if n < 10 {
        seq![digit_char(n)]
    } else {
        decimal(n / 10).push(digit_char(n % 10))
    }
}

/// The number that a sequence of digits stands for in base ten.
pub open spec fn number(digits: Seq<char>) -> nat
    decreases digits.len(),
{
    if digits.len() == 0 {
        0
    } else {
        number(digits.drop_last()) * 10 + (digits.last() as nat - '0' as nat) as nat
    }
}

/// What stands between an identifier and its text in a line.
pub open spec fn separator() -> Seq<char> {
    seq![' ', '=', ' ', '"']
}

/// The line of one entry: the identifier in base ten, ` = `, the text
/// between double quotes as it is, and a line feed.
pub open spec fn entry_line(id: TokenId, text: Seq<char>) -> Seq<char> {
    decimal(id as nat) + separator() + text + seq!['"', '\n']
}

/// The lines of the entries of `m` whose identifier is at least `low`, from
/// the smallest identifier to the greatest.
pub open spec fn rendered_from(m: Map<TokenId, Seq<char>>, low: nat) -> Seq<char>
    decreases 0x1_0000_0000 - low,
{
    if low >= 0x1_0000_0000 {
        Seq::empty()
    } else if m.contains_key(low as TokenId) {
        entry_line(low as TokenId, m[low as TokenId]) + rendered_from(m, low + 1)
    } else {
        rendered_from(m, low + 1)
    }
}

/// The text form of the bindings `m`: one line for each entry, by ascending
/// identifier.
pub open spec fn rendered(m: Map<TokenId, Seq<char>>) -> Seq<char> {
    rendered_from(m, 0)
}

/// The length of the first line of `text`: the position of its first line
/// feed, or its length where it holds none.
pub open spec fn line_end(text: Seq<char>) -> nat
    decreases text.len(),
{
    if text.len() == 0 || text[0] == '\n' {
        0
    } else {
        1 + line_end(text.drop_first())
    }
}

/// The number of digits that `line` starts with.
pub open spec fn digit_count(line: Seq<char>) -> nat
    decreases line.len(),
{
    if line.len() > 0 && is_digit(line[0]) {
        1 + digit_count(line.drop_first())
    } else {
        0
    }
}

/// The entry that `line` holds: an identifier of one or more digits that
/// is no greater than the greatest identifier, then ` = `, then the text
/// between a double quote and the double quote that ends the line.
pub open spec fn parsed_line(line: Seq<char>) -> Option<(TokenId, Seq<char>)> {
    let digits = digit_count(line) as int;
    if digits > 0 && number(line.take(digits)) <= u32::MAX && line.len() >= digits + 5
        && line.subrange(digits, digits + 4) == separator() && line.last() == '"' {
        Some((number(line.take(digits)) as TokenId, line.subrange(digits + 4, line.len() - 1)))
    } else {
        None
    }
}

/// The bindings that result when the entries of `text`, line by line, are
/// bound by force on top of `m`; `None` where a line holds no entry. The
/// last line may lack its line feed.
pub open spec fn parsed_onto(text: Seq<char>, m: Map<TokenId, Seq<char>>) -> Option<
    Map<TokenId, Seq<char>>,
>
    decreases text.len(),
{
    if text.len() == 0 {
        Some(m)
    } else {
        let end = line_end(text) as int;
        match parsed_line(text.take(end)) {
            None => None,
            Some((id, entry)) => parsed_onto(
                if end < text.len() {
                    text.skip(end + 1)
                } else {
                    Seq::empty()
                },
                bound(m, entry, id),
            ),
        }
    }
}

/// The bindings that the text form `text` describes, if it is well formed.
pub open spec fn parsed(text: Seq<char>) -> Option<Map<TokenId, Seq<char>>> {
    parsed_onto(text, Map::empty())
}

/// Whether `text` holds no line feed.
pub open spec fn one_line(text: Seq<char>) -> bool {
    forall|i: int| 0 <= i < text.len() ==> text[i] != '\n'
}

/// The entries of `m` whose identifier is below `low`.
pub open spec fn entries_below(m: Map<TokenId, Seq<char>>, low: nat) -> Map<TokenId, Seq<char>> {
    Map::new(|id: TokenId| m.contains_key(id) && id < low, |id: TokenId| m[id])
}

/// A number in base ten has at least one character, and all of them are
/// digits.
pub proof fn lemma_decimal_digits(n: nat)
    ensures
        decimal(n).len() >= 1,
        forall|i: int| 0 <= i < decimal(n).len() ==> is_digit(#[trigger] decimal(n)[i]),
    decreases n,
{
    if n >= 10 {
        lemma_decimal_digits(n / 10);
    }
}

/// Reading a number written in base ten gives the number back.
pub proof fn lemma_number_of_decimal(n: nat)
    ensures
        number(decimal(n)) == n,
    decreases n,
{
    if n < 10 {
        assert(number(decimal(n).drop_last()) == 0);
    } else {
        lemma_number_of_decimal(n / 10);
        assert(decimal(n).drop_last() =~= decimal(n / 10));
    }
}

/// A sequence of digits followed by something that does not start with a
/// digit starts with exactly that many digits.
proof fn lemma_digit_count(digits: Seq<char>, rest: Seq<char>)
    requires
        forall|i: int| 0 <= i < digits.len() ==> is_digit(#[trigger] digits[i]),
        rest.len() == 0 || !is_digit(rest[0]),
    ensures
        digit_count(digits + rest) == digits.len(),
    decreases digits.len(),
{
    if digits.len() > 0 {
        assert((digits + rest).drop_first() =~= digits.drop_first() + rest);
        lemma_digit_count(digits.drop_first(), rest);
    }
}

/// A text whose first line feed stands at position `end` has a first line
/// of that length; so has a text of length `end` without any line feed.
proof fn lemma_line_end(text: Seq<char>, end: int)
    requires
        0 <= end <= text.len(),
        forall|i: int| 0 <= i < end ==> text[i] != '\n',
        end < text.len() ==> text[end] == '\n',
    ensures
        line_end(text) == end,
    decreases end,
{
    if end > 0 {
        lemma_line_end(text.drop_first(), end - 1);
    }
}

/// The line of an entry whose text holds no line feed, read back, gives
/// the entry.
proof fn lemma_parsed_entry_line(id: TokenId, text: Seq<char>)
    requires
        one_line(text),
    ensures
        parsed_line(entry_line(id, text).drop_last()) == Some((id, text)),
        line_end(entry_line(id, text)) == entry_line(id, text).len() - 1,
{
    let digits = decimal(id as nat);
    let line = entry_line(id, text).drop_last();
    let tail = separator() + text + seq!['"'];
    lemma_decimal_digits(id as nat);
    lemma_number_of_decimal(id as nat);
    assert(line =~= digits + tail);
    lemma_digit_count(digits, tail);
    let count = digits.len() as int;
    assert(line.take(count) =~= digits);
    assert(line.subrange(count, count + 4) =~= separator());
    lemma_line_end(entry_line(id, text), line.len() as int);
}

/// Reading the line of an entry and what follows it amounts to binding the
/// entry and reading what follows.
proof fn lemma_parsed_onto_entry(
    id: TokenId,
    text: Seq<char>,
    rest: Seq<char>,
    m: Map<TokenId, Seq<char>>,
)
    requires
        one_line(text),
    ensures
        parsed_onto(entry_line(id, text) + rest, m) == parsed_onto(rest, bound(m, text, id)),
{
    let line = entry_line(id, text);
    let all = line + rest;
    lemma_parsed_entry_line(id, text);
    let end = line.len() - 1;
    assert forall|i: int| 0 <= i < end implies all[i] != '\n' by {
        lemma_line_end_is_first(line, i);
    }
    lemma_line_end(all, end);
    assert(all.take(end) =~= line.drop_last());
    assert(all.skip(end + 1) =~= rest);
}

/// No line feed stands before the end of the first line.
proof fn lemma_line_end_is_first(text: Seq<char>, i: int)
    requires
        0 <= i < line_end(text),
    ensures
        i < text.len(),
        text[i] != '\n',
    decreases text.len(),
{
    if i > 0 {
        lemma_line_end_is_first(text.drop_first(), i - 1);
    }
}

/// Nothing is rendered for a range of identifiers that are not bound.
proof fn lemma_rendered_gap(m: Map<TokenId, Seq<char>>, low: nat, high: nat)
    requires
        low <= high <= 0x1_0000_0000,
        forall|id: TokenId| low <= id < high ==> !m.contains_key(id),
    ensures
        rendered_from(m, low) == rendered_from(m, high),
    decreases high - low,
{
    if low < high {
        lemma_rendered_gap(m, low + 1, high);
    }
}

/// Reading the lines of the entries from `low` on, on top of the entries
/// below `low`, gives all entries.
proof fn lemma_parsed_rendered_from(m: Map<TokenId, Seq<char>>, low: nat)
    requires
        distinct_texts(m),
        forall|id: TokenId| m.contains_key(id) ==> one_line(#[trigger] m[id]),
        low <= 0x1_0000_0000,
    ensures
        parsed_onto(rendered_from(m, low), entries_below(m, low)) == Some(m),
    decreases 0x1_0000_0000 - low,
{
    if low < 0x1_0000_0000 {
        let id = low as TokenId;
        lemma_parsed_rendered_from(m, low + 1);
        if m.contains_key(id) {
            lemma_parsed_onto_entry(id, m[id], rendered_from(m, low + 1), entries_below(m, low));
            assert(bound(entries_below(m, low), m[id], id) =~= entries_below(m, low + 1));
        } else {
            assert(entries_below(m, low) =~= entries_below(m, low + 1));
        }
    }
}

/// The text form determines the bindings: reading the text form of
/// bindings gives the same bindings back, provided that no two identifiers
/// share a text, as in every vocabulary, and that no text holds a line
/// feed.
pub proof fn lemma_parsed_rendered(m: Map<TokenId, Seq<char>>)
    requires
        distinct_texts(m),
        forall|id: TokenId| m.contains_key(id) ==> one_line(#[trigger] m[id]),
    ensures
        parsed(rendered(m)) == Some(m),
{
    lemma_parsed_rendered_from(m, 0);
    assert(entries_below(m, 0) =~= Map::<TokenId, Seq<char>>::empty());
}

/// The character of the digit `d`.
fn digit_of(d: u32) -> (c: char)
    requires
        d < 10,
    ensures
        c == digit_char(d as nat),
{
    match d {
        0 => '0',
        1 => '1',
        2 => '2',
        3 => '3',
        4 => '4',
        5 => '5',
        6 => '6',
        7 => '7',
        8 => '8',
        _ => '9',
    }
}

/// Appends `n` in base ten to `out`.
pub fn push_decimal(out: &mut String, n: u32)
    ensures
        final(out)@ == old(out)@ + decimal(n as nat),
    decreases n,
{
    if n >= 10 {
        push_decimal(out, n / 10);
    }
    out.push(digit_of(n % 10));
}

/// Reads the entry in the line that `chars` holds from `start` to `end`.
fn parse_line(chars: &Vec<char>, start: usize, end: usize) -> (entry: Option<(TokenId, String)>)
    requires
        start <= end <= chars.len(),
    ensures
        match entry {
            Some((id, text)) => parsed_line(chars@.subrange(start as int, end as int)) == Some(
                (id, text@),
            ),
            None => parsed_line(chars@.subrange(start as int, end as int)) is None,
        },
{
    let ghost line = chars@.subrange(start as int, end as int);
    let mut i: usize = start;
    let mut value: u64 = 0;
    let mut too_large = false;
    while i < end && chars[i] >= '0' && chars[i] <= '9'
        invariant
            start <= i <= end <= chars.len(),
            line == chars@.subrange(start as int, end as int),
            forall|j: int| 0 <= j < i - start ==> is_digit(#[trigger] line[j]),
            !too_large ==> value == number(line.take(i - start)) && value <= u32::MAX,
            too_large ==> number(line.take(i - start)) > u32::MAX,
        decreases end - i,
    {
        let digit = chars[i] as u64 - '0' as u64;
        proof {
            assert(line.take(i - start + 1).drop_last() =~= line.take(i - start));
        }
        if !too_large {
            value = value * 10 + digit;
            if value > u32::MAX as u64 {
                too_large = true;
            }
        }
        i += 1;
    }
    let ghost digits = (i - start) as int;
    proof {
        let rest = line.skip(digits);
        assert(line =~= line.take(digits) + rest);
        lemma_digit_count(line.take(digits), rest);
    }
    if i == start || too_large || end - i < 5 {
        return None;
    }
    if chars[i] != ' ' || chars[i + 1] != '=' || chars[i + 2] != ' ' || chars[i + 3] != '"'
        || chars[end - 1] != '"' {
        proof {
            assert(separator()[0] == ' ' && separator()[1] == '=' && separator()[2] == ' '
                && separator()[3] == '"');
        }
        return None;
    }
    assert(line.subrange(digits, digits + 4) =~= separator());
    let mut text = String::new();
    let mut j: usize = i + 4;
    while j < end - 1
        invariant
            i + 4 <= j <= end - 1,
            end <= chars.len(),
            text@ == chars@.subrange(i + 4, j as int),
        decreases end - j,
    {
        text.push(chars[j]);
        j += 1;
    }
    Some((value as TokenId, text))
}

/// Whether `text` holds no line feed.
fn holds_no_line_feed(text: &str) -> (none: bool)
    ensures
        none == one_line(text@),
{
    let chars = chars_of(text);
    let mut i: usize = 0;
    while i < chars.len()
        invariant
            i <= chars.len(),
            chars@ == text@,
            forall|j: int| 0 <= j < i ==> chars@[j] != '\n',
        decreases chars.len() - i,
    {
        if chars[i] == '\n' {
            return false;
        }
        i += 1;
    }
    true
}

impl Vocabulary {
    /// Writes the vocabulary as text: for each entry, by ascending
    /// identifier, a line with the identifier, ` = ` and the token
    /// between double quotes.
    ///
    /// Reading the text gives the same vocabulary back, unless a token
    /// holds a line feed.
    pub fn serialize(&self) -> (text: String)
        ensures
            text@ == rendered(self@),
            (forall|id: TokenId| self@.contains_key(id) ==> one_line(#[trigger] self@[id]))
                ==> parsed(text@) == Some(self@),
    {
        let ids = self.token_ids();
        proof {
            if forall|id: TokenId| self@.contains_key(id) ==> one_line(#[trigger] self@[id]) {
                lemma_parsed_rendered(self@);
            }
        }
        let mut text = String::new();
        let mut k: usize = 0;
        let mut low: u64 = 0;
        while k < ids.len()
            invariant
                k <= ids.len(),
                ascending(ids@),
                forall|id: TokenId| ids@.contains(id) <==> self@.contains_key(id),
                low <= 0x1_0000_0000,
                k < ids.len() ==> low <= ids@[k as int],
                forall|i: int| 0 <= i < k ==> ids@[i] < low,
                text@ + rendered_from(self@, low as nat) == rendered(self@),
            decreases ids.len() - k,
        {
            let id = ids[k];
            proof {
                assert forall|other: TokenId| low <= other < id implies !self@.contains_key(
                    other,
                ) by {
                    if self@.contains_key(other) {
                        assert(ids@.contains(other));
                    }
                }
                lemma_rendered_gap(self@, low as nat, id as nat);
            }
            let ghost before = text@;
            match self.get_token(id) {
                Some(token) => {
                    push_decimal(&mut text, id);
                    text.push(' ');
                    text.push('=');
                    text.push(' ');
                    text.push('"');
                    text.append(token);
                    text.push('"');
                    text.push('\n');
                },
                None => {},
            }
            low = id as u64 + 1;
            k += 1;
            proof {
                assert(text@ + rendered_from(self@, low as nat) =~= before + rendered_from(
                    self@,
                    id as nat,
                ));
            }
        }
        proof {
            assert forall|other: TokenId| low <= other < 0x1_0000_0000 implies !self@.contains_key(
                other,
            ) by {
                if self@.contains_key(other) {
                    assert(ids@.contains(other));
                }
            }
            lemma_rendered_gap(self@, low as nat, 0x1_0000_0000);
        }
        text
    }

    /// Whether the text form can carry the vocabulary: no token holds a
    /// line feed, so that every entry is one line and reading the text
    /// gives the vocabulary back.
    pub fn fits_lines(&self) -> (fits: bool)
        ensures
            fits == forall|id: TokenId| self@.contains_key(id) ==> one_line(#[trigger] self@[id]),
            fits ==> parsed(rendered(self@)) == Some(self@),
    {
        let ids = self.token_ids();
        let mut k: usize = 0;
        while k < ids.len()
            invariant
                k <= ids.len(),
                forall|id: TokenId| ids@.contains(id) <==> self@.contains_key(id),
                forall|i: int| 0 <= i < k ==> one_line(#[trigger] self@[ids@[i]]),
            decreases ids.len() - k,
        {
            let id = ids[k];
            assert(ids@.contains(id));
            match self.get_token(id) {
                Some(token) => {
                    if !holds_no_line_feed(token) {
                        return false;
                    }
                },
                None => {},
            }
            k += 1;
        }
        proof {
            assert forall|id: TokenId| self@.contains_key(id) implies one_line(
                #[trigger] self@[id],
            ) by {
                assert(ids@.contains(id));
            }
            lemma_parsed_rendered(self@);
        }
        true
    }

    /// Reads a vocabulary from its text form: each line binds its
    /// identifier to its token, in place of what either held before.
    /// Returns `None` where some line is not of the form of an entry.
    pub fn parse(text: &str) -> (vocab: Option<Vocabulary>)
        ensures
            match vocab {
                Some(vocab) => parsed(text@) == Some(vocab@),
                None => parsed(text@) is None,
            },
    {
        let chars = chars_of(text);
        let mut vocab = Vocabulary::new();
        let mut start: usize = 0;
        assert(chars@.skip(0) =~= chars@);
        while start < chars.len()
            invariant
                start <= chars.len(),
                chars@ == text@,
                parsed_onto(chars@.skip(start as int), vocab@) == parsed(text@),
            decreases chars.len() - start,
        {
            let ghost rest = chars@.skip(start as int);
            let mut end: usize = start;
            while end < chars.len() && chars[end] != '\n'
                invariant
                    start <= end <= chars.len(),
                    forall|i: int| start <= i < end ==> chars@[i] != '\n',
                decreases chars.len() - end,
            {
                end += 1;
            }
            proof {
                lemma_line_end(rest, end - start);
                assert(rest.take(end - start) =~= chars@.subrange(start as int, end as int));
            }
            match parse_line(&chars, start, end) {
                Some((id, token)) => {
                    vocab.add_token(token, id);
                },
                None => {
                    return None;
                },
            }
            if end < chars.len() {
                proof {
                    assert(rest.skip(end - start + 1) =~= chars@.skip(end + 1));
                }
                start = end + 1;
            } else {
                proof {
                    assert(chars@.skip(end as int) =~= Seq::<char>::empty());
                }
                start = end;
            }
        }
        Some(vocab)
    }
}

} // verus!
