use bpe_markov::bpe::{fill_token_table, string_to_primary_tokens};
use bpe_markov::token::{decode_token, try_decode_token, TokenTable, TokenValue};

#[test]
fn new_table_is_empty() {
    let table = TokenTable::new();
    assert_eq!(table.next_token(), 0);
    assert_eq!(table.get_value(0), None);
    assert_eq!(table.get_token(TokenValue::Primary('a')), None);
    assert!(!table.contains_value(TokenValue::Primary('a')));
    assert!(!table.contains_value(TokenValue::Pair(0, 0)));
}

#[test]
fn new_tokens_are_numbered_in_turn() {
    let mut table = TokenTable::new();
    assert_eq!(table.new_token(TokenValue::Primary('a')), 0);
    assert_eq!(table.new_token(TokenValue::Primary('b')), 1);
    assert_eq!(table.new_token(TokenValue::Pair(0, 1)), 2);
    assert_eq!(table.next_token(), 3);
    assert_eq!(table.get_value(0), Some(TokenValue::Primary('a')));
    assert_eq!(table.get_value(1), Some(TokenValue::Primary('b')));
    assert_eq!(table.get_value(2), Some(TokenValue::Pair(0, 1)));
    assert_eq!(table.get_value(3), None);
    assert_eq!(table.get_token(TokenValue::Primary('b')), Some(1));
    assert_eq!(table.get_token(TokenValue::Pair(0, 1)), Some(2));
    assert_eq!(table.get_token(TokenValue::Pair(1, 0)), None);
    assert!(table.contains_value(TokenValue::Pair(0, 1)));
    assert!(!table.contains_value(TokenValue::Primary('\u{1}')));
}

#[test]
fn added_token_does_not_move_on() {
    let mut table = TokenTable::new();
    table.add_token(TokenValue::Primary('a'));
    assert_eq!(table.next_token(), 0);
    assert_eq!(table.get_value(0), Some(TokenValue::Primary('a')));
    table.add_token(TokenValue::Primary('b'));
    assert_eq!(table.get_value(0), Some(TokenValue::Primary('b')));
    assert_eq!(table.get_token(TokenValue::Primary('a')), Some(0));
    assert_eq!(table.get_token(TokenValue::Primary('b')), Some(0));
    assert_eq!(table.new_token(TokenValue::Primary('c')), 0);
    assert_eq!(table.get_value(0), Some(TokenValue::Primary('c')));
    assert_eq!(table.next_token(), 1);
}

#[test]
fn values_with_the_same_numbers_stay_apart() {
    let mut table = TokenTable::new();
    let a = table.new_token(TokenValue::Primary('\u{0}'));
    let b = table.new_token(TokenValue::Pair(0, 0));
    let c = table.new_token(TokenValue::Pair(0, 97));
    let d = table.new_token(TokenValue::Primary('a'));
    let e = table.new_token(TokenValue::Pair(97, 0));
    let f = table.new_token(TokenValue::Pair(u32::MAX, u32::MAX));
    let g = table.new_token(TokenValue::Primary(char::MAX));
    assert_eq!(table.get_token(TokenValue::Primary('\u{0}')), Some(a));
    assert_eq!(table.get_token(TokenValue::Pair(0, 0)), Some(b));
    assert_eq!(table.get_token(TokenValue::Pair(0, 97)), Some(c));
    assert_eq!(table.get_token(TokenValue::Primary('a')), Some(d));
    assert_eq!(table.get_token(TokenValue::Pair(97, 0)), Some(e));
    assert_eq!(table.get_token(TokenValue::Pair(u32::MAX, u32::MAX)), Some(f));
    assert_eq!(table.get_token(TokenValue::Primary(char::MAX)), Some(g));
    assert_eq!(vec![a, b, c, d, e, f, g], vec![0, 1, 2, 3, 4, 5, 6]);
}

#[test]
fn values_are_described() {
    assert_eq!(TokenValue::Primary('x').describe(), "\"x\"");
    assert_eq!(TokenValue::Primary('"').describe(), "\"\"\"");
    assert_eq!(TokenValue::Pair(3, 14).describe(), "3 + 14");
    assert_eq!(TokenValue::Pair(0, 4294967295).describe(), "0 + 4294967295");
}

#[test]
fn characters_become_primary_tokens() {
    let mut table = TokenTable::new();
    let tokens = string_to_primary_tokens("abcab", &mut table);
    assert_eq!(tokens, vec![0, 1, 2, 0, 1]);
    assert_eq!(table.next_token(), 3);
    assert_eq!(table.get_value(2), Some(TokenValue::Primary('c')));
    let more = string_to_primary_tokens("cad", &mut table);
    assert_eq!(more, vec![2, 0, 3]);
    assert_eq!(string_to_primary_tokens("", &mut table), Vec::<u32>::new());
}

#[test]
fn pairs_are_merged_into_the_table() {
    let mut table = TokenTable::new();
    let tokens = string_to_primary_tokens("ababcabab", &mut table);
    fill_token_table(&tokens, &mut table);
    assert_eq!(table.next_token(), 5);
    assert_eq!(table.get_value(3), Some(TokenValue::Pair(0, 1)));
    assert_eq!(table.get_value(4), Some(TokenValue::Pair(3, 3)));
    assert_eq!(decode_token(0, &table), "a");
    assert_eq!(decode_token(2, &table), "c");
    assert_eq!(decode_token(3, &table), "ab");
    assert_eq!(decode_token(4, &table), "abab");
    assert_eq!(decode_token(5, &table), "");
    assert_eq!(tokens, vec![0, 1, 0, 1, 2, 0, 1, 0, 1]);
}

#[test]
fn nothing_is_merged_where_no_pair_repeats() {
    let mut table = TokenTable::new();
    let tokens = string_to_primary_tokens("abcdedcba", &mut table);
    fill_token_table(&tokens, &mut table);
    assert_eq!(table.next_token(), 5);
    fill_token_table(&vec![], &mut table);
    fill_token_table(&vec![1], &mut table);
    fill_token_table(&vec![1, 1], &mut table);
    assert_eq!(table.next_token(), 5);
}

#[test]
fn equally_frequent_pairs_give_way_to_the_first() {
    let mut table = TokenTable::new();
    let tokens = string_to_primary_tokens("abcabc", &mut table);
    assert_eq!(tokens, vec![0, 1, 2, 0, 1, 2]);
    // pairs (0, 1) and (1, 2) both occur twice; (0, 1) is met first
    fill_token_table(&tokens, &mut table);
    assert_eq!(table.get_value(3), Some(TokenValue::Pair(0, 1)));
    assert_eq!(decode_token(3, &table), "ab");
    // then 3 2 3 2: (3, 2) occurs twice
    assert_eq!(table.get_value(4), Some(TokenValue::Pair(3, 2)));
    assert_eq!(decode_token(4, &table), "abc");
    assert_eq!(table.get_value(5), None);

    let mut table = TokenTable::new();
    // z=0 y=1 x=2: pairs (0, 1) and (1, 2) occur twice again, and (2, 1), (1, 0) too
    let tokens = string_to_primary_tokens("zyxzyx!xyzxyz", &mut table);
    fill_token_table(&tokens, &mut table);
    assert_eq!(table.get_value(4), Some(TokenValue::Pair(0, 1)));
    assert_eq!(decode_token(4, &table), "zy");
}

#[test]
fn tokens_are_decoded_whatever_their_order() {
    let mut table = TokenTable::new();
    assert_eq!(table.new_token(TokenValue::Pair(1, 2)), 0);
    assert_eq!(table.new_token(TokenValue::Primary('x')), 1);
    assert_eq!(table.new_token(TokenValue::Primary('y')), 2);
    assert_eq!(table.new_token(TokenValue::Pair(0, 7)), 3);
    assert_eq!(decode_token(0, &table), "xy");
    assert_eq!(decode_token(3, &table), "xy");
    assert_eq!(decode_token(7, &table), "");
    assert_eq!(try_decode_token(0, &table), Some("xy".to_string()));
    assert_eq!(try_decode_token(3, &table), Some("xy".to_string()));
    assert_eq!(try_decode_token(9, &table), Some(String::new()));
}

#[test]
fn pairs_that_contain_themselves_are_not_decoded() {
    let mut table = TokenTable::new();
    table.new_token(TokenValue::Pair(0, 0));
    table.new_token(TokenValue::Primary('a'));
    table.new_token(TokenValue::Pair(1, 3));
    table.new_token(TokenValue::Pair(2, 1));
    table.new_token(TokenValue::Pair(1, 1));
    assert_eq!(try_decode_token(0, &table), None);
    assert_eq!(try_decode_token(2, &table), None);
    assert_eq!(try_decode_token(3, &table), None);
    assert_eq!(try_decode_token(1, &table), Some("a".to_string()));
    assert_eq!(try_decode_token(4, &table), Some("aa".to_string()));
    assert_eq!(decode_token(4, &table), "aa");
}

#[test]
fn long_texts_are_decoded() {
    let mut table = TokenTable::new();
    table.new_token(TokenValue::Primary('a'));
    for token in 0..16u32 {
        table.new_token(TokenValue::Pair(token, token));
    }
    assert_eq!(try_decode_token(16, &table).map(|text| text.len()), Some(1 << 16));
    assert_eq!(decode_token(10, &table).len(), 1 << 10);
}

#[test]
fn known_characters_take_no_new_token() {
    let mut table = TokenTable::new();
    let tokens = string_to_primary_tokens(&"ab".repeat(5000), &mut table);
    assert_eq!(tokens.len(), 10000);
    assert_eq!(table.next_token(), 2);
}

#[test]
fn merging_stops_after_two_hundred_rounds() {
    let mut table = TokenTable::new();
    let mut content = String::new();
    for _ in 0..2048 {
        content.push_str("ab");
    }
    let tokens = string_to_primary_tokens(&content, &mut table);
    fill_token_table(&tokens, &mut table);
    // 4096 tokens halve with each round until two are left: 11 rounds fill tokens 2 to 12
    assert_eq!(table.next_token(), 13);
    assert_eq!(decode_token(12, &table).len(), 2048);

    let mut table = TokenTable::new();
    let mut long: Vec<u32> = Vec::new();
    for i in 0..300u32 {
        table.new_token(TokenValue::Primary(char::from_u32(0x4e00 + i).unwrap()));
    }
    // pair (i, i) repeated, for 250 different i: one round for each, most frequent first
    for i in 0..250u32 {
        for _ in 0..(3 + i as usize) {
            long.push(i);
        }
        long.push(299);
    }
    fill_token_table(&long, &mut table);
    assert_eq!(table.next_token(), 500);
    assert_eq!(table.get_value(300), Some(TokenValue::Pair(249, 249)));
}

#[test]
fn copy_of_a_table() {
    let mut table = TokenTable::new();
    table.new_token(TokenValue::Primary('a'));
    table.new_token(TokenValue::Pair(0, 0));
    let mut copy = table.clone();
    assert_eq!(copy.next_token(), 2);
    assert_eq!(copy.get_value(1), Some(TokenValue::Pair(0, 0)));
    assert_eq!(copy.get_token(TokenValue::Primary('a')), Some(0));
    copy.new_token(TokenValue::Primary('b'));
    assert_eq!(table.next_token(), 2);
    assert_eq!(table.get_value(2), None);
}
