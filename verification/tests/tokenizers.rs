use bpe_markov::tokenizers::{chars_of, train, BpeTokenizer, Tokenizer};
use bpe_markov::vocab::{Vocabulary, VocabularyBuilder};

#[test]
fn bpe_fill_vocab1() {
    let tokenizer = BpeTokenizer::new();
    let mut vocab = Vocabulary::new();

    tokenizer.fill_vocab("abcdedcba", &mut vocab);
    assert!(vocab.contains_token("a"));
    assert!(vocab.contains_token("b"));
    assert!(vocab.contains_token("c"));
    assert!(vocab.contains_token("d"));
    assert!(vocab.contains_token("e"));
    assert!(!vocab.contains_token("f"));
}

#[test]
fn bpe_fill_vocab2() {
    let tokenizer = BpeTokenizer::new();
    let mut vocab = Vocabulary::new();

    tokenizer.fill_vocab("ababcabab", &mut vocab);
    assert!(vocab.contains_token("a"));
    assert!(vocab.contains_token("b"));
    assert!(vocab.contains_token("c"));
    assert!(vocab.contains_token("ab"));
    assert!(vocab.contains_token("abab"));
    assert!(!vocab.contains_token("abc"));
    assert!(!vocab.contains_token("ababc"));
    assert!(!vocab.contains_token("ababc"));
}

#[test]
fn bpe_tokenize1() {
    let tokenizer = BpeTokenizer::new();
    let vocab = VocabularyBuilder::new()
        .add_token("[UNK]".to_string(), 0)
        .add_token("a".to_string(), 1)
        .add_token("b".to_string(), 2)
        .add_token("ab".to_string(), 3)
        .add_token("bc".to_string(), 4)
        .build();

    let tokens = tokenizer.tokenize("abab", &vocab);
    assert_eq!(tokens, vec![3, 3]);

    let tokens = tokenizer.tokenize("!abab", &vocab);
    assert_eq!(tokens, vec![0, 3, 3]);

    let tokens = tokenizer.tokenize("abc", &vocab);
    assert_eq!(tokens, vec![3, 0]);
}

#[test]
fn default_size_limit() {
    let tokenizer = BpeTokenizer::new();
    assert_eq!(tokenizer.max_size, 100);
}

#[test]
fn no_pair_repeats_no_merge() {
    let tokenizer = BpeTokenizer::new();
    let mut vocab = Vocabulary::new();
    tokenizer.fill_vocab("abcdedcba", &mut vocab);
    assert_eq!(vocab.len(), 5);
    assert_eq!(vocab.get_token(0), Some("a"));
    assert_eq!(vocab.get_token(1), Some("b"));
    assert_eq!(vocab.get_token(2), Some("c"));
    assert_eq!(vocab.get_token(3), Some("d"));
    assert_eq!(vocab.get_token(4), Some("e"));
}

#[test]
fn merges_in_order_of_frequency() {
    let tokenizer = BpeTokenizer::new();
    let mut vocab = Vocabulary::new();
    tokenizer.fill_vocab("ababcabab", &mut vocab);
    assert_eq!(vocab.len(), 5);
    assert_eq!(vocab.get_token(0), Some("a"));
    assert_eq!(vocab.get_token(1), Some("b"));
    assert_eq!(vocab.get_token(2), Some("c"));
    assert_eq!(vocab.get_token(3), Some("ab"));
    assert_eq!(vocab.get_token(4), Some("abab"));
}

#[test]
fn ties_go_to_the_pair_met_first() {
    let tokenizer = BpeTokenizer { max_size: 4 };
    let mut vocab = Vocabulary::new();
    // "xy" and "yz" both occur twice; "xy" is met first.
    tokenizer.fill_vocab("xyzxyz", &mut vocab);
    assert_eq!(vocab.len(), 4);
    assert_eq!(vocab.get_token(3), Some("xy"));
    assert!(!vocab.contains_token("yz"));

    let tokenizer = BpeTokenizer { max_size: 4 };
    let mut vocab = Vocabulary::new();
    // "ba" occurs twice and so does "ab"; "ab" is met first.
    tokenizer.fill_vocab("abab!ba", &mut vocab);
    assert_eq!(vocab.get_token(3), Some("ab"));
    assert!(!vocab.contains_token("ba"));
}

#[test]
fn size_limit_bounds_the_merges() {
    let mut vocab = Vocabulary::new();
    BpeTokenizer { max_size: 3 }.fill_vocab("ababcabab", &mut vocab);
    assert_eq!(vocab.len(), 3);
    assert!(!vocab.contains_token("ab"));

    let mut vocab = Vocabulary::new();
    BpeTokenizer { max_size: 0 }.fill_vocab("ababcabab", &mut vocab);
    assert_eq!(vocab.len(), 3);

    let mut vocab = Vocabulary::new();
    BpeTokenizer { max_size: 4 }.fill_vocab("ababcabab", &mut vocab);
    assert_eq!(vocab.len(), 4);
    assert!(vocab.contains_token("ab"));
    assert!(!vocab.contains_token("abab"));
}

#[test]
fn overlapping_occurrences_merge_from_the_left() {
    let mut vocab = Vocabulary::new();
    BpeTokenizer::new().fill_vocab("aaaaa", &mut vocab);
    // a a a a a -> aa aa a -> aaaa a
    assert_eq!(vocab.get_token(0), Some("a"));
    assert_eq!(vocab.get_token(1), Some("aa"));
    assert_eq!(vocab.get_token(2), None);
    assert_eq!(vocab.len(), 2);

    let mut vocab = Vocabulary::new();
    BpeTokenizer::new().fill_vocab("aaaaaaaa", &mut vocab);
    // 8 a -> 4 aa (pair aa+aa occurs 3 times) -> 2 aaaa -> no pair repeats
    assert_eq!(vocab.get_token(1), Some("aa"));
    assert_eq!(vocab.get_token(2), Some("aaaa"));
    assert_eq!(vocab.len(), 3);
}

#[test]
fn training_from_scratch_reserves_the_unknown_token() {
    let vocab = train("", 2000);
    assert_eq!(vocab.len(), 1);
    assert_eq!(vocab.get_token(0), Some("[UNK]"));

    let vocab = train("a", 2000);
    assert_eq!(vocab.len(), 2);
    assert_eq!(vocab.get_token(0), Some("[UNK]"));
    assert_eq!(vocab.get_token(1), Some("a"));

    let vocab = train("ababcabab", 2000);
    assert_eq!(vocab.len(), 6);
    assert_eq!(vocab.get_token(0), Some("[UNK]"));
    assert_eq!(vocab.get_token(1), Some("a"));
    assert_eq!(vocab.get_token(2), Some("b"));
    assert_eq!(vocab.get_token(3), Some("c"));
    assert_eq!(vocab.get_token(4), Some("ab"));
    assert_eq!(vocab.get_token(5), Some("abab"));
}

#[test]
fn training_is_repeatable() {
    let corpus = "Sed alias eos dolorem inventore. Tenetur consequatur repellendus nostrum unde minima laudantium incidunt perspiciatis.";
    let first = train(corpus, 60);
    let unrelated = train("something else entirely", 40);
    let second = train(corpus, 60);
    assert_eq!(first.len(), second.len());
    assert!(unrelated.len() <= 40);
    for id in 0..80u32 {
        assert_eq!(first.get_token(id), second.get_token(id));
    }
    let tokenizer = BpeTokenizer::new();
    assert_eq!(tokenizer.tokenize(corpus, &first), tokenizer.tokenize(corpus, &second));
}

#[test]
fn known_merge_is_reused() {
    let mut vocab = VocabularyBuilder::new()
        .add_token("[UNK]".to_string(), 0)
        .add_token("ab".to_string(), 7)
        .build();
    BpeTokenizer::new().fill_vocab("abab", &mut vocab);
    assert_eq!(vocab.get_token(1), Some("a"));
    assert_eq!(vocab.get_token(2), Some("b"));
    assert_eq!(vocab.get_token(7), Some("ab"));
    assert_eq!(vocab.get_token(3), None);
    assert_eq!(vocab.len(), 4);
}

#[test]
fn encoding_empty_text() {
    let tokenizer = BpeTokenizer::new();
    let vocab = VocabularyBuilder::new().add_token("[UNK]".to_string(), 0).build();
    assert_eq!(tokenizer.tokenize("", &vocab), Vec::<u32>::new());
    assert_eq!(tokenizer.tokenize("", &Vocabulary::new()), Vec::<u32>::new());
}

#[test]
fn unknown_pieces_get_the_unknown_identifier() {
    let tokenizer = BpeTokenizer::new();
    let vocab = VocabularyBuilder::new()
        .add_token("a".to_string(), 1)
        .add_token("[UNK]".to_string(), 9)
        .build();
    assert_eq!(tokenizer.tokenize("a?a", &vocab), vec![1, 9, 1]);

    let no_unknown = VocabularyBuilder::new().add_token("a".to_string(), 1).build();
    assert_eq!(tokenizer.tokenize("a?a", &no_unknown), vec![1, 0, 1]);
}

#[test]
fn output_is_as_long_as_input_when_nothing_joins() {
    let tokenizer = BpeTokenizer::new();
    let vocab = VocabularyBuilder::new()
        .add_token("[UNK]".to_string(), 0)
        .add_token("a".to_string(), 1)
        .add_token("b".to_string(), 2)
        .add_token("ab".to_string(), 3)
        .build();
    assert_eq!(tokenizer.tokenize("ba", &vocab), vec![2, 1]);
    assert_eq!(tokenizer.tokenize("bbaa", &vocab), vec![2, 2, 1, 1]);
    assert_eq!(tokenizer.tokenize("bab", &vocab), vec![2, 3]);
}

#[test]
fn chained_joins_in_one_pass() {
    let tokenizer = BpeTokenizer::new();
    let vocab = VocabularyBuilder::new()
        .add_token("[UNK]".to_string(), 0)
        .add_token("a".to_string(), 1)
        .add_token("b".to_string(), 2)
        .add_token("ab".to_string(), 3)
        .add_token("aba".to_string(), 4)
        .add_token("abab".to_string(), 5)
        .build();
    assert_eq!(tokenizer.tokenize("abab", &vocab), vec![5]);
    assert_eq!(tokenizer.tokenize("ababab", &vocab), vec![5, 3]);
}

#[test]
fn passes_repeat_until_nothing_joins() {
    let tokenizer = BpeTokenizer::new();
    let vocab = VocabularyBuilder::new()
        .add_token("[UNK]".to_string(), 0)
        .add_token("a".to_string(), 1)
        .add_token("b".to_string(), 2)
        .add_token("c".to_string(), 3)
        .add_token("bc".to_string(), 4)
        .add_token("abc".to_string(), 5)
        .build();
    // first pass: a bc; second pass: abc
    assert_eq!(tokenizer.tokenize("abc", &vocab), vec![5]);
    assert_eq!(tokenizer.tokenize("cabc", &vocab), vec![3, 5]);
}

#[test]
fn trained_vocabulary_encodes_its_corpus() {
    let vocab = train("ababcabab", 100);
    let tokenizer = BpeTokenizer::new();
    assert_eq!(tokenizer.tokenize("ababcabab", &vocab), vec![5, 3, 5]);
    assert_eq!(tokenizer.tokenize("abz", &vocab), vec![4, 0]);
}

#[test]
fn characters_beyond_ascii() {
    assert_eq!(chars_of("héllo, мир"), "héllo, мир".chars().collect::<Vec<char>>());
    assert_eq!(chars_of(""), Vec::<char>::new());
    let vocab = train("ééé", 10);
    assert_eq!(vocab.get_token(1), Some("é"));
    assert_eq!(vocab.get_token(2), Some("éé"));
    assert_eq!(BpeTokenizer::new().tokenize("éé", &vocab), vec![2]);
}

#[test]
fn library_root_names_the_main_types() {
    let vocab: bpe_markov::Vocabulary = bpe_markov::VocabularyBuilder::new()
        .add_token("a".to_string(), 1)
        .build();
    let tokenizer = <bpe_markov::BpeTokenizer as bpe_markov::Tokenizer>::new();
    let tokens: Vec<bpe_markov::TokenId> = bpe_markov::Tokenizer::tokenize(&tokenizer, "aa", &vocab);
    assert_eq!(tokens, vec![1, 1]);
    let mut chain = bpe_markov::MarkovChain::new();
    chain.train_chain(&tokens);
    assert_eq!(chain.next_token(1), Some(1));
    let list: bpe_markov::WeightedVec<u8> = bpe_markov::WeightedVec::new();
    assert_eq!(list.len(), 0);
}
