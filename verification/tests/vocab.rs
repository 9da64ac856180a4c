use bpe_markov::vocab::{Vocabulary, VocabularyBuilder};

#[test]
fn try_add_token() {
    let mut vocab = Vocabulary::new();
    assert_eq!(vocab.try_add_token("hellow".to_string()), Some(0));
    assert_eq!(vocab.try_add_token("hellow".to_string()), None);
    assert_eq!(vocab.get_token_id("hellow"), Some(0));

    assert_eq!(vocab.try_add_token("aboba".to_string()), Some(1));
    assert_eq!(vocab.try_add_token("aboba".to_string()), None);
    assert_eq!(vocab.get_token_id("aboba"), Some(1));

    assert_eq!(vocab.try_add_token("achtung".to_string()), Some(2));
    assert_eq!(vocab.try_add_token("achtung".to_string()), None);
    assert_eq!(vocab.get_token_id("achtung"), Some(2));

    assert_eq!(vocab.get_token_id("world"), None);
}

#[test]
fn add_token() {
    let mut vocab = Vocabulary::new();
    vocab.add_token("hellow".to_string(), 0);
    assert_eq!(vocab.get_token_id("hellow"), Some(0));

    vocab.add_token("hellow".to_string(), 0);
    assert_eq!(vocab.get_token_id("hellow"), Some(0));

    vocab.add_token("aboba".to_string(), 0);
    assert_eq!(vocab.get_token_id("aboba"), Some(0));

    vocab.add_token("hellow".to_string(), 1);
    assert_eq!(vocab.get_token_id("hellow"), Some(1));
}

#[test]
fn builder1() {
    let vocab = VocabularyBuilder::new()
        .try_add_token("hellow".to_string())
        .try_add_token("world".to_string())
        .try_add_token("aboba".to_string())
        .build();

    assert_eq!(vocab.get_token(0), Some("hellow"));
    assert_eq!(vocab.get_token(1), Some("world"));
    assert_eq!(vocab.get_token(2), Some("aboba"));
    assert_eq!(vocab.get_token(3), None);
}

#[test]
fn builder2() {
    let vocab = VocabularyBuilder::new()
        .add_token("hellow".to_string(), 0)
        .add_token("world".to_string(), 2)
        .add_token("aboba".to_string(), 5)
        .try_add_token("lol".to_string())
        .try_add_token("foo".to_string())
        .build();

    assert_eq!(vocab.get_token(0), Some("hellow"));
    assert_eq!(vocab.get_token(2), Some("world"));
    assert_eq!(vocab.get_token(5), Some("aboba"));
    assert_eq!(vocab.get_token(1), Some("lol"));
    assert_eq!(vocab.get_token(3), Some("foo"));

    assert_eq!(vocab.get_token(6), None);
}

#[test]
fn repeated_insertion_changes_nothing() {
    let mut vocab = Vocabulary::new();
    assert_eq!(vocab.try_add_token("ab".to_string()), Some(0));
    assert_eq!(vocab.len(), 1);
    assert_eq!(vocab.try_add_token("ab".to_string()), None);
    assert_eq!(vocab.try_add_token("ab".to_string()), None);
    assert_eq!(vocab.len(), 1);
    assert_eq!(vocab.get_token_id("ab"), Some(0));
    assert_eq!(vocab.get_token(0), Some("ab"));
    assert_eq!(vocab.get_token(1), None);
}

#[test]
fn forced_binding_overwrites_and_moves() {
    let mut vocab = Vocabulary::new();
    vocab.add_token("hellow".to_string(), 0);
    vocab.add_token("aboba".to_string(), 0);
    assert_eq!(vocab.len(), 1);
    assert_eq!(vocab.get_token(0), Some("aboba"));
    assert_eq!(vocab.get_token_id("hellow"), None);
    assert!(!vocab.contains_token("hellow"));
    assert!(vocab.contains_token("aboba"));

    vocab.add_token("aboba".to_string(), 4);
    assert_eq!(vocab.len(), 1);
    assert_eq!(vocab.get_token(0), None);
    assert_eq!(vocab.get_token(4), Some("aboba"));
    assert_eq!(vocab.get_token_id("aboba"), Some(4));
    assert!(!vocab.contains_token_id(0));
    assert!(vocab.contains_token_id(4));
}

#[test]
fn automatic_identifiers_fill_the_gaps() {
    let mut vocab = Vocabulary::new();
    vocab.add_token("[UNK]".to_string(), 0);
    vocab.add_token("x".to_string(), 1);
    vocab.add_token("y".to_string(), 3);
    assert_eq!(vocab.try_add_token("a".to_string()), Some(2));
    assert_eq!(vocab.try_add_token("b".to_string()), Some(4));
    vocab.add_token("y".to_string(), 9);
    assert_eq!(vocab.try_add_token("c".to_string()), Some(3));
    assert_eq!(vocab.try_add_token("d".to_string()), Some(5));
    assert_eq!(vocab.len(), 7);
}

#[test]
fn highest_identifier_can_be_bound() {
    let mut vocab = Vocabulary::new();
    vocab.add_token("last".to_string(), u32::MAX);
    assert_eq!(vocab.get_token(u32::MAX), Some("last"));
    assert_eq!(vocab.try_add_token("first".to_string()), Some(0));
    assert_eq!(vocab.len(), 2);
}

#[test]
fn empty_vocabulary() {
    let vocab = Vocabulary::new();
    assert_eq!(vocab.len(), 0);
    assert_eq!(vocab.get_token(0), None);
    assert_eq!(vocab.get_token_id(""), None);
    assert!(!vocab.contains_token(""));
    assert!(!vocab.contains_token_id(0));
    let built = VocabularyBuilder::new().build();
    assert_eq!(built.len(), 0);
}

#[test]
fn copy_binds_the_same() {
    let mut vocab = Vocabulary::new();
    vocab.add_token("[UNK]".to_string(), 0);
    vocab.add_token("x".to_string(), 5);
    vocab.try_add_token("y".to_string());
    let mut copy = vocab.clone();
    assert_eq!(copy.len(), 3);
    assert_eq!(copy.token_ids(), vec![0, 1, 5]);
    assert_eq!(copy.get_token(1), Some("y"));
    assert_eq!(copy.get_token_id("x"), Some(5));
    assert_eq!(copy.try_add_token("z".to_string()), Some(2));
    assert_eq!(vocab.len(), 3);
    assert_eq!(vocab.get_token(2), None);
}
