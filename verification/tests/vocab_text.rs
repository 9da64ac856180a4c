use bpe_markov::tokenizers::train;
use bpe_markov::vocab::{Vocabulary, VocabularyBuilder};

fn same_bindings(a: &Vocabulary, b: &Vocabulary) -> bool {
    a.len() == b.len() && a.token_ids() == b.token_ids() && a.token_ids().iter().all(|id| a.get_token(*id) == b.get_token(*id))
}

#[test]
fn entries_are_written_by_ascending_identifier() {
    let vocab = VocabularyBuilder::new()
        .add_token("hellow".to_string(), 0)
        .add_token("world".to_string(), 2)
        .add_token("aboba".to_string(), 5)
        .try_add_token("lol".to_string())
        .try_add_token("foo".to_string())
        .build();
    assert_eq!(
        vocab.serialize(),
        "0 = \"hellow\"\n1 = \"lol\"\n2 = \"world\"\n3 = \"foo\"\n5 = \"aboba\"\n"
    );
    assert_eq!(vocab.token_ids(), vec![0, 1, 2, 3, 5]);
}

#[test]
fn empty_vocabulary_is_empty_text() {
    assert_eq!(Vocabulary::new().serialize(), "");
    let parsed = Vocabulary::parse("").unwrap();
    assert_eq!(parsed.len(), 0);
    assert_eq!(parsed.token_ids(), Vec::<u32>::new());
}

#[test]
fn identifiers_are_written_in_base_ten() {
    let vocab = VocabularyBuilder::new()
        .add_token("z".to_string(), 0)
        .add_token("n".to_string(), 9)
        .add_token("t".to_string(), 10)
        .add_token("h".to_string(), 1907)
        .add_token("m".to_string(), 4294967295)
        .build();
    assert_eq!(
        vocab.serialize(),
        "0 = \"z\"\n9 = \"n\"\n10 = \"t\"\n1907 = \"h\"\n4294967295 = \"m\"\n"
    );
}

#[test]
fn text_is_read_back() {
    let vocab = Vocabulary::parse("0 = \"[UNK]\"\n1 = \"a\"\n2 = \"b\"\n7 = \"ab\"\n").unwrap();
    assert_eq!(vocab.len(), 4);
    assert_eq!(vocab.get_token(0), Some("[UNK]"));
    assert_eq!(vocab.get_token(1), Some("a"));
    assert_eq!(vocab.get_token(2), Some("b"));
    assert_eq!(vocab.get_token(7), Some("ab"));
    assert_eq!(vocab.get_token_id("ab"), Some(7));
    let mut vocab = vocab;
    assert_eq!(vocab.try_add_token("c".to_string()), Some(3));
}

#[test]
fn writing_and_reading_gives_the_vocabulary_back() {
    let corpus = "Sed alias eos dolorem inventore. Tenetur consequatur repellendus nostrum unde minima laudantium incidunt perspiciatis. Ut voluptas occaecati eaque quo placeat occaecati provident.";
    let vocab = train(corpus, 80);
    let text = vocab.serialize();
    assert_eq!(text.lines().count(), vocab.len());
    let back = Vocabulary::parse(&text).unwrap();
    assert!(same_bindings(&vocab, &back));
    assert_eq!(back.serialize(), text);

    let sparse = VocabularyBuilder::new()
        .add_token("quote \" inside".to_string(), 3)
        .add_token("".to_string(), 40)
        .add_token("= \"".to_string(), 41)
        .add_token("ünïcödé ✓".to_string(), 4294967295)
        .build();
    let back = Vocabulary::parse(&sparse.serialize()).unwrap();
    assert!(same_bindings(&sparse, &back));
    assert_eq!(back.get_token(3), Some("quote \" inside"));
    assert_eq!(back.get_token(40), Some(""));
}

#[test]
fn line_feed_in_a_token_does_not_survive() {
    let vocab = VocabularyBuilder::new().add_token("\n".to_string(), 0).build();
    assert_eq!(vocab.serialize(), "0 = \"\n\"\n");
    assert!(Vocabulary::parse(&vocab.serialize()).is_none());

    let sly = VocabularyBuilder::new().add_token("a\"\n1 = \"b".to_string(), 0).build();
    assert_eq!(sly.serialize(), "0 = \"a\"\n1 = \"b\"\n");
    let back = Vocabulary::parse(&sly.serialize()).unwrap();
    assert_eq!(back.len(), 2);
    assert_eq!(back.get_token(0), Some("a"));
    assert_eq!(back.get_token(1), Some("b"));
}

#[test]
fn last_line_may_lack_its_line_feed() {
    let vocab = Vocabulary::parse("0 = \"a\"\n1 = \"b\"").unwrap();
    assert_eq!(vocab.len(), 2);
    assert_eq!(vocab.get_token(1), Some("b"));
}

#[test]
fn later_lines_override_earlier_ones() {
    let vocab = Vocabulary::parse("1 = \"a\"\n1 = \"b\"\n2 = \"b\"\n").unwrap();
    assert_eq!(vocab.len(), 1);
    assert_eq!(vocab.get_token(1), None);
    assert_eq!(vocab.get_token(2), Some("b"));
    assert_eq!(vocab.get_token_id("a"), None);
}

#[test]
fn leading_zeros_are_read() {
    let vocab = Vocabulary::parse("007 = \"x\"\n").unwrap();
    assert_eq!(vocab.get_token(7), Some("x"));
    assert_eq!(vocab.serialize(), "7 = \"x\"\n");
    let vocab = Vocabulary::parse("00000000000000000000004294967295 = \"x\"\n").unwrap();
    assert_eq!(vocab.get_token(4294967295), Some("x"));
}

#[test]
fn malformed_lines_are_refused() {
    assert!(Vocabulary::parse("\n").is_none());
    assert!(Vocabulary::parse("0 = \"a\"\n\n").is_none());
    assert!(Vocabulary::parse("x = \"a\"\n").is_none());
    assert!(Vocabulary::parse(" 1 = \"a\"\n").is_none());
    assert!(Vocabulary::parse("1= \"a\"\n").is_none());
    assert!(Vocabulary::parse("1 =\"a\"\n").is_none());
    assert!(Vocabulary::parse("1 = a\"\n").is_none());
    assert!(Vocabulary::parse("1 = \"a\n").is_none());
    assert!(Vocabulary::parse("1 = \"\n").is_none());
    assert!(Vocabulary::parse("1 = \"a\" \n").is_none());
    assert!(Vocabulary::parse("1").is_none());
    assert!(Vocabulary::parse("-1 = \"a\"\n").is_none());
    assert!(Vocabulary::parse("4294967296 = \"a\"\n").is_none());
    assert!(Vocabulary::parse("99999999999999999999999999 = \"a\"\n").is_none());
    assert!(Vocabulary::parse("1 = \"a\"\r\n").is_none());
    assert!(Vocabulary::parse("١ = \"a\"\n").is_none());
    assert!(Vocabulary::parse("1 = \"\"\n").is_some());
    assert!(Vocabulary::parse("1 = \"\"\"\n").is_some());
}

#[test]
fn line_feeds_are_found_before_writing() {
    assert!(Vocabulary::new().fits_lines());
    let vocab = VocabularyBuilder::new()
        .add_token("a".to_string(), 0)
        .add_token("quote \" and = inside".to_string(), 7)
        .add_token("".to_string(), 9)
        .build();
    assert!(vocab.fits_lines());
    let back = Vocabulary::parse(&vocab.serialize()).unwrap();
    assert_eq!(back.token_ids(), vec![0, 7, 9]);

    let with_feed = VocabularyBuilder::new()
        .add_token("a".to_string(), 0)
        .add_token("b\nc".to_string(), 1)
        .build();
    assert!(!with_feed.fits_lines());
    assert!(!train("one\ntwo", 30).fits_lines());
    assert!(train("one two", 30).fits_lines());
    assert!(train("one\rtwo", 30).fits_lines());
}
