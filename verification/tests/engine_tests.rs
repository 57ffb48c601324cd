use markov::Markov;
use markov::MarkovError;
use markov::Token;

fn word(w: &str) -> Token {
    Token::Word(String::from(w))
}

#[test]
fn empty_sentences_contribute_no_windows() {
    let mut m = Markov::new(2);
    m.feed_text(".");
    assert_eq!(m.len(), 0);
    assert_eq!(m.total(), 0);
}

#[test]
fn three_word_sentence_trains_three_windows() {
    let mut m = Markov::new(2);
    m.feed_text("a b c.");
    assert_eq!(m.len(), 3);
    assert_eq!(m.total(), 3);
    assert_eq!(m.count_for(&vec![Token::Start, word("a")], &word("b")), 1);
    assert_eq!(m.count_for(&vec![word("a"), word("b")], &word("c")), 1);
    assert_eq!(m.count_for(&vec![word("b"), word("c")], &Token::End), 1);
    assert_eq!(m.count_for(&vec![word("a"), word("b")], &word("z")), 0);
    assert_eq!(m.count_for(&vec![word("z"), word("q")], &word("c")), 0);
}

#[test]
fn counts_accumulate_over_sentences_and_calls() {
    let mut m = Markov::new(1);
    m.feed_text("x y. x y.");
    assert_eq!(m.count_for(&vec![Token::Start], &word("x")), 2);
    assert_eq!(m.count_for(&vec![word("x")], &word("y")), 2);
    assert_eq!(m.count_for(&vec![word("y")], &Token::End), 2);
    assert_eq!(m.count_for(&vec![Token::Start], &Token::End), 1);
}

#[test]
fn training_twice_doubles_every_count() {
    let mut once = Markov::new(2);
    once.feed_text("a b c.");
    let mut twice = Markov::new(2);
    twice.feed_text("a b c.");
    twice.feed_text("a b c.");
    assert_eq!(twice.len(), once.len());
    let pairs = vec![
        (vec![Token::Start, word("a")], word("b")),
        (vec![word("a"), word("b")], word("c")),
        (vec![word("b"), word("c")], Token::End),
    ];
    for (prefix, succ) in pairs {
        assert_eq!(twice.count_for(&prefix, &succ), 2 * once.count_for(&prefix, &succ));
    }
}

#[test]
fn untrained_model_has_no_start_state() {
    let m = Markov::new(2);
    assert_eq!(m.markov(), Err(MarkovError::NoStartState));
}

#[test]
fn single_sentence_is_reproduced_exactly() {
    let mut m = Markov::new(2);
    m.feed_text("the quick brown fox");
    for _ in 0..5 {
        assert_eq!(m.markov(), Ok(String::from(" the quick brown fox .")));
    }
}

#[test]
fn single_word_sentence_is_reproduced() {
    let mut m = Markov::new(1);
    m.feed_text("hi");
    for _ in 0..5 {
        assert_eq!(m.markov(), Ok(String::from(" hi .")));
    }
}

#[test]
fn predict_follows_a_trained_prefix() {
    let mut m = Markov::new(2);
    m.feed_text("a b c");
    assert_eq!(m.predict_from_tokens(vec![word("a"), word("b")]), Some(word("c")));
    assert_eq!(m.predict_from_tokens(vec![word("z"), word("q")]), None);
}

#[test]
fn accessors_report_the_configuration() {
    let m = Markov::new(3);
    assert_eq!(m.prefix_len(), 3);
    assert_eq!(m.total(), 0);
    assert_eq!(m.len(), 0);
}

#[test]
fn generated_text_is_a_walk_of_the_model() {
    let mut m = Markov::new(1);
    m.feed_text("a b. b c. c a.");
    for _ in 0..20 {
        let out = m.markov().expect("a trained model generates");
        assert!(out.starts_with(' '));
        assert!(out.ends_with(" .") || !out.is_empty());
        for w in out.split_whitespace() {
            assert!(w == "a" || w == "b" || w == "c" || w == ".");
        }
    }
}
