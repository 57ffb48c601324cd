use markov::MarkovError;
use markov::Token;
use markov::sample::{weighted_choice, weighted_index, weighted_pick};

fn word(w: &str) -> Token {
    Token::Word(String::from(w))
}

#[test]
fn single_pair_always_returns_it() {
    let items = vec![(word("X"), 5u64)];
    for _ in 0..20 {
        assert_eq!(weighted_choice(&items), Ok(word("X")));
    }
}

#[test]
fn zero_weight_is_invalid() {
    let items = vec![(word("A"), 1u64), (word("B"), 0u64)];
    assert_eq!(weighted_choice(&items), Err(MarkovError::InvalidDistribution));
}

#[test]
fn empty_input_is_invalid() {
    let items: Vec<(Token, u64)> = Vec::new();
    assert_eq!(weighted_choice(&items), Err(MarkovError::InvalidDistribution));
    let ws: Vec<u64> = Vec::new();
    assert_eq!(weighted_pick(&ws), Err(MarkovError::InvalidDistribution));
}

#[test]
fn index_of_a_draw_is_deterministic() {
    let ws = vec![2u64, 3u64];
    assert_eq!(weighted_index(&ws, 0), 0);
    assert_eq!(weighted_index(&ws, 1), 0);
    assert_eq!(weighted_index(&ws, 2), 1);
    assert_eq!(weighted_index(&ws, 4), 1);
}

#[test]
fn both_items_of_a_fair_pair_appear() {
    let items = vec![(word("A"), 1u64), (word("B"), 1u64)];
    let mut saw_a = false;
    let mut saw_b = false;
    for _ in 0..200 {
        match weighted_choice(&items) {
            Ok(t) => {
                if t == word("A") {
                    saw_a = true;
                } else if t == word("B") {
                    saw_b = true;
                } else {
                    panic!("weighted_choice returned an item that was not offered");
                }
            },
            Err(e) => panic!("weighted_choice failed on a valid distribution: {:?}", e),
        }
    }
    assert!(saw_a && saw_b);
}
