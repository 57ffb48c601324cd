use markov::Token;
use markov::tokenize::get_tokens;

fn word(w: &str) -> Token {
    Token::Word(String::from(w))
}

#[test]
fn empty_sentence_is_start_end() {
    let toks = get_tokens("");
    assert_eq!(toks, vec![Token::Start, Token::End]);
}

#[test]
fn single_word_sentence() {
    let toks = get_tokens("hello");
    assert_eq!(toks, vec![Token::Start, word("hello"), Token::End]);
}

#[test]
fn words_are_split_on_whitespace_runs() {
    let toks = get_tokens("  the\tquick \n brown  fox ");
    assert_eq!(
        toks,
        vec![
            Token::Start,
            word("the"),
            word("quick"),
            word("brown"),
            word("fox"),
            Token::End
        ]
    );
}

#[test]
fn words_keep_case_and_punctuation() {
    let toks = get_tokens("Don't STOP, me");
    assert_eq!(
        toks,
        vec![
            Token::Start,
            word("Don't"),
            word("STOP,"),
            word("me"),
            Token::End
        ]
    );
}
