use rust_9cc::parse::LVars;
use rust_9cc::result::TokenizeError;
use rust_9cc::tokenize::{tokenize, Token, TokenKind, Tokens, UserInput};

/// The text that a token stands for.
fn spelling(token: &Token) -> String {
    match token.kind {
        TokenKind::Num => token.val.to_string(),
        _ => token.str.clone(),
    }
}

fn spelled(input: &str) -> String {
    let tokens = tokenize(input.to_string()).unwrap().tokens;
    tokens.iter().map(spelling).collect()
}

fn without_spaces(input: &str) -> String {
    input.chars().filter(|c| !c.is_ascii_whitespace()).collect()
}

#[test]
fn tokens_spell_the_input() {
    for input in [
        "a = 3 * -2; b1 = (a <= 20) != 7;",
        "1+2-300",
        " 1   + 2 -300    ",
        "x1y2 >= 0 == (z<1);\n\ty = 9223372036854775807 / 10;",
        "",
        " \t\r\n",
    ] {
        assert_eq!(spelled(input), without_spaces(input));
    }
}

#[test]
fn a_leading_zero_is_not_spelled() {
    let tokens = tokenize("007;".to_string()).unwrap().tokens;
    assert_eq!(tokens.len(), 2);
    assert_eq!(tokens[0].kind, TokenKind::Num);
    assert_eq!(tokens[0].val, 7);
    assert_eq!(spelled("007;"), "7;");
}

#[test]
fn tokenize_keeps_the_text_and_starts_with_no_variable() {
    let tokens = tokenize("a + 1;".to_string()).unwrap();
    assert_eq!(tokens.user_input, "a + 1;");
    assert_eq!(tokens.lvars, LVars::new());
    assert_eq!(tokens.len(), 4);
}

#[test]
fn an_unknown_character_is_rejected_with_the_input() {
    assert_eq!(
        tokenize("1 + %".to_string()),
        Err(TokenizeError::InvalidSyntax("1 + %".to_string()))
    );
    assert_eq!(
        tokenize("a $ b".to_string()),
        Err(TokenizeError::InvalidSyntax("a $ b".to_string()))
    );
}

#[test]
fn a_lone_bang_is_rejected() {
    assert_eq!(
        tokenize("1 ! 2".to_string()),
        Err(TokenizeError::InvalidSyntax("1 ! 2".to_string()))
    );
    assert_eq!(tokenize("!".to_string()), Err(TokenizeError::InvalidSyntax("!".to_string())));
    let mut input = UserInput::new("!".to_string());
    assert_eq!(input.parse_op(), None);
    assert_eq!(input.front(), Some(&'!'));
}

#[test]
fn letters_and_digits_after_a_letter_are_one_identifier() {
    let tokens = tokenize("1 + a1b".to_string()).unwrap().tokens;
    assert_eq!(tokens.len(), 3);
    assert_eq!(tokens[2].kind, TokenKind::Ident);
    assert_eq!(tokens[2].str, "a1b");
    assert_eq!(tokens[2].len, 3);
    assert_eq!(tokens[2].val, 0);
}

#[test]
fn a_digit_begins_a_number_even_before_letters() {
    let tokens = tokenize("12ab".to_string()).unwrap().tokens;
    assert_eq!(tokens.len(), 2);
    assert_eq!(tokens[0].kind, TokenKind::Num);
    assert_eq!(tokens[0].val, 12);
    assert_eq!(tokens[1].kind, TokenKind::Ident);
    assert_eq!(tokens[1].str, "ab");
}

#[test]
fn two_character_operators_win_over_their_prefixes() {
    let tokens = tokenize("a==b!=c<=d>=e=f<g>h".to_string()).unwrap().tokens;
    let marks: Vec<&str> = tokens
        .iter()
        .filter(|t| t.kind == TokenKind::Reserved)
        .map(|t| t.str.as_str())
        .collect();
    assert_eq!(marks, vec!["==", "!=", "<=", ">=", "=", "<", ">"]);
    let lens: Vec<usize> =
        tokens.iter().filter(|t| t.kind == TokenKind::Reserved).map(|t| t.len).collect();
    assert_eq!(lens, vec![2, 2, 2, 2, 1, 1, 1]);
}

#[test]
fn three_equals_signs_are_two_operators() {
    let tokens = tokenize("===".to_string()).unwrap().tokens;
    assert_eq!(tokens.len(), 2);
    assert_eq!(tokens[0].str, "==");
    assert_eq!(tokens[1].str, "=");
}

#[test]
fn an_operator_may_end_the_text() {
    for op in ["=", "<", ">", "+", ";"] {
        let mut input = UserInput::new(op.to_string());
        assert_eq!(input.parse_op(), Some(op.to_string()));
        assert_eq!(input.front(), None);
    }
    let tokens = tokenize("1 <".to_string()).unwrap().tokens;
    assert_eq!(tokens.len(), 2);
    assert_eq!(tokens[1].kind, TokenKind::Reserved);
    assert_eq!(tokens[1].str, "<");
}

#[test]
fn the_largest_number_is_read() {
    let tokens = tokenize("9223372036854775807".to_string()).unwrap().tokens;
    assert_eq!(tokens.len(), 1);
    assert_eq!(tokens[0].val, i64::MAX);
    let mut input = UserInput::new("9223372036854775807;".to_string());
    assert_eq!(input.parse_num(), Some(9223372036854775807));
    assert_eq!(input.front(), Some(&';'));
}

#[test]
fn a_number_out_of_range_is_rejected_with_its_digits() {
    assert_eq!(
        tokenize("1 + 9223372036854775808;".to_string()),
        Err(TokenizeError::InvalidNumber("9223372036854775808".to_string()))
    );
    assert_eq!(
        tokenize("99999999999999999999999999 + 1".to_string()),
        Err(TokenizeError::InvalidNumber("99999999999999999999999999".to_string()))
    );
}

#[test]
fn parse_num_leaves_a_number_out_of_range() {
    let mut input = UserInput::new("9223372036854775808+1".to_string());
    assert_eq!(input.parse_num(), None);
    assert_eq!(input, UserInput::new("9223372036854775808+1".to_string()));
}

#[test]
fn parse_num_stops_at_the_first_other_character() {
    let mut input = UserInput::new("120+3".to_string());
    assert_eq!(input.parse_num(), Some(120));
    assert_eq!(input, UserInput::new("+3".to_string()));
    let mut zeros = UserInput::new("000".to_string());
    assert_eq!(zeros.parse_num(), Some(0));
    assert_eq!(zeros.front(), None);
}

#[test]
fn parse_lvar_stops_at_the_first_other_character() {
    let mut input = UserInput::new("ab12_c".to_string());
    assert_eq!(input.parse_lvar(), Some("ab12".to_string()));
    assert_eq!(input, UserInput::new("_c".to_string()));
    let mut upper = UserInput::new("Zz9 ".to_string());
    assert_eq!(upper.parse_lvar(), Some("Zz9".to_string()));
}

#[test]
fn parse_op_takes_what_it_returns() {
    let mut input = UserInput::new(">=1".to_string());
    assert_eq!(input.parse_op(), Some(">=".to_string()));
    assert_eq!(input, UserInput::new("1".to_string()));
    let mut marks = UserInput::new("()*/-".to_string());
    for expected in ["(", ")", "*", "/", "-"] {
        assert_eq!(marks.parse_op(), Some(expected.to_string()));
    }
    assert_eq!(marks.parse_op(), None);
}

#[test]
fn user_input_is_a_queue_of_characters() {
    let mut input = UserInput::new("ab".to_string());
    assert_eq!(input.front(), Some(&'a'));
    assert_eq!(input.pop_front(), Some('a'));
    assert_eq!(input.front(), Some(&'b'));
    assert_eq!(input.pop_front(), Some('b'));
    assert_eq!(input.front(), None);
    assert_eq!(input.pop_front(), None);
}

#[test]
fn user_input_holds_characters_not_bytes() {
    let mut input = UserInput::new("\u{e9}x".to_string());
    assert_eq!(input.parse_lvar(), None);
    assert_eq!(input.pop_front(), Some('\u{e9}'));
    assert_eq!(input.parse_lvar(), Some("x".to_string()));
}

#[test]
fn token_length_is_counted_in_bytes() {
    let token = Token::new_lvar("\u{e9}t\u{e9}".to_string()).unwrap();
    assert_eq!(token.str, "\u{e9}t\u{e9}");
    assert_eq!(token.len, 5);
    let op = Token::new_op("<=".to_string()).unwrap();
    assert_eq!(op.len, 2);
}

#[test]
fn tokens_are_a_queue() {
    let mut tokens = Tokens::init("1+".to_string(), 2);
    assert_eq!(tokens.len(), 0);
    assert_eq!(tokens.front(), None);
    assert_eq!(tokens.pop_front(), None);
    assert_eq!(tokens.user_input, "1+");
    tokens.push_back(Token::new_num(1).unwrap());
    tokens.push_back(Token::new_op("+".to_string()).unwrap());
    assert_eq!(tokens.len(), 2);
    assert_eq!(tokens.front(), Some(&Token::new_num(1).unwrap()));
    assert_eq!(tokens.pop_front(), Some(Token::new_num(1).unwrap()));
    assert_eq!(tokens.len(), 1);
    assert_eq!(tokens.pop_front(), Some(Token::new_op("+".to_string()).unwrap()));
    assert_eq!(tokens.pop_front(), None);
}

#[test]
fn consume_op_takes_only_the_operator_asked_for() {
    let mut tokens = tokenize("<= < a 1".to_string()).unwrap();
    assert!(!tokens.consume_op("<"));
    assert_eq!(tokens.len(), 4);
    assert!(tokens.consume_op("<="));
    assert_eq!(tokens.len(), 3);
    assert!(tokens.consume_op("<"));
    assert!(!tokens.consume_op("a"));
    assert_eq!(tokens.len(), 2);
    tokens.pop_front();
    assert!(!tokens.consume_op(" "));
    assert!(!tokens.consume_op("1"));
    tokens.pop_front();
    assert!(!tokens.consume_op(";"));
    assert_eq!(tokens.len(), 0);
}
