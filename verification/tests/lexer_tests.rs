use motive::lua::parser::entry::Entry;
use motive::lua::parser::lexer::{tokenize, Lexer};
use motive::lua::parser::token::Token;

fn kinds_and_texts(input: &str) -> Vec<(Token, String)> {
    tokenize(input).into_iter().map(|e: Entry| (e.token, e.text)).collect()
}

fn pair(t: Token, s: &str) -> (Token, String) {
    (t, s.to_string())
}

#[test]
fn token_names_in_declaration_order() {
    let names = Token::list();
    let expected = vec![
        "newline", "whitespace", "literal_string", "identifier", "symbols", "end", "function",
        "local", "until", "block", "built-in", "export", "task", "watch", "@", "comment",
        "Syntax error",
    ];
    assert_eq!(names, expected);
    assert_eq!(Token::Mute.name(), "@");
    assert_eq!(Token::Error.name(), "Syntax error");
}

#[test]
fn token_numbers_round_trip() {
    for t in Token::all() {
        assert_eq!(Token::from_u16(t.to_u16()), Some(t));
    }
    assert_eq!(Token::Newline.to_u16(), 0);
    assert_eq!(Token::Error.to_u16(), 16);
    assert_eq!(Token::from_u16(9), Some(Token::Block));
    assert_eq!(Token::from_u16(17), None);
}

#[test]
fn task_line_lexemes() {
    assert_eq!(
        kinds_and_texts("task hi -- Say hi\n"),
        vec![
            pair(Token::Task, "task"),
            pair(Token::Whitespace, " "),
            pair(Token::Identifier, "hi"),
            pair(Token::Whitespace, " "),
            pair(Token::Comment, "-- Say hi"),
            pair(Token::Newline, "\n"),
        ]
    );
}

#[test]
fn keywords_win_over_identifiers_of_the_same_text() {
    assert_eq!(
        kinds_and_texts("endx end if elseif print arguments"),
        vec![
            pair(Token::Identifier, "endx"),
            pair(Token::Whitespace, " "),
            pair(Token::End, "end"),
            pair(Token::Whitespace, " "),
            pair(Token::Block, "if"),
            pair(Token::Whitespace, " "),
            pair(Token::Block, "elseif"),
            pair(Token::Whitespace, " "),
            pair(Token::BuiltIn, "print"),
            pair(Token::Whitespace, " "),
            pair(Token::BuiltIn, "arguments"),
        ]
    );
    assert_eq!(kinds_and_texts("until"), vec![pair(Token::Identifier, "until")]);
}

#[test]
fn until_literal_is_a_lexeme_of_its_own() {
    assert_eq!(
        kinds_and_texts("until( \t)+?(.*)$"),
        vec![pair(Token::Until, "until( \t)+?(.*)$")]
    );
    assert_eq!(
        kinds_and_texts("until("),
        vec![pair(Token::Identifier, "until"), pair(Token::Symbols, "(")]
    );
}

#[test]
fn line_ends_are_line_feed_and_carriage_return() {
    assert_eq!(
        kinds_and_texts("?\r\n"),
        vec![pair(Token::Error, "?"), pair(Token::Newline, "\r"), pair(Token::Newline, "\n")]
    );
}

#[test]
fn strings_and_their_escapes() {
    assert_eq!(
        kinds_and_texts("'it''s'"),
        vec![pair(Token::LiteralString, "'it'"), pair(Token::LiteralString, "'s'")]
    );
    assert_eq!(
        kinds_and_texts("\"a\\\"b\" c"),
        vec![pair(Token::LiteralString, "\"a\\\"b\""), pair(Token::Whitespace, " "), pair(Token::Identifier, "c")]
    );
    // An escaped quote does not close the string, so without another quote
    // the lexeme is an error that runs to the end of the input.
    assert_eq!(kinds_and_texts("\"a\\\"b c"), vec![pair(Token::Error, "\"a\\\"b c")]);
    // An escaped backslash leaves the quote after it to close the string.
    assert_eq!(
        kinds_and_texts("\"a\\\\\" x"),
        vec![pair(Token::LiteralString, "\"a\\\\\""), pair(Token::Whitespace, " "), pair(Token::Identifier, "x")]
    );
    // An unterminated string is one error lexeme up to the end.
    assert_eq!(kinds_and_texts("\"abc\nx"), vec![pair(Token::Error, "\"abc\nx")]);
}

#[test]
fn unknown_characters_are_single_errors() {
    assert_eq!(
        kinds_and_texts("x.y-z é"),
        vec![
            pair(Token::Identifier, "x"),
            pair(Token::Error, "."),
            pair(Token::Identifier, "y"),
            pair(Token::Error, "-"),
            pair(Token::Identifier, "z"),
            pair(Token::Whitespace, " "),
            pair(Token::Error, "é"),
        ]
    );
}

#[test]
fn symbols_mute_and_comments() {
    assert_eq!(
        kinds_and_texts("@ls #{},= --x\r\ny"),
        vec![
            pair(Token::Mute, "@"),
            pair(Token::Identifier, "ls"),
            pair(Token::Whitespace, " "),
            pair(Token::Symbols, "#"),
            pair(Token::Symbols, "{"),
            pair(Token::Symbols, "}"),
            pair(Token::Symbols, ","),
            pair(Token::Symbols, "="),
            pair(Token::Whitespace, " "),
            pair(Token::Comment, "--x\r"),
            pair(Token::Newline, "\n"),
            pair(Token::Identifier, "y"),
        ]
    );
}

#[test]
fn lexemes_cover_the_input() {
    let inputs = ["task a -- d\n  x = \"s\\\"\" .. 'q'\nend", "", "\t\t?@--", "é\"\\"];
    for input in inputs.iter() {
        let joined: String = tokenize(input).into_iter().map(|e| e.text).collect();
        assert_eq!(&joined, input);
        assert!(tokenize(input).iter().all(|e| !e.text.is_empty()));
    }
}

#[test]
fn lexer_yields_text_and_kind() {
    let mut lexer = Lexer::new("do x");
    assert_eq!(lexer.next_token(), Some(("do".to_string(), Token::BuiltIn)));
    assert_eq!(lexer.next_token(), Some((" ".to_string(), Token::Whitespace)));
    assert_eq!(lexer.next_token(), Some(("x".to_string(), Token::Identifier)));
    assert_eq!(lexer.next_token(), None);
    assert_eq!(lexer.next_token(), None);
}
