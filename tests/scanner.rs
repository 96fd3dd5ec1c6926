use rsqlc::keywords::KeywordTable;
use rsqlc::scanner::{LexError, LexErrorKind, Scanner};
use rsqlc::token::{Token, TokenType};

fn keyword_table(pairs: &[(&str, TokenType)]) -> KeywordTable {
    let mut table = KeywordTable::new();
    for (key, kind) in pairs {
        table.insert(key, *kind);
    }
    table
}

fn sql_keywords() -> KeywordTable {
    keyword_table(&[
        ("*", TokenType::Asterisk),
        (",", TokenType::Comma),
        ("%", TokenType::Modulo),
        ("select", TokenType::Select),
        ("from", TokenType::From),
        ("where", TokenType::Where),
        ("and", TokenType::And),
        ("or", TokenType::Or),
        ("not", TokenType::Not),
        ("like", TokenType::Like),
        ("in", TokenType::In),
        ("order", TokenType::Order),
        ("by", TokenType::By),
        ("asc", TokenType::Asc),
        ("desc", TokenType::Desc),
        ("limit", TokenType::Limit),
        ("offset", TokenType::Offset),
        ("between", TokenType::Between),
        ("", TokenType::End),
    ])
}

fn scan(source: &str, keywords: &KeywordTable) -> Result<Vec<Token>, LexError> {
    let mut scanner = Scanner::new(source.to_string(), keywords);
    scanner.tokenize()
}

fn kinds_and_texts(tokens: &[Token]) -> Vec<(TokenType, String)> {
    tokens.iter().map(|t| (t.get_type(), t.get_lexeme().to_string())).collect()
}

fn expect(source: &str, expected: &[(TokenType, &str)]) {
    let keywords = sql_keywords();
    let tokens = scan(source, &keywords).unwrap();
    let want: Vec<(TokenType, String)> =
        expected.iter().map(|(k, t)| (*k, t.to_string())).collect();
    assert_eq!(kinds_and_texts(&tokens), want);
}

fn expect_fault(source: &str, kind: LexErrorKind, position: usize, character: char) {
    let keywords = sql_keywords();
    let err = scan(source, &keywords).unwrap_err();
    assert_eq!(err, LexError { kind, position, character });
}

#[test]
fn test_scanner() {
    let keywords = sql_keywords();
    let mut scanner = Scanner::new(
        "SELECT name, age FROM users WHERE age > 18 AND name LIKE '%John%' ORDER BY age DESC".to_string(),
        &keywords,
    );

    let tokens: Vec<Token> = scanner.tokenize().unwrap();

    assert_eq!(tokens.len(), 19);

    assert_eq!(tokens[0].get_type(), TokenType::Select);
    assert_eq!(tokens[0].get_lexeme(), "SELECT");
    assert_eq!(tokens[1].get_type(), TokenType::Identifier);
    assert_eq!(tokens[1].get_lexeme(), "name");
    assert_eq!(tokens[2].get_type(), TokenType::Comma);
    assert_eq!(tokens[2].get_lexeme(), ",");
    assert_eq!(tokens[3].get_type(), TokenType::Identifier);
    assert_eq!(tokens[3].get_lexeme(), "age");
    assert_eq!(tokens[4].get_type(), TokenType::From);
    assert_eq!(tokens[4].get_lexeme(), "FROM");
    assert_eq!(tokens[5].get_type(), TokenType::Identifier);
    assert_eq!(tokens[5].get_lexeme(), "users");
    assert_eq!(tokens[6].get_type(), TokenType::Where);
    assert_eq!(tokens[6].get_lexeme(), "WHERE");
    assert_eq!(tokens[7].get_type(), TokenType::Identifier);
    assert_eq!(tokens[7].get_lexeme(), "age");
    assert_eq!(tokens[8].get_type(), TokenType::GreaterThan);
    assert_eq!(tokens[8].get_lexeme(), ">");
    assert_eq!(tokens[9].get_type(), TokenType::Number);
    assert_eq!(tokens[9].get_lexeme(), "18");
    assert_eq!(tokens[10].get_type(), TokenType::And);
    assert_eq!(tokens[10].get_lexeme(), "AND");
    assert_eq!(tokens[11].get_type(), TokenType::Identifier);
    assert_eq!(tokens[11].get_lexeme(), "name");
    assert_eq!(tokens[12].get_type(), TokenType::Like);
    assert_eq!(tokens[12].get_lexeme(), "LIKE");
    assert_eq!(tokens[13].get_type(), TokenType::String);
    assert_eq!(tokens[13].get_lexeme(), "'%John%'");
    assert_eq!(tokens[14].get_type(), TokenType::Order);
    assert_eq!(tokens[14].get_lexeme(), "ORDER");
    assert_eq!(tokens[15].get_type(), TokenType::By);
    assert_eq!(tokens[15].get_lexeme(), "BY");
    assert_eq!(tokens[16].get_type(), TokenType::Identifier);
    assert_eq!(tokens[16].get_lexeme(), "age");
    assert_eq!(tokens[17].get_type(), TokenType::Desc);
    assert_eq!(tokens[17].get_lexeme(), "DESC");
    assert_eq!(tokens[18].get_type(), TokenType::End);
    assert_eq!(tokens[18].get_lexeme(), "");
}

#[test]
fn comparison_with_spaces() {
    expect(
        "age >= 5",
        &[
            (TokenType::Identifier, "age"),
            (TokenType::GreaterThanEq, ">="),
            (TokenType::Number, "5"),
            (TokenType::End, ""),
        ],
    );
}

#[test]
fn operator_glued_to_word_is_a_fault() {
    expect_fault("age>=5", LexErrorKind::UnexpectedCharacter, 3, '>');
}

#[test]
fn unterminated_string_is_a_fault() {
    expect_fault("WHERE name LIKE 'abc", LexErrorKind::UnterminatedString, 16, '\'');
}

#[test]
fn unterminated_string_stops_the_stream() {
    let keywords = sql_keywords();
    let mut scanner = Scanner::new("name 'abc".to_string(), &keywords);
    let first = scanner.next().unwrap().unwrap();
    assert_eq!(first.get_lexeme(), "name");
    let fault = scanner.next().unwrap().unwrap_err();
    assert_eq!(fault.kind, LexErrorKind::UnterminatedString);
    assert!(scanner.next().is_none());
}

#[test]
fn bang_without_equals_is_a_fault() {
    expect_fault("a ! b", LexErrorKind::InvalidStandaloneOperator, 2, '!');
    expect_fault("a !", LexErrorKind::InvalidStandaloneOperator, 2, '!');
}

#[test]
fn two_character_operators() {
    expect(
        "a <= b != c < d > e",
        &[
            (TokenType::Identifier, "a"),
            (TokenType::LessThanEq, "<="),
            (TokenType::Identifier, "b"),
            (TokenType::NotEq, "!="),
            (TokenType::Identifier, "c"),
            (TokenType::LessThan, "<"),
            (TokenType::Identifier, "d"),
            (TokenType::GreaterThan, ">"),
            (TokenType::Identifier, "e"),
            (TokenType::End, ""),
        ],
    );
}

#[test]
fn unknown_symbol_is_a_fault() {
    expect_fault("a = b", LexErrorKind::UnexpectedCharacter, 2, '=');
    expect_fault("#", LexErrorKind::UnexpectedCharacter, 0, '#');
}

#[test]
fn bad_character_inside_a_word_is_a_fault() {
    expect_fault("users.name", LexErrorKind::UnexpectedCharacter, 5, '.');
}

#[test]
fn numbers_take_one_decimal_point() {
    expect("3.25", &[(TokenType::Number, "3.25"), (TokenType::End, "")]);
    expect_fault("1.2.3", LexErrorKind::UnexpectedCharacter, 3, '.');
}

#[test]
fn comma_after_number_is_a_fault() {
    expect_fault("18, 19", LexErrorKind::UnexpectedCharacter, 2, ',');
}

#[test]
fn comma_after_word_ends_it() {
    expect(
        "a,b",
        &[
            (TokenType::Identifier, "a"),
            (TokenType::Comma, ","),
            (TokenType::Identifier, "b"),
            (TokenType::End, ""),
        ],
    );
}

#[test]
fn keywords_ignore_case() {
    expect(
        "SELECT Select select sElEcT",
        &[
            (TokenType::Select, "SELECT"),
            (TokenType::Select, "Select"),
            (TokenType::Select, "select"),
            (TokenType::Select, "sElEcT"),
            (TokenType::End, ""),
        ],
    );
}

#[test]
fn symbols_match_verbatim() {
    let keywords = keyword_table(&[("a", TokenType::Asterisk)]);
    let err = scan("$", &keywords).unwrap_err();
    assert_eq!(err.kind, LexErrorKind::UnexpectedCharacter);
    let tokens = scan("* A", &keyword_table(&[("*", TokenType::Asterisk), ("a", TokenType::And)])).unwrap();
    assert_eq!(
        kinds_and_texts(&tokens),
        vec![
            (TokenType::Asterisk, "*".to_string()),
            (TokenType::And, "A".to_string()),
            (TokenType::End, String::new()),
        ]
    );
}

#[test]
fn empty_source_gives_only_the_end_marker() {
    expect("", &[(TokenType::End, "")]);
}

#[test]
fn trailing_whitespace_still_gives_the_end_marker() {
    expect(
        "  age \t\n ",
        &[(TokenType::Identifier, "age"), (TokenType::End, "")],
    );
    expect("   ", &[(TokenType::End, "")]);
}

#[test]
fn nothing_after_the_end_marker() {
    let keywords = sql_keywords();
    let mut scanner = Scanner::new("x".to_string(), &keywords);
    assert_eq!(scanner.next().unwrap().unwrap().get_lexeme(), "x");
    let end = scanner.next().unwrap().unwrap();
    assert_eq!(end.get_type(), TokenType::End);
    assert_eq!(end.get_lexeme(), "");
    assert!(scanner.next().is_none());
    assert!(scanner.next().is_none());
    assert!(scanner.tokenize().unwrap().is_empty());
}

#[test]
fn texts_and_whitespace_rebuild_the_source() {
    let source = "SELECT  a,b FROM t WHERE s LIKE 'x y' ";
    let keywords = sql_keywords();
    let tokens = scan(source, &keywords).unwrap();
    let chars: Vec<char> = source.chars().collect();
    let mut pos = 0;
    for token in &tokens[..tokens.len() - 1] {
        while chars[pos].is_whitespace() {
            pos += 1;
        }
        let text: Vec<char> = token.get_lexeme().chars().collect();
        assert_eq!(&chars[pos..pos + text.len()], &text[..]);
        pos += text.len();
    }
    assert!(chars[pos..].iter().all(|c| c.is_whitespace()));
    assert_eq!(tokens.len(), 11);
    assert_eq!(tokens[9].get_lexeme(), "'x y'");
}

#[test]
fn whitespace_separated_units_give_one_token_each() {
    let keywords = sql_keywords();
    let units = ["name", "<=", "42.5", "'it'", "%", "*", "desc"];
    let source = units.join(" \t");
    let tokens = scan(&source, &keywords).unwrap();
    assert_eq!(tokens.len(), units.len() + 1);
    for (i, unit) in units.iter().enumerate() {
        assert_eq!(tokens[i].get_lexeme(), *unit);
    }
    assert_eq!(tokens[units.len()].get_type(), TokenType::End);
}

#[test]
fn unicode_letters_and_digits_continue_lexemes() {
    expect(
        "caf\u{e9} 1\u{663}",
        &[
            (TokenType::Identifier, "caf\u{e9}"),
            (TokenType::Number, "1\u{663}"),
            (TokenType::End, ""),
        ],
    );
    expect(
        "a\u{3000}b",
        &[(TokenType::Identifier, "a"), (TokenType::Identifier, "b"), (TokenType::End, "")],
    );
}

#[test]
fn later_table_entry_replaces_earlier() {
    let keywords = keyword_table(&[("top", TokenType::Limit), ("top", TokenType::Offset)]);
    let tokens = scan("TOP", &keywords).unwrap();
    assert_eq!(tokens[0].get_type(), TokenType::Offset);
}

#[test]
fn token_keeps_kind_and_text() {
    let t = Token::new(TokenType::Number, "18".to_string());
    assert_eq!(t.get_type(), TokenType::Number);
    assert_eq!(t.get_lexeme(), "18");
}
