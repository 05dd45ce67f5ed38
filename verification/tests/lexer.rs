use scolang::token::{LexWarning, Lexer, Literal, Token, TokenType, Type};

fn lex(source: &str) -> Vec<Token> {
    let mut lexer = Lexer::new();
    lexer.tokenize(source);
    lexer.return_tok()
}

#[test]
fn keywords_are_classified() {
    let toks = lex("VARint VARstr DISPLAY DISPLAYnumeric DISPLAYstring IF THEN ELIF ELSE END-IF END");
    let kinds: Vec<TokenType> = toks.iter().map(|t| t.token_type).collect();
    assert_eq!(
        kinds,
        vec![
            TokenType::IntVarKeyword,
            TokenType::StrVarKeyword,
            TokenType::Display,
            TokenType::DisplayInt,
            TokenType::DisplayStr,
            TokenType::If,
            TokenType::Then,
            TokenType::Elif,
            TokenType::Else,
            TokenType::EndIfElse,
            TokenType::EOF,
        ]
    );
}

#[test]
fn var_keywords_carry_declared_type() {
    let toks = lex("VARint VARstr DISPLAY");
    assert_eq!(toks[0].var_type, Some(Type::Int));
    assert_eq!(toks[1].var_type, Some(Type::Str));
    assert_eq!(toks[2].var_type, None);
}

#[test]
fn operators_and_punctuation() {
    let toks = lex("+ - * / = ( ) ;");
    let kinds: Vec<TokenType> = toks.iter().map(|t| t.token_type).collect();
    assert_eq!(
        kinds,
        vec![
            TokenType::Plus,
            TokenType::Minus,
            TokenType::Star,
            TokenType::Slash,
            TokenType::Equals,
            TokenType::LParen,
            TokenType::RParen,
            TokenType::Semicolon,
        ]
    );
}

#[test]
fn comparison_operators_join_equals() {
    let toks = lex("a < b <= c > d >= e");
    let kinds: Vec<TokenType> = toks.iter().map(|t| t.token_type).collect();
    assert_eq!(
        kinds,
        vec![
            TokenType::Identifier,
            TokenType::LessThan,
            TokenType::Identifier,
            TokenType::LessOrEqual,
            TokenType::Identifier,
            TokenType::GreaterThan,
            TokenType::Identifier,
            TokenType::GreaterOrEqual,
            TokenType::Identifier,
        ]
    );
    assert_eq!(toks[3].lexeme, "<=");
    assert_eq!(toks[7].lexeme, ">=");
}

#[test]
fn number_token_holds_parsed_value() {
    let toks = lex("1234;");
    assert_eq!(toks[0].token_type, TokenType::Number);
    assert_eq!(toks[0].lexeme, "1234");
    match &toks[0].literal {
        Some(Literal::Integer(v)) => assert_eq!(*v, 1234),
        other => panic!("expected an integer literal, got {:?}", other),
    }
}

#[test]
fn oversized_number_keeps_lexeme_but_no_value() {
    let toks = lex("99999999999999999999;");
    assert_eq!(toks[0].token_type, TokenType::Number);
    assert_eq!(toks[0].lexeme, "99999999999999999999");
    assert!(toks[0].literal.is_none());
}

#[test]
fn line_counts_semicolons_not_newlines() {
    let toks = lex("VARint x = 1;\nVARint y = 2;\nDISPLAY x;");
    assert_eq!(toks[0].line, 1);
    let second_decl = &toks[5];
    assert_eq!(second_decl.token_type, TokenType::IntVarKeyword);
    assert_eq!(second_decl.line, 2);
    let display = &toks[10];
    assert_eq!(display.token_type, TokenType::Display);
    assert_eq!(display.line, 3);
}

#[test]
fn string_literal_consumed_verbatim() {
    let toks = lex("VARstr s = \"hi there;\";");
    assert_eq!(toks[3].token_type, TokenType::String);
    assert_eq!(toks[3].lexeme, "hi there;");
    assert_eq!(toks[3].var_type, Some(Type::Str));
    assert_eq!(toks[4].token_type, TokenType::Semicolon);
}

#[test]
fn unterminated_string_warns_and_emits_no_string_token() {
    let mut lexer = Lexer::new();
    lexer.tokenize("VARstr s = \"abc");
    let toks = lexer.return_tok();
    assert!(toks.iter().all(|t| t.token_type != TokenType::String));
    let kinds: Vec<TokenType> = toks.iter().map(|t| t.token_type).collect();
    assert_eq!(
        kinds,
        vec![TokenType::StrVarKeyword, TokenType::Identifier, TokenType::Equals]
    );
    assert_eq!(
        lexer.warnings,
        vec![LexWarning::UnterminatedString { line: 1 }]
    );
}

#[test]
fn unrecognized_span_warns_and_is_dropped() {
    let mut lexer = Lexer::new();
    lexer.tokenize("x = 1a2;");
    let toks = lexer.return_tok();
    let kinds: Vec<TokenType> = toks.iter().map(|t| t.token_type).collect();
    assert_eq!(
        kinds,
        vec![TokenType::Identifier, TokenType::Equals, TokenType::Semicolon]
    );
    assert_eq!(
        lexer.warnings,
        vec![LexWarning::UnexpectedCharacter { line: 1 }]
    );
}

#[test]
fn whitespace_splits_identifiers() {
    let toks = lex("ab cd");
    assert_eq!(toks.len(), 2);
    assert_eq!(toks[0].lexeme, "ab");
    assert_eq!(toks[1].lexeme, "cd");
}

#[test]
fn alphanumerics_and_underscore_form_one_identifier() {
    let toks = lex("a1_b2");
    assert_eq!(toks.len(), 1);
    assert_eq!(toks[0].token_type, TokenType::Identifier);
    assert_eq!(toks[0].lexeme, "a1_b2");
}

#[test]
fn end_if_forms_a_single_keyword() {
    let toks = lex("END-IF");
    assert_eq!(toks.len(), 1);
    assert_eq!(toks[0].token_type, TokenType::EndIfElse);
    assert_eq!(toks[0].lexeme, "END-IF");
}

#[test]
fn minus_stays_an_operator_between_identifiers() {
    let toks = lex("a-b");
    let kinds: Vec<TokenType> = toks.iter().map(|t| t.token_type).collect();
    assert_eq!(
        kinds,
        vec![TokenType::Identifier, TokenType::Minus, TokenType::Identifier]
    );
}

#[test]
fn string_before_pending_buffer_keeps_lexer_quirk() {
    // A quote does not flush the pending buffer: the string token is emitted
    // first, and the surrounding characters go on gathering into one word.
    let toks = lex("ab\"x\"cd;");
    let kinds: Vec<TokenType> = toks.iter().map(|t| t.token_type).collect();
    assert_eq!(
        kinds,
        vec![TokenType::String, TokenType::Identifier, TokenType::Semicolon]
    );
    assert_eq!(toks[0].lexeme, "x");
    assert_eq!(toks[1].lexeme, "abcd");
}

#[test]
fn newtok_builds_the_token_given() {
    let t = Token::newtok(TokenType::Number, "7".to_string(), Some(Literal::Integer(7)), 3, None);
    assert_eq!(t.token_type, TokenType::Number);
    assert_eq!(t.lexeme, "7");
    assert_eq!(t.line, 3);
    assert!(t.var_type.is_none());
}

#[test]
fn tokenize_appends_across_calls() {
    let mut lexer = Lexer::new();
    lexer.tokenize("VARint x");
    lexer.tokenize(" = 1;");
    let toks = lexer.return_tok();
    let kinds: Vec<TokenType> = toks.iter().map(|t| t.token_type).collect();
    assert_eq!(
        kinds,
        vec![
            TokenType::IntVarKeyword,
            TokenType::Identifier,
            TokenType::Equals,
            TokenType::Number,
            TokenType::Semicolon,
        ]
    );
}

#[test]
fn number_at_the_signed_boundary() {
    let in_range = lex("9223372036854775807;");
    match &in_range[0].literal {
        Some(Literal::Integer(v)) => assert_eq!(*v, i64::MAX),
        other => panic!("expected an integer literal, got {:?}", other),
    }
    let out_of_range = lex("9223372036854775808;");
    assert!(out_of_range[0].literal.is_none());
    assert_eq!(out_of_range[0].lexeme, "9223372036854775808");
}
