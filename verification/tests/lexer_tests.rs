use rex::lexer::{lex, Keyword, Symbol, TokenKind};

fn lexed_kinds(source: &str) -> Vec<TokenKind> {
    lex(source).tokens.into_iter().map(|token| token.kind).collect()
}

#[test]
fn lexes_keywords_symbols_and_indentation() {
    let output = lex("fn main():\n    var a = 1\n    if true:\n        a += 1\n    a\n");

    assert!(output.diagnostics.is_empty());
    assert_eq!(output.tokens.iter().filter(|token| matches!(token.kind, TokenKind::Indent)).count(), 2);
    assert_eq!(output.tokens.iter().filter(|token| matches!(token.kind, TokenKind::Dedent)).count(), 2);
    assert!(output.tokens.iter().any(|token| token.kind == TokenKind::Keyword(Keyword::Fn)));
    assert!(output.tokens.iter().any(|token| token.kind == TokenKind::Symbol(Symbol::PlusEqual)));
}

#[test]
fn consecutive_dots_stay_separate_symbols() {
    assert_eq!(
        lexed_kinds("for i in 1..=10:\n")
            .into_iter()
            .filter(|kind| !matches!(kind, TokenKind::Newline | TokenKind::Eof))
            .collect::<Vec<_>>(),
        vec![
            TokenKind::Keyword(Keyword::For),
            TokenKind::Identifier("i".into()),
            TokenKind::Keyword(Keyword::In),
            TokenKind::Integer("1".into()),
            TokenKind::Symbol(Symbol::Dot),
            TokenKind::Symbol(Symbol::Dot),
            TokenKind::Symbol(Symbol::Equal),
            TokenKind::Integer("10".into()),
            TokenKind::Symbol(Symbol::Colon),
        ]
    );
}

#[test]
fn displays_token_kinds_for_development_output() {
    assert_eq!(Keyword::Struct.to_string(), "struct");
    assert_eq!(Symbol::ThinArrow.to_string(), "->");
    assert_eq!(TokenKind::Identifier("enemy".into()).to_string(), "identifier `enemy`");
    assert_eq!(TokenKind::Keyword(Keyword::Fn).to_string(), "`fn`");
    assert_eq!(TokenKind::Symbol(Symbol::FatArrow).to_string(), "`=>`");
    assert_eq!(TokenKind::String("a\nb".into()).to_string(), "string \"a\\nb\"");
}

#[test]
fn displays_lex_output_for_development_output() {
    let rendered = lex("var x = \"unterminated\n").to_string();

    assert!(rendered.contains("tokens:"));
    assert!(rendered.contains("0..3 `var`"));
    assert!(rendered.contains("4..5 identifier `x`"));
    assert!(rendered.contains("diagnostics:"));
    assert!(rendered.contains("error[lex.unterminated_string]"));
}

#[test]
fn reports_recoverable_string_errors() {
    let output = lex("println(\"missing)\nvar x = 1\n");

    assert!(output.diagnostics.iter().any(|diagnostic| diagnostic.code == "lex.unterminated_string"));
    assert!(output.tokens.iter().any(|token| token.kind == TokenKind::Keyword(Keyword::Var)));
}

#[test]
fn empty_source_lexes_to_end_of_file_only() {
    let output = lex("");
    assert!(output.diagnostics.is_empty());
    assert_eq!(lexed_kinds(""), vec![TokenKind::Eof]);
}

#[test]
fn every_indent_is_closed_before_end_of_file() {
    let output = lex("fn f():\n    if x:\n        y\n");
    let indents = output.tokens.iter().filter(|t| t.kind == TokenKind::Indent).count();
    let dedents = output.tokens.iter().filter(|t| t.kind == TokenKind::Dedent).count();
    assert_eq!(indents, 2);
    assert_eq!(indents, dedents);
    assert_eq!(output.tokens.last().map(|t| t.kind.clone()), Some(TokenKind::Eof));
}

#[test]
fn token_spans_are_byte_offsets() {
    let output = lex("let é = 1\n");
    let spans: Vec<(usize, usize)> = output.tokens.iter().map(|t| (t.span.start, t.span.end)).collect();
    assert_eq!(spans[0], (0, 3));
    assert_eq!(spans[1], (4, 6));
    assert_eq!(spans[2], (7, 8));
}

#[test]
fn keywords_and_symbols_have_their_text() {
    assert_eq!(Keyword::Fn.as_str(), "fn");
    assert_eq!(Keyword::While.as_str(), "while");
    assert_eq!(Symbol::PlusEqual.as_str(), "+=");
    assert_eq!(Symbol::LessEqual.as_str(), "<=");
}

#[test]
fn float_and_integer_literals_are_told_apart() {
    assert_eq!(
        lexed_kinds("1.5 2\n"),
        vec![TokenKind::Float("1.5".into()), TokenKind::Integer("2".into()), TokenKind::Newline, TokenKind::Eof]
    );
}

#[test]
fn reports_tabs_in_indentation() {
    let output = lex("fn f():\n\tx\n");
    let d = output.diagnostics.iter().find(|d| d.code == "lex.tab_indent").expect("tab diagnostic");
    assert_eq!(d.message, "tabs are not allowed for indentation; use spaces");
    assert_eq!((d.span.start, d.span.end), (8, 9));
    assert!(output.tokens.iter().any(|t| t.kind == TokenKind::Indent));
}

#[test]
fn reports_inconsistent_indentation_and_still_balances_levels() {
    let output = lex("a\n    b\n  c\n");
    assert_eq!(output.diagnostics.len(), 1);
    assert_eq!(output.diagnostics[0].code, "lex.inconsistent_indent");
    assert_eq!((output.diagnostics[0].span.start, output.diagnostics[0].span.end), (8, 10));
    let indents = output.tokens.iter().filter(|t| t.kind == TokenKind::Indent).count();
    let dedents = output.tokens.iter().filter(|t| t.kind == TokenKind::Dedent).count();
    assert_eq!(indents, 1);
    assert_eq!(dedents, 2);
}

#[test]
fn reports_tabs_between_tokens() {
    let output = lex("a\tb\n");
    assert_eq!(output.diagnostics.len(), 1);
    assert_eq!(output.diagnostics[0].code, "lex.tab");
    assert_eq!(output.diagnostics[0].message, "tabs are not allowed; use spaces");
    assert_eq!((output.diagnostics[0].span.start, output.diagnostics[0].span.end), (1, 2));
}

#[test]
fn keeps_unknown_escapes_with_a_warning() {
    let output = lex("\"a\\qb\"\n");
    assert_eq!(output.diagnostics.len(), 1);
    let d = &output.diagnostics[0];
    assert_eq!(d.code, "lex.unknown_escape");
    assert_eq!(d.severity, rex::diagnostics::Severity::Warning);
    assert_eq!(d.message, "unknown escape sequence '\\q'");
    assert_eq!((d.span.start, d.span.end), (2, 4));
    assert_eq!(output.tokens[0].kind, TokenKind::String("aqb".into()));
    assert_eq!((output.tokens[0].span.start, output.tokens[0].span.end), (0, 6));
}

#[test]
fn decodes_known_escapes() {
    let output = lex("\"x\\ty\\\"\"\n");
    assert!(output.diagnostics.is_empty());
    assert_eq!(output.tokens[0].kind, TokenKind::String("x\ty\"".into()));
}

#[test]
fn reports_unknown_characters() {
    let output = lex("a $ b\n");
    assert_eq!(output.diagnostics.len(), 1);
    assert_eq!(output.diagnostics[0].code, "lex.unknown_character");
    assert_eq!(output.diagnostics[0].message, "unknown character '$'");
    assert_eq!((output.diagnostics[0].span.start, output.diagnostics[0].span.end), (2, 3));
    assert_eq!(
        lexed_kinds("a $ b\n"),
        vec![TokenKind::Identifier("a".into()), TokenKind::Identifier("b".into()), TokenKind::Newline, TokenKind::Eof]
    );
}

#[test]
fn blank_and_comment_lines_leave_indentation_alone() {
    assert_eq!(
        lexed_kinds("a\n\n   # note\nb # tail\n"),
        vec![
            TokenKind::Identifier("a".into()),
            TokenKind::Newline,
            TokenKind::Identifier("b".into()),
            TokenKind::Newline,
            TokenKind::Eof,
        ]
    );
}

#[test]
fn two_character_symbols_are_taken_whole() {
    assert_eq!(
        lexed_kinds("a->b=>c==d"),
        vec![
            TokenKind::Identifier("a".into()),
            TokenKind::Symbol(Symbol::ThinArrow),
            TokenKind::Identifier("b".into()),
            TokenKind::Symbol(Symbol::FatArrow),
            TokenKind::Identifier("c".into()),
            TokenKind::Symbol(Symbol::EqualEqual),
            TokenKind::Identifier("d".into()),
            TokenKind::Eof,
        ]
    );
}

#[test]
fn every_keyword_spelling_lexes_back_to_its_keyword() {
    let all = [
        Keyword::And, Keyword::Async, Keyword::Await, Keyword::Break, Keyword::Continue, Keyword::Elif, Keyword::Else,
        Keyword::Enum, Keyword::False, Keyword::Fn, Keyword::For, Keyword::If, Keyword::Impl, Keyword::In,
        Keyword::Let, Keyword::Loop, Keyword::Match, Keyword::Not, Keyword::Or, Keyword::Return, Keyword::SelfType,
        Keyword::SelfValue, Keyword::Struct, Keyword::Trait, Keyword::True, Keyword::Var, Keyword::While,
        Keyword::Yield,
    ];
    for k in all {
        assert_eq!(lexed_kinds(k.as_str()), vec![TokenKind::Keyword(k), TokenKind::Eof]);
    }
    assert_eq!(lexed_kinds("print"), vec![TokenKind::Identifier("print".into()), TokenKind::Eof]);
}

#[test]
fn every_symbol_spelling_lexes_back_to_one_symbol() {
    let all = [
        Symbol::Ampersand, Symbol::Bang, Symbol::BangEqual, Symbol::Caret, Symbol::Colon, Symbol::Comma, Symbol::Dot,
        Symbol::Equal, Symbol::EqualEqual, Symbol::FatArrow, Symbol::Greater, Symbol::GreaterEqual, Symbol::LBrace,
        Symbol::LBracket, Symbol::Less, Symbol::LessEqual, Symbol::LParen, Symbol::Minus, Symbol::MinusEqual,
        Symbol::Percent, Symbol::PercentEqual, Symbol::Pipe, Symbol::Plus, Symbol::PlusEqual, Symbol::Question,
        Symbol::RBrace, Symbol::RBracket, Symbol::RParen, Symbol::Semicolon, Symbol::Slash, Symbol::SlashEqual,
        Symbol::Star, Symbol::StarEqual, Symbol::ThinArrow,
    ];
    for s in all {
        let output = lex(s.as_str());
        assert!(output.diagnostics.is_empty());
        assert_eq!(output.tokens.len(), 2);
        assert_eq!(output.tokens[0].kind, TokenKind::Symbol(s));
        assert_eq!((output.tokens[0].span.start, output.tokens[0].span.end), (0, s.as_str().len()));
    }
}
