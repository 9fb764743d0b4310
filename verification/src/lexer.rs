use crate::diagnostics::{diag_views, error_view, DiagView, Diagnostic, DiagnosticNote, NoteView, Severity, Span};
use crate::text::{byte_len, byte_offset, decimal, char_is_alphabetic, char_len_utf8, push_decimal, push_str, unicode_alphabetic, utf8_width};
use vstd::prelude::*;
use vstd::string::StrSliceExecFns;
use vstd::string::StringExecFns;
use vstd::string::StringSliceAdditionalSpecFns;

verus! {

broadcast use vstd::string::group_string_axioms;

/// Tokens and diagnostics produced by [`lex`].
///
/// The token sequence always ends with a single [`TokenKind::Eof`].
#[derive(Debug, Clone, PartialEq, Eq)]
pub struct LexOutput {
    pub tokens: Vec<Token>,
    pub diagnostics: Vec<Diagnostic>,
}

#[derive(Debug, Clone, PartialEq, Eq)]
pub struct Token {
    pub kind: TokenKind,
    pub span: Span,
}

#[derive(Debug, Clone, PartialEq, Eq)]
pub enum TokenKind {
    Identifier(String),
    Integer(String),
    Float(String),
    String(String),
    Keyword(Keyword),
    Symbol(Symbol),
    Newline,
    Indent,
    Dedent,
    Eof,
}

/// Reserved words.
#[derive(Debug, Clone, Copy, PartialEq, Eq, Structural)]
pub enum Keyword {
    And,
    Async,
    Await,
    Break,
    Continue,
    Elif,
    Else,
    Enum,
    False,
    Fn,
    For,
    If,
    Impl,
    In,
    Let,
    Loop,
    Match,
    Not,
    Or,
    Return,
    SelfType,
    SelfValue,
    Struct,
    Trait,
    True,
    Var,
    While,
    Yield,
}

/// Punctuation and operators.
#[derive(Debug, Clone, Copy, PartialEq, Eq, Structural)]
pub enum Symbol {
    Ampersand,
    Bang,
    BangEqual,
    Caret,
    Colon,
    Comma,
    Dot,
    Equal,
    EqualEqual,
    FatArrow,
    Greater,
    GreaterEqual,
    LBrace,
    LBracket,
    Less,
    LessEqual,
    LParen,
    Minus,
    MinusEqual,
    Percent,
    PercentEqual,
    Pipe,
    Plus,
    PlusEqual,
    Question,
    RBrace,
    RBracket,
    RParen,
    Semicolon,
    Slash,
    SlashEqual,
    Star,
    StarEqual,
    ThinArrow,
}

/// The text of a keyword.
pub open spec fn keyword_text(k: Keyword) -> Seq<char> {
    match k {
        Keyword::And => seq!['a', 'n', 'd'],
        Keyword::Async => seq!['a', 's', 'y', 'n', 'c'],
        Keyword::Await => seq!['a', 'w', 'a', 'i', 't'],
        Keyword::Break => seq!['b', 'r', 'e', 'a', 'k'],
        Keyword::Continue => seq!['c', 'o', 'n', 't', 'i', 'n', 'u', 'e'],
        Keyword::Elif => seq!['e', 'l', 'i', 'f'],
        Keyword::Else => seq!['e', 'l', 's', 'e'],
        Keyword::Enum => seq!['e', 'n', 'u', 'm'],
        Keyword::False => seq!['f', 'a', 'l', 's', 'e'],
        Keyword::Fn => seq!['f', 'n'],
        Keyword::For => seq!['f', 'o', 'r'],
        Keyword::If => seq!['i', 'f'],
        Keyword::Impl => seq!['i', 'm', 'p', 'l'],
        Keyword::In => seq!['i', 'n'],
        Keyword::Let => seq!['l', 'e', 't'],
        Keyword::Loop => seq!['l', 'o', 'o', 'p'],
        Keyword::Match => seq!['m', 'a', 't', 'c', 'h'],
        Keyword::Not => seq!['n', 'o', 't'],
        Keyword::Or => seq!['o', 'r'],
        Keyword::Return => seq!['r', 'e', 't', 'u', 'r', 'n'],
        Keyword::SelfType => seq!['S', 'e', 'l', 'f'],
        Keyword::SelfValue => seq!['s', 'e', 'l', 'f'],
        Keyword::Struct => seq!['s', 't', 'r', 'u', 'c', 't'],
        Keyword::Trait => seq!['t', 'r', 'a', 'i', 't'],
        Keyword::True => seq!['t', 'r', 'u', 'e'],
        Keyword::Var => seq!['v', 'a', 'r'],
        Keyword::While => seq!['w', 'h', 'i', 'l', 'e'],
        Keyword::Yield => seq!['y', 'i', 'e', 'l', 'd'],
    }
}

/// The text of a symbol.
pub open spec fn symbol_text(s: Symbol) -> Seq<char> {
    match s {
        Symbol::Ampersand => seq!['&'],
        Symbol::Bang => seq!['!'],
        Symbol::BangEqual => seq!['!', '='],
        Symbol::Caret => seq!['^'],
        Symbol::Colon => seq![':'],
        Symbol::Comma => seq![','],
        Symbol::Dot => seq!['.'],
        Symbol::Equal => seq!['='],
        Symbol::EqualEqual => seq!['=', '='],
        Symbol::FatArrow => seq!['=', '>'],
        Symbol::Greater => seq!['>'],
        Symbol::GreaterEqual => seq!['>', '='],
        Symbol::LBrace => seq!['{'],
        Symbol::LBracket => seq!['['],
        Symbol::Less => seq!['<'],
        Symbol::LessEqual => seq!['<', '='],
        Symbol::LParen => seq!['('],
        Symbol::Minus => seq!['-'],
        Symbol::MinusEqual => seq!['-', '='],
        Symbol::Percent => seq!['%'],
        Symbol::PercentEqual => seq!['%', '='],
        Symbol::Pipe => seq!['|'],
        Symbol::Plus => seq!['+'],
        Symbol::PlusEqual => seq!['+', '='],
        Symbol::Question => seq!['?'],
        Symbol::RBrace => seq!['}'],
        Symbol::RBracket => seq![']'],
        Symbol::RParen => seq![')'],
        Symbol::Semicolon => seq![';'],
        Symbol::Slash => seq!['/'],
        Symbol::SlashEqual => seq!['/', '='],
        Symbol::Star => seq!['*'],
        Symbol::StarEqual => seq!['*', '='],
        Symbol::ThinArrow => seq!['-', '>'],
    }
}

/// How each keyword is spelled.
pub proof fn lemma_keyword_spellings()
    ensures
        keyword_text(Keyword::And) == "and"@,
        keyword_text(Keyword::Async) == "async"@,
        keyword_text(Keyword::Await) == "await"@,
        keyword_text(Keyword::Break) == "break"@,
        keyword_text(Keyword::Continue) == "continue"@,
        keyword_text(Keyword::Elif) == "elif"@,
        keyword_text(Keyword::Else) == "else"@,
        keyword_text(Keyword::Enum) == "enum"@,
        keyword_text(Keyword::False) == "false"@,
        keyword_text(Keyword::Fn) == "fn"@,
        keyword_text(Keyword::For) == "for"@,
        keyword_text(Keyword::If) == "if"@,
        keyword_text(Keyword::Impl) == "impl"@,
        keyword_text(Keyword::In) == "in"@,
        keyword_text(Keyword::Let) == "let"@,
        keyword_text(Keyword::Loop) == "loop"@,
        keyword_text(Keyword::Match) == "match"@,
        keyword_text(Keyword::Not) == "not"@,
        keyword_text(Keyword::Or) == "or"@,
        keyword_text(Keyword::Return) == "return"@,
        keyword_text(Keyword::SelfType) == "Self"@,
        keyword_text(Keyword::SelfValue) == "self"@,
        keyword_text(Keyword::Struct) == "struct"@,
        keyword_text(Keyword::Trait) == "trait"@,
        keyword_text(Keyword::True) == "true"@,
        keyword_text(Keyword::Var) == "var"@,
        keyword_text(Keyword::While) == "while"@,
        keyword_text(Keyword::Yield) == "yield"@,
{
    reveal_strlit("and");
    reveal_strlit("async");
    reveal_strlit("await");
    reveal_strlit("break");
    reveal_strlit("continue");
    reveal_strlit("elif");
    reveal_strlit("else");
    reveal_strlit("enum");
    reveal_strlit("false");
    reveal_strlit("fn");
    reveal_strlit("for");
    reveal_strlit("if");
    reveal_strlit("impl");
    reveal_strlit("in");
    reveal_strlit("let");
    reveal_strlit("loop");
    reveal_strlit("match");
    reveal_strlit("not");
    reveal_strlit("or");
    reveal_strlit("return");
    reveal_strlit("Self");
    reveal_strlit("self");
    reveal_strlit("struct");
    reveal_strlit("trait");
    reveal_strlit("true");
    reveal_strlit("var");
    reveal_strlit("while");
    reveal_strlit("yield");
}

/// How each symbol is spelled.
pub proof fn lemma_symbol_spellings()
    ensures
        symbol_text(Symbol::Ampersand) == "&"@,
        symbol_text(Symbol::Bang) == "!"@,
        symbol_text(Symbol::BangEqual) == "!="@,
        symbol_text(Symbol::Caret) == "^"@,
        symbol_text(Symbol::Colon) == ":"@,
        symbol_text(Symbol::Comma) == ","@,
        symbol_text(Symbol::Dot) == "."@,
        symbol_text(Symbol::Equal) == "="@,
        symbol_text(Symbol::EqualEqual) == "=="@,
        symbol_text(Symbol::FatArrow) == "=>"@,
        symbol_text(Symbol::Greater) == ">"@,
        symbol_text(Symbol::GreaterEqual) == ">="@,
        symbol_text(Symbol::LBrace) == "{"@,
        symbol_text(Symbol::LBracket) == "["@,
        symbol_text(Symbol::Less) == "<"@,
        symbol_text(Symbol::LessEqual) == "<="@,
        symbol_text(Symbol::LParen) == "("@,
        symbol_text(Symbol::Minus) == "-"@,
        symbol_text(Symbol::MinusEqual) == "-="@,
        symbol_text(Symbol::Percent) == "%"@,
        symbol_text(Symbol::PercentEqual) == "%="@,
        symbol_text(Symbol::Pipe) == "|"@,
        symbol_text(Symbol::Plus) == "+"@,
        symbol_text(Symbol::PlusEqual) == "+="@,
        symbol_text(Symbol::Question) == "?"@,
        symbol_text(Symbol::RBrace) == "}"@,
        symbol_text(Symbol::RBracket) == "]"@,
        symbol_text(Symbol::RParen) == ")"@,
        symbol_text(Symbol::Semicolon) == ";"@,
        symbol_text(Symbol::Slash) == "/"@,
        symbol_text(Symbol::SlashEqual) == "/="@,
        symbol_text(Symbol::Star) == "*"@,
        symbol_text(Symbol::StarEqual) == "*="@,
        symbol_text(Symbol::ThinArrow) == "->"@,
{
    reveal_strlit("&");
    reveal_strlit("!");
    reveal_strlit("!=");
    reveal_strlit("^");
    reveal_strlit(":");
    reveal_strlit(",");
    reveal_strlit(".");
    reveal_strlit("=");
    reveal_strlit("==");
    reveal_strlit("=>");
    reveal_strlit(">");
    reveal_strlit(">=");
    reveal_strlit("{");
    reveal_strlit("[");
    reveal_strlit("<");
    reveal_strlit("<=");
    reveal_strlit("(");
    reveal_strlit("-");
    reveal_strlit("-=");
    reveal_strlit("%");
    reveal_strlit("%=");
    reveal_strlit("|");
    reveal_strlit("+");
    reveal_strlit("+=");
    reveal_strlit("?");
    reveal_strlit("}");
    reveal_strlit("]");
    reveal_strlit(")");
    reveal_strlit(";");
    reveal_strlit("/");
    reveal_strlit("/=");
    reveal_strlit("*");
    reveal_strlit("*=");
    reveal_strlit("->");
}

impl Keyword {
    pub fn as_str(self) -> (r: &'static str)
        ensures
            r@ == keyword_text(self),
    {
        match self {
            Keyword::And => {
                proof {
                    reveal_strlit("and");
                }
                "and"
            },
            Keyword::Async => {
                proof {
                    reveal_strlit("async");
                }
                "async"
            },
            Keyword::Await => {
                proof {
                    reveal_strlit("await");
                }
                "await"
            },
            Keyword::Break => {
                proof {
                    reveal_strlit("break");
                }
                "break"
            },
            Keyword::Continue => {
                proof {
                    reveal_strlit("continue");
                }
                "continue"
            },
            Keyword::Elif => {
                proof {
                    reveal_strlit("elif");
                }
                "elif"
            },
            Keyword::Else => {
                proof {
                    reveal_strlit("else");
                }
                "else"
            },
            Keyword::Enum => {
                proof {
                    reveal_strlit("enum");
                }
                "enum"
            },
            Keyword::False => {
                proof {
                    reveal_strlit("false");
                }
                "false"
            },
            Keyword::Fn => {
                proof {
                    reveal_strlit("fn");
                }
                "fn"
            },
            Keyword::For => {
                proof {
                    reveal_strlit("for");
                }
                "for"
            },
            Keyword::If => {
                proof {
                    reveal_strlit("if");
                }
                "if"
            },
            Keyword::Impl => {
                proof {
                    reveal_strlit("impl");
                }
                "impl"
            },
            Keyword::In => {
                proof {
                    reveal_strlit("in");
                }
                "in"
            },
            Keyword::Let => {
                proof {
                    reveal_strlit("let");
                }
                "let"
            },
            Keyword::Loop => {
                proof {
                    reveal_strlit("loop");
                }
                "loop"
            },
            Keyword::Match => {
                proof {
                    reveal_strlit("match");
                }
                "match"
            },
            Keyword::Not => {
                proof {
                    reveal_strlit("not");
                }
                "not"
            },
            Keyword::Or => {
                proof {
                    reveal_strlit("or");
                }
                "or"
            },
            Keyword::Return => {
                proof {
                    reveal_strlit("return");
                }
                "return"
            },
            Keyword::SelfType => {
                proof {
                    reveal_strlit("Self");
                }
                "Self"
            },
            Keyword::SelfValue => {
                proof {
                    reveal_strlit("self");
                }
                "self"
            },
            Keyword::Struct => {
                proof {
                    reveal_strlit("struct");
                }
                "struct"
            },
            Keyword::Trait => {
                proof {
                    reveal_strlit("trait");
                }
                "trait"
            },
            Keyword::True => {
                proof {
                    reveal_strlit("true");
                }
                "true"
            },
            Keyword::Var => {
                proof {
                    reveal_strlit("var");
                }
                "var"
            },
            Keyword::While => {
                proof {
                    reveal_strlit("while");
                }
                "while"
            },
            Keyword::Yield => {
                proof {
                    reveal_strlit("yield");
                }
                "yield"
            },
        }
    }
}

impl Symbol {
    pub fn as_str(self) -> (r: &'static str)
        ensures
            r@ == symbol_text(self),
    {
        match self {
            Symbol::Ampersand => {
                proof {
                    reveal_strlit("&");
                }
                "&"
            },
            Symbol::Bang => {
                proof {
                    reveal_strlit("!");
                }
                "!"
            },
            Symbol::BangEqual => {
                proof {
                    reveal_strlit("!=");
                }
                "!="
            },
            Symbol::Caret => {
                proof {
                    reveal_strlit("^");
                }
                "^"
            },
            Symbol::Colon => {
                proof {
                    reveal_strlit(":");
                }
                ":"
            },
            Symbol::Comma => {
                proof {
                    reveal_strlit(",");
                }
                ","
            },
            Symbol::Dot => {
                proof {
                    reveal_strlit(".");
                }
                "."
            },
            Symbol::Equal => {
                proof {
                    reveal_strlit("=");
                }
                "="
            },
            Symbol::EqualEqual => {
                proof {
                    reveal_strlit("==");
                }
                "=="
            },
            Symbol::FatArrow => {
                proof {
                    reveal_strlit("=>");
                }
                "=>"
            },
            Symbol::Greater => {
                proof {
                    reveal_strlit(">");
                }
                ">"
            },
            Symbol::GreaterEqual => {
                proof {
                    reveal_strlit(">=");
                }
                ">="
            },
            Symbol::LBrace => {
                proof {
                    reveal_strlit("{");
                }
                "{"
            },
            Symbol::LBracket => {
                proof {
                    reveal_strlit("[");
                }
                "["
            },
            Symbol::Less => {
                proof {
                    reveal_strlit("<");
                }
                "<"
            },
            Symbol::LessEqual => {
                proof {
                    reveal_strlit("<=");
                }
                "<="
            },
            Symbol::LParen => {
                proof {
                    reveal_strlit("(");
                }
                "("
            },
            Symbol::Minus => {
                proof {
                    reveal_strlit("-");
                }
                "-"
            },
            Symbol::MinusEqual => {
                proof {
                    reveal_strlit("-=");
                }
                "-="
            },
            Symbol::Percent => {
                proof {
                    reveal_strlit("%");
                }
                "%"
            },
            Symbol::PercentEqual => {
                proof {
                    reveal_strlit("%=");
                }
                "%="
            },
            Symbol::Pipe => {
                proof {
                    reveal_strlit("|");
                }
                "|"
            },
            Symbol::Plus => {
                proof {
                    reveal_strlit("+");
                }
                "+"
            },
            Symbol::PlusEqual => {
                proof {
                    reveal_strlit("+=");
                }
                "+="
            },
            Symbol::Question => {
                proof {
                    reveal_strlit("?");
                }
                "?"
            },
            Symbol::RBrace => {
                proof {
                    reveal_strlit("}");
                }
                "}"
            },
            Symbol::RBracket => {
                proof {
                    reveal_strlit("]");
                }
                "]"
            },
            Symbol::RParen => {
                proof {
                    reveal_strlit(")");
                }
                ")"
            },
            Symbol::Semicolon => {
                proof {
                    reveal_strlit(";");
                }
                ";"
            },
            Symbol::Slash => {
                proof {
                    reveal_strlit("/");
                }
                "/"
            },
            Symbol::SlashEqual => {
                proof {
                    reveal_strlit("/=");
                }
                "/="
            },
            Symbol::Star => {
                proof {
                    reveal_strlit("*");
                }
                "*"
            },
            Symbol::StarEqual => {
                proof {
                    reveal_strlit("*=");
                }
                "*="
            },
            Symbol::ThinArrow => {
                proof {
                    reveal_strlit("->");
                }
                "->"
            },
        }
    }
}

/// The keyword spelled `chars[start..end]`, if there is one.
fn keyword(chars: &Vec<char>, start: usize, end: usize) -> (r: Option<Keyword>)
    requires
        start <= end <= chars@.len(),
    ensures
        r matches Some(k) ==> chars@.subrange(start as int, end as int) == keyword_text(k),
        r is None ==> !is_keyword_text(chars@.subrange(start as int, end as int)),
        r == keyword_of(chars@.subrange(start as int, end as int)),
{
    if text_is(chars, start, end, Keyword::And.as_str()) {
        return Some(Keyword::And);
    }
    if text_is(chars, start, end, Keyword::Async.as_str()) {
        return Some(Keyword::Async);
    }
    if text_is(chars, start, end, Keyword::Await.as_str()) {
        return Some(Keyword::Await);
    }
    if text_is(chars, start, end, Keyword::Break.as_str()) {
        return Some(Keyword::Break);
    }
    if text_is(chars, start, end, Keyword::Continue.as_str()) {
        return Some(Keyword::Continue);
    }
    if text_is(chars, start, end, Keyword::Elif.as_str()) {
        return Some(Keyword::Elif);
    }
    if text_is(chars, start, end, Keyword::Else.as_str()) {
        return Some(Keyword::Else);
    }
    if text_is(chars, start, end, Keyword::Enum.as_str()) {
        return Some(Keyword::Enum);
    }
    if text_is(chars, start, end, Keyword::False.as_str()) {
        return Some(Keyword::False);
    }
    if text_is(chars, start, end, Keyword::Fn.as_str()) {
        return Some(Keyword::Fn);
    }
    if text_is(chars, start, end, Keyword::For.as_str()) {
        return Some(Keyword::For);
    }
    if text_is(chars, start, end, Keyword::If.as_str()) {
        return Some(Keyword::If);
    }
    if text_is(chars, start, end, Keyword::Impl.as_str()) {
        return Some(Keyword::Impl);
    }
    if text_is(chars, start, end, Keyword::In.as_str()) {
        return Some(Keyword::In);
    }
    if text_is(chars, start, end, Keyword::Let.as_str()) {
        return Some(Keyword::Let);
    }
    if text_is(chars, start, end, Keyword::Loop.as_str()) {
        return Some(Keyword::Loop);
    }
    if text_is(chars, start, end, Keyword::Match.as_str()) {
        return Some(Keyword::Match);
    }
    if text_is(chars, start, end, Keyword::Not.as_str()) {
        return Some(Keyword::Not);
    }
    if text_is(chars, start, end, Keyword::Or.as_str()) {
        return Some(Keyword::Or);
    }
    if text_is(chars, start, end, Keyword::Return.as_str()) {
        return Some(Keyword::Return);
    }
    if text_is(chars, start, end, Keyword::SelfType.as_str()) {
        return Some(Keyword::SelfType);
    }
    if text_is(chars, start, end, Keyword::SelfValue.as_str()) {
        return Some(Keyword::SelfValue);
    }
    if text_is(chars, start, end, Keyword::Struct.as_str()) {
        return Some(Keyword::Struct);
    }
    if text_is(chars, start, end, Keyword::Trait.as_str()) {
        return Some(Keyword::Trait);
    }
    if text_is(chars, start, end, Keyword::True.as_str()) {
        return Some(Keyword::True);
    }
    if text_is(chars, start, end, Keyword::Var.as_str()) {
        return Some(Keyword::Var);
    }
    if text_is(chars, start, end, Keyword::While.as_str()) {
        return Some(Keyword::While);
    }
    if text_is(chars, start, end, Keyword::Yield.as_str()) {
        return Some(Keyword::Yield);
    }
    None
}

/// Whether `s` spells a keyword.
pub open spec fn is_keyword_text(s: Seq<char>) -> bool {
    exists|k: Keyword| s == keyword_text(k)
}

fn is_ascii_digit(ch: char) -> (r: bool)
    ensures
        r == is_digit(ch),
{
    '0' <= ch && ch <= '9'
}

fn is_identifier_start(ch: char) -> (r: bool)
    ensures
        r == ident_start(ch),
{
    ch == '_' || char_is_alphabetic(ch)
}

fn is_identifier_continue(ch: char) -> (r: bool)
    ensures
        r == ident_continue(ch),
{
    is_identifier_start(ch) || is_ascii_digit(ch)
}

/// The characters `chars[start..end]` as a string.
fn chars_to_string(chars: &Vec<char>, start: usize, end: usize) -> (r: String)
    requires
        start <= end <= chars@.len(),
    ensures
        r@ == chars@.subrange(start as int, end as int),
{
    let mut out = String::new();
    let mut k = start;
    while k < end
        invariant
            start <= k <= end <= chars@.len(),
            out@ == chars@.subrange(start as int, k as int),
        decreases end - k,
    {
        out.push(chars[k]);
        assert(out@ =~= chars@.subrange(start as int, k + 1));
        k = k + 1;
    }
    out
}

/// Whether `chars[start..end]` is `lit`.
fn text_is(chars: &Vec<char>, start: usize, end: usize, lit: &str) -> (r: bool)
    requires
        start <= end <= chars@.len(),
    ensures
        r == (chars@.subrange(start as int, end as int) == lit@),
{
    let n = lit.unicode_len();
    if end - start != n {
        return false;
    }
    let mut i: usize = 0;
    while i < n
        invariant
            i <= n,
            n == lit@.len(),
            start + n == end,
            end <= chars@.len(),
            chars@.subrange(start as int, start + i) == lit@.subrange(0, i as int),
        decreases n - i,
    {
        if chars[start + i] != lit.get_char(i) {
            assert(chars@.subrange(start as int, end as int)[i as int] != lit@[i as int]);
            return false;
        }
        assert(chars@.subrange(start as int, start + i + 1) =~= lit@.subrange(0, i + 1));
        i = i + 1;
    }
    assert(lit@.subrange(0, n as int) =~= lit@);
    true
}


// ---------------------------------------------------------------------------
// What a token stream says about its source
// ---------------------------------------------------------------------------

pub open spec fn is_digit(c: char) -> bool {
    '0' <= c && c <= '9'
}

pub open spec fn ident_start(c: char) -> bool {
    c == '_' || unicode_alphabetic(c)
}

pub open spec fn ident_continue(c: char) -> bool {
    ident_start(c) || is_digit(c)
}

pub open spec fn is_digits(s: Seq<char>) -> bool {
    forall|k: int| 0 <= k < s.len() ==> is_digit(#[trigger] s[k])
}

/// An identifier start followed by identifier characters.
pub open spec fn is_word(s: Seq<char>) -> bool {
    &&& s.len() > 0
    &&& ident_start(s[0])
    &&& forall|k: int| 1 <= k < s.len() ==> ident_continue(#[trigger] s[k])
}

/// Digits, a dot, digits, with both digit runs nonempty.
pub open spec fn is_float_text(s: Seq<char>) -> bool {
    exists|d: int|
        0 < d < s.len() - 1 && #[trigger] s[d] == '.' && is_digits(s.take(d)) && is_digits(
            s.skip(d + 1),
        )
}

/// Nothing that continues a word stands at `j`.
pub open spec fn word_ends(src: Seq<char>, j: int) -> bool {
    j == src.len() || !ident_continue(src[j])
}

/// Nothing that continues an integer or turns it into a float stands at `j`.
pub open spec fn integer_ends(src: Seq<char>, j: int) -> bool {
    j == src.len() || (!is_digit(src[j]) && !(src[j] == '.' && j + 1 < src.len() && is_digit(
        src[j + 1],
    )))
}

/// `src` has `t` at index `i`.
pub open spec fn text_at(src: Seq<char>, i: int, t: Seq<char>) -> bool {
    0 <= i && i + t.len() <= src.len() && src.subrange(i, i + t.len()) == t
}

/// Token `t` stands for `src[i..j]`, whose byte range is `t.span`.
pub open spec fn token_ok(src: Seq<char>, t: Token, i: int, j: int) -> bool {
    let text = src.subrange(i, j);
    &&& 0 <= i <= j <= src.len()
    &&& t.span.start == byte_offset(src, i)
    &&& t.span.end == byte_offset(src, j)
    &&& match t.kind {
        TokenKind::Identifier(name) => {
            &&& name@ == text
            &&& is_word(text)
            &&& !is_keyword_text(text)
            &&& word_ends(src, j)
        },
        TokenKind::Keyword(k) => text == keyword_text(k) && word_ends(src, j),
        TokenKind::Integer(digits) => {
            &&& digits@ == text
            &&& text.len() > 0
            &&& is_digits(text)
            &&& integer_ends(src, j)
        },
        TokenKind::Float(digits) => {
            &&& digits@ == text
            &&& is_float_text(text)
            &&& (j == src.len() || !is_digit(src[j]))
        },
        TokenKind::String(_) => i < j && src[i] == '"',
        TokenKind::Symbol(sym) => {
            &&& text == symbol_text(sym)
            &&& forall|other: Symbol| #[trigger]
                text_at(src, i, symbol_text(other)) ==> symbol_text(other).len() <= j - i
        },
        TokenKind::Newline => text == seq!['\n'],
        TokenKind::Indent => i < j && forall|k: int|
            i <= k < j ==> (#[trigger] src[k] == ' ' || src[k] == '\t'),
        TokenKind::Dedent => i == j,
        TokenKind::Eof => i == j,
    }
}

/// Each token stands for the characters `src[anchors[k].0..anchors[k].1]`, and
/// these ranges follow one another without overlap.
pub open spec fn tokens_anchored(src: Seq<char>, tokens: Seq<Token>, anchors: Seq<(int, int)>) -> bool {
    &&& anchors.len() == tokens.len()
    &&& forall|k: int|
        0 <= k < tokens.len() ==> token_ok(src, #[trigger] tokens[k], anchors[k].0, anchors[k].1)
    &&& forall|k: int| 0 <= k < tokens.len() - 1 ==> #[trigger] anchors[k].1 <= anchors[k + 1].0
}

pub open spec fn count_indents(ts: Seq<Token>) -> nat
    decreases ts.len(),
{
    if ts.len() == 0 {
        0
    } else {
        count_indents(ts.drop_last()) + if ts.last().kind is Indent {
            1nat
        } else {
            0nat
        }
    }
}

pub open spec fn count_dedents(ts: Seq<Token>) -> nat
    decreases ts.len(),
{
    if ts.len() == 0 {
        0
    } else {
        count_dedents(ts.drop_last()) + if ts.last().kind is Dedent {
            1nat
        } else {
            0nat
        }
    }
}

/// Number of diagnostics with the given code.
pub open spec fn count_code(ds: Seq<Diagnostic>, code: Seq<char>) -> nat
    decreases ds.len(),
{
    if ds.len() == 0 {
        0
    } else {
        count_code(ds.drop_last(), code) + if ds.last().code@ == code {
            1nat
        } else {
            0nat
        }
    }
}

pub open spec fn code_tab_indent() -> Seq<char> {
    seq!['l', 'e', 'x', '.', 't', 'a', 'b', '_', 'i', 'n', 'd', 'e', 'n', 't']
}

pub open spec fn code_inconsistent_indent() -> Seq<char> {
    seq![
        'l', 'e', 'x', '.', 'i', 'n', 'c', 'o', 'n', 's', 'i', 's', 't', 'e', 'n', 't', '_', 'i',
        'n', 'd', 'e', 'n', 't',
    ]
}

pub open spec fn code_tab() -> Seq<char> {
    seq!['l', 'e', 'x', '.', 't', 'a', 'b']
}

pub open spec fn code_unterminated_string() -> Seq<char> {
    seq![
        'l', 'e', 'x', '.', 'u', 'n', 't', 'e', 'r', 'm', 'i', 'n', 'a', 't', 'e', 'd', '_', 's',
        't', 'r', 'i', 'n', 'g',
    ]
}

pub open spec fn code_unknown_escape() -> Seq<char> {
    seq!['l', 'e', 'x', '.', 'u', 'n', 'k', 'n', 'o', 'w', 'n', '_', 'e', 's', 'c', 'a', 'p', 'e']
}

pub open spec fn code_unknown_character() -> Seq<char> {
    seq![
        'l', 'e', 'x', '.', 'u', 'n', 'k', 'n', 'o', 'w', 'n', '_', 'c', 'h', 'a', 'r', 'a', 'c',
        't', 'e', 'r',
    ]
}

/// A lexer diagnostic: a known code with its severity, over bytes of `src`.
pub open spec fn lex_diagnostic_ok(src: Seq<char>, d: Diagnostic) -> bool {
    &&& d.span.start <= d.span.end <= byte_len(src)
    &&& d.notes@.len() == 0
    &&& {
        ||| d.code@ == code_tab_indent() && d.severity == Severity::Error
        ||| d.code@ == code_inconsistent_indent() && d.severity == Severity::Error
        ||| d.code@ == code_tab() && d.severity == Severity::Error
        ||| d.code@ == code_unterminated_string() && d.severity == Severity::Error
        ||| d.code@ == code_unknown_escape() && d.severity == Severity::Warning
        ||| d.code@ == code_unknown_character() && d.severity == Severity::Error
    }
}

/// What [`lex`] guarantees of its output for the source characters `src`.
pub open spec fn lexed(src: Seq<char>, out: LexOutput) -> bool {
    let tokens = out.tokens@;
    &&& tokens.len() >= 1
    &&& tokens.last().kind is Eof
    &&& forall|k: int| 0 <= k < tokens.len() - 1 ==> !(#[trigger] tokens[k].kind is Eof)
    &&& exists|anchors: Seq<(int, int)>|
        #[trigger] tokens_anchored(src, tokens, anchors) && anchors.last() == (
            src.len() as int,
            src.len() as int,
        )
    &&& count_dedents(tokens) == count_indents(tokens) + count_code(
        out.diagnostics@,
        code_inconsistent_indent(),
    )
    &&& forall|k: int|
        0 <= k < out.diagnostics@.len() ==> lex_diagnostic_ok(src, #[trigger] out.diagnostics@[k])
}


// ---------------------------------------------------------------------------
// What lexing computes
// ---------------------------------------------------------------------------

/// What a token kind says, its text taken by its characters.
pub enum TokenKindView {
    Identifier(Seq<char>),
    Integer(Seq<char>),
    Float(Seq<char>),
    String(Seq<char>),
    Keyword(Keyword),
    Symbol(Symbol),
    Newline,
    Indent,
    Dedent,
    Eof,
}

pub struct TokenView {
    pub kind: TokenKindView,
    pub span: Span,
}

pub open spec fn token_kind_view(k: TokenKind) -> TokenKindView {
    match k {
        TokenKind::Identifier(s) => TokenKindView::Identifier(s@),
        TokenKind::Integer(s) => TokenKindView::Integer(s@),
        TokenKind::Float(s) => TokenKindView::Float(s@),
        TokenKind::String(s) => TokenKindView::String(s@),
        TokenKind::Keyword(k) => TokenKindView::Keyword(k),
        TokenKind::Symbol(s) => TokenKindView::Symbol(s),
        TokenKind::Newline => TokenKindView::Newline,
        TokenKind::Indent => TokenKindView::Indent,
        TokenKind::Dedent => TokenKindView::Dedent,
        TokenKind::Eof => TokenKindView::Eof,
    }
}

impl View for Token {
    type V = TokenView;

    open spec fn view(&self) -> TokenView {
        TokenView { kind: token_kind_view(self.kind), span: self.span }
    }
}

pub open spec fn token_views(ts: Seq<Token>) -> Seq<TokenView> {
    ts.map_values(|t: Token| t@)
}

/// The lexer's state: the index of the next character, whether it stands at
/// the start of a line, the open indentation levels, and what was produced.
#[verifier::ext_equal]
pub struct LexState {
    pub pos: int,
    pub at_line_start: bool,
    pub indents: Seq<usize>,
    pub tokens: Seq<TokenView>,
    pub diagnostics: Seq<DiagView>,
}

/// The byte range of the characters `src[i..j]`.
pub open spec fn bspan(src: Seq<char>, i: int, j: int) -> Span {
    Span { start: byte_offset(src, i) as usize, end: byte_offset(src, j) as usize }
}

pub open spec fn push_token_s(st: LexState, kind: TokenKindView, span: Span) -> LexState {
    LexState { tokens: st.tokens.push(TokenView { kind, span }), ..st }
}

pub open spec fn push_diag_s(st: LexState, d: DiagView) -> LexState {
    LexState { diagnostics: st.diagnostics.push(d), ..st }
}

/// The first index at or after `i` that holds neither a space nor a tab.
pub open spec fn blank_end(src: Seq<char>, i: int) -> int
    decreases src.len() - i,
{
    if 0 <= i < src.len() && (src[i] == ' ' || src[i] == '\t') {
        blank_end(src, i + 1)
    } else {
        i
    }
}

/// Indentation width of `src[i..j]`: a space counts one, a tab four.
pub open spec fn indent_width(src: Seq<char>, i: int, j: int) -> int
    decreases j - i,
{
    if j <= i {
        0
    } else {
        indent_width(src, i, j - 1) + if src[j - 1] == '\t' {
            4int
        } else {
            1int
        }
    }
}

/// Widening a run of blanks never narrows its indentation width.
pub proof fn lemma_indent_width_mono(src: Seq<char>, i: int, j: int, k: int)
    requires
        i <= j <= k,
    ensures
        indent_width(src, i, j) <= indent_width(src, i, k),
    decreases k - j,
{
    if j < k {
        lemma_indent_width_mono(src, i, j, k - 1);
    }
}

/// The indentation of every line of `src` has a width that fits in `usize`,
/// the type in which lexing counts it.
pub open spec fn indents_fit(src: Seq<char>) -> bool {
    forall|i: int|
        0 <= i <= src.len() && (i == 0 || src[i - 1] == '\n') ==> #[trigger] indent_width(src, i, blank_end(src, i))
            <= usize::MAX
}

/// The first index in `i..j` that holds a tab.
pub open spec fn first_tab(src: Seq<char>, i: int, j: int) -> Option<int>
    decreases j - i,
{
    if j <= i {
        None
    } else if src[i] == '\t' {
        Some(i)
    } else {
        first_tab(src, i + 1, j)
    }
}

/// The first index at or after `i` that holds a newline, or the end.
pub open spec fn line_end(src: Seq<char>, i: int) -> int
    decreases src.len() - i,
{
    if 0 <= i < src.len() && src[i] != '\n' {
        line_end(src, i + 1)
    } else {
        i
    }
}

/// The first index at or after `i` that does not continue a word.
pub open spec fn word_end(src: Seq<char>, i: int) -> int
    decreases src.len() - i,
{
    if 0 <= i < src.len() && ident_continue(src[i]) {
        word_end(src, i + 1)
    } else {
        i
    }
}

/// The first index at or after `i` that holds no digit.
pub open spec fn digits_end(src: Seq<char>, i: int) -> int
    decreases src.len() - i,
{
    if 0 <= i < src.len() && is_digit(src[i]) {
        digits_end(src, i + 1)
    } else {
        i
    }
}

/// The keyword spelled `s`, if any.
pub open spec fn keyword_of(s: Seq<char>) -> Option<Keyword> {
    if s == keyword_text(Keyword::And) {
        Some(Keyword::And)
    } else if s == keyword_text(Keyword::Async) {
        Some(Keyword::Async)
    } else if s == keyword_text(Keyword::Await) {
        Some(Keyword::Await)
    } else if s == keyword_text(Keyword::Break) {
        Some(Keyword::Break)
    } else if s == keyword_text(Keyword::Continue) {
        Some(Keyword::Continue)
    } else if s == keyword_text(Keyword::Elif) {
        Some(Keyword::Elif)
    } else if s == keyword_text(Keyword::Else) {
        Some(Keyword::Else)
    } else if s == keyword_text(Keyword::Enum) {
        Some(Keyword::Enum)
    } else if s == keyword_text(Keyword::False) {
        Some(Keyword::False)
    } else if s == keyword_text(Keyword::Fn) {
        Some(Keyword::Fn)
    } else if s == keyword_text(Keyword::For) {
        Some(Keyword::For)
    } else if s == keyword_text(Keyword::If) {
        Some(Keyword::If)
    } else if s == keyword_text(Keyword::Impl) {
        Some(Keyword::Impl)
    } else if s == keyword_text(Keyword::In) {
        Some(Keyword::In)
    } else if s == keyword_text(Keyword::Let) {
        Some(Keyword::Let)
    } else if s == keyword_text(Keyword::Loop) {
        Some(Keyword::Loop)
    } else if s == keyword_text(Keyword::Match) {
        Some(Keyword::Match)
    } else if s == keyword_text(Keyword::Not) {
        Some(Keyword::Not)
    } else if s == keyword_text(Keyword::Or) {
        Some(Keyword::Or)
    } else if s == keyword_text(Keyword::Return) {
        Some(Keyword::Return)
    } else if s == keyword_text(Keyword::SelfType) {
        Some(Keyword::SelfType)
    } else if s == keyword_text(Keyword::SelfValue) {
        Some(Keyword::SelfValue)
    } else if s == keyword_text(Keyword::Struct) {
        Some(Keyword::Struct)
    } else if s == keyword_text(Keyword::Trait) {
        Some(Keyword::Trait)
    } else if s == keyword_text(Keyword::True) {
        Some(Keyword::True)
    } else if s == keyword_text(Keyword::Var) {
        Some(Keyword::Var)
    } else if s == keyword_text(Keyword::While) {
        Some(Keyword::While)
    } else if s == keyword_text(Keyword::Yield) {
        Some(Keyword::Yield)
    } else {
        None
    }
}

/// Every keyword's spelling is found again as that keyword.
pub proof fn lemma_keyword_of_text(k: Keyword)
    ensures
        keyword_of(keyword_text(k)) == Some(k),
{
    let t = keyword_text(k);
    assert forall|j: Keyword| keyword_text(j) == t implies j == k by {
        let u = keyword_text(j);
        if j != k {
            assert(u.len() != t.len() || exists|i: int| 0 <= i < t.len() && u[i] != t[i]) by {
                if u.len() == t.len() {
                    assert(u[0] != t[0] || u[1] != t[1] || u[2] != t[2] || u[t.len() - 1] != t[t.len() - 1]
                        || (t.len() > 3 && u[3] != t[3]));
                }
            }
        }
    }
}

/// What `keyword_of` finds is spelled by the text it was given, and it finds
/// nothing exactly where the text spells no keyword.
pub proof fn lemma_keyword_of_spells(s: Seq<char>)
    ensures
        keyword_of(s) matches Some(k) ==> s == keyword_text(k),
        keyword_of(s) is None <==> !is_keyword_text(s),
{
    if is_keyword_text(s) {
        let k = choose|k: Keyword| s == keyword_text(k);
        lemma_keyword_of_text(k);
    }
}

/// The symbol spelled by the two characters `a` then `b`, if any.
pub open spec fn two_char_symbol_of(a: char, b: char) -> Option<Symbol> {
    if a == '!' && b == '=' {
        Some(Symbol::BangEqual)
    } else if a == '=' && b == '=' {
        Some(Symbol::EqualEqual)
    } else if a == '=' && b == '>' {
        Some(Symbol::FatArrow)
    } else if a == '>' && b == '=' {
        Some(Symbol::GreaterEqual)
    } else if a == '<' && b == '=' {
        Some(Symbol::LessEqual)
    } else if a == '-' && b == '=' {
        Some(Symbol::MinusEqual)
    } else if a == '%' && b == '=' {
        Some(Symbol::PercentEqual)
    } else if a == '+' && b == '=' {
        Some(Symbol::PlusEqual)
    } else if a == '/' && b == '=' {
        Some(Symbol::SlashEqual)
    } else if a == '*' && b == '=' {
        Some(Symbol::StarEqual)
    } else if a == '-' && b == '>' {
        Some(Symbol::ThinArrow)
    } else {
        None
    }
}

/// The symbol spelled by the character `a`, if any.
pub open spec fn one_char_symbol_of(a: char) -> Option<Symbol> {
    if a == '&' {
        Some(Symbol::Ampersand)
    } else if a == '!' {
        Some(Symbol::Bang)
    } else if a == '^' {
        Some(Symbol::Caret)
    } else if a == ':' {
        Some(Symbol::Colon)
    } else if a == ',' {
        Some(Symbol::Comma)
    } else if a == '.' {
        Some(Symbol::Dot)
    } else if a == '=' {
        Some(Symbol::Equal)
    } else if a == '>' {
        Some(Symbol::Greater)
    } else if a == '{' {
        Some(Symbol::LBrace)
    } else if a == '[' {
        Some(Symbol::LBracket)
    } else if a == '<' {
        Some(Symbol::Less)
    } else if a == '(' {
        Some(Symbol::LParen)
    } else if a == '-' {
        Some(Symbol::Minus)
    } else if a == '%' {
        Some(Symbol::Percent)
    } else if a == '|' {
        Some(Symbol::Pipe)
    } else if a == '+' {
        Some(Symbol::Plus)
    } else if a == '?' {
        Some(Symbol::Question)
    } else if a == '}' {
        Some(Symbol::RBrace)
    } else if a == ']' {
        Some(Symbol::RBracket)
    } else if a == ')' {
        Some(Symbol::RParen)
    } else if a == ';' {
        Some(Symbol::Semicolon)
    } else if a == '/' {
        Some(Symbol::Slash)
    } else if a == '*' {
        Some(Symbol::Star)
    } else {
        None
    }
}

/// A text of ASCII characters takes one byte per character.
pub proof fn lemma_ascii_byte_len(s: Seq<char>)
    requires
        forall|i: int| 0 <= i < s.len() ==> (#[trigger] s[i] as u32) < 0x80,
    ensures
        byte_len(s) == s.len(),
    decreases s.len(),
{
    if s.len() > 0 {
        lemma_ascii_byte_len(s.drop_last());
    }
}

/// Each symbol's text lexes back to that symbol alone: one token over the
/// whole text, the longest symbol taken, and nothing reported.
pub proof fn lemma_symbol_text_lexes(s: Symbol)
    ensures
        ({
            let src = symbol_text(s);
            let out = symbol_s(src, initial_lex_state());
            &&& out.tokens == seq![
                TokenView { kind: TokenKindView::Symbol(s), span: Span { start: 0, end: src.len() as usize } },
            ]
            &&& out.pos == src.len()
            &&& out.diagnostics.len() == 0
        }),
{
    let src = symbol_text(s);
    lemma_symbol_text_short();
    assert(forall|i: int| 0 <= i < src.len() ==> (#[trigger] src[i] as u32) < 0x80);
    lemma_ascii_byte_len(src);
    assert(src.take(0) =~= Seq::<char>::empty());
    assert(src.take(src.len() as int) =~= src);
    assert(byte_offset(src, 0) == 0);
    assert(byte_offset(src, src.len() as int) == src.len());
    if src.len() == 2 {
        assert(two_char_symbol_of(src[0], src[1]) == Some(s));
    } else {
        assert(one_char_symbol_of(src[0]) == Some(s));
    }
}

/// The character that the escape `\c` stands for, if it is a known escape.
pub open spec fn escape_of(c: char) -> Option<char> {
    if c == '"' {
        Some('"')
    } else if c == '\\' {
        Some('\\')
    } else if c == 'n' {
        Some('\n')
    } else if c == 'r' {
        Some('\r')
    } else if c == 't' {
        Some('\t')
    } else {
        None
    }
}

/// Closes open levels deeper than `indent`, a `Dedent` at byte `end` each.
pub open spec fn dedent_s(st: LexState, indent: int, end: usize) -> LexState
    decreases st.indents.len(),
{
    if st.indents.len() > 0 && indent < st.indents.last() {
        dedent_s(
            LexState {
                indents: st.indents.drop_last(),
                tokens: st.tokens.push(TokenView { kind: TokenKindView::Dedent, span: Span { start: end, end } }),
                ..st
            },
            indent,
            end,
        )
    } else {
        st
    }
}

/// Turns the indentation `indent` of a line, written over `src[i..j]`, into
/// `Indent`/`Dedent` tokens.
pub open spec fn indentation_s(src: Seq<char>, st: LexState, indent: int, i: int, j: int) -> LexState {
    let span = bspan(src, i, j);
    if indent > st.indents.last() {
        LexState {
            indents: st.indents.push(indent as usize),
            tokens: st.tokens.push(TokenView { kind: TokenKindView::Indent, span }),
            ..st
        }
    } else {
        let closed = dedent_s(st, indent, span.end);
        if indent != closed.indents.last() {
            LexState {
                indents: closed.indents.push(indent as usize),
                diagnostics: closed.diagnostics.push(
                    error_view(
                        code_inconsistent_indent(),
                        "indentation does not match any previous indentation level"@,
                        span,
                    ),
                ),
                ..closed
            }
        } else {
            closed
        }
    }
}

/// The start of a line: blanks, then a blank line, a comment line, the end,
/// or the first token of a line whose indentation is applied.
pub open spec fn line_start_s(src: Seq<char>, st: LexState) -> LexState {
    let i = st.pos;
    let j = blank_end(src, i);
    let noted = match first_tab(src, i, j) {
        Some(t) => push_diag_s(
            st,
            error_view(code_tab_indent(), "tabs are not allowed for indentation; use spaces"@, bspan(src, t, j)),
        ),
        None => st,
    };
    let at = LexState { pos: j, ..noted };
    if j < src.len() && src[j] == '\n' {
        LexState { pos: j + 1, ..at }
    } else if j < src.len() && src[j] == '#' {
        let k = line_end(src, j);
        if k < src.len() {
            LexState { pos: k + 1, ..at }
        } else {
            LexState { pos: k, ..at }
        }
    } else if j >= src.len() {
        at
    } else {
        LexState { at_line_start: false, ..indentation_s(src, at, indent_width(src, i, j), i, j) }
    }
}

/// Spaces and tabs between tokens; each tab is reported.
pub open spec fn blanks_s(src: Seq<char>, st: LexState) -> LexState
    decreases src.len() - st.pos,
{
    let k = st.pos;
    if 0 <= k < src.len() && (src[k] == ' ' || src[k] == '\t') {
        let noted = if src[k] == '\t' {
            push_diag_s(st, error_view(code_tab(), "tabs are not allowed; use spaces"@, bspan(src, k, k + 1)))
        } else {
            st
        };
        blanks_s(src, LexState { pos: k + 1, ..noted })
    } else {
        st
    }
}

/// An unterminated string literal from `i` to `st.pos` holding `value`.
pub open spec fn unterminated_s(src: Seq<char>, st: LexState, i: int, value: Seq<char>) -> LexState {
    let span = bspan(src, i, st.pos);
    LexState {
        tokens: st.tokens.push(TokenView { kind: TokenKindView::String(value), span }),
        diagnostics: st.diagnostics.push(
            error_view(code_unterminated_string(), "string literal is missing a closing quote"@, span),
        ),
        ..st
    }
}

/// The rest of a string literal that opened at `i`, `value` read so far.
pub open spec fn string_s(src: Seq<char>, st: LexState, i: int, value: Seq<char>) -> LexState
    decreases src.len() - st.pos,
{
    let k = st.pos;
    if k < 0 || k >= src.len() {
        unterminated_s(src, st, i, value)
    } else if src[k] == '"' {
        push_token_s(LexState { pos: k + 1, ..st }, TokenKindView::String(value), bspan(src, i, k + 1))
    } else if src[k] == '\n' {
        unterminated_s(src, st, i, value)
    } else if src[k] == '\\' {
        if k + 1 >= src.len() {
            unterminated_s(src, LexState { pos: k + 1, ..st }, i, value)
        } else {
            let c = src[k + 1];
            match escape_of(c) {
                Some(e) => string_s(src, LexState { pos: k + 2, ..st }, i, value.push(e)),
                None => string_s(
                    src,
                    LexState {
                        pos: k + 2,
                        diagnostics: st.diagnostics.push(
                            DiagView {
                                severity: Severity::Warning,
                                code: code_unknown_escape(),
                                message: "unknown escape sequence '\\"@ + seq![c] + "'"@,
                                span: bspan(src, k, k + 2),
                                notes: seq![],
                            },
                        ),
                        ..st
                    },
                    i,
                    value.push(c),
                ),
            }
        }
    } else {
        string_s(src, LexState { pos: k + 1, ..st }, i, value.push(src[k]))
    }
}

/// A word: a keyword or an identifier.
pub open spec fn word_s(src: Seq<char>, st: LexState) -> LexState {
    let i = st.pos;
    let j = word_end(src, i + 1);
    let text = src.subrange(i, j);
    let kind = match keyword_of(text) {
        Some(k) => TokenKindView::Keyword(k),
        None => TokenKindView::Identifier(text),
    };
    push_token_s(LexState { pos: j, ..st }, kind, bspan(src, i, j))
}

/// A number: digits, then a fraction when a dot is followed by a digit.
pub open spec fn number_s(src: Seq<char>, st: LexState) -> LexState {
    let i = st.pos;
    let d = digits_end(src, i);
    let is_float = d + 1 < src.len() && src[d] == '.' && is_digit(src[d + 1]);
    let j = if is_float {
        digits_end(src, d + 1)
    } else {
        d
    };
    let text = src.subrange(i, j);
    let kind = if is_float {
        TokenKindView::Float(text)
    } else {
        TokenKindView::Integer(text)
    };
    push_token_s(LexState { pos: j, ..st }, kind, bspan(src, i, j))
}

/// A symbol, the two-character one when there is one; or an unknown
/// character, reported.
pub open spec fn symbol_s(src: Seq<char>, st: LexState) -> LexState {
    let i = st.pos;
    let c = src[i];
    let two = if i + 1 < src.len() {
        two_char_symbol_of(c, src[i + 1])
    } else {
        None
    };
    match two {
        Some(s) => push_token_s(LexState { pos: i + 2, ..st }, TokenKindView::Symbol(s), bspan(src, i, i + 2)),
        None => match one_char_symbol_of(c) {
            Some(s) => push_token_s(LexState { pos: i + 1, ..st }, TokenKindView::Symbol(s), bspan(src, i, i + 1)),
            None => push_diag_s(
                LexState { pos: i + 1, ..st },
                error_view(code_unknown_character(), "unknown character '"@ + seq![c] + "'"@, bspan(src, i, i + 1)),
            ),
        },
    }
}

/// What the character at `st.pos` starts.
pub open spec fn token_s(src: Seq<char>, st: LexState) -> LexState {
    let c = src[st.pos];
    if c == '\n' {
        push_token_s(
            LexState { pos: st.pos + 1, at_line_start: true, ..st },
            TokenKindView::Newline,
            bspan(src, st.pos, st.pos + 1),
        )
    } else if c == ' ' || c == '\t' {
        blanks_s(src, st)
    } else if c == '#' {
        LexState { pos: line_end(src, st.pos), ..st }
    } else if c == '"' {
        string_s(src, LexState { pos: st.pos + 1, ..st }, st.pos, seq![])
    } else if is_digit(c) {
        number_s(src, st)
    } else if ident_start(c) {
        word_s(src, st)
    } else {
        symbol_s(src, st)
    }
}

/// One round of the lexer: the start of a line, if there, then a token.
pub open spec fn step_s(src: Seq<char>, st: LexState) -> LexState {
    if st.at_line_start {
        let after = line_start_s(src, st);
        if after.at_line_start || after.pos >= src.len() {
            after
        } else {
            token_s(src, after)
        }
    } else {
        token_s(src, st)
    }
}

/// Rounds until the end of the source; every round moves forward (see
/// [`lemma_lex_step_progress`]).
pub open spec fn run_s(src: Seq<char>, st: LexState) -> LexState
    decreases src.len() - st.pos,
{
    if st.pos < 0 || st.pos >= src.len() {
        st
    } else {
        let next = step_s(src, st);
        if st.pos < next.pos <= src.len() {
            run_s(src, next)
        } else {
            st
        }
    }
}

/// Closes every open level at the end, then adds the end of file.
pub open spec fn close_s(st: LexState, end: usize) -> LexState
    decreases st.indents.len(),
{
    if st.indents.len() > 1 {
        close_s(
            LexState {
                indents: st.indents.drop_last(),
                tokens: st.tokens.push(TokenView { kind: TokenKindView::Dedent, span: Span { start: end, end } }),
                ..st
            },
            end,
        )
    } else {
        st
    }
}

pub open spec fn initial_lex_state() -> LexState {
    LexState { pos: 0, at_line_start: true, indents: seq![0usize], tokens: seq![], diagnostics: seq![] }
}

proof fn lemma_blank_end(src: Seq<char>, i: int)
    requires
        0 <= i <= src.len(),
    ensures
        i <= blank_end(src, i) <= src.len(),
    decreases src.len() - i,
{
    if i < src.len() && (src[i] == ' ' || src[i] == '\t') {
        lemma_blank_end(src, i + 1);
    }
}

proof fn lemma_line_end(src: Seq<char>, i: int)
    requires
        0 <= i <= src.len(),
    ensures
        i <= line_end(src, i) <= src.len(),
    decreases src.len() - i,
{
    if i < src.len() && src[i] != '\n' {
        lemma_line_end(src, i + 1);
    }
}

proof fn lemma_word_end(src: Seq<char>, i: int)
    requires
        0 <= i <= src.len(),
    ensures
        i <= word_end(src, i) <= src.len(),
    decreases src.len() - i,
{
    if i < src.len() && ident_continue(src[i]) {
        lemma_word_end(src, i + 1);
    }
}

proof fn lemma_digits_end(src: Seq<char>, i: int)
    requires
        0 <= i <= src.len(),
    ensures
        i <= digits_end(src, i) <= src.len(),
    decreases src.len() - i,
{
    if i < src.len() && is_digit(src[i]) {
        lemma_digits_end(src, i + 1);
    }
}

proof fn lemma_blanks_pos(src: Seq<char>, st: LexState)
    requires
        0 <= st.pos <= src.len(),
    ensures
        st.pos <= blanks_s(src, st).pos <= src.len(),
        st.pos < src.len() && (src[st.pos] == ' ' || src[st.pos] == '\t') ==> blanks_s(src, st).pos > st.pos,
    decreases src.len() - st.pos,
{
    let k = st.pos;
    if k < src.len() && (src[k] == ' ' || src[k] == '\t') {
        let noted = if src[k] == '\t' {
            push_diag_s(st, error_view(code_tab(), "tabs are not allowed; use spaces"@, bspan(src, k, k + 1)))
        } else {
            st
        };
        lemma_blanks_pos(src, LexState { pos: k + 1, ..noted });
    }
}

proof fn lemma_string_pos(src: Seq<char>, st: LexState, i: int, value: Seq<char>)
    requires
        0 <= st.pos <= src.len(),
    ensures
        st.pos <= string_s(src, st, i, value).pos <= src.len(),
    decreases src.len() - st.pos,
{
    let k = st.pos;
    if 0 <= k < src.len() && src[k] != '"' && src[k] != '\n' {
        if src[k] == '\\' {
            if k + 1 < src.len() {
                let c = src[k + 1];
                match escape_of(c) {
                    Some(e) => lemma_string_pos(src, LexState { pos: k + 2, ..st }, i, value.push(e)),
                    None => lemma_string_pos(
                        src,
                        LexState {
                            pos: k + 2,
                            diagnostics: st.diagnostics.push(
                                DiagView {
                                    severity: Severity::Warning,
                                    code: code_unknown_escape(),
                                    message: "unknown escape sequence '\\"@ + seq![c] + "'"@,
                                    span: bspan(src, k, k + 2),
                                    notes: seq![],
                                },
                            ),
                            ..st
                        },
                        i,
                        value.push(c),
                    ),
                }
            }
        } else {
            lemma_string_pos(src, LexState { pos: k + 1, ..st }, i, value.push(src[k]));
        }
    }
}

/// The character that `\c` stands for inside a string literal: `\n` is a line
/// feed (U+000A), `\r` a carriage return (U+000D), `\t` a tab (U+0009), `\"` a
/// quote and `\\` a backslash; an unknown escape stands for `c` itself.
pub open spec fn escaped_char(c: char) -> char {
    if c == 'n' {
        '\u{000A}'
    } else if c == 'r' {
        '\u{000D}'
    } else if c == 't' {
        '\u{0009}'
    } else if c == '"' {
        '"'
    } else if c == '\\' {
        '\\'
    } else {
        c
    }
}

/// The escapes a string literal knows: `\n`, `\r`, `\t`, `\"` and `\\`.
pub open spec fn is_known_escape(c: char) -> bool {
    c == 'n' || c == 'r' || c == 't' || c == '"' || c == '\\'
}

/// `s` can stand between the quotes of a string literal: a quote or a line
/// break only right after a backslash, and a character after each backslash.
pub open spec fn is_string_body(s: Seq<char>) -> bool
    decreases s.len(),
{
    if s.len() == 0 {
        true
    } else if s[0] == '\\' {
        s.len() >= 2 && is_string_body(s.skip(2))
    } else {
        s[0] != '"' && s[0] != '\n' && is_string_body(s.skip(1))
    }
}

/// The value that the text `s` between the quotes of a string literal spells:
/// each backslash and the character after it become [`escaped_char`] of that
/// character; every other character stands for itself.
pub open spec fn unescape(s: Seq<char>) -> Seq<char>
    decreases s.len(),
{
    if s.len() == 0 {
        seq![]
    } else if s[0] == '\\' && s.len() >= 2 {
        seq![escaped_char(s[1])] + unescape(s.skip(2))
    } else {
        seq![s[0]] + unescape(s.skip(1))
    }
}

/// How many escapes of the text `s` between the quotes are unknown.
pub open spec fn unknown_escapes(s: Seq<char>) -> nat
    decreases s.len(),
{
    if s.len() == 0 {
        0
    } else if s[0] == '\\' && s.len() >= 2 {
        (if is_known_escape(s[1]) {
            0nat
        } else {
            1nat
        }) + unknown_escapes(s.skip(2))
    } else {
        unknown_escapes(s.skip(1))
    }
}

/// The rest `src[st.pos..m]` of a string literal closed at `m` adds its
/// unescaped text to `value`, and a warning for each unknown escape.
proof fn lemma_string_body(src: Seq<char>, st: LexState, i: int, value: Seq<char>, m: int)
    requires
        0 <= st.pos <= m < src.len(),
        src[m] == '"',
        is_string_body(src.subrange(st.pos, m)),
    ensures
        ({
            let out = string_s(src, st, i, value);
            let body = src.subrange(st.pos, m);
            &&& out.tokens == st.tokens.push(
                TokenView { kind: TokenKindView::String(value + unescape(body)), span: bspan(src, i, m + 1) },
            )
            &&& out.pos == m + 1
            &&& out.at_line_start == st.at_line_start
            &&& out.indents == st.indents
            &&& out.diagnostics.len() == st.diagnostics.len() + unknown_escapes(body)
            &&& out.diagnostics.take(st.diagnostics.len() as int) == st.diagnostics
            &&& forall|k: int|
                st.diagnostics.len() <= k < out.diagnostics.len() ==> (#[trigger] out.diagnostics[k]).severity
                    == Severity::Warning && out.diagnostics[k].code == code_unknown_escape()
        }),
    decreases m - st.pos,
{
    let k = st.pos;
    let body = src.subrange(k, m);
    let out = string_s(src, st, i, value);
    if k == m {
        assert(body =~= Seq::<char>::empty());
        assert(value + unescape(body) =~= value);
        assert(out.diagnostics.take(st.diagnostics.len() as int) =~= st.diagnostics);
    } else {
        assert(body[0] == src[k]);
        if src[k] == '\\' {
            let c = src[k + 1];
            assert(body[1] == c);
            assert(body.skip(2) =~= src.subrange(k + 2, m));
            let x = escaped_char(c);
            let next = if escape_of(c) is Some {
                LexState { pos: k + 2, ..st }
            } else {
                LexState {
                    pos: k + 2,
                    diagnostics: st.diagnostics.push(
                        DiagView {
                            severity: Severity::Warning,
                            code: code_unknown_escape(),
                            message: "unknown escape sequence '\\"@ + seq![c] + "'"@,
                            span: bspan(src, k, k + 2),
                            notes: seq![],
                        },
                    ),
                    ..st
                }
            };
            assert(escape_of(c) is Some <==> is_known_escape(c));
            assert(escape_of(c) is Some ==> escape_of(c) == Some(x));
            assert(escape_of(c) is None ==> x == c);
            assert(out == string_s(src, next, i, value.push(x)));
            lemma_string_body(src, next, i, value.push(x), m);
            assert(value.push(x) + unescape(src.subrange(k + 2, m)) =~= value + unescape(body));
            let n = st.diagnostics.len() as int;
            assert(out.diagnostics.take(n) =~= out.diagnostics.take(next.diagnostics.len() as int).take(n));
            assert(next.diagnostics.take(n) =~= st.diagnostics);
            assert forall|k: int| n <= k < out.diagnostics.len() implies (#[trigger] out.diagnostics[k]).severity
                == Severity::Warning && out.diagnostics[k].code == code_unknown_escape() by {
                if k < next.diagnostics.len() {
                    assert(out.diagnostics[k] == out.diagnostics.take(next.diagnostics.len() as int)[k]);
                }
            }
        } else {
            assert(body.skip(1) =~= src.subrange(k + 1, m));
            lemma_string_body(src, LexState { pos: k + 1, ..st }, i, value.push(src[k]), m);
            assert(value.push(src[k]) + unescape(src.subrange(k + 1, m)) =~= value + unescape(body));
        }
    }
}

/// The rest `src[st.pos..m]` of a string literal left open at the end of its
/// line or of the source adds its unescaped text to `value`, a warning for
/// each unknown escape, then the error that the quote is missing.
proof fn lemma_string_body_open(src: Seq<char>, st: LexState, i: int, value: Seq<char>, m: int)
    requires
        0 <= st.pos <= m <= src.len(),
        m == src.len() || src[m] == '\n',
        is_string_body(src.subrange(st.pos, m)),
    ensures
        ({
            let out = string_s(src, st, i, value);
            let body = src.subrange(st.pos, m);
            &&& out.tokens == st.tokens.push(
                TokenView { kind: TokenKindView::String(value + unescape(body)), span: bspan(src, i, m) },
            )
            &&& out.pos == m
            &&& out.at_line_start == st.at_line_start
            &&& out.indents == st.indents
            &&& out.diagnostics.len() == st.diagnostics.len() + unknown_escapes(body) + 1
            &&& out.diagnostics.take(st.diagnostics.len() as int) == st.diagnostics
            &&& forall|k: int|
                st.diagnostics.len() <= k < out.diagnostics.len() - 1 ==> (#[trigger] out.diagnostics[k]).severity
                    == Severity::Warning && out.diagnostics[k].code == code_unknown_escape()
            &&& out.diagnostics.last() == error_view(
                code_unterminated_string(),
                "string literal is missing a closing quote"@,
                bspan(src, i, m),
            )
        }),
    decreases m - st.pos,
{
    let k = st.pos;
    let body = src.subrange(k, m);
    let out = string_s(src, st, i, value);
    if k == m {
        assert(body =~= Seq::<char>::empty());
        assert(value + unescape(body) =~= value);
        assert(out.diagnostics.take(st.diagnostics.len() as int) =~= st.diagnostics);
    } else {
        assert(body[0] == src[k]);
        if src[k] == '\\' {
            let c = src[k + 1];
            assert(body[1] == c);
            assert(body.skip(2) =~= src.subrange(k + 2, m));
            let x = escaped_char(c);
            let next = if escape_of(c) is Some {
                LexState { pos: k + 2, ..st }
            } else {
                LexState {
                    pos: k + 2,
                    diagnostics: st.diagnostics.push(
                        DiagView {
                            severity: Severity::Warning,
                            code: code_unknown_escape(),
                            message: "unknown escape sequence '\\"@ + seq![c] + "'"@,
                            span: bspan(src, k, k + 2),
                            notes: seq![],
                        },
                    ),
                    ..st
                }
            };
            assert(escape_of(c) is Some <==> is_known_escape(c));
            assert(escape_of(c) is Some ==> escape_of(c) == Some(x));
            assert(escape_of(c) is None ==> x == c);
            assert(out == string_s(src, next, i, value.push(x)));
            lemma_string_body_open(src, next, i, value.push(x), m);
            assert(value.push(x) + unescape(src.subrange(k + 2, m)) =~= value + unescape(body));
            let n = st.diagnostics.len() as int;
            assert(out.diagnostics.take(n) =~= out.diagnostics.take(next.diagnostics.len() as int).take(n));
            assert(next.diagnostics.take(n) =~= st.diagnostics);
            assert forall|k: int| n <= k < out.diagnostics.len() - 1 implies (#[trigger] out.diagnostics[k]).severity
                == Severity::Warning && out.diagnostics[k].code == code_unknown_escape() by {
                if k < next.diagnostics.len() {
                    assert(out.diagnostics[k] == out.diagnostics.take(next.diagnostics.len() as int)[k]);
                }
            }
        } else {
            assert(body.skip(1) =~= src.subrange(k + 1, m));
            lemma_string_body_open(src, LexState { pos: k + 1, ..st }, i, value.push(src[k]), m);
            assert(value.push(src[k]) + unescape(src.subrange(k + 1, m)) =~= value + unescape(body));
        }
    }
}

/// A string literal closed by a quote lexes to one `String` token that spans
/// it, quotes included, and whose value is the text between the quotes
/// unescaped: `\n`, `\r`, `\t`, `\"` and `\\` become a line feed, a carriage
/// return, a tab, a quote and a backslash; an unknown escape `\c` becomes `c`,
/// with one unknown-escape warning for each; nothing else is reported.
pub proof fn lemma_string_literal(src: Seq<char>, st: LexState, m: int)
    requires
        0 <= st.pos < m < src.len(),
        src[st.pos] == '"',
        src[m] == '"',
        is_string_body(src.subrange(st.pos + 1, m)),
    ensures
        ({
            let out = token_s(src, st);
            let body = src.subrange(st.pos + 1, m);
            &&& out.tokens == st.tokens.push(
                TokenView { kind: TokenKindView::String(unescape(body)), span: bspan(src, st.pos, m + 1) },
            )
            &&& out.pos == m + 1
            &&& out.at_line_start == st.at_line_start
            &&& out.indents == st.indents
            &&& out.diagnostics.len() == st.diagnostics.len() + unknown_escapes(body)
            &&& out.diagnostics.take(st.diagnostics.len() as int) == st.diagnostics
            &&& forall|k: int|
                st.diagnostics.len() <= k < out.diagnostics.len() ==> (#[trigger] out.diagnostics[k]).severity
                    == Severity::Warning && out.diagnostics[k].code == code_unknown_escape()
        }),
{
    let body = src.subrange(st.pos + 1, m);
    lemma_string_body(src, LexState { pos: st.pos + 1, ..st }, st.pos, seq![], m);
    assert(Seq::<char>::empty() + unescape(body) =~= unescape(body));
}

/// A string literal left open lexes all the same: where the line or the
/// source ends before a closing quote, the `String` token spans the opening
/// quote and the text after it, its value is that text unescaped as in a
/// closed literal, and after a warning for each unknown escape the missing
/// quote is reported at the token's span.
pub proof fn lemma_unterminated_string_literal(src: Seq<char>, st: LexState, m: int)
    requires
        0 <= st.pos < m <= src.len(),
        src[st.pos] == '"',
        m == src.len() || src[m] == '\n',
        is_string_body(src.subrange(st.pos + 1, m)),
    ensures
        ({
            let out = token_s(src, st);
            let body = src.subrange(st.pos + 1, m);
            &&& out.tokens == st.tokens.push(
                TokenView { kind: TokenKindView::String(unescape(body)), span: bspan(src, st.pos, m) },
            )
            &&& out.pos == m
            &&& out.at_line_start == st.at_line_start
            &&& out.indents == st.indents
            &&& out.diagnostics.len() == st.diagnostics.len() + unknown_escapes(body) + 1
            &&& out.diagnostics.take(st.diagnostics.len() as int) == st.diagnostics
            &&& forall|k: int|
                st.diagnostics.len() <= k < out.diagnostics.len() - 1 ==> (#[trigger] out.diagnostics[k]).severity
                    == Severity::Warning && out.diagnostics[k].code == code_unknown_escape()
            &&& out.diagnostics.last() == error_view(
                code_unterminated_string(),
                "string literal is missing a closing quote"@,
                bspan(src, st.pos, m),
            )
        }),
{
    let body = src.subrange(st.pos + 1, m);
    lemma_string_body_open(src, LexState { pos: st.pos + 1, ..st }, st.pos, seq![], m);
    assert(Seq::<char>::empty() + unescape(body) =~= unescape(body));
}

/// The open indentation levels rise strictly from the outermost.
pub open spec fn levels_rising(levels: Seq<usize>) -> bool {
    forall|a: int, b: int| 0 <= a < b < levels.len() ==> levels[a] < levels[b]
}

/// `c` `Dedent` tokens, each empty at byte `end`.
pub open spec fn dedent_tokens(c: nat, end: usize) -> Seq<TokenView> {
    Seq::new(c, |k: int| TokenView { kind: TokenKindView::Dedent, span: Span { start: end, end } })
}

/// Closing levels deeper than `indent` keeps the levels up to `indent` and
/// adds one `Dedent` per level closed.
proof fn lemma_dedent_closes(st: LexState, indent: int, end: usize)
    requires
        levels_rising(st.indents),
    ensures
        ({
            let out = dedent_s(st, indent, end);
            let n = out.indents.len();
            &&& n <= st.indents.len()
            &&& out.indents == st.indents.take(n as int)
            &&& forall|k: int| n <= k < st.indents.len() ==> indent < #[trigger] st.indents[k]
            &&& n > 0 ==> st.indents[n - 1] <= indent
            &&& out.tokens == st.tokens + dedent_tokens((st.indents.len() - n) as nat, end)
            &&& out.diagnostics == st.diagnostics
        }),
    decreases st.indents.len(),
{
    let len = st.indents.len();
    if len > 0 && indent < st.indents.last() {
        let next = LexState {
            indents: st.indents.drop_last(),
            tokens: st.tokens.push(TokenView { kind: TokenKindView::Dedent, span: Span { start: end, end } }),
            ..st
        };
        lemma_dedent_closes(next, indent, end);
        let out = dedent_s(st, indent, end);
        let n = out.indents.len();
        assert(out.indents =~= st.indents.take(n as int));
        assert forall|k: int| n <= k < len implies indent < #[trigger] st.indents[k] by {
            if k < len - 1 {
                assert(st.indents[k] == next.indents[k]);
            }
        }
        if n > 0 {
            assert(st.indents[n - 1] == next.indents[n - 1]);
        }
        assert(out.tokens =~= st.tokens + dedent_tokens((len - n) as nat, end));
    } else {
        assert(st.indents.take(len as int) =~= st.indents);
        assert(st.tokens + dedent_tokens(0, end) =~= st.tokens);
    }
}

/// How the indentation of a line acts on the open levels, which rise
/// strictly from the level 0 of the first column: deeper than the innermost level, it opens a level with one
/// `Indent` token over the indentation; equal to an open level, it closes
/// every level inside that one with one `Dedent` each and reports nothing;
/// shallower than the innermost level and equal to none, it reports
/// inconsistent indentation and makes it the innermost level. Either way the
/// levels still rise strictly from 0.
pub proof fn lemma_indentation_levels(src: Seq<char>, st: LexState, indent: int, i: int, j: int)
    requires
        st.indents.len() >= 1,
        st.indents[0] == 0,
        levels_rising(st.indents),
        0 <= indent <= usize::MAX,
    ensures
        ({
            let out = indentation_s(src, st, indent, i, j);
            let span = bspan(src, i, j);
            let len = st.indents.len();
            &&& indent > st.indents.last() ==> {
                &&& out.tokens == st.tokens.push(TokenView { kind: TokenKindView::Indent, span })
                &&& out.indents == st.indents.push(indent as usize)
                &&& out.diagnostics == st.diagnostics
            }
            &&& forall|l: int|
                0 <= l < len && #[trigger] st.indents[l] == indent ==> {
                    &&& out.tokens == st.tokens + dedent_tokens((len - 1 - l) as nat, span.end)
                    &&& out.indents == st.indents.take(l + 1)
                    &&& out.diagnostics == st.diagnostics
                }
            &&& (indent <= st.indents.last() && forall|l: int| 0 <= l < len ==> #[trigger] st.indents[l] != indent)
                ==> {
                &&& out.diagnostics == st.diagnostics.push(
                    error_view(
                        code_inconsistent_indent(),
                        "indentation does not match any previous indentation level"@,
                        span,
                    ),
                )
                &&& out.indents.last() == indent
            }
            &&& out.indents.len() >= 1
            &&& out.indents[0] == 0
            &&& levels_rising(out.indents)
        }),
{
    let span = bspan(src, i, j);
    let len = st.indents.len();
    let out = indentation_s(src, st, indent, i, j);
    if indent > st.indents.last() {
        assert forall|a: int, b: int| 0 <= a < b < out.indents.len() implies out.indents[a] < out.indents[b] by {
            if b == len {
                if a < len - 1 {
                    assert(st.indents[a] < st.indents[len - 1]);
                }
            }
        }
    }
    if indent <= st.indents.last() {
        lemma_dedent_closes(st, indent, span.end);
        let closed = dedent_s(st, indent, span.end);
        let n = closed.indents.len();
        assert forall|l: int| 0 <= l < len && #[trigger] st.indents[l] == indent implies {
            &&& closed.tokens == st.tokens + dedent_tokens((len - 1 - l) as nat, span.end)
            &&& closed.indents == st.indents.take(l + 1)
            &&& closed.diagnostics == st.diagnostics
        } by {
            assert(l < n);
            if l < n - 1 {
                assert(st.indents[l] < st.indents[n - 1]);
            }
            assert(closed.indents.last() == st.indents[l]);
        }
        assert(n > 0);
        assert(closed.indents.last() == st.indents[n - 1]);
        assert(closed.indents[0] == st.indents[0]);
        assert forall|a: int, b: int| 0 <= a < b < out.indents.len() implies out.indents[a] < out.indents[b] by {
            if b < n {
                assert(closed.indents[a] == st.indents[a] && closed.indents[b] == st.indents[b]);
            } else {
                assert(closed.indents[a] == st.indents[a]);
                if a < n - 1 {
                    assert(st.indents[a] < st.indents[n - 1]);
                }
            }
        }
    }
}

proof fn lemma_token_pos(src: Seq<char>, st: LexState)
    requires
        0 <= st.pos < src.len(),
    ensures
        st.pos < token_s(src, st).pos <= src.len(),
{
    let c = src[st.pos];
    if c == ' ' || c == '\t' {
        lemma_blanks_pos(src, st);
    } else if c == '#' {
        lemma_line_end(src, st.pos + 1);
    } else if c == '"' {
        lemma_string_pos(src, LexState { pos: st.pos + 1, ..st }, st.pos, seq![]);
    } else if is_digit(c) {
        lemma_digits_end(src, st.pos + 1);
        let d = digits_end(src, st.pos);
        if d + 1 < src.len() && src[d] == '.' && is_digit(src[d + 1]) {
            lemma_digits_end(src, d + 1);
        }
    } else if ident_start(c) {
        lemma_word_end(src, st.pos + 1);
    }
}

proof fn lemma_dedent_pos(st: LexState, indent: int, end: usize)
    ensures
        dedent_s(st, indent, end).pos == st.pos,
        dedent_s(st, indent, end).at_line_start == st.at_line_start,
    decreases st.indents.len(),
{
    if st.indents.len() > 0 && indent < st.indents.last() {
        lemma_dedent_pos(
            LexState {
                indents: st.indents.drop_last(),
                tokens: st.tokens.push(TokenView { kind: TokenKindView::Dedent, span: Span { start: end, end } }),
                ..st
            },
            indent,
            end,
        );
    }
}

/// Each round of the lexer moves forward and stays within the source, so
/// lexing ends.
pub proof fn lemma_lex_step_progress(src: Seq<char>, st: LexState)
    requires
        0 <= st.pos < src.len(),
    ensures
        st.pos < step_s(src, st).pos <= src.len(),
{
    if st.at_line_start {
        let i = st.pos;
        lemma_blank_end(src, i);
        let j = blank_end(src, i);
        if j < src.len() && src[j] == '#' {
            lemma_line_end(src, j);
        }
        let after = line_start_s(src, st);
        if !(j < src.len() && (src[j] == '\n' || src[j] == '#')) && j < src.len() {
            let noted = match first_tab(src, i, j) {
                Some(t) => push_diag_s(
                    st,
                    error_view(code_tab_indent(), "tabs are not allowed for indentation; use spaces"@, bspan(src, t, j)),
                ),
                None => st,
            };
            let at = LexState { pos: j, ..noted };
            let span = bspan(src, i, j);
            lemma_dedent_pos(at, indent_width(src, i, j), span.end);
            assert(after.pos == j);
            lemma_token_pos(src, after);
        }
    } else {
        lemma_token_pos(src, st);
    }
}

/// At the end of `src`: every open level closed, then the end of file.
pub open spec fn finish_s(src: Seq<char>, st: LexState) -> LexState {
    let end = byte_len(src) as usize;
    push_token_s(close_s(st, end), TokenKindView::Eof, Span { start: end, end })
}

/// The tokens and diagnostics that lexing `src` produces.
pub open spec fn lex_spec(src: Seq<char>) -> LexState {
    finish_s(src, run_s(src, initial_lex_state()))
}

// ---------------------------------------------------------------------------
// The lexer
// ---------------------------------------------------------------------------

/// Splits `source` into tokens. Indentation at the start of a line becomes
/// `Indent`/`Dedent` tokens; problems are reported as diagnostics and lexing
/// goes on.
pub fn lex(source: &str) -> (out: LexOutput)
    requires
        source.spec_bytes().len() <= isize::MAX,
        indents_fit(source@),
    ensures
        token_views(out.tokens@) == lex_spec(source@).tokens,
        diag_views(out.diagnostics@) == lex_spec(source@).diagnostics,
        lexed(source@, out),
{
    Lexer::new(source).lex()
}

struct Lexer {
    chars: Vec<char>,
    /// Index into `chars` of the next character.
    pos: usize,
    /// Byte offset of the next character.
    offset: usize,
    line: usize,
    column: usize,
    at_line_start: bool,
    indents: Vec<usize>,
    tokens: Vec<Token>,
    diagnostics: Vec<Diagnostic>,
    /// Character range of each token.
    anchors: Ghost<Seq<(int, int)>>,
}

pub proof fn lemma_len_le_byte_len(s: Seq<char>)
    ensures
        s.len() <= byte_len(s),
    decreases s.len(),
{
    if s.len() > 0 {
        lemma_len_le_byte_len(s.drop_last());
    }
}

/// Looking one character further for a tab keeps an earlier one.
proof fn lemma_first_tab_extend(src: Seq<char>, i: int, j: int)
    requires
        i <= j,
    ensures
        first_tab(src, i, j + 1) == (match first_tab(src, i, j) {
            Some(t) => Some(t),
            None => if src[j] == '\t' {
                Some(j)
            } else {
                None
            },
        }),
    decreases j - i,
{
    if i < j {
        lemma_first_tab_extend(src, i + 1, j);
    } else {
        assert(first_tab(src, j + 1, j + 1) is None);
    }
}

proof fn lemma_byte_offset_bound(s: Seq<char>, i: int)
    requires
        0 <= i <= s.len(),
    ensures
        byte_offset(s, i) <= byte_len(s),
{
    assert(s.take(s.len() as int) =~= s);
    crate::text::lemma_byte_offset_mono(s, i, s.len() as int);
}

impl Lexer {
    spec fn src(&self) -> Seq<char> {
        self.chars@
    }

    /// The state as the specification of lexing sees it.
    spec fn lex_state(&self) -> LexState {
        LexState {
            pos: self.pos as int,
            at_line_start: self.at_line_start,
            indents: self.indents@,
            tokens: token_views(self.tokens@),
            diagnostics: diag_views(self.diagnostics@),
        }
    }

    spec fn indents_ok(&self) -> bool {
        &&& self.indents@.len() >= 1
        &&& self.indents@[0] == 0
        &&& forall|a: int, b: int|
            0 <= a < b < self.indents@.len() ==> self.indents@[a] < self.indents@[b]
    }

    spec fn inv(&self) -> bool {
        &&& self.inv_core()
        &&& self.indents@.len() - 1 + count_dedents(self.tokens@) == count_indents(self.tokens@)
            + count_code(self.diagnostics@, code_inconsistent_indent())
    }

    /// Everything of [`Lexer::inv`] but the balance of levels and tokens.
    spec fn inv_core(&self) -> bool {
        let src = self.chars@;
        &&& self.pos <= src.len()
        &&& self.offset == byte_offset(src, self.pos as int)
        &&& byte_len(src) <= isize::MAX
        &&& indents_fit(src)
        &&& self.line <= self.pos + 1
        &&& self.column <= self.pos + 1
        &&& self.indents_ok()
        &&& tokens_anchored(src, self.tokens@, self.anchors@)
        &&& (self.anchors@.len() > 0 ==> self.anchors@.last().1 <= self.pos)
        &&& forall|k: int| 0 <= k < self.tokens@.len() ==> !(#[trigger] self.tokens@[k].kind is Eof)
        &&& forall|k: int|
            0 <= k < self.diagnostics@.len() ==> lex_diagnostic_ok(
                src,
                #[trigger] self.diagnostics@[k],
            )
    }

    /// While the blanks that start a line are read, the width read so far
    /// and the next blank fit in `usize`.
    proof fn lemma_line_start_room(&self, start_i: int)
        requires
            self.inv(),
            0 <= start_i <= self.pos < self.chars@.len(),
            start_i == 0 || self.chars@[start_i - 1] == '\n',
            self.chars@[self.pos as int] == ' ' || self.chars@[self.pos as int] == '\t',
            blank_end(self.chars@, self.pos as int) == blank_end(self.chars@, start_i),
        ensures
            indent_width(self.chars@, start_i, self.pos + 1) <= usize::MAX,
    {
        let src = self.chars@;
        lemma_blank_end(src, self.pos + 1);
        assert(blank_end(src, self.pos as int) == blank_end(src, self.pos + 1));
        lemma_indent_width_mono(src, start_i, self.pos + 1, blank_end(src, start_i));
        assert(indent_width(src, start_i, blank_end(src, start_i)) <= usize::MAX);
    }

    /// Only the reading position moved.
    spec fn only_moved(&self, old: &Self) -> bool {
        &&& self.chars@ == old.chars@
        &&& self.at_line_start == old.at_line_start
        &&& self.indents@ == old.indents@
        &&& self.tokens@ == old.tokens@
        &&& self.anchors@ == old.anchors@
        &&& self.diagnostics@ == old.diagnostics@
        &&& self.pos >= old.pos
    }

    /// Tokens and diagnostics only grew.
    spec fn grew(&self, old: &Self) -> bool {
        &&& self.chars@ == old.chars@
        &&& self.pos >= old.pos
        &&& self.tokens@.len() >= old.tokens@.len()
        &&& forall|k: int| 0 <= k < old.tokens@.len() ==> #[trigger] self.tokens@[k] == old.tokens@[k]
        &&& self.diagnostics@.len() >= old.diagnostics@.len()
    }

    fn new(source: &str) -> (r: Self)
        requires
            source.spec_bytes().len() <= isize::MAX,
            indents_fit(source@),
        ensures
            r.inv(),
            r.chars@ == source@,
            r.pos == 0,
            r.at_line_start,
            r.lex_state() == initial_lex_state(),
    {
        let chars = crate::text::str_chars(source);
        proof {
            crate::text::lemma_str_byte_len(source);
            assert(chars@.take(0) =~= Seq::<char>::empty());
        }
        let mut indents = Vec::new();
        indents.push(0usize);
        Lexer {
            chars,
            pos: 0,
            offset: 0,
            line: 1,
            column: 1,
            at_line_start: true,
            indents,
            tokens: Vec::new(),
            diagnostics: Vec::new(),
            anchors: Ghost(Seq::empty()),
        }
    }

    fn is_eof(&self) -> (r: bool)
        requires
            self.inv(),
        ensures
            r == (self.pos == self.chars@.len()),
    {
        self.pos >= self.chars.len()
    }

    fn peek_char(&self) -> (r: Option<char>)
        requires
            self.pos <= self.chars@.len(),
        ensures
            self.pos < self.chars@.len() ==> r == Some(self.chars@[self.pos as int]),
            self.pos == self.chars@.len() ==> r is None,
    {
        if self.pos < self.chars.len() {
            Some(self.chars[self.pos])
        } else {
            None
        }
    }

    fn peek_next_char(&self) -> (r: Option<char>)
        requires
            self.pos <= self.chars@.len(),
        ensures
            self.pos + 1 < self.chars@.len() ==> r == Some(self.chars@[self.pos + 1]),
            self.pos + 1 >= self.chars@.len() ==> r is None,
    {
        if self.pos < self.chars.len() && self.pos + 1 < self.chars.len() {
            Some(self.chars[self.pos + 1])
        } else {
            None
        }
    }

    fn next_char(&mut self) -> (r: Option<char>)
        requires
            old(self).inv(),
        ensures
            final(self).inv(),
            final(self).only_moved(old(self)),
            final(self).offset >= old(self).offset,
            old(self).pos < old(self).chars@.len() ==> r == Some(old(self).chars@[old(self).pos as int])
                && final(self).pos == old(self).pos + 1,
            old(self).pos == old(self).chars@.len() ==> r is None && final(self).pos == old(self).pos,
    {
        if self.pos >= self.chars.len() {
            return None;
        }
        let ch = self.chars[self.pos];
        proof {
            crate::text::lemma_byte_offset_step(self.chars@, self.pos as int);
            lemma_byte_offset_bound(self.chars@, self.pos + 1);
            lemma_len_le_byte_len(self.chars@);
        }
        self.pos = self.pos + 1;
        self.offset = self.offset + char_len_utf8(ch);
        if ch == '\n' {
            self.line = self.line + 1;
            self.column = 1;
        } else {
            self.column = self.column + 1;
        }
        Some(ch)
    }

    /// Appends a token that stands for `chars[i..j]`.
    fn push_token(&mut self, kind: TokenKind, span: Span, Ghost(i): Ghost<int>, Ghost(j): Ghost<int>)
        requires
            old(self).inv_core(),
            token_ok(old(self).chars@, Token { kind, span }, i, j),
            !(kind is Eof),
            j <= old(self).pos,
            old(self).anchors@.len() > 0 ==> old(self).anchors@.last().1 <= i,
        ensures
            final(self).inv_core(),
            final(self).chars@ == old(self).chars@,
            final(self).pos == old(self).pos,
            final(self).offset == old(self).offset,
            final(self).line == old(self).line,
            final(self).column == old(self).column,
            final(self).at_line_start == old(self).at_line_start,
            final(self).indents@ == old(self).indents@,
            final(self).diagnostics@ == old(self).diagnostics@,
            final(self).tokens@ == old(self).tokens@.push(Token { kind, span }),
            final(self).anchors@ == old(self).anchors@.push((i, j)),
            final(self).lex_state() == push_token_s(old(self).lex_state(), token_kind_view(kind), span),
            count_indents(final(self).tokens@) == count_indents(old(self).tokens@) + if kind is Indent {
                1nat
            } else {
                0nat
            },
            count_dedents(final(self).tokens@) == count_dedents(old(self).tokens@) + if kind is Dedent {
                1nat
            } else {
                0nat
            },
    {
        let ghost old_tokens = self.tokens@;
        self.tokens.push(Token { kind, span });
        proof {
            self.anchors@ = self.anchors@.push((i, j));
            assert(self.tokens@.drop_last() =~= old_tokens);
            assert(token_views(self.tokens@) =~= token_views(old_tokens).push(TokenView { kind: token_kind_view(kind), span }));
        }
    }

    /// Appends a diagnostic.
    fn push_diagnostic(&mut self, d: Diagnostic)
        requires
            old(self).inv(),
            lex_diagnostic_ok(old(self).chars@, d),
            d.code@ != code_inconsistent_indent(),
        ensures
            final(self).inv(),
            final(self).chars@ == old(self).chars@,
            final(self).pos == old(self).pos,
            final(self).at_line_start == old(self).at_line_start,
            final(self).indents@ == old(self).indents@,
            final(self).tokens@ == old(self).tokens@,
            final(self).anchors@ == old(self).anchors@,
            final(self).diagnostics@ == old(self).diagnostics@.push(d),
            final(self).lex_state() == push_diag_s(old(self).lex_state(), d@),
    {
        let ghost old_ds = self.diagnostics@;
        self.diagnostics.push(d);
        proof {
            assert(self.diagnostics@.drop_last() =~= old_ds);
            assert(diag_views(self.diagnostics@) =~= diag_views(old_ds).push(d@));
        }
    }

    /// Skips spaces and tabs before a line's first token and turns the
    /// indentation into `Indent`/`Dedent` tokens. Blank and comment-only
    /// lines leave the indentation as it is.
    fn consume_line_start(&mut self)
        requires
            old(self).inv(),
            old(self).at_line_start,
            old(self).pos < old(self).chars@.len(),
            old(self).pos == 0 || old(self).chars@[old(self).pos - 1] == '\n',
        ensures
            final(self).inv(),
            final(self).grew(old(self)),
            final(self).at_line_start || final(self).pos == final(self).chars@.len()
                ==> final(self).pos > old(self).pos,
            final(self).at_line_start ==> final(self).pos == final(self).chars@.len() || final(self).chars@[final(self).pos
                - 1] == '\n',
            !final(self).at_line_start ==> final(self).pos < final(self).chars@.len(),
            final(self).lex_state() == line_start_s(old(self).chars@, old(self).lex_state()),
    {
        let start = self.offset;
        let ghost start_i = self.pos as int;
        let mut indent: usize = 0;
        let mut tab_start: Option<usize> = None;
        loop
            invariant_except_break
                self.inv(),
                self.only_moved(old(self)),
                start_i == old(self).pos,
                start_i == 0 || self.chars@[start_i - 1] == '\n',
                start == byte_offset(self.chars@, start_i),
                indent <= 4 * (self.pos - start_i),
                forall|k: int| start_i <= k < self.pos ==> (#[trigger] self.chars@[k] == ' ' || self.chars@[k] == '\t'),
                tab_start matches Some(t) ==> start <= t <= self.offset,
                blank_end(self.chars@, self.pos as int) == blank_end(self.chars@, start_i),
                indent == indent_width(self.chars@, start_i, self.pos as int),
                match first_tab(self.chars@, start_i, self.pos as int) {
                    Some(t) => tab_start == Some(byte_offset(self.chars@, t) as usize),
                    None => tab_start is None,
                },
            ensures
                self.inv(),
                self.only_moved(old(self)),
                start == byte_offset(self.chars@, start_i),
                indent <= 4 * (self.pos - start_i),
                forall|k: int| start_i <= k < self.pos ==> (#[trigger] self.chars@[k] == ' ' || self.chars@[k] == '\t'),
                tab_start matches Some(t) ==> start <= t <= self.offset,
                self.pos < self.chars@.len() ==> self.chars@[self.pos as int] != ' ' && self.chars@[self.pos as int] != '\t',
                self.pos == blank_end(self.chars@, start_i),
                indent == indent_width(self.chars@, start_i, self.pos as int),
                match first_tab(self.chars@, start_i, self.pos as int) {
                    Some(t) => tab_start == Some(byte_offset(self.chars@, t) as usize),
                    None => tab_start is None,
                },
            decreases self.chars@.len() - self.pos,
        {
            proof {
                if self.pos < self.chars@.len() {
                    lemma_first_tab_extend(self.chars@, start_i, self.pos as int);
                }
            }
            match self.peek_char() {
                Some(' ') => {
                    proof {
                        self.lemma_line_start_room(start_i);
                    }
                    indent = indent + 1;
                    self.next_char();
                },
                Some('\t') => {
                    proof {
                        crate::text::lemma_byte_offset_mono(self.chars@, start_i, self.pos as int);
                    }
                    if tab_start.is_none() {
                        tab_start = Some(self.offset);
                    }
                    proof {
                        self.lemma_line_start_room(start_i);
                    }
                    indent = indent + 4;
                    self.next_char();
                },
                _ => break,
            }
        }
        proof {
            lemma_byte_offset_bound(self.chars@, self.pos as int);
        }
        if let Some(tab_start) = tab_start {
            let mut message = String::new();
            push_str(&mut message, "tabs are not allowed for indentation; use spaces");
            let d = Diagnostic::error("lex.tab_indent", message, Span::new(tab_start, self.offset));
            proof {
                reveal_strlit("lex.tab_indent");
                assert(d.code@ =~= code_tab_indent());
                assert(d.message@ =~= "tabs are not allowed for indentation; use spaces"@);
                assert(d@.notes =~= Seq::<NoteView>::empty());
            }
            self.push_diagnostic(d);
        }
        match self.peek_char() {
            Some('\n') => {
                self.consume_newline(false);
                return;
            },
            Some('#') => {
                self.consume_comment();
                if self.peek_char() == Some('\n') {
                    self.consume_newline(false);
                }
                return;
            },
            None => {
                return;
            },
            _ => {},
        }
        self.apply_indentation(indent, Span::new(start, self.offset), Ghost(start_i), Ghost(self.pos as int));
        self.at_line_start = false;
    }

    /// Compares the indentation of a new line with the open levels: a deeper
    /// line opens a level (`Indent`), a shallower one closes levels
    /// (`Dedent` each), and one that matches no open level is reported and
    /// opens a level of its own.
    fn apply_indentation(&mut self, indent: usize, span: Span, Ghost(i): Ghost<int>, Ghost(j): Ghost<int>)
        requires
            old(self).inv(),
            0 <= i <= j == old(self).pos,
            span.start == byte_offset(old(self).chars@, i),
            span.end == byte_offset(old(self).chars@, j),
            indent <= 4 * (j - i),
            forall|k: int| i <= k < j ==> (#[trigger] old(self).chars@[k] == ' ' || old(self).chars@[k] == '\t'),
            old(self).anchors@.len() > 0 ==> old(self).anchors@.last().1 <= i,
        ensures
            final(self).inv(),
            final(self).grew(old(self)),
            final(self).pos == old(self).pos,
            final(self).at_line_start == old(self).at_line_start,
            final(self).lex_state() == indentation_s(old(self).chars@, old(self).lex_state(), indent as int, i, j),
    {
        assert(span == bspan(self.chars@, i, j));
        let current = self.indents[self.indents.len() - 1];
        if indent > current {
            self.indents.push(indent);
            self.push_token(TokenKind::Indent, span, Ghost(i), Ghost(j));
            return;
        }
        while indent < self.indents[self.indents.len() - 1]
            invariant
                self.inv(),
                self.grew(old(self)),
                self.pos == old(self).pos,
                self.at_line_start == old(self).at_line_start,
                span.end == byte_offset(self.chars@, j),
                j == self.pos,
                self.anchors@.len() > 0 ==> self.anchors@.last().1 <= j,
                indent <= old(self).lex_state().indents.last() ==> dedent_s(self.lex_state(), indent as int, span.end)
                    == dedent_s(old(self).lex_state(), indent as int, span.end),
            decreases self.indents@.len(),
        {
            let ghost before = self.tokens@;
            self.indents.pop();
            self.push_token(TokenKind::Dedent, Span::at(span.end), Ghost(j), Ghost(j));
        }
        if indent != self.indents[self.indents.len() - 1] {
            let mut message = String::new();
            push_str(&mut message, "indentation does not match any previous indentation level");
            proof {
                lemma_byte_offset_bound(self.chars@, j);
                crate::text::lemma_byte_offset_mono(self.chars@, i, j);
                reveal_strlit("lex.inconsistent_indent");
            }
            let d = Diagnostic::error("lex.inconsistent_indent", message, span);
            assert(d.code@ =~= code_inconsistent_indent());
            assert(d.message@ =~= "indentation does not match any previous indentation level"@);
            assert(d@.notes =~= Seq::<NoteView>::empty());
            let ghost old_ds = self.diagnostics@;
            self.diagnostics.push(d);
            self.indents.push(indent);
            proof {
                assert(self.diagnostics@.drop_last() =~= old_ds);
                assert(diag_views(self.diagnostics@) =~= diag_views(old_ds).push(d@));
            }
        }
    }

    fn consume_inline_whitespace(&mut self)
        requires
            old(self).inv(),
            old(self).pos < old(self).chars@.len(),
            old(self).chars@[old(self).pos as int] == ' ' || old(self).chars@[old(self).pos as int] == '\t',
        ensures
            final(self).inv(),
            final(self).grew(old(self)),
            final(self).pos > old(self).pos,
            final(self).at_line_start == old(self).at_line_start,
            final(self).lex_state() == blanks_s(old(self).chars@, old(self).lex_state()),
    {
        while self.peek_char() == Some(' ') || self.peek_char() == Some('\t')
            invariant
                self.inv(),
                self.grew(old(self)),
                blanks_s(self.chars@, self.lex_state()) == blanks_s(old(self).chars@, old(self).lex_state()),
                self.tokens@ == old(self).tokens@,
                self.anchors@ == old(self).anchors@,
                self.at_line_start == old(self).at_line_start,
            decreases self.chars@.len() - self.pos,
        {
            let ghost before = self.lex_state();
            let ghost k = self.pos as int;
            let start = self.offset;
            let ch = self.next_char();
            if ch == Some('\t') {
                let mut message = String::new();
                push_str(&mut message, "tabs are not allowed; use spaces");
                proof {
                    lemma_byte_offset_bound(self.chars@, self.pos as int);
                    crate::text::lemma_byte_offset_mono(self.chars@, self.pos - 1, self.pos as int);
                    reveal_strlit("lex.tab");
                }
                let d = Diagnostic::error("lex.tab", message, Span::new(start, self.offset));
                assert(d.code@ =~= code_tab());
                assert(d.message@ =~= "tabs are not allowed; use spaces"@);
                assert(d@.notes =~= Seq::<NoteView>::empty());
                assert(d@ == error_view(code_tab(), "tabs are not allowed; use spaces"@, bspan(self.chars@, k, k + 1)));
                self.push_diagnostic(d);
            }
            assert(blanks_s(self.chars@, self.lex_state()) == blanks_s(self.chars@, before));
        }
    }

    fn consume_comment(&mut self)
        requires
            old(self).inv(),
        ensures
            final(self).inv(),
            final(self).only_moved(old(self)),
            final(self).pos < final(self).chars@.len() ==> final(self).chars@[final(self).pos as int] == '\n',
            old(self).pos < old(self).chars@.len() && old(self).chars@[old(self).pos as int] != '\n'
                ==> final(self).pos > old(self).pos,
            final(self).lex_state() == (LexState {
                pos: line_end(old(self).chars@, old(self).pos as int),
                ..old(self).lex_state()
            }),
    {
        loop
            invariant
                self.inv(),
                self.only_moved(old(self)),
                line_end(self.chars@, self.pos as int) == line_end(self.chars@, old(self).pos as int),
                old(self).pos < old(self).chars@.len() && old(self).chars@[old(self).pos as int] != '\n'
                    && self.pos == old(self).pos ==> self.pos < self.chars@.len() && self.chars@[self.pos as int] != '\n',
            ensures
                self.inv(),
                self.only_moved(old(self)),
                self.pos == line_end(self.chars@, old(self).pos as int),
                self.pos < self.chars@.len() ==> self.chars@[self.pos as int] == '\n',
                old(self).pos < old(self).chars@.len() && old(self).chars@[old(self).pos as int] != '\n'
                    ==> self.pos > old(self).pos,
            decreases self.chars@.len() - self.pos,
        {
            let ch = match self.peek_char() {
                Some(ch) => ch,
                None => break,
            };
            if ch == '\n' {
                break;
            }
            self.next_char();
        }
    }

    fn consume_newline(&mut self, emit_token: bool)
        requires
            old(self).inv(),
            old(self).pos < old(self).chars@.len(),
            old(self).chars@[old(self).pos as int] == '\n',
        ensures
            final(self).inv(),
            final(self).grew(old(self)),
            final(self).pos == old(self).pos + 1,
            final(self).at_line_start,
            final(self).lex_state() == (if emit_token {
                push_token_s(
                    LexState { pos: old(self).pos + 1, at_line_start: true, ..old(self).lex_state() },
                    TokenKindView::Newline,
                    bspan(old(self).chars@, old(self).pos as int, old(self).pos + 1),
                )
            } else {
                LexState { pos: old(self).pos + 1, at_line_start: true, ..old(self).lex_state() }
            }),
    {
        let start = self.offset;
        let ghost i = self.pos as int;
        self.next_char();
        self.at_line_start = true;
        if emit_token {
            proof {
                assert(self.chars@.subrange(i, i + 1) =~= seq!['\n']);
            }
            self.push_token(TokenKind::Newline, Span::new(start, self.offset), Ghost(i), Ghost(i + 1));
        }
    }

    fn consume_identifier_or_keyword(&mut self)
        requires
            old(self).inv(),
            old(self).pos < old(self).chars@.len(),
            ident_start(old(self).chars@[old(self).pos as int]),
        ensures
            final(self).inv(),
            final(self).grew(old(self)),
            final(self).pos > old(self).pos,
            final(self).at_line_start == old(self).at_line_start,
            final(self).lex_state() == word_s(old(self).chars@, old(self).lex_state()),
    {
        let start = self.offset;
        let start_pos = self.pos;
        self.next_char();
        while self.pos < self.chars.len() && is_identifier_continue(self.chars[self.pos])
            invariant
                self.inv(),
                self.only_moved(old(self)),
                self.pos > start_pos,
                start_pos == old(self).pos,
                start == byte_offset(self.chars@, start_pos as int),
                forall|k: int| start_pos < k < self.pos ==> ident_continue(#[trigger] self.chars@[k]),
                word_end(self.chars@, self.pos as int) == word_end(self.chars@, start_pos + 1),
            decreases self.chars@.len() - self.pos,
        {
            self.next_char();
        }
        let ghost text = self.chars@.subrange(start_pos as int, self.pos as int);
        proof {
            assert forall|k: int| 1 <= k < text.len() implies ident_continue(#[trigger] text[k]) by {
                assert(text[k] == self.chars@[start_pos + k]);
            }
        }
        let kind = match keyword(&self.chars, start_pos, self.pos) {
            Some(keyword) => TokenKind::Keyword(keyword),
            None => TokenKind::Identifier(chars_to_string(&self.chars, start_pos, self.pos)),
        };
        self.push_token(kind, Span::new(start, self.offset), Ghost(start_pos as int), Ghost(self.pos as int));
    }

    fn consume_number(&mut self)
        requires
            old(self).inv(),
            old(self).pos < old(self).chars@.len(),
            is_digit(old(self).chars@[old(self).pos as int]),
        ensures
            final(self).inv(),
            final(self).grew(old(self)),
            final(self).pos > old(self).pos,
            final(self).at_line_start == old(self).at_line_start,
            final(self).lex_state() == number_s(old(self).chars@, old(self).lex_state()),
    {
        let start = self.offset;
        let start_pos = self.pos;
        while self.pos < self.chars.len() && is_ascii_digit(self.chars[self.pos])
            invariant
                self.inv(),
                self.only_moved(old(self)),
                start_pos == old(self).pos,
                start == byte_offset(self.chars@, start_pos as int),
                forall|k: int| start_pos <= k < self.pos ==> is_digit(#[trigger] self.chars@[k]),
                digits_end(self.chars@, self.pos as int) == digits_end(self.chars@, start_pos as int),
            decreases self.chars@.len() - self.pos,
        {
            self.next_char();
        }
        let dot_pos = self.pos;
        let next_is_digit = match self.peek_next_char() {
            Some(ch) => is_ascii_digit(ch),
            None => false,
        };
        let is_float = self.peek_char() == Some('.') && next_is_digit;
        if is_float {
            self.next_char();
            while self.pos < self.chars.len() && is_ascii_digit(self.chars[self.pos])
                invariant
                    self.inv(),
                    self.only_moved(old(self)),
                    start_pos == old(self).pos,
                    self.pos >= dot_pos + 1,
                    dot_pos + 1 < self.chars@.len(),
                    is_digit(self.chars@[dot_pos + 1]),
                    dot_pos > start_pos,
                    self.chars@[dot_pos as int] == '.',
                    start == byte_offset(self.chars@, start_pos as int),
                    forall|k: int| start_pos <= k < dot_pos ==> is_digit(#[trigger] self.chars@[k]),
                    forall|k: int| dot_pos < k < self.pos ==> is_digit(#[trigger] self.chars@[k]),
                    dot_pos == digits_end(self.chars@, start_pos as int),
                    digits_end(self.chars@, self.pos as int) == digits_end(self.chars@, dot_pos + 1),
                decreases self.chars@.len() - self.pos,
            {
                self.next_char();
            }
            proof {
                let text = self.chars@.subrange(start_pos as int, self.pos as int);
                let d = dot_pos - start_pos;
                assert(text[d] == '.');
                assert forall|k: int| 0 <= k < text.take(d).len() implies is_digit(#[trigger] text.take(d)[k]) by {
                    assert(text.take(d)[k] == self.chars@[start_pos + k]);
                }
                assert forall|k: int| 0 <= k < text.skip(d + 1).len() implies is_digit(#[trigger] text.skip(d + 1)[k]) by {
                    assert(text.skip(d + 1)[k] == self.chars@[dot_pos + 1 + k]);
                }
            }
        }
        let text = chars_to_string(&self.chars, start_pos, self.pos);
        let kind = if is_float {
            TokenKind::Float(text)
        } else {
            TokenKind::Integer(text)
        };
        proof {
            let t = self.chars@.subrange(start_pos as int, self.pos as int);
            if !is_float {
                assert forall|k: int| 0 <= k < t.len() implies is_digit(#[trigger] t[k]) by {
                    assert(t[k] == self.chars@[start_pos + k]);
                }
            }
        }
        self.push_token(kind, Span::new(start, self.offset), Ghost(start_pos as int), Ghost(self.pos as int));
    }

    fn unterminated_string(&mut self, start: usize, value: String, Ghost(i): Ghost<int>)
        requires
            old(self).inv(),
            0 <= i < old(self).pos,
            old(self).chars@[i] == '"',
            start == byte_offset(old(self).chars@, i),
            old(self).anchors@.len() > 0 ==> old(self).anchors@.last().1 <= i,
        ensures
            final(self).inv(),
            final(self).grew(old(self)),
            final(self).pos == old(self).pos,
            final(self).at_line_start == old(self).at_line_start,
            final(self).lex_state() == unterminated_s(old(self).chars@, old(self).lex_state(), i, value@),
    {
        let mut message = String::new();
        push_str(&mut message, "string literal is missing a closing quote");
        proof {
            lemma_byte_offset_bound(self.chars@, self.pos as int);
            crate::text::lemma_byte_offset_mono(self.chars@, i, self.pos as int);
            reveal_strlit("lex.unterminated_string");
        }
        let d = Diagnostic::error("lex.unterminated_string", message, Span::new(start, self.offset));
        assert(d.code@ =~= code_unterminated_string());
        assert(d.message@ =~= "string literal is missing a closing quote"@);
        assert(d@.notes =~= Seq::<NoteView>::empty());
        self.push_diagnostic(d);
        self.push_token(TokenKind::String(value), Span::new(start, self.offset), Ghost(i), Ghost(self.pos as int));
    }

    /// Lexes a string literal with its escapes. A literal that reaches the end
    /// of the line or of the source is reported, and what was read is kept.
    fn consume_string(&mut self)
        requires
            old(self).inv(),
            old(self).pos < old(self).chars@.len(),
            old(self).chars@[old(self).pos as int] == '"',
            old(self).anchors@.len() > 0 ==> old(self).anchors@.last().1 <= old(self).pos,
        ensures
            final(self).inv(),
            final(self).grew(old(self)),
            final(self).pos > old(self).pos,
            final(self).at_line_start == old(self).at_line_start,
            final(self).lex_state() == string_s(
                old(self).chars@,
                LexState { pos: old(self).pos + 1, ..old(self).lex_state() },
                old(self).pos as int,
                seq![],
            ),
    {
        let start = self.offset;
        let ghost i = self.pos as int;
        self.next_char();
        let mut value = String::new();
        loop
            invariant
                self.inv(),
                self.grew(old(self)),
                self.tokens@ == old(self).tokens@,
                self.anchors@ == old(self).anchors@,
                self.at_line_start == old(self).at_line_start,
                i == old(self).pos,
                self.pos > i,
                self.chars@[i] == '"',
                self.anchors@.len() > 0 ==> self.anchors@.last().1 <= i,
                start == byte_offset(self.chars@, i),
                string_s(self.chars@, self.lex_state(), i, value@) == string_s(
                    old(self).chars@,
                    LexState { pos: old(self).pos + 1, ..old(self).lex_state() },
                    old(self).pos as int,
                    seq![],
                ),
            ensures
                self.inv(),
                self.grew(old(self)),
                self.tokens@ == old(self).tokens@,
                self.anchors@ == old(self).anchors@,
                self.at_line_start == old(self).at_line_start,
                i == old(self).pos,
                self.pos > i,
                self.chars@[i] == '"',
                self.anchors@.len() > 0 ==> self.anchors@.last().1 <= i,
                start == byte_offset(self.chars@, i),
                string_s(self.chars@, self.lex_state(), i, value@) == string_s(
                    old(self).chars@,
                    LexState { pos: old(self).pos + 1, ..old(self).lex_state() },
                    old(self).pos as int,
                    seq![],
                ),
                self.pos == self.chars@.len(),
            decreases self.chars@.len() - self.pos,
        {
            let ch = match self.peek_char() {
                Some(ch) => ch,
                None => break,
            };
            if ch == '"' {
                self.next_char();
                self.push_token(TokenKind::String(value), Span::new(start, self.offset), Ghost(i), Ghost(self.pos as int));
                return;
            } else if ch == '\n' {
                self.unterminated_string(start, value, Ghost(i));
                return;
            } else if ch == '\\' {
                let escape_start = self.offset;
                self.next_char();
                match self.next_char() {
                    Some('"') => value.push('"'),
                    Some('\\') => value.push('\\'),
                    Some('n') => value.push('\n'),
                    Some('r') => value.push('\r'),
                    Some('t') => value.push('\t'),
                    Some(other) => {
                        let mut message = String::new();
                        push_str(&mut message, "unknown escape sequence '\\");
                        message.push(other);
                        push_str(&mut message, "'");
                        proof {
                            lemma_byte_offset_bound(self.chars@, self.pos as int);
                            crate::text::lemma_byte_offset_mono(self.chars@, self.pos - 2, self.pos as int);
                            reveal_strlit("lex.unknown_escape");
                        }
                        let d = Diagnostic::warning("lex.unknown_escape", message, Span::new(escape_start, self.offset));
                        assert(d.code@ =~= code_unknown_escape());
                        assert(d.message@ =~= "unknown escape sequence '\\"@ + seq![other] + "'"@);
                        assert(d@.notes =~= Seq::<NoteView>::empty());
                        self.push_diagnostic(d);
                        value.push(other);
                    },
                    None => break,
                }
            } else {
                value.push(ch);
                self.next_char();
            }
        }
        self.unterminated_string(start, value, Ghost(i));
    }

    /// Lexes an operator or punctuation, taking the longest symbol that
    /// matches; reports a character that starts no symbol.
    fn consume_symbol_or_unknown(&mut self, start: usize)
        requires
            old(self).inv(),
            old(self).pos < old(self).chars@.len(),
            start == old(self).offset,
            old(self).anchors@.len() > 0 ==> old(self).anchors@.last().1 <= old(self).pos,
        ensures
            final(self).inv(),
            final(self).grew(old(self)),
            final(self).pos > old(self).pos,
            final(self).at_line_start == old(self).at_line_start,
            final(self).lex_state() == symbol_s(old(self).chars@, old(self).lex_state()),
    {
        let ghost i = self.pos as int;
        let ch = match self.next_char() {
            Some(ch) => ch,
            None => {
                return;
            },
        };
        let mut kind = None;
        if let Some(next) = self.peek_char() {
            if let Some(symbol) = two_char_symbol(ch, next) {
                self.next_char();
                kind = Some(symbol);
            }
        }
        if kind.is_none() {
            kind = one_char_symbol(ch);
        }
        match kind {
            Some(symbol) => {
                proof {
                    let src = self.chars@;
                    let j = self.pos as int;
                    lemma_symbol_text_short();
                    assert(src.subrange(i, j) =~= symbol_text(symbol));
                    assert forall|other: Symbol| #[trigger] text_at(src, i, symbol_text(other)) implies symbol_text(other).len() <= j - i by {
                        if symbol_text(other).len() == 2 && j - i == 1 {
                            assert(src.subrange(i, i + 2) =~= seq![src[i], src[i + 1]]);
                        }
                    }
                }
                self.push_token(TokenKind::Symbol(symbol), Span::new(start, self.offset), Ghost(i), Ghost(self.pos as int));
            },
            None => {
                let mut message = String::new();
                push_str(&mut message, "unknown character '");
                message.push(ch);
                push_str(&mut message, "'");
                proof {
                    lemma_byte_offset_bound(self.chars@, self.pos as int);
                    crate::text::lemma_byte_offset_mono(self.chars@, i, self.pos as int);
                    reveal_strlit("lex.unknown_character");
                }
                let d = Diagnostic::error("lex.unknown_character", message, Span::new(start, self.offset));
                assert(d.code@ =~= code_unknown_character());
                assert(d.message@ =~= "unknown character '"@ + seq![ch] + "'"@);
                assert(d@.notes =~= Seq::<NoteView>::empty());
                self.push_diagnostic(d);
            },
        }
    }

    fn lex(self) -> (out: LexOutput)
        requires
            self.inv(),
            self.pos == 0,
        ensures
            lexed(self.chars@, out),
            token_views(out.tokens@) == finish_s(self.chars@, run_s(self.chars@, self.lex_state())).tokens,
            diag_views(out.diagnostics@) == finish_s(self.chars@, run_s(self.chars@, self.lex_state())).diagnostics,
    {
        let mut this = self;
        this.run()
    }

    fn run(&mut self) -> (out: LexOutput)
        requires
            old(self).inv(),
            old(self).pos == 0,
        ensures
            lexed(old(self).chars@, out),
            token_views(out.tokens@) == finish_s(old(self).chars@, run_s(old(self).chars@, old(self).lex_state())).tokens,
            diag_views(out.diagnostics@) == finish_s(old(self).chars@, run_s(old(self).chars@, old(self).lex_state())).diagnostics,
    {
        let ghost src = self.chars@;
        while !self.is_eof()
            invariant
                self.inv(),
                self.chars@ == src,
                run_s(src, self.lex_state()) == run_s(src, old(self).lex_state()),
                self.at_line_start ==> self.pos == 0 || self.pos == src.len() || src[self.pos - 1] == '\n',
            decreases self.chars@.len() - self.pos,
        {
            let ghost before = self.lex_state();
            if self.at_line_start {
                self.consume_line_start();
                if self.at_line_start || self.is_eof() {
                    assert(self.lex_state() == step_s(src, before));
                    continue;
                }
            }
            let start = self.offset;
            let ch = self.chars[self.pos];
            if ch == '\n' {
                self.consume_newline(true);
            } else if ch == ' ' || ch == '\t' {
                self.consume_inline_whitespace();
            } else if ch == '#' {
                self.consume_comment();
            } else if ch == '"' {
                self.consume_string();
            } else if is_ascii_digit(ch) {
                self.consume_number();
            } else if is_identifier_start(ch) {
                self.consume_identifier_or_keyword();
            } else {
                self.consume_symbol_or_unknown(start);
            }
            assert(self.lex_state() == step_s(src, before));
        }
        let ghost end = byte_len(src) as usize;
        let ghost ran = self.lex_state();
        proof {
            assert(src.take(src.len() as int) =~= src);
            assert(run_s(src, ran) == ran);
        }
        while self.indents.len() > 1
            invariant
                self.inv(),
                self.chars@ == src,
                self.pos == src.len(),
                self.offset == end,
                close_s(self.lex_state(), end) == close_s(ran, end),
            decreases self.indents@.len(),
        {
            self.indents.pop();
            self.push_token(TokenKind::Dedent, Span::at(self.offset), Ghost(self.pos as int), Ghost(self.pos as int));
        }
        let ghost old_tokens = self.tokens@;
        let eof = Token { kind: TokenKind::Eof, span: Span::at(self.offset) };
        self.tokens.push(eof);
        let ghost anchors = self.anchors@.push((src.len() as int, src.len() as int));
        proof {
            assert(self.tokens@.drop_last() =~= old_tokens);
            assert(tokens_anchored(src, self.tokens@, anchors));
            assert(token_views(self.tokens@) =~= token_views(old_tokens).push(eof@));
        }
        let mut tokens = Vec::new();
        let mut diagnostics = Vec::new();
        std::mem::swap(&mut tokens, &mut self.tokens);
        std::mem::swap(&mut diagnostics, &mut self.diagnostics);
        LexOutput { tokens, diagnostics }
    }
}

/// The two-character symbol spelled `a` then `b`, if there is one.
fn two_char_symbol(a: char, b: char) -> (r: Option<Symbol>)
    ensures
        r matches Some(s) ==> symbol_text(s) == seq![a, b],
        r is None ==> forall|s: Symbol| symbol_text(s) != seq![a, b],
        r == two_char_symbol_of(a, b),
{
    let r = if a == '!' && b == '=' {
        Some(Symbol::BangEqual)
    } else if a == '=' && b == '=' {
        Some(Symbol::EqualEqual)
    } else if a == '=' && b == '>' {
        Some(Symbol::FatArrow)
    } else if a == '>' && b == '=' {
        Some(Symbol::GreaterEqual)
    } else if a == '<' && b == '=' {
        Some(Symbol::LessEqual)
    } else if a == '-' && b == '=' {
        Some(Symbol::MinusEqual)
    } else if a == '%' && b == '=' {
        Some(Symbol::PercentEqual)
    } else if a == '+' && b == '=' {
        Some(Symbol::PlusEqual)
    } else if a == '/' && b == '=' {
        Some(Symbol::SlashEqual)
    } else if a == '*' && b == '=' {
        Some(Symbol::StarEqual)
    } else if a == '-' && b == '>' {
        Some(Symbol::ThinArrow)
    } else {
        None
    };
    proof {
        if r is None {
            assert forall|s: Symbol| symbol_text(s) != seq![a, b] by {
                if symbol_text(s).len() == 2 {
                    assert(symbol_text(s)[0] != a || symbol_text(s)[1] != b);
                }
            }
        }
    }
    r
}

/// The one-character symbol spelled `a`, if there is one.
fn one_char_symbol(a: char) -> (r: Option<Symbol>)
    ensures
        r matches Some(s) ==> symbol_text(s) == seq![a],
        r is None ==> forall|s: Symbol| symbol_text(s) != seq![a],
        r == one_char_symbol_of(a),
{
    let r = if a == '&' {
        Some(Symbol::Ampersand)
    } else if a == '!' {
        Some(Symbol::Bang)
    } else if a == '^' {
        Some(Symbol::Caret)
    } else if a == ':' {
        Some(Symbol::Colon)
    } else if a == ',' {
        Some(Symbol::Comma)
    } else if a == '.' {
        Some(Symbol::Dot)
    } else if a == '=' {
        Some(Symbol::Equal)
    } else if a == '>' {
        Some(Symbol::Greater)
    } else if a == '{' {
        Some(Symbol::LBrace)
    } else if a == '[' {
        Some(Symbol::LBracket)
    } else if a == '<' {
        Some(Symbol::Less)
    } else if a == '(' {
        Some(Symbol::LParen)
    } else if a == '-' {
        Some(Symbol::Minus)
    } else if a == '%' {
        Some(Symbol::Percent)
    } else if a == '|' {
        Some(Symbol::Pipe)
    } else if a == '+' {
        Some(Symbol::Plus)
    } else if a == '?' {
        Some(Symbol::Question)
    } else if a == '}' {
        Some(Symbol::RBrace)
    } else if a == ']' {
        Some(Symbol::RBracket)
    } else if a == ')' {
        Some(Symbol::RParen)
    } else if a == ';' {
        Some(Symbol::Semicolon)
    } else if a == '/' {
        Some(Symbol::Slash)
    } else if a == '*' {
        Some(Symbol::Star)
    } else {
        None
    };
    proof {
        if r is None {
            assert forall|s: Symbol| symbol_text(s) != seq![a] by {
                if symbol_text(s).len() == 1 {
                    assert(symbol_text(s)[0] != a);
                }
            }
        }
    }
    r
}

/// No symbol is longer than two characters.
proof fn lemma_symbol_text_short()
    ensures
        forall|s: Symbol| 1 <= #[trigger] symbol_text(s).len() <= 2,
{
}


// ---------------------------------------------------------------------------
// Text rendering for development output
// ---------------------------------------------------------------------------

/// The name of what `format!("{:?}", s)` gives for a string: `s` quoted, with
/// the escapes of Rust's `Debug` for `str`.
pub uninterp spec fn debug_text(s: Seq<char>) -> Seq<char>;

/// Calls `<str as Debug>::fmt` through `format!`; the result is named
/// [`debug_text`] of the string's characters.
#[verifier::external_body]
fn debug_quoted(s: &String) -> (r: String)
    ensures
        r@ == debug_text(s@),
{
    format!("{:?}", s)
}

pub open spec fn severity_text(severity: Severity) -> Seq<char> {
    match severity {
        Severity::Error => "error"@,
        Severity::Warning => "warning"@,
        Severity::Note => "note"@,
    }
}

fn severity_label(severity: Severity) -> (r: &'static str)
    ensures
        r@ == severity_text(severity),
{
    match severity {
        Severity::Error => "error",
        Severity::Warning => "warning",
        Severity::Note => "note",
    }
}

/// How a token kind is shown.
pub open spec fn token_kind_text(kind: TokenKind) -> Seq<char> {
    match kind {
        TokenKind::Identifier(name) => "identifier `"@ + name@ + "`"@,
        TokenKind::Integer(value) => "integer `"@ + value@ + "`"@,
        TokenKind::Float(value) => "float `"@ + value@ + "`"@,
        TokenKind::String(value) => "string "@ + debug_text(value@),
        TokenKind::Keyword(k) => "`"@ + keyword_text(k) + "`"@,
        TokenKind::Symbol(sym) => "`"@ + symbol_text(sym) + "`"@,
        TokenKind::Newline => "newline"@,
        TokenKind::Indent => "indent"@,
        TokenKind::Dedent => "dedent"@,
        TokenKind::Eof => "end of file"@,
    }
}

/// The listing of each kind of token, variant by variant: a word, a number or a
/// string is named by its kind and followed by its text; a keyword or a symbol
/// is its text in backquotes; a layout token or the end is named in words.
pub proof fn lemma_token_kind_text_table(kind: TokenKind)
    ensures
        kind matches TokenKind::Identifier(v) ==> token_kind_text(kind) == "identifier `"@ + v@ + "`"@,
        kind matches TokenKind::Integer(v) ==> token_kind_text(kind) == "integer `"@ + v@ + "`"@,
        kind matches TokenKind::Float(v) ==> token_kind_text(kind) == "float `"@ + v@ + "`"@,
        kind matches TokenKind::String(v) ==> token_kind_text(kind) == "string "@ + debug_text(v@),
        kind matches TokenKind::Keyword(k) ==> token_kind_text(kind) == "`"@ + keyword_text(k) + "`"@,
        kind matches TokenKind::Symbol(sym) ==> token_kind_text(kind) == "`"@ + symbol_text(sym) + "`"@,
        kind is Newline ==> token_kind_text(kind) == "newline"@,
        kind is Indent ==> token_kind_text(kind) == "indent"@,
        kind is Dedent ==> token_kind_text(kind) == "dedent"@,
        kind is Eof ==> token_kind_text(kind) == "end of file"@,
{
}

/// An integer and a float are never listed alike: the listing of an integer
/// starts with `i`, that of a float with `f`.
pub proof fn lemma_integer_float_text_differ(kind: TokenKind)
    ensures
        kind is Integer ==> token_kind_text(kind)[0] == 'i',
        kind is Float ==> token_kind_text(kind)[0] == 'f',
        forall|other: TokenKind|
            kind is Integer && other is Float ==> token_kind_text(kind) != #[trigger] token_kind_text(other),
{
    reveal_strlit("integer `");
    reveal_strlit("float `");
    assert forall|other: TokenKind|
        kind is Integer && other is Float implies token_kind_text(kind) != #[trigger] token_kind_text(other) by {
        assert(token_kind_text(other)[0] == 'f');
    }
    if kind is Integer {
        assert(token_kind_text(kind)[0] == 'i');
    }
    if kind is Float {
        assert(token_kind_text(kind)[0] == 'f');
    }
}

/// A byte range shown as `start..end`.
pub open spec fn span_text(span: Span) -> Seq<char> {
    decimal(span.start as nat) + ".."@ + decimal(span.end as nat)
}

/// How a token is shown: its byte range, then its kind.
pub open spec fn token_text(t: Token) -> Seq<char> {
    span_text(t.span) + " "@ + token_kind_text(t.kind)
}

/// The token lines of a lexer output.
pub open spec fn tokens_text(ts: Seq<Token>) -> Seq<char>
    decreases ts.len(),
{
    if ts.len() == 0 {
        seq![]
    } else {
        tokens_text(ts.drop_last()) + "  "@ + token_text(ts.last()) + "\n"@
    }
}

pub open spec fn note_text(n: DiagnosticNote) -> Seq<char> {
    match n.span {
        Some(span) => "    note: "@ + n.message@ + " at "@ + span_text(span) + "\n"@,
        None => "    note: "@ + n.message@ + "\n"@,
    }
}

pub open spec fn notes_text(ns: Seq<DiagnosticNote>) -> Seq<char>
    decreases ns.len(),
{
    if ns.len() == 0 {
        seq![]
    } else {
        notes_text(ns.drop_last()) + note_text(ns.last())
    }
}

/// How a diagnostic is shown: `  severity[code] message at start..end`, then
/// its notes.
pub open spec fn diagnostic_text(d: Diagnostic) -> Seq<char> {
    "  "@ + severity_text(d.severity) + "["@ + d.code@ + "] "@ + d.message@ + " at "@ + span_text(
        d.span,
    ) + "\n"@ + notes_text(d.notes@)
}

pub open spec fn diagnostics_text(ds: Seq<Diagnostic>) -> Seq<char>
    decreases ds.len(),
{
    if ds.len() == 0 {
        seq![]
    } else {
        diagnostics_text(ds.drop_last()) + diagnostic_text(ds.last())
    }
}

/// How a lexer output is shown.
pub open spec fn lex_output_text(out: LexOutput) -> Seq<char> {
    "tokens:\n"@ + tokens_text(out.tokens@) + if out.diagnostics@.len() == 0 {
        "diagnostics: none"@
    } else {
        "diagnostics:\n"@ + diagnostics_text(out.diagnostics@)
    }
}

fn push_span(s: &mut String, span: Span)
    ensures
        final(s)@ == old(s)@ + span_text(span),
{
    push_decimal(s, span.start);
    push_str(s, "..");
    push_decimal(s, span.end);
}

impl Keyword {
    /// The keyword's text.
    pub fn to_string(&self) -> (r: String)
        ensures
            r@ == keyword_text(*self),
    {
        String::from_str(self.as_str())
    }
}

impl Symbol {
    /// The symbol's text.
    pub fn to_string(&self) -> (r: String)
        ensures
            r@ == symbol_text(*self),
    {
        String::from_str(self.as_str())
    }
}

impl TokenKind {
    /// How the token kind is shown in development output.
    pub fn to_string(&self) -> (r: String)
        ensures
            r@ == token_kind_text(*self),
    {
        let mut s = String::new();
        self.write_to(&mut s);
        assert(s@ =~= token_kind_text(*self));
        s
    }

    fn write_to(&self, s: &mut String)
        ensures
            final(s)@ == old(s)@ + token_kind_text(*self),
    {
        let ghost start = s@;
        match self {
            TokenKind::Identifier(name) => {
                push_str(s, "identifier `");
                push_str(s, name.as_str());
                push_str(s, "`");
            },
            TokenKind::Integer(value) => {
                push_str(s, "integer `");
                push_str(s, value.as_str());
                push_str(s, "`");
            },
            TokenKind::Float(value) => {
                push_str(s, "float `");
                push_str(s, value.as_str());
                push_str(s, "`");
            },
            TokenKind::String(value) => {
                push_str(s, "string ");
                let quoted = debug_quoted(value);
                push_str(s, quoted.as_str());
            },
            TokenKind::Keyword(k) => {
                push_str(s, "`");
                push_str(s, k.as_str());
                push_str(s, "`");
            },
            TokenKind::Symbol(sym) => {
                push_str(s, "`");
                push_str(s, sym.as_str());
                push_str(s, "`");
            },
            TokenKind::Newline => push_str(s, "newline"),
            TokenKind::Indent => push_str(s, "indent"),
            TokenKind::Dedent => push_str(s, "dedent"),
            TokenKind::Eof => push_str(s, "end of file"),
        }
        assert(s@ =~= start + token_kind_text(*self));
    }
}

impl Token {
    /// How the token is shown in development output.
    pub fn to_string(&self) -> (r: String)
        ensures
            r@ == token_text(*self),
    {
        let mut s = String::new();
        self.write_to(&mut s);
        assert(s@ =~= token_text(*self));
        s
    }

    fn write_to(&self, s: &mut String)
        ensures
            final(s)@ == old(s)@ + token_text(*self),
    {
        let ghost start = s@;
        push_span(s, self.span);
        push_str(s, " ");
        self.kind.write_to(s);
        assert(s@ =~= start + token_text(*self));
    }
}

/// Appends how diagnostic `d` is shown.
fn write_diagnostic(s: &mut String, d: &Diagnostic)
    ensures
        final(s)@ == old(s)@ + diagnostic_text(*d),
{
    let ghost before = s@;
    push_str(s, "  ");
    push_str(s, severity_label(d.severity));
    push_str(s, "[");
    push_str(s, d.code);
    push_str(s, "] ");
    push_str(s, d.message.as_str());
    push_str(s, " at ");
    push_span(s, d.span);
    push_str(s, "\n");
    write_notes(s, &d.notes);
    assert(s@ =~= before + diagnostic_text(*d));
}

fn write_notes(s: &mut String, notes: &Vec<DiagnosticNote>)
    ensures
        final(s)@ == old(s)@ + notes_text(notes@),
{
    let ghost start = s@;
    let mut k: usize = 0;
    while k < notes.len()
        invariant
            k <= notes@.len(),
            s@ == start + notes_text(notes@.take(k as int)),
        decreases notes@.len() - k,
    {
        let ghost before = s@;
        let note = &notes[k];
        push_str(s, "    note: ");
        push_str(s, note.message.as_str());
        match note.span {
            Some(span) => {
                push_str(s, " at ");
                push_span(s, span);
                push_str(s, "\n");
            },
            None => {
                push_str(s, "\n");
            },
        }
        proof {
            assert(notes@.take(k + 1).drop_last() =~= notes@.take(k as int));
            assert(s@ =~= before + note_text(notes@[k as int]));
        }
        k = k + 1;
    }
    assert(notes@.take(notes@.len() as int) =~= notes@);
}

impl LexOutput {
    /// How the lexer output is shown in development output: one line per
    /// token, then the diagnostics with their notes.
    pub fn to_string(&self) -> (r: String)
        ensures
            r@ == lex_output_text(*self),
    {
        let mut s = String::new();
        push_str(&mut s, "tokens:\n");
        let mut k: usize = 0;
        while k < self.tokens.len()
            invariant
                k <= self.tokens@.len(),
                s@ == "tokens:\n"@ + tokens_text(self.tokens@.take(k as int)),
            decreases self.tokens@.len() - k,
        {
            let ghost before = s@;
            push_str(&mut s, "  ");
            self.tokens[k].write_to(&mut s);
            push_str(&mut s, "\n");
            proof {
                assert(self.tokens@.take(k + 1).drop_last() =~= self.tokens@.take(k as int));
                assert(s@ =~= before + "  "@ + token_text(self.tokens@[k as int]) + "\n"@);
            }
            k = k + 1;
        }
        assert(self.tokens@.take(self.tokens@.len() as int) =~= self.tokens@);
        let ghost after_tokens = s@;
        if self.diagnostics.len() == 0 {
            push_str(&mut s, "diagnostics: none");
            assert(s@ =~= lex_output_text(*self));
            return s;
        }
        push_str(&mut s, "diagnostics:\n");
        let mut k: usize = 0;
        while k < self.diagnostics.len()
            invariant
                k <= self.diagnostics@.len(),
                s@ == after_tokens + "diagnostics:\n"@ + diagnostics_text(self.diagnostics@.take(k as int)),
            decreases self.diagnostics@.len() - k,
        {
            write_diagnostic(&mut s, &self.diagnostics[k]);
            assert(self.diagnostics@.take(k + 1).drop_last() =~= self.diagnostics@.take(k as int));
            k = k + 1;
        }
        assert(self.diagnostics@.take(self.diagnostics@.len() as int) =~= self.diagnostics@);
        assert(s@ =~= lex_output_text(*self));
        s
    }
}

} // verus!
