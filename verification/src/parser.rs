use crate::ast::{
    body_exprs_layout, body_stmts_layout, expr_layout, expr_node, expr_size, item_body, item_layout, item_node,
    item_ids, items_exprs_layout, items_layout, items_stmts_layout, lemma_body_layout_len, lemma_items_layout_len,
    module_layout, ModuleNodeView,
    lemma_expr_layout_len, stmt_expr, stmt_exprs_layout, stmt_ids, stmt_layout, stmt_node,
    AstNodes, ExprNodeView,
    Ast, AstView, BinaryOp, BindingKind, Error, Expr, ExprId, ExprKind, ExprTree, Function, Ident,
    Item, ItemId, ItemKind, ItemTree, Local, Module, ModuleId, ModuleTree, NumberLiteral, NumberView,
    Param, ParamView, Stmt, StmtId, StmtKind, StmtTree, TypeRef, TypeRefKind, TypeRefView, UnaryOp,
};
use crate::diagnostics::{diag_views, error_view, DiagView, Diagnostic, Span};
use crate::lexer::{keyword_text, Keyword, LexOutput, Symbol, Token, TokenKind};
use crate::text::str_equal;
use vstd::prelude::*;
use vstd::string::StrSliceExecFns;
use vstd::string::StringExecFns;

verus! {

// ---------------------------------------------------------------------------
// The grammar, as functions over the token sequence
// ---------------------------------------------------------------------------
//
// Each function takes the tokens and a position and gives the position after
// what it read, what it read, and the diagnostics it reported, in order.

/// Token streams the parser accepts: nonempty, ending in `Eof`.
pub open spec fn parse_ready(toks: Seq<Token>) -> bool {
    toks.len() > 0 && toks.last().kind is Eof
}

/// The current token: the one at `pos`, or the last one past the end.
pub open spec fn cur(toks: Seq<Token>, pos: int) -> Token {
    if 0 <= pos < toks.len() {
        toks[pos]
    } else {
        toks.last()
    }
}

pub open spec fn kind_at(toks: Seq<Token>, pos: int) -> TokenKind {
    cur(toks, pos).kind
}

pub open spec fn at_eof(toks: Seq<Token>, pos: int) -> bool {
    kind_at(toks, pos) is Eof
}

pub open spec fn at_newline(toks: Seq<Token>, pos: int) -> bool {
    kind_at(toks, pos) is Newline
}

pub open spec fn at_dedent(toks: Seq<Token>, pos: int) -> bool {
    kind_at(toks, pos) is Dedent
}

pub open spec fn at_symbol(toks: Seq<Token>, pos: int, s: Symbol) -> bool {
    kind_at(toks, pos) == TokenKind::Symbol(s)
}

pub open spec fn at_keyword(toks: Seq<Token>, pos: int, k: Keyword) -> bool {
    kind_at(toks, pos) == TokenKind::Keyword(k)
}

/// The position after moving past the current token; `Eof` is never passed.
pub open spec fn adv(toks: Seq<Token>, pos: int) -> int {
    if at_eof(toks, pos) {
        pos
    } else {
        pos + 1
    }
}

/// After an unexpected token: move past it unless it ends a line, a block or
/// the input.
pub open spec fn recover(toks: Seq<Token>, pos: int) -> int {
    if at_newline(toks, pos) || at_dedent(toks, pos) || at_eof(toks, pos) {
        pos
    } else {
        adv(toks, pos)
    }
}

pub open spec fn merge(a: Span, b: Span) -> Span {
    Span { start: a.start, end: b.end }
}

pub open spec fn skip_newlines(toks: Seq<Token>, pos: int) -> int
    decreases toks.len() - pos,
{
    if 0 <= pos < toks.len() && toks[pos].kind is Newline {
        skip_newlines(toks, pos + 1)
    } else {
        pos
    }
}

/// Moves to the next newline, dedent or the end of input.
pub open spec fn sync_stmt(toks: Seq<Token>, pos: int) -> int
    decreases toks.len() - pos,
{
    if 0 <= pos < toks.len() && !at_eof(toks, pos) && !at_newline(toks, pos) && !at_dedent(toks, pos) {
        sync_stmt(toks, pos + 1)
    } else {
        pos
    }
}

/// Moves past the rest of a bad item: to the end of its line, past blank
/// lines, and past one dedent.
pub open spec fn sync_item(toks: Seq<Token>, pos: int) -> int {
    let p1 = skip_newlines(toks, sync_stmt(toks, pos));
    if at_dedent(toks, p1) {
        adv(toks, p1)
    } else {
        p1
    }
}

pub open spec fn expect_symbol(toks: Seq<Token>, pos: int, s: Symbol, message: Seq<char>) -> (int, Seq<DiagView>) {
    if at_symbol(toks, pos, s) {
        (adv(toks, pos), seq![])
    } else {
        (pos, seq![error_view("parse.expected_symbol"@, message, cur(toks, pos).span)])
    }
}

pub open spec fn expect_keyword(toks: Seq<Token>, pos: int, k: Keyword) -> (int, Seq<DiagView>) {
    if at_keyword(toks, pos, k) {
        (adv(toks, pos), seq![])
    } else {
        (
            pos,
            seq![
                error_view(
                    "parse.expected_keyword"@,
                    "expected `"@ + keyword_text(k) + "`"@,
                    cur(toks, pos).span,
                ),
            ],
        )
    }
}

pub open spec fn expect_newline(toks: Seq<Token>, pos: int, message: Seq<char>) -> (int, Seq<DiagView>) {
    if at_newline(toks, pos) {
        (adv(toks, pos), seq![])
    } else {
        (pos, seq![error_view("parse.expected_newline"@, message, cur(toks, pos).span)])
    }
}

pub open spec fn expect_dedent(toks: Seq<Token>, pos: int, message: Seq<char>) -> (int, Seq<DiagView>) {
    if at_dedent(toks, pos) {
        (adv(toks, pos), seq![])
    } else {
        (pos, seq![error_view("parse.expected_dedent"@, message, cur(toks, pos).span)])
    }
}

/// An identifier, or `<error>` at the current token.
pub open spec fn expect_identifier(toks: Seq<Token>, pos: int, message: Seq<char>) -> (
    int,
    (Seq<char>, Span),
    Seq<DiagView>,
) {
    let t = cur(toks, pos);
    match t.kind {
        TokenKind::Identifier(x) => (adv(toks, pos), (x@, t.span), seq![]),
        _ => (
            pos,
            ("<error>"@, t.span),
            seq![error_view("parse.expected_identifier"@, message, t.span)],
        ),
    }
}

/// Binding powers and operator of an infix operator token.
pub open spec fn infix_of(k: TokenKind) -> Option<(u8, u8, BinaryOp)> {
    match k {
        TokenKind::Symbol(Symbol::Plus) => Some((10, 11, BinaryOp::Add)),
        TokenKind::Symbol(Symbol::Minus) => Some((10, 11, BinaryOp::Sub)),
        TokenKind::Symbol(Symbol::Star) => Some((20, 21, BinaryOp::Mul)),
        TokenKind::Symbol(Symbol::Slash) => Some((20, 21, BinaryOp::Div)),
        TokenKind::Symbol(Symbol::Percent) => Some((20, 21, BinaryOp::Rem)),
        _ => None,
    }
}

/// An expression.
pub open spec fn parse_expr(toks: Seq<Token>, pos: int) -> (int, ExprTree, Seq<DiagView>)
    decreases toks.len() - pos, 2int,
{
    parse_expr_bp(toks, pos, 0)
}

/// An expression whose operators bind at least as tightly as `min_bp`.
pub open spec fn parse_expr_bp(toks: Seq<Token>, pos: int, min_bp: u8) -> (int, ExprTree, Seq<DiagView>)
    decreases toks.len() - pos, 1int,
{
    let (p1, lhs, d1) = parse_prefix(toks, pos);
    if pos <= p1 <= toks.len() {
        let (p2, e, d2) = infix_loop(toks, p1, lhs, min_bp);
        (p2, e, d1 + d2)
    } else {
        (p1, lhs, d1)
    }
}

/// Operators and right operands that follow `lhs`.
pub open spec fn infix_loop(toks: Seq<Token>, pos: int, lhs: ExprTree, min_bp: u8) -> (
    int,
    ExprTree,
    Seq<DiagView>,
)
    decreases toks.len() - pos, 0int,
{
    match infix_of(kind_at(toks, pos)) {
        None => (pos, lhs, seq![]),
        Some((left_bp, right_bp, op)) => {
            if left_bp < min_bp || !(0 <= pos < toks.len()) {
                (pos, lhs, seq![])
            } else {
                let (p1, rhs, d1) = parse_expr_bp(toks, pos + 1, right_bp);
                let e = ExprTree::Binary {
                    lhs: Box::new(lhs),
                    op,
                    rhs: Box::new(rhs),
                    span: merge(lhs.span(), rhs.span()),
                };
                if pos < p1 <= toks.len() {
                    let (p2, e2, d2) = infix_loop(toks, p1, e, min_bp);
                    (p2, e2, d1 + d2)
                } else {
                    (p1, e, d1)
                }
            }
        },
    }
}

/// A literal, a name, a negation or a parenthesized expression.
pub open spec fn parse_prefix(toks: Seq<Token>, pos: int) -> (int, ExprTree, Seq<DiagView>)
    decreases toks.len() - pos, 0int,
{
    let t = cur(toks, pos);
    match t.kind {
        TokenKind::Integer(v) => (adv(toks, pos), ExprTree::Number { value: NumberView::Integer(v@), span: t.span }, seq![]),
        TokenKind::Float(v) => (adv(toks, pos), ExprTree::Number { value: NumberView::Float(v@), span: t.span }, seq![]),
        TokenKind::Identifier(x) => (
            adv(toks, pos),
            ExprTree::Ident { text: x@, name_span: t.span, span: t.span },
            seq![],
        ),
        TokenKind::Symbol(Symbol::Minus) => {
            if 0 <= pos < toks.len() {
                let (p1, e, d1) = parse_expr_bp(toks, pos + 1, 30);
                (p1, ExprTree::Unary { op: UnaryOp::Neg, operand: Box::new(e), span: merge(t.span, e.span()) }, d1)
            } else {
                (pos, ExprTree::Error { span: t.span }, seq![])
            }
        },
        TokenKind::Symbol(Symbol::LParen) => {
            if 0 <= pos < toks.len() {
                let (p1, e, d1) = parse_expr(toks, pos + 1);
                let (p2, d2) = expect_symbol(toks, p1, Symbol::RParen, "expected `)` after expression"@);
                (p2, e, d1 + d2)
            } else {
                (pos, ExprTree::Error { span: t.span }, seq![])
            }
        },
        _ => (
            recover(toks, pos),
            ExprTree::Error { span: t.span },
            seq![error_view("parse.expected_expr"@, "expected expression"@, t.span)],
        ),
    }
}

pub open spec fn type_span(t: TypeRefView) -> Span {
    match t {
        TypeRefView::Named { span, .. } => span,
        TypeRefView::Generic { span, .. } => span,
        TypeRefView::Function { span, .. } => span,
    }
}

pub open spec fn at_type_arg_list_end(toks: Seq<Token>, pos: int) -> bool {
    at_eof(toks, pos) || at_symbol(toks, pos, Symbol::RBracket) || at_newline(toks, pos)
}

/// A type: a name, or `Self`, followed by any number of `[...]` argument lists.
pub open spec fn parse_type_ref(toks: Seq<Token>, pos: int) -> (int, TypeRefView, Seq<DiagView>)
    decreases toks.len() - pos, 2int,
{
    let t = cur(toks, pos);
    let (p1, base, d1) = match t.kind {
        TokenKind::Identifier(x) => (
            adv(toks, pos),
            TypeRefView::Named { text: x@, name_span: t.span, span: t.span },
            Seq::<DiagView>::empty(),
        ),
        TokenKind::Keyword(Keyword::SelfType) => (
            adv(toks, pos),
            TypeRefView::Named { text: "Self"@, name_span: t.span, span: t.span },
            Seq::<DiagView>::empty(),
        ),
        _ => (
            recover(toks, pos),
            TypeRefView::Named { text: "<error>"@, name_span: t.span, span: t.span },
            seq![error_view("parse.expected_type"@, "expected type"@, t.span)],
        ),
    };
    if pos <= p1 <= toks.len() {
        let (p2, ty, d2) = generic_loop(toks, p1, base);
        (p2, ty, d1 + d2)
    } else {
        (p1, base, d1)
    }
}

/// Argument lists `[...]` applied to `ty`.
pub open spec fn generic_loop(toks: Seq<Token>, pos: int, ty: TypeRefView) -> (int, TypeRefView, Seq<DiagView>)
    decreases toks.len() - pos, 1int,
{
    if at_symbol(toks, pos, Symbol::LBracket) && 0 <= pos < toks.len() {
        let (p1, args, d1) = type_args(toks, pos + 1);
        let (p2, d2) = expect_symbol(toks, p1, Symbol::RBracket, "expected `]` after type arguments"@);
        let end = if at_symbol(toks, p1, Symbol::RBracket) {
            cur(toks, p1).span.end
        } else if args.len() > 0 {
            type_span(args.last()).end
        } else {
            type_span(ty).end
        };
        let g = TypeRefView::Generic {
            base: Box::new(ty),
            args,
            span: Span { start: type_span(ty).start, end },
        };
        if pos < p2 <= toks.len() {
            let (p3, t3, d3) = generic_loop(toks, p2, g);
            (p3, t3, d1 + d2 + d3)
        } else {
            (p2, g, d1 + d2)
        }
    } else {
        (pos, ty, seq![])
    }
}

/// Comma-separated types up to `]`, a newline or the end of input.
pub open spec fn type_args(toks: Seq<Token>, pos: int) -> (int, Seq<TypeRefView>, Seq<DiagView>)
    decreases toks.len() - pos, 3int,
{
    if at_type_arg_list_end(toks, pos) {
        (pos, seq![], seq![])
    } else {
        let (p1, t, d1) = parse_type_ref(toks, pos);
        if at_symbol(toks, p1, Symbol::Comma) && pos <= p1 < toks.len() {
            let (p2, ts, d2) = type_args(toks, p1 + 1);
            (p2, seq![t] + ts, d1 + d2)
        } else {
            (p1, seq![t], d1)
        }
    }
}


pub open spec fn at_param_list_end(toks: Seq<Token>, pos: int) -> bool {
    at_eof(toks, pos) || at_symbol(toks, pos, Symbol::RParen) || at_newline(toks, pos)
}

/// Comma-separated `name: type` parameters up to `)`, a newline or the end of
/// input. A parameter without `: type` is reported and kept without a type.
pub open spec fn param_list(toks: Seq<Token>, pos: int) -> (int, Seq<ParamView>, Seq<DiagView>)
    decreases toks.len() - pos,
{
    if at_param_list_end(toks, pos) {
        (pos, seq![], seq![])
    } else {
        let (p1, name, d1) = expect_identifier(toks, pos, "expected parameter name"@);
        let (p2, ty, d2) = if at_symbol(toks, p1, Symbol::Colon) {
            let (q, t, d) = parse_type_ref(toks, adv(toks, p1));
            (q, Some(t), d)
        } else {
            (
                p1,
                None,
                seq![
                    error_view(
                        "parse.expected_param_type"@,
                        "expected `:` and parameter type after parameter name"@,
                        cur(toks, p1).span,
                    ),
                ],
            )
        };
        let param = ParamView { name: name.0, name_span: name.1, ty };
        if at_symbol(toks, p2, Symbol::Comma) && pos <= p2 < toks.len() {
            let (p3, ps, d3) = param_list(toks, p2 + 1);
            (p3, seq![param] + ps, d1 + d2 + d3)
        } else {
            (p2, seq![param], d1 + d2)
        }
    }
}

/// `let` or `var`, a name, an optional `: type`, `=` and an initializer.
pub open spec fn parse_local(toks: Seq<Token>, pos: int) -> (int, StmtTree, Seq<DiagView>) {
    let t = cur(toks, pos);
    let kind = if t.kind == TokenKind::Keyword(Keyword::Let) {
        BindingKind::Let
    } else {
        BindingKind::Var
    };
    let (p1, name, d1) = expect_identifier(toks, adv(toks, pos), "expected variable name"@);
    let (p2, ty, d2) = if at_symbol(toks, p1, Symbol::Colon) {
        let (q, ty, d) = parse_type_ref(toks, adv(toks, p1));
        (q, Some(ty), d)
    } else {
        (p1, None, Seq::<DiagView>::empty())
    };
    let (p3, d3) = expect_symbol(toks, p2, Symbol::Equal, "expected `=` after variable name"@);
    let (p4, init, d4) = parse_expr(toks, p3);
    (
        p4,
        StmtTree::Local {
            kind,
            name: name.0,
            name_span: name.1,
            ty,
            initializer: init,
            span: Span { start: t.span.start, end: init.span().end },
        },
        d1 + d2 + d3 + d4,
    )
}

pub open spec fn at_print(toks: Seq<Token>, pos: int) -> bool {
    kind_at(toks, pos) matches TokenKind::Identifier(x) && x@ == "print"@
}

/// After a statement: a newline, or the end of a block or of input; anything
/// else is reported and skipped up to the end of the line.
pub open spec fn finish_stmt(toks: Seq<Token>, pos: int) -> (int, Seq<DiagView>) {
    if at_newline(toks, pos) {
        (adv(toks, pos), seq![])
    } else if at_eof(toks, pos) || at_dedent(toks, pos) {
        (pos, seq![])
    } else {
        let p1 = sync_stmt(toks, pos);
        (
            if at_newline(toks, p1) {
                adv(toks, p1)
            } else {
                p1
            },
            seq![
                error_view(
                    "parse.expected_newline"@,
                    "expected newline after statement"@,
                    cur(toks, pos).span,
                ),
            ],
        )
    }
}

/// A local binding, a `print`, or an expression, then the end of the line.
pub open spec fn parse_stmt(toks: Seq<Token>, pos: int) -> (int, StmtTree, Seq<DiagView>) {
    let p0 = skip_newlines(toks, pos);
    let (p1, st, d1) = if at_keyword(toks, p0, Keyword::Let) || at_keyword(toks, p0, Keyword::Var) {
        parse_local(toks, p0)
    } else if at_print(toks, p0) {
        let (q, e, d) = parse_expr(toks, adv(toks, p0));
        (q, StmtTree::Print { expr: e, span: Span { start: cur(toks, p0).span.start, end: e.span().end } }, d)
    } else {
        let (q, e, d) = parse_expr(toks, p0);
        (q, StmtTree::Expr { expr: e, span: e.span() }, d)
    };
    let (p2, d2) = finish_stmt(toks, p1);
    (p2, st, d1 + d2)
}

/// The statements of a function body, up to the dedent that closes it.
pub open spec fn body_loop(toks: Seq<Token>, pos: int) -> (int, Seq<StmtTree>, Seq<DiagView>)
    decreases toks.len() - pos,
{
    if at_eof(toks, pos) || at_dedent(toks, pos) {
        (pos, seq![], seq![])
    } else {
        let p1 = skip_newlines(toks, pos);
        if at_eof(toks, p1) || at_dedent(toks, p1) {
            (p1, seq![], seq![])
        } else {
            let (p2, st, d) = parse_stmt(toks, p1);
            if pos < p2 <= toks.len() {
                let (p3, sts, d2) = body_loop(toks, p2);
                (p3, seq![st] + sts, d + d2)
            } else {
                (p2, seq![st], d)
            }
        }
    }
}

/// `fn name(params) -> type:` and a newline.
pub open spec fn parse_signature(toks: Seq<Token>, pos: int) -> (
    int,
    ((Seq<char>, Span), Seq<ParamView>, Option<TypeRefView>),
    Seq<DiagView>,
) {
    let (p0, d0) = expect_keyword(toks, pos, Keyword::Fn);
    let (p1, name, d1) = expect_identifier(toks, p0, "expected function name"@);
    let (p2, d2) = expect_symbol(toks, p1, Symbol::LParen, "expected `(` after function name"@);
    let (p3, params, d3) = param_list(toks, p2);
    let (p4, d4) = expect_symbol(toks, p3, Symbol::RParen, "expected `)` after function parameters"@);
    let (p5, return_type, d5) = if at_symbol(toks, p4, Symbol::ThinArrow) {
        let (q, t, d) = parse_type_ref(toks, adv(toks, p4));
        (q, Some(t), d)
    } else {
        (p4, None, Seq::<DiagView>::empty())
    };
    let (p6, d6) = expect_symbol(toks, p5, Symbol::Colon, "expected `:` after function signature"@);
    let (p7, d7) = expect_newline(toks, p6, "expected newline after function signature"@);
    (p7, (name, params, return_type), d0 + d1 + d2 + d3 + d4 + d5 + d6 + d7)
}

/// An indented block of statements closed by a dedent.
pub open spec fn parse_fn_body(toks: Seq<Token>, pos: int) -> (int, Seq<StmtTree>, Seq<DiagView>) {
    if kind_at(toks, pos) is Indent {
        let (q, b, d) = body_loop(toks, adv(toks, pos));
        let (q2, dd) = expect_dedent(toks, q, "expected dedent after function body"@);
        (q2, b, d + dd)
    } else {
        (
            pos,
            Seq::<StmtTree>::empty(),
            seq![
                error_view(
                    "parse.expected_indent"@,
                    "expected indented function body"@,
                    cur(toks, pos).span,
                ),
            ],
        )
    }
}

/// `fn name(params) -> type:`, a newline and an indented body.
pub open spec fn parse_function(toks: Seq<Token>, pos: int) -> (int, ItemTree, Seq<DiagView>) {
    let start = cur(toks, pos).span.start;
    let (p1, sig, d1) = parse_signature(toks, pos);
    let (p2, body, d2) = parse_fn_body(toks, p1);
    let end = if body.len() > 0 {
        body.last().span().end
    } else {
        sig.0.1.end
    };
    (
        p2,
        ItemTree::Function {
            name: sig.0.0,
            name_span: sig.0.1,
            params: sig.1,
            return_type: sig.2,
            body,
            span: Span { start, end },
        },
        d1 + d2,
    )
}

/// A function, or an error item for a line that does not start one.
pub open spec fn parse_item(toks: Seq<Token>, pos: int) -> (int, ItemTree, Seq<DiagView>) {
    if at_keyword(toks, pos, Keyword::Fn) {
        parse_function(toks, pos)
    } else {
        let t = cur(toks, pos);
        (
            sync_item(toks, pos),
            ItemTree::Error { span: t.span },
            seq![error_view("parse.expected_item"@, "expected top-level item"@, t.span)],
        )
    }
}

/// The items of a module, up to the end of input.
pub open spec fn module_loop(toks: Seq<Token>, pos: int) -> (int, Seq<ItemTree>, Seq<DiagView>)
    decreases toks.len() - pos,
{
    if at_eof(toks, pos) {
        (pos, seq![], seq![])
    } else {
        let p1 = skip_newlines(toks, pos);
        if at_eof(toks, p1) {
            (p1, seq![], seq![])
        } else {
            let (p2, it, d) = parse_item(toks, p1);
            if pos < p2 <= toks.len() {
                let (p3, its, d2) = module_loop(toks, p2);
                (p3, seq![it] + its, d + d2)
            } else {
                (p2, seq![it], d)
            }
        }
    }
}

/// The root module of a token stream and the diagnostics of parsing it.
pub open spec fn parse_module(toks: Seq<Token>) -> (ModuleTree, Seq<DiagView>) {
    let p0 = skip_newlines(toks, 0);
    let (p1, items, d) = module_loop(toks, p0);
    (ModuleTree { items, span: Span { start: cur(toks, p0).span.start, end: cur(toks, p1).span.end } }, d)
}


// ---------------------------------------------------------------------------
// The shape of binary expressions
// ---------------------------------------------------------------------------

/// `lhs op rhs`, spanning both operands.
pub open spec fn binary(lhs: ExprTree, op: BinaryOp, rhs: ExprTree) -> ExprTree {
    ExprTree::Binary { lhs: Box::new(lhs), op, rhs: Box::new(rhs), span: merge(lhs.span(), rhs.span()) }
}

/// How `a op1 b op2 c` groups: the second operator takes `b` when it binds
/// more tightly than the first (`*`, `/`, `%` over `+`, `-`); otherwise the
/// first operator takes `b` and operators of one level group from the left.
pub open spec fn grouped(a: ExprTree, op1: Token, b: ExprTree, op2: Token, c: ExprTree) -> ExprTree {
    let (l1, _, o1) = infix_of(op1.kind).unwrap();
    let (l2, _, o2) = infix_of(op2.kind).unwrap();
    if l2 > l1 {
        binary(a, o1, binary(b, o2, c))
    } else {
        binary(binary(a, o1, b), o2, c)
    }
}

/// Three integer literals joined by two binary operators, followed by a
/// token that is no operator, parse as `grouped` says, with nothing reported.
pub proof fn lemma_binary_precedence(toks: Seq<Token>, p: int)
    requires
        0 <= p,
        p + 5 < toks.len(),
        toks[p].kind is Integer,
        toks[p + 2].kind is Integer,
        toks[p + 4].kind is Integer,
        infix_of(toks[p + 1].kind) is Some,
        infix_of(toks[p + 3].kind) is Some,
        infix_of(toks[p + 5].kind) is None,
    ensures
        parse_expr(toks, p) == (
            p + 5,
            grouped(
                parse_prefix(toks, p).1,
                toks[p + 1],
                parse_prefix(toks, p + 2).1,
                toks[p + 3],
                parse_prefix(toks, p + 4).1,
            ),
            Seq::<DiagView>::empty(),
        ),
{
    let a = parse_prefix(toks, p).1;
    let b = parse_prefix(toks, p + 2).1;
    let c = parse_prefix(toks, p + 4).1;
    let (l1, r1, o1) = infix_of(toks[p + 1].kind).unwrap();
    let (l2, r2, o2) = infix_of(toks[p + 3].kind).unwrap();
    assert(parse_prefix(toks, p).0 == p + 1);
    assert(parse_prefix(toks, p + 2).0 == p + 3);
    assert(parse_prefix(toks, p + 4).0 == p + 5);
    assert(parse_prefix(toks, p).2 =~= Seq::<DiagView>::empty());
    assert(parse_prefix(toks, p + 2).2 =~= Seq::<DiagView>::empty());
    assert(parse_prefix(toks, p + 4).2 =~= Seq::<DiagView>::empty());
    // `c` ends every parse that reaches it.
    assert(infix_loop(toks, p + 5, c, r2) == (p + 5, c, Seq::<DiagView>::empty()));
    assert(parse_expr_bp(toks, p + 4, r2) == (p + 5, c, Seq::<DiagView>::empty() + Seq::<DiagView>::empty()));
    assert(Seq::<DiagView>::empty() + Seq::<DiagView>::empty() =~= Seq::<DiagView>::empty());
    if l2 > l1 {
        let bc = binary(b, o2, c);
        assert(infix_loop(toks, p + 5, bc, r1) == (p + 5, bc, Seq::<DiagView>::empty()));
        assert(infix_loop(toks, p + 3, b, r1) == (p + 5, bc, Seq::<DiagView>::empty()));
        assert(parse_expr_bp(toks, p + 2, r1) == (p + 5, bc, Seq::<DiagView>::empty()));
        let e = binary(a, o1, bc);
        assert(infix_loop(toks, p + 5, e, 0) == (p + 5, e, Seq::<DiagView>::empty()));
        assert(infix_loop(toks, p + 1, a, 0) == (p + 5, e, Seq::<DiagView>::empty()));
    } else {
        assert(infix_loop(toks, p + 3, b, r1) == (p + 3, b, Seq::<DiagView>::empty()));
        assert(parse_expr_bp(toks, p + 2, r1) == (p + 3, b, Seq::<DiagView>::empty()));
        let ab = binary(a, o1, b);
        let e = binary(ab, o2, c);
        assert(infix_loop(toks, p + 5, e, 0) == (p + 5, e, Seq::<DiagView>::empty()));
        assert(infix_loop(toks, p + 3, ab, 0) == (p + 5, e, Seq::<DiagView>::empty()));
        assert(infix_loop(toks, p + 1, a, 0) == (p + 5, e, Seq::<DiagView>::empty()));
    }
    assert(parse_expr_bp(toks, p, 0).0 == p + 5);
}

/// `+` or `-`: the additive operators.
pub open spec fn is_additive(k: TokenKind) -> bool {
    k == TokenKind::Symbol(Symbol::Plus) || k == TokenKind::Symbol(Symbol::Minus)
}

/// `*`, `/` or `%`: the multiplicative operators.
pub open spec fn is_multiplicative(k: TokenKind) -> bool {
    k == TokenKind::Symbol(Symbol::Star) || k == TokenKind::Symbol(Symbol::Slash) || k == TokenKind::Symbol(
        Symbol::Percent,
    )
}

/// The operation an arithmetic symbol stands for: `+` adds, `-` subtracts,
/// `*` multiplies, `/` divides and `%` takes the remainder.
pub open spec fn arithmetic_op(k: TokenKind) -> BinaryOp {
    if k == TokenKind::Symbol(Symbol::Plus) {
        BinaryOp::Add
    } else if k == TokenKind::Symbol(Symbol::Minus) {
        BinaryOp::Sub
    } else if k == TokenKind::Symbol(Symbol::Star) {
        BinaryOp::Mul
    } else if k == TokenKind::Symbol(Symbol::Slash) {
        BinaryOp::Div
    } else {
        BinaryOp::Rem
    }
}

/// The number expression of an integer token.
pub open spec fn integer_leaf(t: Token) -> ExprTree {
    ExprTree::Number { value: NumberView::Integer(t.kind->Integer_0@), span: t.span }
}

/// The precedence of arithmetic: in `a op1 b op2 c` over integer literals, a
/// multiplicative `op2` after an additive `op1` takes `b` (`1 + 6 / 2` is
/// `1 + (6 / 2)`); in every other pairing, operators of one level and a
/// multiplicative one before an additive one, `op1` takes `b` and the two
/// group from the left (`8 - 2 - 1` is `(8 - 2) - 1`, `6 / 2 + 1` is
/// `(6 / 2) + 1`). The whole spans from `a` to `c`; nothing is reported.
pub proof fn lemma_arithmetic_precedence(toks: Seq<Token>, p: int)
    requires
        0 <= p,
        p + 5 < toks.len(),
        toks[p].kind is Integer,
        toks[p + 2].kind is Integer,
        toks[p + 4].kind is Integer,
        is_additive(toks[p + 1].kind) || is_multiplicative(toks[p + 1].kind),
        is_additive(toks[p + 3].kind) || is_multiplicative(toks[p + 3].kind),
        !is_additive(toks[p + 5].kind) && !is_multiplicative(toks[p + 5].kind),
    ensures
        ({
            let a = integer_leaf(toks[p]);
            let b = integer_leaf(toks[p + 2]);
            let c = integer_leaf(toks[p + 4]);
            let op1 = arithmetic_op(toks[p + 1].kind);
            let op2 = arithmetic_op(toks[p + 3].kind);
            &&& is_additive(toks[p + 1].kind) && is_multiplicative(toks[p + 3].kind) ==> parse_expr(toks, p) == (
                p + 5,
                binary(a, op1, binary(b, op2, c)),
                Seq::<DiagView>::empty(),
            )
            &&& !(is_additive(toks[p + 1].kind) && is_multiplicative(toks[p + 3].kind)) ==> parse_expr(toks, p) == (
                p + 5,
                binary(binary(a, op1, b), op2, c),
                Seq::<DiagView>::empty(),
            )
            &&& parse_expr(toks, p).1.span() == (Span { start: toks[p].span.start, end: toks[p + 4].span.end })
        }),
{
    let k5 = toks[p + 5].kind;
    assert(infix_of(k5) is None) by {
        if let TokenKind::Symbol(sym) = k5 {
            assert(sym != Symbol::Plus && sym != Symbol::Minus && sym != Symbol::Star && sym != Symbol::Slash
                && sym != Symbol::Percent);
        }
    }
    lemma_binary_precedence(toks, p);
    assert(parse_prefix(toks, p).1 == integer_leaf(toks[p]));
    assert(parse_prefix(toks, p + 2).1 == integer_leaf(toks[p + 2]));
    assert(parse_prefix(toks, p + 4).1 == integer_leaf(toks[p + 4]));
}

/// Negation binds more tightly than every binary operator: `-a op b` over
/// integer literals is `(-a) op b`, the negation spanning the minus and `a`,
/// the whole spanning the minus to `b`.
pub proof fn lemma_negation_precedence(toks: Seq<Token>, p: int)
    requires
        0 <= p,
        p + 4 < toks.len(),
        toks[p].kind == TokenKind::Symbol(Symbol::Minus),
        toks[p + 1].kind is Integer,
        is_additive(toks[p + 2].kind) || is_multiplicative(toks[p + 2].kind),
        toks[p + 3].kind is Integer,
        !is_additive(toks[p + 4].kind) && !is_multiplicative(toks[p + 4].kind),
    ensures
        ({
            let a = integer_leaf(toks[p + 1]);
            let neg = ExprTree::Unary { op: UnaryOp::Neg, operand: Box::new(a), span: merge(toks[p].span, a.span()) };
            &&& parse_expr(toks, p) == (
                p + 4,
                binary(neg, arithmetic_op(toks[p + 2].kind), integer_leaf(toks[p + 3])),
                Seq::<DiagView>::empty(),
            )
            &&& neg.span() == (Span { start: toks[p].span.start, end: toks[p + 1].span.end })
            &&& parse_expr(toks, p).1.span() == (Span { start: toks[p].span.start, end: toks[p + 3].span.end })
        }),
{
    let k4 = toks[p + 4].kind;
    assert(infix_of(k4) is None) by {
        if let TokenKind::Symbol(sym) = k4 {
            assert(sym != Symbol::Plus && sym != Symbol::Minus && sym != Symbol::Star && sym != Symbol::Slash
                && sym != Symbol::Percent);
        }
    }
    let a = integer_leaf(toks[p + 1]);
    let b = integer_leaf(toks[p + 3]);
    let (l, r, op) = infix_of(toks[p + 2].kind).unwrap();
    let empty = Seq::<DiagView>::empty();
    assert(empty + empty =~= empty);
    assert(parse_prefix(toks, p + 1) == (p + 2, a, empty));
    assert(infix_loop(toks, p + 2, a, 30) == (p + 2, a, empty));
    assert(parse_expr_bp(toks, p + 1, 30) == (p + 2, a, empty));
    let neg = ExprTree::Unary { op: UnaryOp::Neg, operand: Box::new(a), span: merge(toks[p].span, a.span()) };
    assert(parse_prefix(toks, p) == (p + 2, neg, empty));
    assert(parse_prefix(toks, p + 3) == (p + 4, b, empty));
    assert(infix_loop(toks, p + 4, b, r) == (p + 4, b, empty));
    assert(parse_expr_bp(toks, p + 3, r) == (p + 4, b, empty));
    let e = binary(neg, op, b);
    assert(infix_loop(toks, p + 4, e, 0) == (p + 4, e, empty));
    assert(infix_loop(toks, p + 2, neg, 0) == (p + 4, e, empty));
}

/// An arithmetic symbol is an infix operator of the parser.
proof fn lemma_arithmetic_infix(k: TokenKind)
    ensures
        is_additive(k) ==> infix_of(k) is Some && infix_of(k)->Some_0.0 == 10 && infix_of(k)->Some_0.1 == 11
            && infix_of(k)->Some_0.2 == arithmetic_op(k),
        is_multiplicative(k) ==> infix_of(k) is Some && infix_of(k)->Some_0.0 == 20 && infix_of(k)->Some_0.1 == 21
            && infix_of(k)->Some_0.2 == arithmetic_op(k),
        !is_additive(k) && !is_multiplicative(k) ==> infix_of(k) is None,
{
    if let TokenKind::Symbol(sym) = k {
        if !is_additive(k) && !is_multiplicative(k) {
            assert(sym != Symbol::Plus && sym != Symbol::Minus && sym != Symbol::Star && sym != Symbol::Slash
                && sym != Symbol::Percent);
        }
    }
}

/// `b op c` over integer literals, followed by a token that is no operator,
/// parses to one binary expression at any binding power up to `op`'s.
proof fn lemma_one_binary(toks: Seq<Token>, q: int, min_bp: u8)
    requires
        0 <= q,
        q + 3 < toks.len(),
        toks[q].kind is Integer,
        is_additive(toks[q + 1].kind) || is_multiplicative(toks[q + 1].kind),
        toks[q + 2].kind is Integer,
        !is_additive(toks[q + 3].kind) && !is_multiplicative(toks[q + 3].kind),
        min_bp <= infix_of(toks[q + 1].kind)->Some_0.0,
    ensures
        parse_expr_bp(toks, q, min_bp) == (
            q + 3,
            binary(integer_leaf(toks[q]), arithmetic_op(toks[q + 1].kind), integer_leaf(toks[q + 2])),
            Seq::<DiagView>::empty(),
        ),
{
    lemma_arithmetic_infix(toks[q + 1].kind);
    lemma_arithmetic_infix(toks[q + 3].kind);
    let b = integer_leaf(toks[q]);
    let c = integer_leaf(toks[q + 2]);
    let (l, r, op) = infix_of(toks[q + 1].kind).unwrap();
    let empty = Seq::<DiagView>::empty();
    assert(empty + empty =~= empty);
    assert(parse_prefix(toks, q) == (q + 1, b, empty));
    assert(parse_prefix(toks, q + 2) == (q + 3, c, empty));
    assert(infix_loop(toks, q + 3, c, r) == (q + 3, c, empty));
    assert(parse_expr_bp(toks, q + 2, r) == (q + 3, c, empty));
    let e = binary(b, op, c);
    assert(infix_loop(toks, q + 3, e, min_bp) == (q + 3, e, empty));
    assert(infix_loop(toks, q + 1, b, min_bp) == (q + 3, e, empty));
}

/// Parentheses group first, whatever the operators: `a op1 (b op2 c)` over
/// integer literals is `a op1 (b op2 c)` even where `op1` binds more tightly
/// (`2 * (3 + 4)`). The parenthesized expression keeps the span of what is
/// inside the parentheses, so the whole spans from `a` to `c`.
pub proof fn lemma_parentheses_group(toks: Seq<Token>, p: int)
    requires
        0 <= p,
        p + 7 < toks.len(),
        toks[p].kind is Integer,
        is_additive(toks[p + 1].kind) || is_multiplicative(toks[p + 1].kind),
        toks[p + 2].kind == TokenKind::Symbol(Symbol::LParen),
        toks[p + 3].kind is Integer,
        is_additive(toks[p + 4].kind) || is_multiplicative(toks[p + 4].kind),
        toks[p + 5].kind is Integer,
        toks[p + 6].kind == TokenKind::Symbol(Symbol::RParen),
        !is_additive(toks[p + 7].kind) && !is_multiplicative(toks[p + 7].kind),
    ensures
        parse_expr(toks, p) == (
            p + 7,
            binary(
                integer_leaf(toks[p]),
                arithmetic_op(toks[p + 1].kind),
                binary(integer_leaf(toks[p + 3]), arithmetic_op(toks[p + 4].kind), integer_leaf(toks[p + 5])),
            ),
            Seq::<DiagView>::empty(),
        ),
        parse_expr(toks, p).1.span() == (Span { start: toks[p].span.start, end: toks[p + 5].span.end }),
{
    lemma_arithmetic_infix(toks[p + 1].kind);
    lemma_arithmetic_infix(toks[p + 4].kind);
    lemma_arithmetic_infix(toks[p + 6].kind);
    lemma_arithmetic_infix(toks[p + 7].kind);
    let a = integer_leaf(toks[p]);
    let bc = binary(integer_leaf(toks[p + 3]), arithmetic_op(toks[p + 4].kind), integer_leaf(toks[p + 5]));
    let (l1, r1, op1) = infix_of(toks[p + 1].kind).unwrap();
    let empty = Seq::<DiagView>::empty();
    assert(empty + empty =~= empty);
    lemma_one_binary(toks, p + 3, 0);
    assert(parse_expr(toks, p + 3) == (p + 6, bc, empty));
    assert(expect_symbol(toks, p + 6, Symbol::RParen, "expected `)` after expression"@) == (p + 7, empty));
    assert(parse_prefix(toks, p + 2) == (p + 7, bc, empty));
    assert(infix_loop(toks, p + 7, bc, r1) == (p + 7, bc, empty));
    assert(parse_expr_bp(toks, p + 2, r1) == (p + 7, bc, empty));
    let e = binary(a, op1, bc);
    assert(parse_prefix(toks, p) == (p + 1, a, empty));
    assert(infix_loop(toks, p + 7, e, 0) == (p + 7, e, empty));
    assert(infix_loop(toks, p + 1, a, 0) == (p + 7, e, empty));
}

/// A lone operand is an expression of its own: an integer literal parses to
/// an integer number with its digits, a float literal to a float number with
/// its text, and an identifier to a name with its text, each with its
/// token's span and nothing reported, when no operator follows.
pub proof fn lemma_operand_parses(toks: Seq<Token>, p: int)
    requires
        0 <= p,
        p + 1 < toks.len(),
        !is_additive(toks[p + 1].kind) && !is_multiplicative(toks[p + 1].kind),
    ensures
        toks[p].kind matches TokenKind::Integer(v) ==> parse_expr(toks, p) == (
            p + 1,
            ExprTree::Number { value: NumberView::Integer(v@), span: toks[p].span },
            Seq::<DiagView>::empty(),
        ),
        toks[p].kind matches TokenKind::Float(v) ==> parse_expr(toks, p) == (
            p + 1,
            ExprTree::Number { value: NumberView::Float(v@), span: toks[p].span },
            Seq::<DiagView>::empty(),
        ),
        toks[p].kind matches TokenKind::Identifier(x) ==> parse_expr(toks, p) == (
            p + 1,
            ExprTree::Ident { text: x@, name_span: toks[p].span, span: toks[p].span },
            Seq::<DiagView>::empty(),
        ),
{
    lemma_arithmetic_infix(toks[p + 1].kind);
    let empty = Seq::<DiagView>::empty();
    assert(empty + empty =~= empty);
}

/// The three kinds of statement on one line: `let x = 1` binds `x` with
/// `let`, `var x = 1` binds it with `var`, both with no type and spanning the
/// keyword to the initializer; `print 1` prints, spanning `print` to its
/// operand; and `1` alone is an expression statement. The newline ends each,
/// and nothing is reported.
pub proof fn lemma_statement_forms(toks: Seq<Token>, p: int)
    requires
        0 <= p,
        p + 4 < toks.len(),
    ensures
        toks[p].kind == TokenKind::Keyword(Keyword::Let) && toks[p + 1].kind is Identifier && toks[p + 2].kind
            == TokenKind::Symbol(Symbol::Equal) && toks[p + 3].kind is Integer && toks[p + 4].kind is Newline
            ==> parse_stmt(toks, p) == (
            p + 5,
            StmtTree::Local {
                kind: BindingKind::Let,
                name: toks[p + 1].kind->Identifier_0@,
                name_span: toks[p + 1].span,
                ty: None,
                initializer: integer_leaf(toks[p + 3]),
                span: Span { start: toks[p].span.start, end: toks[p + 3].span.end },
            },
            Seq::<DiagView>::empty(),
        ),
        toks[p].kind == TokenKind::Keyword(Keyword::Var) && toks[p + 1].kind is Identifier && toks[p + 2].kind
            == TokenKind::Symbol(Symbol::Equal) && toks[p + 3].kind is Integer && toks[p + 4].kind is Newline
            ==> parse_stmt(toks, p) == (
            p + 5,
            StmtTree::Local {
                kind: BindingKind::Var,
                name: toks[p + 1].kind->Identifier_0@,
                name_span: toks[p + 1].span,
                ty: None,
                initializer: integer_leaf(toks[p + 3]),
                span: Span { start: toks[p].span.start, end: toks[p + 3].span.end },
            },
            Seq::<DiagView>::empty(),
        ),
        toks[p].kind matches TokenKind::Identifier(x) && x@ == "print"@ && toks[p + 1].kind is Integer && toks[p
            + 2].kind is Newline ==> parse_stmt(toks, p) == (
            p + 3,
            StmtTree::Print {
                expr: integer_leaf(toks[p + 1]),
                span: Span { start: toks[p].span.start, end: toks[p + 1].span.end },
            },
            Seq::<DiagView>::empty(),
        ),
        toks[p].kind is Integer && toks[p + 1].kind is Newline ==> parse_stmt(toks, p) == (
            p + 2,
            StmtTree::Expr { expr: integer_leaf(toks[p]), span: toks[p].span },
            Seq::<DiagView>::empty(),
        ),
{
    let empty = Seq::<DiagView>::empty();
    assert(empty + empty =~= empty);
    assert(empty + empty + empty =~= empty);
    if toks[p + 4].kind is Newline {
        lemma_operand_parses(toks, p + 3);
    }
    if toks[p + 2].kind is Newline {
        lemma_operand_parses(toks, p + 1);
    }
    if toks[p + 1].kind is Newline {
        lemma_operand_parses(toks, p);
    }
}

// ---------------------------------------------------------------------------
// The parser
// ---------------------------------------------------------------------------

/// Tokens and diagnostics after parsing, with the syntax tree.
#[derive(Debug, Clone, PartialEq, Eq)]
pub struct ParseOutput {
    pub ast: Ast,
    pub diagnostics: Vec<Diagnostic>,
}

struct Parser {
    tokens: Vec<Token>,
    position: usize,
    ast: Ast,
    diagnostics: Vec<Diagnostic>,
}

/// `new` is `old` with the layout of expression tree `t` added.
spec fn expr_grown(new: AstView, old: AstView, t: ExprTree) -> bool {
    &&& new.modules == old.modules
    &&& new.items == old.items
    &&& new.stmts == old.stmts
    &&& new.root == old.root
    &&& new.nodes().exprs == old.nodes().exprs + expr_layout(t, old.exprs.len() as int)
}

/// `new` is `old` with the layout of statement tree `t` added: its
/// expression's nodes, then its statement node.
spec fn stmt_grown(new: AstView, old: AstView, t: StmtTree) -> bool {
    &&& new.modules == old.modules
    &&& new.items == old.items
    &&& new.root == old.root
    &&& new.nodes().exprs == old.nodes().exprs + stmt_exprs_layout(t, old.exprs.len() as int)
    &&& new.nodes().stmts == old.nodes().stmts.push(stmt_layout(t, old.exprs.len() as int))
}

/// `new` is `old` with the layout of the statements `ts` added.
spec fn body_grown(new: AstView, old: AstView, ts: Seq<StmtTree>) -> bool {
    &&& new.modules == old.modules
    &&& new.items == old.items
    &&& new.root == old.root
    &&& new.nodes().exprs == old.nodes().exprs + body_exprs_layout(ts, old.exprs.len() as int)
    &&& new.nodes().stmts == old.nodes().stmts + body_stmts_layout(ts, old.exprs.len() as int)
}

/// `new` is `old` with the layout of item tree `t` added: the nodes of its
/// statements, then its item node.
spec fn item_grown(new: AstView, old: AstView, t: ItemTree) -> bool {
    &&& new.modules == old.modules
    &&& new.root == old.root
    &&& new.nodes().exprs == old.nodes().exprs + body_exprs_layout(item_body(t), old.exprs.len() as int)
    &&& new.nodes().stmts == old.nodes().stmts + body_stmts_layout(item_body(t), old.exprs.len() as int)
    &&& new.nodes().items == old.nodes().items.push(item_layout(t, old.stmts.len() as int))
}

/// `new` is `old` with the layout of the item trees `ts` added.
spec fn items_grown(new: AstView, old: AstView, ts: Seq<ItemTree>) -> bool {
    &&& new.modules == old.modules
    &&& new.root == old.root
    &&& new.nodes().exprs == old.nodes().exprs + items_exprs_layout(ts, old.exprs.len() as int)
    &&& new.nodes().stmts == old.nodes().stmts + items_stmts_layout(ts, old.exprs.len() as int)
    &&& new.nodes().items == old.nodes().items + items_layout(ts, old.stmts.len() as int)
}

/// The next position ends a statement, a block or the input.
spec fn stops_expr(toks: Seq<Token>, pos: int) -> bool {
    at_newline(toks, pos) || at_dedent(toks, pos) || at_eof(toks, pos)
}

impl Parser {
    spec fn inv(&self) -> bool {
        &&& parse_ready(self.tokens@)
        &&& self.position < self.tokens@.len()
        &&& self.ast@.refs_ok()
    }

    /// `self` came from `old` by parsing on.
    spec fn follows(&self, old: &Self) -> bool {
        &&& self.inv()
        &&& self.tokens@ == old.tokens@
        &&& self.ast@.extends(old.ast@)
        &&& self.position >= old.position
    }

    /// The position and diagnostics moved as `r` says.
    spec fn stepped(&self, old: &Self, r: (int, Seq<DiagView>)) -> bool {
        &&& self.follows(old)
        &&& self.position == r.0
        &&& diag_views(self.diagnostics@) == diag_views(old.diagnostics@) + r.1
    }

    /// The parse of an expression as `r` says, now at `id`, the last node of
    /// the expression's layout added to the arena.
    spec fn parsed_expr(&self, old: &Self, id: ExprId, r: (int, ExprTree, Seq<DiagView>)) -> bool {
        &&& self.stepped(old, (r.0, r.2))
        &&& id.0 < self.ast@.exprs.len()
        &&& self.ast@.expr_tree(id) == r.1
        &&& id.0 + 1 == self.ast@.exprs.len()
        &&& expr_grown(self.ast@, old.ast@, r.1)
    }

    fn current(&self) -> (t: &Token)
        requires
            self.inv(),
        ensures
            *t == cur(self.tokens@, self.position as int),
    {
        &self.tokens[self.position]
    }

    fn at_eof(&self) -> (r: bool)
        requires
            self.inv(),
        ensures
            r == at_eof(self.tokens@, self.position as int),
    {
        match self.current().kind {
            TokenKind::Eof => true,
            _ => false,
        }
    }

    fn at_newline(&self) -> (r: bool)
        requires
            self.inv(),
        ensures
            r == at_newline(self.tokens@, self.position as int),
    {
        match self.current().kind {
            TokenKind::Newline => true,
            _ => false,
        }
    }

    fn at_dedent(&self) -> (r: bool)
        requires
            self.inv(),
        ensures
            r == at_dedent(self.tokens@, self.position as int),
    {
        match self.current().kind {
            TokenKind::Dedent => true,
            _ => false,
        }
    }

    fn at_indent(&self) -> (r: bool)
        requires
            self.inv(),
        ensures
            r == (kind_at(self.tokens@, self.position as int) is Indent),
    {
        match self.current().kind {
            TokenKind::Indent => true,
            _ => false,
        }
    }

    fn at_symbol(&self, symbol: Symbol) -> (r: bool)
        requires
            self.inv(),
        ensures
            r == at_symbol(self.tokens@, self.position as int, symbol),
    {
        match self.current().kind {
            TokenKind::Symbol(current) => current == symbol,
            _ => false,
        }
    }

    fn at_keyword(&self, keyword: Keyword) -> (r: bool)
        requires
            self.inv(),
        ensures
            r == at_keyword(self.tokens@, self.position as int, keyword),
    {
        match self.current().kind {
            TokenKind::Keyword(current) => current == keyword,
            _ => false,
        }
    }

    /// Whether the current token is the identifier `print`.
    fn at_print(&self) -> (r: bool)
        requires
            self.inv(),
        ensures
            r == at_print(self.tokens@, self.position as int),
    {
        match &self.current().kind {
            TokenKind::Identifier(current) => string_is(current, "print"),
            _ => false,
        }
    }

    /// Moves past the current token unless it is `Eof`.
    fn advance(&mut self)
        requires
            old(self).inv(),
        ensures
            final(self).stepped(old(self), (adv(old(self).tokens@, old(self).position as int), seq![])),
            final(self).ast@ == old(self).ast@,
            final(self).diagnostics@ == old(self).diagnostics@,
    {
        let n = self.tokens.len();
        if !self.at_eof() {
            assert(self.position + 1 < self.tokens@.len());
            self.position = self.position + 1;
        }
        assert(diag_views(self.diagnostics@) =~= diag_views(old(self).diagnostics@) + seq![]);
    }

    /// Reports an error.
    fn error(&mut self, code: &'static str, message: String, span: Span)
        ensures
            final(self).tokens@ == old(self).tokens@,
            final(self).position == old(self).position,
            final(self).ast@ == old(self).ast@,
            diag_views(final(self).diagnostics@) == diag_views(old(self).diagnostics@).push(
                error_view(code@, message@, span),
            ),
    {
        let d = Diagnostic::error(code, message, span);
        self.diagnostics.push(d);
        assert(d@.notes =~= seq![]);
        assert(diag_views(self.diagnostics@) =~= diag_views(old(self).diagnostics@).push(
            error_view(code@, message@, span),
        ));
    }

    fn push_expr(&mut self, expr: Expr) -> (id: ExprId)
        requires
            old(self).inv(),
            crate::ast::expr_refs_below(expr, old(self).ast@.exprs.len() as int),
        ensures
            final(self).stepped(old(self), (old(self).position as int, seq![])),
            id.0 == old(self).ast@.exprs.len(),
            final(self).ast@.exprs == old(self).ast@.exprs.push(expr),
            final(self).ast@ == (AstView { exprs: old(self).ast@.exprs.push(expr), ..old(self).ast@ }),
            final(self).ast@.nodes().exprs == old(self).ast@.nodes().exprs.push(expr_node(expr)),
            forall|k: ExprId|
                k.0 < old(self).ast@.exprs.len() ==> #[trigger] final(self).ast@.expr_tree(k)
                    == old(self).ast@.expr_tree(k),
    {
        let id = self.ast.push_expr(expr);
        proof {
            assert(self.ast@.nodes().exprs =~= old(self).ast@.nodes().exprs.push(expr_node(expr)));
            assert(diag_views(self.diagnostics@) =~= diag_views(old(self).diagnostics@) + seq![]);
            assert forall|k: ExprId|
                k.0 < old(self).ast@.exprs.len() implies #[trigger] self.ast@.expr_tree(k)
                    == old(self).ast@.expr_tree(k) by {
                crate::ast::lemma_expr_tree_extends(self.ast@, old(self).ast@, k);
            }
        }
        id
    }

    /// `parse_expr` on the current position.
    fn parse_expr(&mut self) -> (id: ExprId)
        requires
            old(self).inv(),
        ensures
            final(self).parsed_expr(old(self), id, parse_expr(old(self).tokens@, old(self).position as int)),
            !stops_expr(old(self).tokens@, old(self).position as int) ==> final(self).position > old(self).position,
        decreases old(self).tokens@.len() - old(self).position, 2int,
    {
        self.parse_expr_bp(0)
    }

    fn parse_expr_bp(&mut self, min_bp: u8) -> (id: ExprId)
        requires
            old(self).inv(),
        ensures
            final(self).parsed_expr(
                old(self),
                id,
                parse_expr_bp(old(self).tokens@, old(self).position as int, min_bp),
            ),
            !stops_expr(old(self).tokens@, old(self).position as int) ==> final(self).position > old(self).position,
        decreases old(self).tokens@.len() - old(self).position, 1int,
    {
        let ghost toks = self.tokens@;
        let ghost p0 = self.position as int;
        let mut lhs = self.parse_prefix();
        let ghost prefix = parse_prefix(toks, p0);
        let ghost mid = *self;
        loop
            invariant_except_break
                self.follows(old(self)),
                self.tokens@ == toks,
                self.position >= mid.position,
                lhs.0 < self.ast@.exprs.len(),
                lhs.0 + 1 == self.ast@.exprs.len(),
                expr_grown(self.ast@, old(self).ast@, self.ast@.expr_tree(lhs)),
                ({
                    let (pf, tf, df) = infix_loop(toks, self.position as int, self.ast@.expr_tree(lhs), min_bp);
                    let (qf, uf, ef) = infix_loop(toks, mid.position as int, prefix.1, min_bp);
                    &&& pf == qf
                    &&& tf == uf
                    &&& diag_views(self.diagnostics@) + df == diag_views(mid.diagnostics@) + ef
                }),
            ensures
                self.follows(old(self)),
                self.position >= mid.position,
                lhs.0 < self.ast@.exprs.len(),
                lhs.0 + 1 == self.ast@.exprs.len(),
                expr_grown(self.ast@, old(self).ast@, self.ast@.expr_tree(lhs)),
                ({
                    let (qf, uf, ef) = infix_loop(toks, mid.position as int, prefix.1, min_bp);
                    &&& self.position == qf
                    &&& self.ast@.expr_tree(lhs) == uf
                    &&& diag_views(self.diagnostics@) == diag_views(mid.diagnostics@) + ef
                }),
            decreases self.tokens@.len() - self.position,
        {
            let ghost before = *self;
            let (left_bp, right_bp, op) = match self.current_infix() {
                Some(info) => info,
                None => {
                    assert(diag_views(self.diagnostics@) + seq![] =~= diag_views(self.diagnostics@));
                    break;
                },
            };
            if left_bp < min_bp {
                assert(diag_views(self.diagnostics@) + seq![] =~= diag_views(self.diagnostics@));
                break;
            }
            self.advance();
            let rhs = self.parse_expr_bp(right_bp);
            let ghost lhs_tree = before.ast@.expr_tree(lhs);
            let ghost rhs_tree = self.ast@.expr_tree(rhs);
            let span = merge_spans(self.ast.expr(lhs).span, self.ast.expr(rhs).span);
            proof {
                crate::ast::lemma_expr_tree_extends(self.ast@, before.ast@, lhs);
                lemma_expr_tree_span(self.ast@, lhs);
                lemma_expr_tree_span(self.ast@, rhs);
            }
            let new_lhs = self.push_expr(Expr::new(ExprKind::Binary { lhs, op, rhs }, span));
            proof {
                let r = parse_expr_bp(toks, before.position + 1, right_bp);
                assert(self.ast@.expr_tree(lhs) == lhs_tree);
                assert(self.ast@.expr_tree(rhs) == rhs_tree);
                assert(self.ast@.exprs[new_lhs.0 as int].span == merge(lhs_tree.span(), rhs_tree.span()));
                assert(self.ast@.expr_tree(new_lhs) == ExprTree::Binary {
                    lhs: Box::new(lhs_tree),
                    op,
                    rhs: Box::new(rhs_tree),
                    span: merge(lhs_tree.span(), rhs_tree.span()),
                });
                let b0 = old(self).ast@.exprs.len() as int;
                lemma_expr_layout_len(lhs_tree, b0);
                lemma_expr_layout_len(rhs_tree, b0 + expr_size(lhs_tree));
                assert(self.ast@.nodes().exprs =~= old(self).ast@.nodes().exprs + expr_layout(
                    self.ast@.expr_tree(new_lhs),
                    b0,
                ));
                let (pa, ta, da) = infix_loop(toks, before.position as int, lhs_tree, min_bp);
                let (pb, tb, db) = infix_loop(toks, self.position as int, self.ast@.expr_tree(new_lhs), min_bp);
                assert(da == r.2 + db);
                assert(diag_views(self.diagnostics@) == diag_views(before.diagnostics@) + r.2);
                assert(diag_views(self.diagnostics@) + db =~= diag_views(before.diagnostics@) + da);
            }
            lhs = new_lhs;
        }
        proof {
            let (p1, t1, d1) = prefix;
            assert(diag_views(self.diagnostics@) =~= diag_views(old(self).diagnostics@) + parse_expr_bp(toks, p0, min_bp).2);
        }
        lhs
    }

    fn current_infix(&self) -> (r: Option<(u8, u8, BinaryOp)>)
        requires
            self.inv(),
        ensures
            r == infix_of(kind_at(self.tokens@, self.position as int)),
    {
        match self.current().kind {
            TokenKind::Symbol(Symbol::Plus) => Some((10, 11, BinaryOp::Add)),
            TokenKind::Symbol(Symbol::Minus) => Some((10, 11, BinaryOp::Sub)),
            TokenKind::Symbol(Symbol::Star) => Some((20, 21, BinaryOp::Mul)),
            TokenKind::Symbol(Symbol::Slash) => Some((20, 21, BinaryOp::Div)),
            TokenKind::Symbol(Symbol::Percent) => Some((20, 21, BinaryOp::Rem)),
            _ => None,
        }
    }

    fn parse_prefix(&mut self) -> (id: ExprId)
        requires
            old(self).inv(),
        ensures
            final(self).parsed_expr(old(self), id, parse_prefix(old(self).tokens@, old(self).position as int)),
            !stops_expr(old(self).tokens@, old(self).position as int) ==> final(self).position > old(self).position,
        decreases old(self).tokens@.len() - old(self).position, 0int,
    {
        let ghost toks = self.tokens@;
        let ghost p0 = self.position as int;
        let span = self.current().span;
        match &self.current().kind {
            TokenKind::Integer(value) => {
                let value = value.clone();
                self.advance();
                let id = self.push_expr(Expr::new(ExprKind::Number(NumberLiteral::Integer(value)), span));
                assert(self.ast@.expr_tree(id) == parse_prefix(toks, p0).1);
                assert(self.ast@.nodes().exprs =~= old(self).ast@.nodes().exprs + expr_layout(parse_prefix(toks, p0).1, old(self).ast@.exprs.len() as int));
                assert(self.position == parse_prefix(toks, p0).0);
                assert(diag_views(self.diagnostics@) =~= diag_views(old(self).diagnostics@) + seq![]);
                id
            },
            TokenKind::Float(value) => {
                let value = value.clone();
                self.advance();
                let id = self.push_expr(Expr::new(ExprKind::Number(NumberLiteral::Float(value)), span));
                assert(self.ast@.nodes().exprs =~= old(self).ast@.nodes().exprs + expr_layout(parse_prefix(toks, p0).1, old(self).ast@.exprs.len() as int));
                assert(diag_views(self.diagnostics@) =~= diag_views(old(self).diagnostics@) + seq![]);
                id
            },
            TokenKind::Identifier(text) => {
                let text = text.clone();
                self.advance();
                let id = self.push_expr(Expr::new(ExprKind::Ident(Ident { text, span }), span));
                assert(self.ast@.expr_tree(id) == parse_prefix(toks, p0).1);
                assert(self.ast@.nodes().exprs =~= old(self).ast@.nodes().exprs + expr_layout(parse_prefix(toks, p0).1, old(self).ast@.exprs.len() as int));
                assert(self.position == parse_prefix(toks, p0).0);
                assert(diag_views(self.diagnostics@) =~= diag_views(old(self).diagnostics@) + seq![]);
                id
            },
            TokenKind::Symbol(Symbol::Minus) => {
                self.advance();
                let expr = self.parse_expr_bp(30);
                let ghost inner = *self;
                proof {
                    lemma_expr_tree_span(self.ast@, expr);
                }
                let span = merge_spans(span, self.ast.expr(expr).span);
                let id = self.push_expr(Expr::new(ExprKind::Unary { op: UnaryOp::Neg, expr }, span));
                proof {
                    let r = parse_expr_bp(toks, p0 + 1, 30);
                    assert(inner.ast@.expr_tree(expr) == r.1);
                    assert(self.ast@.expr_tree(expr) == r.1);
                    assert(self.ast@.expr_tree(id) == ExprTree::Unary { op: UnaryOp::Neg, operand: Box::new(r.1), span: merge(cur(toks, p0).span, r.1.span()) });
                    lemma_expr_layout_len(r.1, old(self).ast@.exprs.len() as int);
                    assert(self.ast@.nodes().exprs =~= old(self).ast@.nodes().exprs + expr_layout(parse_prefix(toks, p0).1, old(self).ast@.exprs.len() as int));
                }
                assert(self.ast@.expr_tree(id) == parse_prefix(toks, p0).1);
                assert(self.position == parse_prefix(toks, p0).0);
                assert(diag_views(self.diagnostics@) =~= diag_views(inner.diagnostics@) + seq![]);
                id
            },
            TokenKind::Symbol(Symbol::LParen) => {
                self.advance();
                let expr = self.parse_expr();
                self.expect_symbol(Symbol::RParen, "expected `)` after expression");
                proof {
                    assert(self.ast@.expr_tree(expr) == parse_prefix(toks, p0).1);
                    assert(self.position == parse_prefix(toks, p0).0);
                    assert(diag_views(self.diagnostics@) =~= diag_views(old(self).diagnostics@) + parse_prefix(toks, p0).2);
                }
                expr
            },
            _ => {
                let stops = self.at_newline() || self.at_dedent() || self.at_eof();
                self.error("parse.expected_expr", String::from_str("expected expression"), span);
                if !stops {
                    self.advance();
                }
                let id = self.push_expr(Expr::new(ExprKind::Error(Error::new()), span));
                assert(self.ast@.expr_tree(id) == parse_prefix(toks, p0).1);
                assert(self.ast@.nodes().exprs =~= old(self).ast@.nodes().exprs + expr_layout(parse_prefix(toks, p0).1, old(self).ast@.exprs.len() as int));
                assert(self.position == parse_prefix(toks, p0).0);
                assert(diag_views(self.diagnostics@) =~= diag_views(old(self).diagnostics@) + parse_prefix(toks, p0).2);
                id
            },
        }
    }

    /// `parse_type_ref` on the current position.
    fn parse_type_ref(&mut self) -> (ty: TypeRef)
        requires
            old(self).inv(),
        ensures
            ({
                let r = parse_type_ref(old(self).tokens@, old(self).position as int);
                &&& final(self).stepped(old(self), (r.0, r.2))
                &&& ty@ == r.1
            }),
            final(self).ast@ == old(self).ast@,
            !stops_expr(old(self).tokens@, old(self).position as int) ==> final(self).position > old(self).position,
        decreases old(self).tokens@.len() - old(self).position, 2int,
    {
        let ghost toks = self.tokens@;
        let ghost p0 = self.position as int;
        let span = self.current().span;
        let stops = self.at_newline() || self.at_dedent() || self.at_eof();
        let mut ty = match &self.current().kind {
            TokenKind::Identifier(text) => {
                let text = text.clone();
                self.advance();
                TypeRef::named_ident(Ident { text, span })
            },
            TokenKind::Keyword(Keyword::SelfType) => {
                self.advance();
                TypeRef::named_ident(Ident::new("Self", span))
            },
            _ => {
                self.error("parse.expected_type", String::from_str("expected type"), span);
                if !stops {
                    self.advance();
                }
                TypeRef::named("<error>", span)
            },
        };
        let ghost first = parse_type_ref(toks, p0);
        let ghost mid = *self;
        proof {
            assert(diag_views(self.diagnostics@) =~= diag_views(old(self).diagnostics@) + (match cur(toks, p0).kind {
                TokenKind::Identifier(_) => Seq::<DiagView>::empty(),
                TokenKind::Keyword(Keyword::SelfType) => Seq::<DiagView>::empty(),
                _ => seq![error_view("parse.expected_type"@, "expected type"@, span)],
            }));
        }
        loop
            invariant_except_break
                self.follows(old(self)),
                self.tokens@ == toks,
                self.ast@ == old(self).ast@,
                self.position >= mid.position,
                mid.position > old(self).position || stops_expr(toks, p0),
                ({
                    let (pf, tf, df) = generic_loop(toks, self.position as int, ty@);
                    &&& pf == first.0
                    &&& tf == first.1
                    &&& diag_views(self.diagnostics@) + df == diag_views(old(self).diagnostics@) + first.2
                }),
            ensures
                self.follows(old(self)),
                self.ast@ == old(self).ast@,
                self.position >= mid.position,
                mid.position > old(self).position || stops_expr(toks, p0),
                self.position == first.0,
                ty@ == first.1,
                diag_views(self.diagnostics@) == diag_views(old(self).diagnostics@) + first.2,
            decreases self.tokens@.len() - self.position,
        {
            let ghost before = *self;
            if !self.at_symbol(Symbol::LBracket) {
                assert(diag_views(self.diagnostics@) + seq![] =~= diag_views(self.diagnostics@));
                break;
            }
            self.advance();
            let ghost list_start = *self;
            let mut args: Vec<TypeRef> = Vec::new();
            let ghost whole = type_args(toks, list_start.position as int);
            loop
                invariant_except_break
                    self.follows(old(self)),
                    self.tokens@ == toks,
                    self.ast@ == old(self).ast@,
                    self.position >= list_start.position,
                    list_start.position > old(self).position,
                    ({
                        let (pf, tf, df) = type_args(toks, self.position as int);
                        &&& pf == whole.0
                        &&& crate::ast::type_refs_view(args@) + tf == whole.1
                        &&& diag_views(self.diagnostics@) + df == diag_views(list_start.diagnostics@) + whole.2
                    }),
                ensures
                    self.follows(old(self)),
                    self.ast@ == old(self).ast@,
                    self.position >= list_start.position,
                    self.position == whole.0,
                    crate::ast::type_refs_view(args@) == whole.1,
                    diag_views(self.diagnostics@) == diag_views(list_start.diagnostics@) + whole.2,
                decreases self.tokens@.len() - self.position,
            {
                let ghost inner = *self;
                let end_of_list = self.at_eof() || self.at_symbol(Symbol::RBracket) || self.at_newline();
                if end_of_list {
                    assert(diag_views(self.diagnostics@) + seq![] =~= diag_views(self.diagnostics@));
                    assert(crate::ast::type_refs_view(args@) + seq![] =~= crate::ast::type_refs_view(args@));
                    break;
                }
                let arg = self.parse_type_ref();
                let ghost r = parse_type_ref(toks, inner.position as int);
                let ghost args_before = args@;
                args.push(arg);
                proof {
                    assert(crate::ast::type_refs_view(args@) =~= crate::ast::type_refs_view(args_before).push(r.1));
                }
                if !self.at_symbol(Symbol::Comma) {
                    proof {
                        assert(diag_views(self.diagnostics@) =~= diag_views(inner.diagnostics@) + r.2);
                        assert(diag_views(self.diagnostics@) + seq![] =~= diag_views(self.diagnostics@));
                        assert(crate::ast::type_refs_view(args_before) + seq![r.1] =~= crate::ast::type_refs_view(args@));
                    }
                    break;
                }
                self.advance();
                proof {
                    let (p2, ts, d2) = type_args(toks, self.position as int);
                    assert(type_args(toks, inner.position as int) == (p2, seq![r.1] + ts, r.2 + d2));
                    assert(crate::ast::type_refs_view(args_before) + (seq![r.1] + ts) =~= crate::ast::type_refs_view(args@) + ts);
                    assert(diag_views(self.diagnostics@) + d2 =~= diag_views(inner.diagnostics@) + (r.2 + d2));
                }
            }
            let ghost after_args = *self;
            let ghost args_views = crate::ast::type_refs_view(args@);
            let closing = self.expect_symbol(Symbol::RBracket, "expected `]` after type arguments");
            let end = match closing {
                Some(close) => close.end,
                None => {
                    if args.len() > 0 {
                        proof {
                            lemma_type_span(args@[args@.len() - 1]);
                            assert(args_views.last() == args@[args@.len() - 1]@);
                        }
                        args[args.len() - 1].span.end
                    } else {
                        proof {
                            lemma_type_span(ty);
                        }
                        ty.span.end
                    }
                },
            };
            proof {
                lemma_type_span(ty);
            }
            let span = Span::new(ty.span.start, end);
            let ghost old_ty = ty@;
            ty = TypeRef::new(TypeRefKind::Generic { base: Box::new(ty), args }, span);
            proof {
                let (p1, a1, d1) = type_args(toks, before.position + 1);
                let (p2, d2) = expect_symbol(toks, p1, Symbol::RBracket, "expected `]` after type arguments"@);
                let (p3, t3, d3) = generic_loop(toks, self.position as int, ty@);
                assert(ty@ == TypeRefView::Generic { base: Box::new(old_ty), args: a1, span });
                assert(generic_loop(toks, before.position as int, old_ty) == (p3, t3, d1 + d2 + d3));
                assert(diag_views(self.diagnostics@) + d3 =~= diag_views(before.diagnostics@) + (d1 + d2 + d3));
            }
        }
        ty
    }

    fn skip_newlines(&mut self)
        requires
            old(self).inv(),
        ensures
            final(self).stepped(old(self), (skip_newlines(old(self).tokens@, old(self).position as int), seq![])),
            final(self).ast@ == old(self).ast@,
    {
        while self.at_newline()
            invariant
                self.follows(old(self)),
                self.ast@ == old(self).ast@,
                self.diagnostics@ == old(self).diagnostics@,
                skip_newlines(self.tokens@, self.position as int) == skip_newlines(old(self).tokens@, old(self).position as int),
            decreases self.tokens@.len() - self.position,
        {
            self.advance();
            assert(self.diagnostics@ =~= old(self).diagnostics@);
        }
        assert(diag_views(self.diagnostics@) =~= diag_views(old(self).diagnostics@) + seq![]);
    }

    fn synchronize_to_stmt_boundary(&mut self)
        requires
            old(self).inv(),
        ensures
            final(self).stepped(old(self), (sync_stmt(old(self).tokens@, old(self).position as int), seq![])),
            final(self).ast@ == old(self).ast@,
    {
        while !self.at_eof() && !self.at_newline() && !self.at_dedent()
            invariant
                self.follows(old(self)),
                self.ast@ == old(self).ast@,
                self.diagnostics@ == old(self).diagnostics@,
                sync_stmt(self.tokens@, self.position as int) == sync_stmt(old(self).tokens@, old(self).position as int),
            decreases self.tokens@.len() - self.position,
        {
            self.advance();
            assert(self.diagnostics@ =~= old(self).diagnostics@);
        }
        assert(diag_views(self.diagnostics@) =~= diag_views(old(self).diagnostics@) + seq![]);
    }

    fn synchronize_to_item_boundary(&mut self)
        requires
            old(self).inv(),
        ensures
            final(self).stepped(old(self), (sync_item(old(self).tokens@, old(self).position as int), seq![])),
            final(self).ast@ == old(self).ast@,
            !at_eof(old(self).tokens@, old(self).position as int) && !at_newline(old(self).tokens@, old(self).position as int)
                ==> final(self).position > old(self).position,
    {
        proof {
            lemma_sync_stmt_ge(self.tokens@, self.position as int);
        }
        self.synchronize_to_stmt_boundary();
        proof {
            lemma_skip_newlines_ge(self.tokens@, self.position as int);
        }
        self.skip_newlines();
        if self.at_dedent() {
            self.advance();
        }
        assert(diag_views(self.diagnostics@) =~= diag_views(old(self).diagnostics@) + seq![]);
    }

    fn expect_keyword(&mut self, keyword: Keyword) -> (span: Span)
        requires
            old(self).inv(),
        ensures
            final(self).stepped(old(self), expect_keyword(old(self).tokens@, old(self).position as int, keyword)),
            final(self).ast@ == old(self).ast@,
            span == cur(old(self).tokens@, old(self).position as int).span,
    {
        let span = self.current().span;
        if self.at_keyword(keyword) {
            self.advance();
            return span;
        }
        let mut message = String::from_str("expected `");
        message.append(keyword.as_str());
        message.append("`");
        self.error("parse.expected_keyword", message, span);
        assert(diag_views(self.diagnostics@) =~= diag_views(old(self).diagnostics@) + expect_keyword(old(self).tokens@, old(self).position as int, keyword).1);
        span
    }

    fn expect_identifier(&mut self, message: &str) -> (name: Ident)
        requires
            old(self).inv(),
        ensures
            ({
                let r = expect_identifier(old(self).tokens@, old(self).position as int, message@);
                &&& final(self).stepped(old(self), (r.0, r.2))
                &&& name.text@ == r.1.0
                &&& name.span == r.1.1
            }),
            final(self).ast@ == old(self).ast@,
    {
        let span = self.current().span;
        if let TokenKind::Identifier(text) = &self.current().kind {
            let text = text.clone();
            self.advance();
            return Ident { text, span };
        }
        self.error("parse.expected_identifier", String::from_str(message), span);
        assert(diag_views(self.diagnostics@) =~= diag_views(old(self).diagnostics@) + expect_identifier(old(self).tokens@, old(self).position as int, message@).2);
        Ident::new("<error>", span)
    }

    fn expect_newline(&mut self, message: &str)
        requires
            old(self).inv(),
        ensures
            final(self).stepped(old(self), expect_newline(old(self).tokens@, old(self).position as int, message@)),
            final(self).ast@ == old(self).ast@,
    {
        if self.at_newline() {
            self.advance();
            return;
        }
        let span = self.current().span;
        self.error("parse.expected_newline", String::from_str(message), span);
        assert(diag_views(self.diagnostics@) =~= diag_views(old(self).diagnostics@) + expect_newline(old(self).tokens@, old(self).position as int, message@).1);
    }

    fn expect_dedent(&mut self, message: &str)
        requires
            old(self).inv(),
        ensures
            final(self).stepped(old(self), expect_dedent(old(self).tokens@, old(self).position as int, message@)),
            final(self).ast@ == old(self).ast@,
    {
        if self.at_dedent() {
            self.advance();
            return;
        }
        let span = self.current().span;
        self.error("parse.expected_dedent", String::from_str(message), span);
        assert(diag_views(self.diagnostics@) =~= diag_views(old(self).diagnostics@) + expect_dedent(old(self).tokens@, old(self).position as int, message@).1);
    }

    fn push_stmt(&mut self, stmt: Stmt) -> (id: StmtId)
        requires
            old(self).inv(),
            crate::ast::stmt_refs_below(stmt, old(self).ast@.exprs.len() as int),
        ensures
            final(self).stepped(old(self), (old(self).position as int, seq![])),
            id.0 == old(self).ast@.stmts.len(),
            id.0 < final(self).ast@.stmts.len(),
            final(self).ast@.exprs == old(self).ast@.exprs,
            final(self).ast@.stmt_tree(id) == old(self).ast@.stmt_view(stmt),
            final(self).ast@ == (AstView { stmts: old(self).ast@.stmts.push(stmt), ..old(self).ast@ }),
            final(self).ast@.nodes().stmts == old(self).ast@.nodes().stmts.push(stmt_node(stmt)),
            final(self).ast@.nodes().exprs == old(self).ast@.nodes().exprs,
    {
        let id = self.ast.push_stmt(stmt);
        proof {
            assert(self.ast@.nodes().stmts =~= old(self).ast@.nodes().stmts.push(stmt_node(stmt)));
            assert(diag_views(self.diagnostics@) =~= diag_views(old(self).diagnostics@) + seq![]);
            crate::ast::lemma_trees_extend(self.ast@, old(self).ast@);
        }
        id
    }

    fn push_item(&mut self, item: Item) -> (id: ItemId)
        requires
            old(self).inv(),
            crate::ast::item_refs_below(item, old(self).ast@.stmts.len() as int),
        ensures
            final(self).stepped(old(self), (old(self).position as int, seq![])),
            id.0 == old(self).ast@.items.len(),
            id.0 < final(self).ast@.items.len(),
            final(self).ast@.exprs == old(self).ast@.exprs,
            final(self).ast@.stmts == old(self).ast@.stmts,
            final(self).ast@.item_tree(id) == old(self).ast@.item_view(item),
            final(self).ast@ == (AstView { items: old(self).ast@.items.push(item), ..old(self).ast@ }),
            final(self).ast@.nodes().items == old(self).ast@.nodes().items.push(item_node(item)),
    {
        let ghost it = item;
        let id = self.ast.push_item(item);
        proof {
            assert(self.ast@.nodes().items =~= old(self).ast@.nodes().items.push(item_node(it)));
            assert(diag_views(self.diagnostics@) =~= diag_views(old(self).diagnostics@) + seq![]);
            crate::ast::lemma_trees_extend(self.ast@, old(self).ast@);
            match it.kind {
                ItemKind::Function(f) => {
                    assert(f.body@.map_values(|b: StmtId| self.ast@.stmt_tree(b)) =~= f.body@.map_values(
                        |b: StmtId| old(self).ast@.stmt_tree(b),
                    ));
                },
                ItemKind::Error(_) => {},
            }
        }
        id
    }

    /// Parameters up to `)`, a newline or the end of input.
    fn parse_param_list(&mut self) -> (params: Vec<Param>)
        requires
            old(self).inv(),
        ensures
            ({
                let r = param_list(old(self).tokens@, old(self).position as int);
                &&& final(self).stepped(old(self), (r.0, r.2))
                &&& params@.map_values(|p: Param| crate::ast::param_view(p)) == r.1
            }),
            final(self).ast@ == old(self).ast@,
    {
        let ghost toks = self.tokens@;
        let ghost whole = param_list(toks, self.position as int);
        let mut params: Vec<Param> = Vec::new();
        loop
            invariant_except_break
                self.follows(old(self)),
                self.tokens@ == toks,
                self.ast@ == old(self).ast@,
                ({
                    let (pf, tf, df) = param_list(toks, self.position as int);
                    &&& pf == whole.0
                    &&& params@.map_values(|p: Param| crate::ast::param_view(p)) + tf == whole.1
                    &&& diag_views(self.diagnostics@) + df == diag_views(old(self).diagnostics@) + whole.2
                }),
            ensures
                self.follows(old(self)),
                self.ast@ == old(self).ast@,
                self.position == whole.0,
                params@.map_values(|p: Param| crate::ast::param_view(p)) == whole.1,
                diag_views(self.diagnostics@) == diag_views(old(self).diagnostics@) + whole.2,
            decreases self.tokens@.len() - self.position,
        {
            let ghost before = *self;
            let ghost views_before = params@.map_values(|p: Param| crate::ast::param_view(p));
            if self.at_eof() || self.at_symbol(Symbol::RParen) || self.at_newline() {
                assert(diag_views(self.diagnostics@) + seq![] =~= diag_views(self.diagnostics@));
                assert(views_before + seq![] =~= views_before);
                break;
            }
            let name = self.expect_identifier("expected parameter name");
            let ty = if self.at_symbol(Symbol::Colon) {
                self.advance();
                Some(self.parse_type_ref())
            } else {
                let span = self.current().span;
                self.error(
                    "parse.expected_param_type",
                    String::from_str("expected `:` and parameter type after parameter name"),
                    span,
                );
                None
            };
            let ghost param_diags = diag_views(self.diagnostics@);
            params.push(Param::new(name, ty));
            proof {
                let (p1, nm, d1) = expect_identifier(toks, before.position as int, "expected parameter name"@);
                assert(params@.map_values(|p: Param| crate::ast::param_view(p)) =~= views_before.push(
                    crate::ast::param_view(params@.last()),
                ));
            }
            if !self.at_symbol(Symbol::Comma) {
                proof {
                    let (pf, tf, df) = param_list(toks, before.position as int);
                    assert(diag_views(self.diagnostics@) =~= diag_views(before.diagnostics@) + df);
                    assert(diag_views(self.diagnostics@) + seq![] =~= diag_views(self.diagnostics@));
                    assert(views_before + tf =~= params@.map_values(|p: Param| crate::ast::param_view(p)) + seq![]);
                }
                break;
            }
            self.advance();
            proof {
                let (pf, tf, df) = param_list(toks, before.position as int);
                let (p3, ps, d3) = param_list(toks, self.position as int);
                assert(views_before + tf =~= params@.map_values(|p: Param| crate::ast::param_view(p)) + ps);
                assert(diag_views(self.diagnostics@) + d3 =~= diag_views(before.diagnostics@) + df);
            }
        }
        params
    }

    /// A `let` or `var` binding; the current token is its keyword.
    fn parse_local_stmt(&mut self) -> (stmt: Stmt)
        requires
            old(self).inv(),
            at_keyword(old(self).tokens@, old(self).position as int, Keyword::Let) || at_keyword(
                old(self).tokens@,
                old(self).position as int,
                Keyword::Var,
            ),
        ensures
            ({
                let r = parse_local(old(self).tokens@, old(self).position as int);
                &&& final(self).stepped(old(self), (r.0, r.2))
                &&& crate::ast::stmt_refs_below(stmt, final(self).ast@.exprs.len() as int)
                &&& final(self).ast@.stmt_view(stmt) == r.1
                &&& final(self).ast@.modules == old(self).ast@.modules
                &&& final(self).ast@.items == old(self).ast@.items
                &&& final(self).ast@.stmts == old(self).ast@.stmts
                &&& final(self).ast@.root == old(self).ast@.root
                &&& final(self).ast@.nodes().exprs == old(self).ast@.nodes().exprs + stmt_exprs_layout(
                    r.1,
                    old(self).ast@.exprs.len() as int,
                )
                &&& stmt_node(stmt) == stmt_layout(r.1, old(self).ast@.exprs.len() as int)
            }),
            final(self).position > old(self).position,
        decreases old(self).tokens@.len() - old(self).position, 3int,
    {
        let ghost toks = self.tokens@;
        let ghost p0 = self.position as int;
        let start = self.current().span;
        let kind = if self.at_keyword(Keyword::Let) {
            BindingKind::Let
        } else {
            BindingKind::Var
        };
        self.advance();
        let ghost s1 = *self;
        let name = self.expect_identifier("expected variable name");
        let ghost s2 = *self;
        let ty = if self.at_symbol(Symbol::Colon) {
            self.advance();
            Some(self.parse_type_ref())
        } else {
            None
        };
        let ghost s3 = *self;
        self.expect_symbol(Symbol::Equal, "expected `=` after variable name");
        let ghost s4 = *self;
        let initializer = self.parse_expr();
        proof {
            lemma_expr_tree_span(self.ast@, initializer);
        }
        let span = Span::new(start.start, self.ast.expr(initializer).span.end);
        let stmt = Stmt::new(StmtKind::Local(Local::new(kind, name, ty, initializer)), span);
        proof {
            let r = parse_local(toks, p0);
            assert(diag_views(self.diagnostics@) =~= diag_views(old(self).diagnostics@) + r.2);
            lemma_expr_layout_len(self.ast@.expr_tree(initializer), s4.ast@.exprs.len() as int);
            assert(self.ast@.nodes().exprs.len() == self.ast@.exprs.len());
            assert(old(self).ast@.nodes().exprs.len() == old(self).ast@.exprs.len());
            assert(self.ast@.exprs.len() == old(self).ast@.exprs.len() + expr_size(self.ast@.expr_tree(initializer)));
        }
        stmt
    }

    /// After a statement: expects a newline, or the end of a block or input.
    fn finish_stmt(&mut self)
        requires
            old(self).inv(),
        ensures
            final(self).stepped(old(self), finish_stmt(old(self).tokens@, old(self).position as int)),
            final(self).ast@ == old(self).ast@,
    {
        if self.at_newline() {
            self.advance();
            return;
        }
        if self.at_eof() || self.at_dedent() {
            assert(diag_views(self.diagnostics@) =~= diag_views(old(self).diagnostics@) + seq![]);
            return;
        }
        let span = self.current().span;
        self.error("parse.expected_newline", String::from_str("expected newline after statement"), span);
        self.synchronize_to_stmt_boundary();
        if self.at_newline() {
            self.advance();
        }
        assert(diag_views(self.diagnostics@) =~= diag_views(old(self).diagnostics@) + finish_stmt(old(self).tokens@, old(self).position as int).1);
    }

    /// A statement and the end of its line.
    fn parse_stmt(&mut self) -> (id: StmtId)
        requires
            old(self).inv(),
        ensures
            ({
                let r = parse_stmt(old(self).tokens@, old(self).position as int);
                &&& final(self).stepped(old(self), (r.0, r.2))
                &&& id.0 < final(self).ast@.stmts.len()
                &&& final(self).ast@.stmt_tree(id) == r.1
                &&& id.0 + 1 == final(self).ast@.stmts.len()
                &&& stmt_grown(final(self).ast@, old(self).ast@, r.1)
            }),
            ({
                let p0 = skip_newlines(old(self).tokens@, old(self).position as int);
                !at_eof(old(self).tokens@, p0) && !at_dedent(old(self).tokens@, p0) ==> final(self).position > p0
            }),
            final(self).position >= skip_newlines(old(self).tokens@, old(self).position as int),
    {
        let ghost toks = self.tokens@;
        self.skip_newlines();
        let ghost s0 = *self;
        let stmt = if self.at_keyword(Keyword::Let) || self.at_keyword(Keyword::Var) {
            self.parse_local_stmt()
        } else if self.at_print() {
            let start = self.current().span.start;
            self.advance();
            let expr = self.parse_expr();
            proof {
                lemma_expr_tree_span(self.ast@, expr);
            }
            let span = Span::new(start, self.ast.expr(expr).span.end);
            Stmt::new(StmtKind::Print(expr), span)
        } else {
            let expr = self.parse_expr();
            proof {
                lemma_expr_tree_span(self.ast@, expr);
            }
            let span = self.ast.expr(expr).span;
            Stmt::new(StmtKind::Expr(expr), span)
        };
        let ghost s1 = *self;
        let id = self.push_stmt(stmt);
        self.finish_stmt();
        proof {
            let r = parse_stmt(toks, old(self).position as int);
            let p0 = s0.position as int;
            let (p1, st, d1) = if at_keyword(toks, p0, Keyword::Let) || at_keyword(toks, p0, Keyword::Var) {
                parse_local(toks, p0)
            } else if at_print(toks, p0) {
                let (q, e, d) = parse_expr(toks, adv(toks, p0));
                (q, StmtTree::Print { expr: e, span: Span { start: cur(toks, p0).span.start, end: e.span().end } }, d)
            } else {
                let (q, e, d) = parse_expr(toks, p0);
                (q, StmtTree::Expr { expr: e, span: e.span() }, d)
            };
            assert(s1.position == p1);
            assert(s1.ast@.stmt_view(stmt) == st);
            crate::ast::lemma_trees_extend(self.ast@, s1.ast@);
            assert(diag_views(self.diagnostics@) =~= diag_views(old(self).diagnostics@) + r.2);
            assert(self.position == r.0);
            assert(self.ast@.stmt_tree(id) == r.1);
            assert(self.follows(old(self)));
            if !(at_keyword(toks, p0, Keyword::Let) || at_keyword(toks, p0, Keyword::Var)) {
                let e = stmt_expr(st).unwrap();
                lemma_expr_layout_len(e, s0.ast@.exprs.len() as int);
                assert(s1.ast@.nodes().exprs.len() == s1.ast@.exprs.len());
                assert(old(self).ast@.nodes().exprs.len() == old(self).ast@.exprs.len());
                assert(s1.ast@.exprs.len() == old(self).ast@.exprs.len() + expr_size(e));
            }
            assert(stmt_node(stmt) == stmt_layout(r.1, old(self).ast@.exprs.len() as int));
        }
        id
    }

    /// The statements of a function body, up to its dedent.
    fn parse_body(&mut self) -> (body: Vec<StmtId>)
        requires
            old(self).inv(),
        ensures
            ({
                let r = body_loop(old(self).tokens@, old(self).position as int);
                &&& final(self).stepped(old(self), (r.0, r.2))
                &&& forall|k: int| 0 <= k < body@.len() ==> (#[trigger] body@[k]).0 < final(self).ast@.stmts.len()
                &&& body@.map_values(|b: StmtId| final(self).ast@.stmt_tree(b)) == r.1
                &&& body_grown(final(self).ast@, old(self).ast@, r.1)
                &&& body@ == stmt_ids(old(self).ast@.stmts.len() as int, r.1.len())
            }),
    {
        let ghost toks = self.tokens@;
        let ghost whole = body_loop(toks, self.position as int);
        let mut body: Vec<StmtId> = Vec::new();
        loop
            invariant_except_break
                self.follows(old(self)),
                self.tokens@ == toks,
                forall|k: int| 0 <= k < body@.len() ==> (#[trigger] body@[k]).0 < self.ast@.stmts.len(),
                body_grown(self.ast@, old(self).ast@, body@.map_values(|b: StmtId| self.ast@.stmt_tree(b))),
                body@ == stmt_ids(old(self).ast@.stmts.len() as int, body@.len()),
                ({
                    let (pf, tf, df) = body_loop(toks, self.position as int);
                    &&& pf == whole.0
                    &&& body@.map_values(|b: StmtId| self.ast@.stmt_tree(b)) + tf == whole.1
                    &&& diag_views(self.diagnostics@) + df == diag_views(old(self).diagnostics@) + whole.2
                }),
            ensures
                self.follows(old(self)),
                forall|k: int| 0 <= k < body@.len() ==> (#[trigger] body@[k]).0 < self.ast@.stmts.len(),
                body_grown(self.ast@, old(self).ast@, body@.map_values(|b: StmtId| self.ast@.stmt_tree(b))),
                body@ == stmt_ids(old(self).ast@.stmts.len() as int, body@.len()),
                self.position == whole.0,
                body@.map_values(|b: StmtId| self.ast@.stmt_tree(b)) == whole.1,
                diag_views(self.diagnostics@) == diag_views(old(self).diagnostics@) + whole.2,
            decreases self.tokens@.len() - self.position,
        {
            let ghost before = *self;
            let ghost trees_before = body@.map_values(|b: StmtId| self.ast@.stmt_tree(b));
            if self.at_eof() || self.at_dedent() {
                assert(diag_views(self.diagnostics@) + seq![] =~= diag_views(self.diagnostics@));
                assert(trees_before + seq![] =~= trees_before);
                break;
            }
            self.skip_newlines();
            if self.at_eof() || self.at_dedent() {
                assert(diag_views(self.diagnostics@) + seq![] =~= diag_views(self.diagnostics@));
                assert(trees_before + seq![] =~= trees_before);
                assert(diag_views(self.diagnostics@) == diag_views(before.diagnostics@));
                break;
            }
            let ghost mid = *self;
            proof {
                lemma_skip_newlines_ge(toks, before.position as int);
            }
            let id = self.parse_stmt();
            proof {
                crate::ast::lemma_trees_extend(self.ast@, mid.ast@);
                assert forall|k: int| 0 <= k < body@.len() implies #[trigger] self.ast@.stmt_tree(body@[k])
                    == before.ast@.stmt_tree(body@[k]) by {
                    assert(body@[k].0 < mid.ast@.stmts.len());
                }
            }
            let ghost body_before = body@;
            body.push(id);
            proof {
                let (p2, st, d) = parse_stmt(toks, mid.position as int);
                let (p3, sts, d2) = body_loop(toks, self.position as int);
                assert(body@.map_values(|b: StmtId| self.ast@.stmt_tree(b)) =~= trees_before.push(st));
                assert(trees_before + (seq![st] + sts) =~= body@.map_values(|b: StmtId| self.ast@.stmt_tree(b)) + sts);
                let b0 = old(self).ast@.exprs.len() as int;
                lemma_body_layout_len(trees_before, b0);
                assert(mid.ast@.nodes().exprs.len() == mid.ast@.exprs.len());
                assert(mid.ast@.nodes().stmts.len() == mid.ast@.stmts.len());
                assert(old(self).ast@.nodes().exprs.len() == old(self).ast@.exprs.len());
                assert(old(self).ast@.nodes().stmts.len() == old(self).ast@.stmts.len());
                assert(trees_before.push(st).drop_last() =~= trees_before);
                assert(self.ast@.nodes().exprs =~= old(self).ast@.nodes().exprs + body_exprs_layout(trees_before.push(st), b0));
                assert(self.ast@.nodes().stmts =~= old(self).ast@.nodes().stmts + body_stmts_layout(trees_before.push(st), b0));
                assert(body@ =~= stmt_ids(old(self).ast@.stmts.len() as int, body@.len()));
                assert(diag_views(self.diagnostics@) + d2 =~= diag_views(before.diagnostics@) + (d + d2));
            }
        }
        body
    }

    /// A function signature; the current token is `fn`.
    #[verifier::spinoff_prover]
    fn parse_signature(&mut self) -> (sig: (Ident, Vec<Param>, Option<TypeRef>))
        requires
            old(self).inv(),
            at_keyword(old(self).tokens@, old(self).position as int, Keyword::Fn),
        ensures
            ({
                let r = parse_signature(old(self).tokens@, old(self).position as int);
                &&& final(self).stepped(old(self), (r.0, r.2))
                &&& final(self).ast@ == old(self).ast@
                &&& sig.0.text@ == r.1.0.0
                &&& sig.0.span == r.1.0.1
                &&& sig.1@.map_values(|p: Param| crate::ast::param_view(p)) == r.1.1
                &&& crate::ast::opt_type_view(sig.2) == r.1.2
            }),
            final(self).position > old(self).position,
    {
        let ghost toks = self.tokens@;
        let ghost p0 = self.position as int;
        self.expect_keyword(Keyword::Fn);
        let ghost s0 = *self;
        let name = self.expect_identifier("expected function name");
        self.expect_symbol(Symbol::LParen, "expected `(` after function name");
        let params = self.parse_param_list();
        self.expect_symbol(Symbol::RParen, "expected `)` after function parameters");
        let ghost s4 = *self;
        let return_type = if self.at_symbol(Symbol::ThinArrow) {
            self.advance();
            Some(self.parse_type_ref())
        } else {
            None
        };
        let ghost s5 = *self;
        self.expect_symbol(Symbol::Colon, "expected `:` after function signature");
        self.expect_newline("expected newline after function signature");
        proof {
            let r = parse_signature(toks, p0);
            assert(s0.position > p0);
            assert(diag_views(s5.diagnostics@) =~= diag_views(s4.diagnostics@) + (if at_symbol(toks, s4.position as int, Symbol::ThinArrow) {
                parse_type_ref(toks, adv(toks, s4.position as int)).2
            } else {
                Seq::<DiagView>::empty()
            }));
            assert(diag_views(self.diagnostics@) =~= diag_views(old(self).diagnostics@) + r.2);
        }
        (name, params, return_type)
    }

    /// A function body: an indent, statements and a dedent.
    fn parse_fn_body(&mut self) -> (body: Vec<StmtId>)
        requires
            old(self).inv(),
        ensures
            ({
                let r = parse_fn_body(old(self).tokens@, old(self).position as int);
                &&& final(self).stepped(old(self), (r.0, r.2))
                &&& forall|k: int| 0 <= k < body@.len() ==> (#[trigger] body@[k]).0 < final(self).ast@.stmts.len()
                &&& body@.map_values(|b: StmtId| final(self).ast@.stmt_tree(b)) == r.1
                &&& body_grown(final(self).ast@, old(self).ast@, r.1)
                &&& body@ == stmt_ids(old(self).ast@.stmts.len() as int, r.1.len())
            }),
    {
        if self.at_indent() {
            self.advance();
            let ghost s1 = *self;
            let body = self.parse_body();
            let ghost s2 = *self;
            self.expect_dedent("expected dedent after function body");
            assert(body@.map_values(|b: StmtId| self.ast@.stmt_tree(b)) =~= body@.map_values(|b: StmtId| s2.ast@.stmt_tree(b)));
            assert(diag_views(self.diagnostics@) =~= diag_views(old(self).diagnostics@) + parse_fn_body(old(self).tokens@, old(self).position as int).2);
            body
        } else {
            let span = self.current().span;
            self.error("parse.expected_indent", String::from_str("expected indented function body"), span);
            let body: Vec<StmtId> = Vec::new();
            assert(body@.map_values(|b: StmtId| self.ast@.stmt_tree(b)) =~= Seq::<StmtTree>::empty());
            assert(self.ast@.nodes().exprs =~= old(self).ast@.nodes().exprs + body_exprs_layout(Seq::<StmtTree>::empty(), old(self).ast@.exprs.len() as int));
            assert(self.ast@.nodes().stmts =~= old(self).ast@.nodes().stmts + body_stmts_layout(Seq::<StmtTree>::empty(), old(self).ast@.exprs.len() as int));
            assert(body@ =~= stmt_ids(old(self).ast@.stmts.len() as int, 0));
            assert(diag_views(self.diagnostics@) =~= diag_views(old(self).diagnostics@) + parse_fn_body(old(self).tokens@, old(self).position as int).2);
            body
        }
    }

    /// A function item; the current token is `fn`.
    fn parse_function_item(&mut self) -> (id: ItemId)
        requires
            old(self).inv(),
            at_keyword(old(self).tokens@, old(self).position as int, Keyword::Fn),
        ensures
            ({
                let r = parse_function(old(self).tokens@, old(self).position as int);
                &&& final(self).stepped(old(self), (r.0, r.2))
                &&& id.0 < final(self).ast@.items.len()
                &&& final(self).ast@.item_tree(id) == r.1
                &&& id.0 + 1 == final(self).ast@.items.len()
                &&& item_grown(final(self).ast@, old(self).ast@, r.1)
            }),
            final(self).position > old(self).position,
    {
        let ghost toks = self.tokens@;
        let ghost p0 = self.position as int;
        let start = self.current().span.start;
        let (name, params, return_type) = self.parse_signature();
        let ghost s1 = *self;
        let body = self.parse_fn_body();
        let end = if body.len() > 0 {
            self.ast.stmt(body[body.len() - 1]).span.end
        } else {
            name.span.end
        };
        let ghost body_trees = body@.map_values(|b: StmtId| self.ast@.stmt_tree(b));
        proof {
            if body@.len() > 0 {
                assert(body_trees.last() == self.ast@.stmt_tree(body@[body@.len() - 1]));
            }
        }
        let item = Item::new(ItemKind::Function(Function::new(name, params, return_type, body)), Span::new(start, end));
        let ghost pre = *self;
        let id = self.push_item(item);
        proof {
            let r = parse_function(toks, p0);
            assert(diag_views(self.diagnostics@) =~= diag_views(old(self).diagnostics@) + r.2);
            assert(self.ast@.item_tree(id) == r.1);
            assert(item_body(r.1) == body_trees);
            assert(pre.ast@.nodes().items =~= old(self).ast@.nodes().items);
            assert(item_node(item) == item_layout(r.1, old(self).ast@.stmts.len() as int));
        }
        id
    }

    /// A top-level item; the current token is not a newline nor the end.
    fn parse_item(&mut self) -> (id: ItemId)
        requires
            old(self).inv(),
            !at_eof(old(self).tokens@, old(self).position as int),
            !at_newline(old(self).tokens@, old(self).position as int),
        ensures
            ({
                let r = parse_item(old(self).tokens@, old(self).position as int);
                &&& final(self).stepped(old(self), (r.0, r.2))
                &&& id.0 < final(self).ast@.items.len()
                &&& final(self).ast@.item_tree(id) == r.1
                &&& id.0 + 1 == final(self).ast@.items.len()
                &&& item_grown(final(self).ast@, old(self).ast@, r.1)
            }),
            final(self).position > old(self).position,
    {
        if self.at_keyword(Keyword::Fn) {
            return self.parse_function_item();
        }
        let span = self.current().span;
        self.error("parse.expected_item", String::from_str("expected top-level item"), span);
        self.synchronize_to_item_boundary();
        let id = self.push_item(Item::new(ItemKind::Error(Error::new()), span));
        assert(diag_views(self.diagnostics@) =~= diag_views(old(self).diagnostics@) + parse_item(old(self).tokens@, old(self).position as int).2);
        assert(self.ast@.nodes().exprs =~= old(self).ast@.nodes().exprs + body_exprs_layout(Seq::<StmtTree>::empty(), old(self).ast@.exprs.len() as int));
        assert(self.ast@.nodes().stmts =~= old(self).ast@.nodes().stmts + body_stmts_layout(Seq::<StmtTree>::empty(), old(self).ast@.exprs.len() as int));
        id
    }

    /// The items of the root module, up to the end of input.
    fn parse_module(&mut self) -> (id: ModuleId)
        requires
            old(self).inv(),
            old(self).position == 0,
        ensures
            final(self).follows(old(self)),
            id.0 < final(self).ast@.modules.len(),
            final(self).ast@.module_tree(id) == parse_module(old(self).tokens@).0,
            diag_views(final(self).diagnostics@) == diag_views(old(self).diagnostics@) + parse_module(old(self).tokens@).1,
            id.0 == old(self).ast@.modules.len(),
            final(self).ast@.root == old(self).ast@.root,
            ({
                let m = parse_module(old(self).tokens@).0;
                let a = old(self).ast@;
                &&& final(self).ast@.nodes().exprs == a.nodes().exprs + items_exprs_layout(m.items, a.exprs.len() as int)
                &&& final(self).ast@.nodes().stmts == a.nodes().stmts + items_stmts_layout(m.items, a.exprs.len() as int)
                &&& final(self).ast@.nodes().items == a.nodes().items + items_layout(m.items, a.stmts.len() as int)
                &&& final(self).ast@.nodes().modules == a.nodes().modules.push(
                    ModuleNodeView { items: item_ids(a.items.len() as int, m.items.len()), span: m.span },
                )
            }),
    {
        let ghost toks = self.tokens@;
        self.skip_newlines();
        let start = self.current().span.start;
        let ghost s0 = *self;
        let ghost whole = module_loop(toks, self.position as int);
        let mut items: Vec<ItemId> = Vec::new();
        loop
            invariant_except_break
                self.follows(old(self)),
                self.tokens@ == toks,
                s0.follows(old(self)),
                s0.ast@ == old(self).ast@,
                forall|k: int| 0 <= k < items@.len() ==> (#[trigger] items@[k]).0 < self.ast@.items.len(),
                items_grown(self.ast@, old(self).ast@, items@.map_values(|i: ItemId| self.ast@.item_tree(i))),
                items@ == item_ids(old(self).ast@.items.len() as int, items@.len()),
                ({
                    let (pf, tf, df) = module_loop(toks, self.position as int);
                    &&& pf == whole.0
                    &&& items@.map_values(|i: ItemId| self.ast@.item_tree(i)) + tf == whole.1
                    &&& diag_views(self.diagnostics@) + df == diag_views(s0.diagnostics@) + whole.2
                }),
            ensures
                self.follows(old(self)),
                forall|k: int| 0 <= k < items@.len() ==> (#[trigger] items@[k]).0 < self.ast@.items.len(),
                items_grown(self.ast@, old(self).ast@, items@.map_values(|i: ItemId| self.ast@.item_tree(i))),
                items@ == item_ids(old(self).ast@.items.len() as int, items@.len()),
                self.position == whole.0,
                items@.map_values(|i: ItemId| self.ast@.item_tree(i)) == whole.1,
                diag_views(self.diagnostics@) == diag_views(s0.diagnostics@) + whole.2,
            decreases self.tokens@.len() - self.position,
        {
            let ghost before = *self;
            let ghost trees_before = items@.map_values(|i: ItemId| self.ast@.item_tree(i));
            if self.at_eof() {
                assert(diag_views(self.diagnostics@) + seq![] =~= diag_views(self.diagnostics@));
                assert(trees_before + seq![] =~= trees_before);
                break;
            }
            self.skip_newlines();
            if self.at_eof() {
                assert(diag_views(self.diagnostics@) + seq![] =~= diag_views(self.diagnostics@));
                assert(trees_before + seq![] =~= trees_before);
                break;
            }
            let ghost mid = *self;
            proof {
                lemma_skip_newlines_ge(toks, before.position as int);
                lemma_skip_newlines_stops(toks, before.position as int);
            }
            let id = self.parse_item();
            proof {
                crate::ast::lemma_trees_extend(self.ast@, mid.ast@);
                assert forall|k: int| 0 <= k < items@.len() implies #[trigger] self.ast@.item_tree(items@[k])
                    == before.ast@.item_tree(items@[k]) by {
                    assert(items@[k].0 < mid.ast@.items.len());
                }
            }
            items.push(id);
            proof {
                let (p2, it, d) = parse_item(toks, mid.position as int);
                let (p3, its, d2) = module_loop(toks, self.position as int);
                assert(items@.map_values(|i: ItemId| self.ast@.item_tree(i)) =~= trees_before.push(it));
                assert(trees_before + (seq![it] + its) =~= items@.map_values(|i: ItemId| self.ast@.item_tree(i)) + its);
                let a = old(self).ast@;
                lemma_items_layout_len(trees_before, a.exprs.len() as int, a.stmts.len() as int);
                assert(mid.ast@.nodes().exprs.len() == mid.ast@.exprs.len());
                assert(mid.ast@.nodes().stmts.len() == mid.ast@.stmts.len());
                assert(mid.ast@.nodes().items.len() == mid.ast@.items.len());
                assert(a.nodes().exprs.len() == a.exprs.len());
                assert(a.nodes().stmts.len() == a.stmts.len());
                assert(a.nodes().items.len() == a.items.len());
                assert(trees_before.push(it).drop_last() =~= trees_before);
                assert(self.ast@.nodes().exprs =~= a.nodes().exprs + items_exprs_layout(trees_before.push(it), a.exprs.len() as int));
                assert(self.ast@.nodes().stmts =~= a.nodes().stmts + items_stmts_layout(trees_before.push(it), a.exprs.len() as int));
                assert(self.ast@.nodes().items =~= a.nodes().items + items_layout(trees_before.push(it), a.stmts.len() as int));
                assert(items@ =~= item_ids(a.items.len() as int, items@.len()));
                assert(diag_views(self.diagnostics@) + d2 =~= diag_views(before.diagnostics@) + (d + d2));
            }
        }
        let end = self.current().span.end;
        let ghost pre = *self;
        let module = Module::new(items, Span::new(start, end));
        let ghost m = module;
        let id = self.ast.push_module(module);
        proof {
            assert(self.ast@.nodes().modules =~= pre.ast@.nodes().modules.push(crate::ast::module_node(m)));
            assert(self.ast@.nodes().exprs =~= pre.ast@.nodes().exprs);
            assert(self.ast@.nodes().stmts =~= pre.ast@.nodes().stmts);
            assert(self.ast@.nodes().items =~= pre.ast@.nodes().items);
            crate::ast::lemma_trees_extend(self.ast@, pre.ast@);
            assert(m.items@.map_values(|i: ItemId| self.ast@.item_tree(i)) =~= m.items@.map_values(|i: ItemId| pre.ast@.item_tree(i)));
            assert(self.ast@.module_tree(id) == parse_module(toks).0);
        }
        id
    }

    /// Moves past `symbol`, or reports `message` and stays.
    fn expect_symbol(&mut self, symbol: Symbol, message: &str) -> (r: Option<Span>)
        requires
            old(self).inv(),
        ensures
            final(self).stepped(old(self), expect_symbol(old(self).tokens@, old(self).position as int, symbol, message@)),
            final(self).ast@ == old(self).ast@,
            r == (if at_symbol(old(self).tokens@, old(self).position as int, symbol) {
                Some(cur(old(self).tokens@, old(self).position as int).span)
            } else {
                None
            }),
    {
        if self.at_symbol(symbol) {
            let span = self.current().span;
            self.advance();
            return Some(span);
        }
        let span = self.current().span;
        self.error("parse.expected_symbol", String::from_str(message), span);
        assert(diag_views(self.diagnostics@) =~= diag_views(old(self).diagnostics@) + expect_symbol(old(self).tokens@, old(self).position as int, symbol, message@).1);
        None
    }
}

/// The span from the start of `lhs` to the end of `rhs`.
fn merge_spans(lhs: Span, rhs: Span) -> (r: Span)
    ensures
        r == merge(lhs, rhs),
{
    Span::new(lhs.start, rhs.end)
}

proof fn lemma_sync_stmt_ge(toks: Seq<Token>, pos: int)
    ensures
        sync_stmt(toks, pos) >= pos,
        0 <= pos < toks.len() && !at_eof(toks, pos) && !at_newline(toks, pos) && !at_dedent(toks, pos)
            ==> sync_stmt(toks, pos) > pos,
    decreases toks.len() - pos,
{
    if 0 <= pos < toks.len() && !at_eof(toks, pos) && !at_newline(toks, pos) && !at_dedent(toks, pos) {
        lemma_sync_stmt_ge(toks, pos + 1);
    }
}

proof fn lemma_skip_newlines_stops(toks: Seq<Token>, pos: int)
    requires
        parse_ready(toks),
        0 <= pos < toks.len(),
    ensures
        !at_newline(toks, skip_newlines(toks, pos)),
    decreases toks.len() - pos,
{
    if toks[pos].kind is Newline {
        lemma_skip_newlines_stops(toks, pos + 1);
    }
}

proof fn lemma_skip_newlines_ge(toks: Seq<Token>, pos: int)
    ensures
        skip_newlines(toks, pos) >= pos,
    decreases toks.len() - pos,
{
    if 0 <= pos < toks.len() && toks[pos].kind is Newline {
        lemma_skip_newlines_ge(toks, pos + 1);
    }
}

/// The span of a type's view is the span of the type.
proof fn lemma_type_span(t: TypeRef)
    ensures
        type_span(t@) == t.span,
{
}

/// The span of an expression's tree is the span of its node.
proof fn lemma_expr_tree_span(ast: AstView, id: ExprId)
    requires
        id.0 < ast.exprs.len(),
    ensures
        ast.expr_tree(id).span() == ast.exprs[id.0 as int].span,
{
}

/// Whether `s` is `lit`.
fn string_is(s: &String, lit: &str) -> (r: bool)
    ensures
        r == (s@ == lit@),
{
    str_equal(s.as_str(), lit)
}


/// Parses the tokens of `input` into a syntax tree rooted at one module.
/// The lexer's diagnostics come first, then those of parsing.
pub fn parse(input: LexOutput) -> (out: ParseOutput)
    requires
        parse_ready(input.tokens@),
    ensures
        out.ast@.refs_ok(),
        out.ast@.root_valid(),
        out.ast@.root matches Some(root) && out.ast@.module_tree(root) == parse_module(input.tokens@).0,
        out.ast@.nodes() == module_layout(parse_module(input.tokens@).0),
        diag_views(out.diagnostics@) == diag_views(input.diagnostics@) + parse_module(input.tokens@).1,
{
    let mut parser = Parser { tokens: input.tokens, position: 0, ast: Ast::new(), diagnostics: input.diagnostics };
    let ghost empty = parser.ast@;
    let root = parser.parse_module();
    let ghost before = parser.ast@;
    let ok = parser.ast.set_root(root);
    assert(ok);
    proof {
        crate::ast::lemma_trees_extend(parser.ast@, before);
        let m = before.modules[root.0 as int];
        assert(m.items@.map_values(|i: ItemId| parser.ast@.item_tree(i)) =~= m.items@.map_values(|i: ItemId| before.item_tree(i)));
        let t = parse_module(parser.tokens@).0;
        assert(empty.nodes().exprs =~= Seq::<ExprNodeView>::empty());
        assert(empty.nodes().stmts =~= Seq::<crate::ast::StmtNodeView>::empty());
        assert(empty.nodes().items =~= Seq::<crate::ast::ItemNodeView>::empty());
        assert(empty.nodes().modules =~= Seq::<ModuleNodeView>::empty());
        assert(parser.ast@.nodes() =~= module_layout(t));
    }
    ParseOutput { ast: parser.ast, diagnostics: parser.diagnostics }
}

} // verus!
