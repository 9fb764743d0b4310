use crate::ast::{
    lemma_ranked, item_refs_below, module_refs_below, number_view, stmt_refs_below, Ast, AstView, ExprId,
    ExprKind, ItemId, ItemKind, StmtId, StmtKind,
};
use crate::diagnostics::{Diagnostic, Span};
use crate::hir::{
    hir_block_refs_below, hir_stmt_refs_below, lemma_hir_expr_tree_extends, lemma_hir_function_tree_extends, lemma_hir_stmt_tree_extends,
    Hir, HirBlock, HirBlockId, HirBlockTree, HirBlockView, HirExpr, HirExprId, HirExprKind, HirExprKindView,
    HirExprTree, HirExprView, HirFunction, HirFunctionTree, HirStmt, HirStmtId, HirStmtKind, HirStmtTree, HirView,
};
use crate::name_resolver::{
    first_function_for_item, first_local_for_stmt, FunctionId, LocalId, ResolveOutput, ResolveState, ResolvedName,
};
use crate::name_resolver::{
    function_symbols_of, item_locals, items_locals, lemma_resolve_symbols, param_locals, resolve_spec, root_items,
    stmt_locals, stmts_locals, FunctionSymbolView, LocalSource, LocalSymbolView,
};
use vstd::prelude::*;

verus! {

/// The lowered program and the diagnostics lowering reported.
#[derive(Debug, Clone, PartialEq, Eq)]
pub struct LowerOutput {
    pub hir: Hir,
    pub diagnostics: Vec<Diagnostic>,
}

// ---------------------------------------------------------------------------
// What lowering builds
// ---------------------------------------------------------------------------

/// What the identifier expression `id` lowers to: the symbol it was resolved
/// to, or an error when it was not resolved.
pub open spec fn name_kind(res: ResolveState, id: ExprId) -> HirExprKindView {
    let r = if id.0 < res.names.len() {
        res.names[id.0 as int]
    } else {
        None
    };
    match r {
        Some(ResolvedName::Local(l)) => HirExprKindView::Local(l),
        Some(ResolvedName::Function(f)) => HirExprKindView::Function(f),
        None => HirExprKindView::Error,
    }
}

pub open spec fn push_expr_s(h: HirView, e: HirExprView) -> (HirView, HirExprId) {
    (HirView { exprs: h.exprs.push(e), ..h }, HirExprId(h.exprs.len() as usize))
}

pub open spec fn push_stmt_s(h: HirView, s: HirStmt) -> (HirView, HirStmtId) {
    (HirView { stmts: h.stmts.push(s), ..h }, HirStmtId(h.stmts.len() as usize))
}

pub open spec fn push_block_s(h: HirView, b: HirBlockView) -> (HirView, HirBlockId) {
    (HirView { blocks: h.blocks.push(b), ..h }, HirBlockId(h.blocks.len() as usize))
}

/// Lowers expression `id`: operands first, left before right, then the
/// expression itself.
pub open spec fn lower_expr_s(ast: AstView, res: ResolveState, id: ExprId, h: HirView) -> (HirView, HirExprId)
    decreases ast.expr_rank()[id.0 as int],
{
    if id.0 >= ast.exprs.len() {
        (h, HirExprId(0))
    } else {
        let e = ast.exprs[id.0 as int];
        match e.kind {
            ExprKind::Ident(_) => push_expr_s(h, HirExprView { kind: name_kind(res, id), span: e.span }),
            ExprKind::Number(n) => push_expr_s(
                h,
                HirExprView { kind: HirExprKindView::Number(number_view(n)), span: e.span },
            ),
            ExprKind::Unary { op, expr } => if ast.ranked_below(expr, id) {
                let (h1, x) = lower_expr_s(ast, res, expr, h);
                push_expr_s(h1, HirExprView { kind: HirExprKindView::Unary { op, expr: x }, span: e.span })
            } else {
                (h, HirExprId(0))
            },
            ExprKind::Binary { lhs, op, rhs } => if ast.ranked_below(lhs, id) && ast.ranked_below(rhs, id) {
                let (h1, l) = lower_expr_s(ast, res, lhs, h);
                let (h2, r) = lower_expr_s(ast, res, rhs, h1);
                push_expr_s(h2, HirExprView { kind: HirExprKindView::Binary { lhs: l, op, rhs: r }, span: e.span })
            } else {
                (h, HirExprId(0))
            },
            ExprKind::Error(_) => push_expr_s(h, HirExprView { kind: HirExprKindView::Error, span: e.span }),
        }
    }
}

/// Lowers statement `id`. A local statement without a local symbol lowers to
/// an error statement, after its initializer.
pub open spec fn lower_stmt_s(ast: AstView, res: ResolveState, id: StmtId, h: HirView) -> (HirView, HirStmtId) {
    let s = ast.stmts[id.0 as int];
    match s.kind {
        StmtKind::Expr(e) => {
            let (h1, x) = lower_expr_s(ast, res, e, h);
            push_stmt_s(h1, HirStmt { kind: HirStmtKind::Expr(x), span: s.span })
        },
        StmtKind::Print(e) => {
            let (h1, x) = lower_expr_s(ast, res, e, h);
            push_stmt_s(h1, HirStmt { kind: HirStmtKind::Print(x), span: s.span })
        },
        StmtKind::Local(l) => {
            let (h1, x) = lower_expr_s(ast, res, l.initializer, h);
            match first_local_for_stmt(res.locals, id) {
                Some(k) => push_stmt_s(
                    h1,
                    HirStmt { kind: HirStmtKind::Local { local: LocalId(k as usize), initializer: x }, span: s.span },
                ),
                None => push_stmt_s(h1, HirStmt { kind: HirStmtKind::Error, span: s.span }),
            }
        },
        StmtKind::Error(_) => push_stmt_s(h, HirStmt { kind: HirStmtKind::Error, span: s.span }),
    }
}

/// Lowers the statements of `body` in order, with the ids they got.
pub open spec fn lower_stmts_s(ast: AstView, res: ResolveState, body: Seq<StmtId>, h: HirView) -> (
    HirView,
    Seq<HirStmtId>,
)
    decreases body.len(),
{
    if body.len() == 0 {
        (h, seq![])
    } else {
        let (h1, ids) = lower_stmts_s(ast, res, body.drop_last(), h);
        let (h2, s) = lower_stmt_s(ast, res, body.last(), h1);
        (h2, ids.push(s))
    }
}

/// Lowers a function item that has a function symbol: its body becomes a
/// block without a tail, then the function is added. Other items add nothing.
pub open spec fn lower_item_s(ast: AstView, res: ResolveState, item: ItemId, h: HirView) -> HirView {
    let it = ast.items[item.0 as int];
    match it.kind {
        ItemKind::Function(f) => match first_function_for_item(res.functions, item) {
            Some(k) => {
                let (h1, ids) = lower_stmts_s(ast, res, f.body@, h);
                let (h2, b) = push_block_s(h1, HirBlockView { stmts: ids, tail: None, span: it.span });
                HirView {
                    functions: h2.functions.push(HirFunction { function: FunctionId(k as usize), body: b, span: it.span }),
                    ..h2
                }
            },
            None => h,
        },
        ItemKind::Error(_) => h,
    }
}

pub open spec fn lower_items_s(ast: AstView, res: ResolveState, items: Seq<ItemId>, h: HirView) -> HirView
    decreases items.len(),
{
    if items.len() == 0 {
        h
    } else {
        lower_item_s(ast, res, items.last(), lower_items_s(ast, res, items.drop_last(), h))
    }
}

pub open spec fn empty_hir() -> HirView {
    HirView { functions: seq![], blocks: seq![], stmts: seq![], exprs: seq![] }
}

/// The HIR arena that lowering builds from the items of the root module.
pub open spec fn lower_spec(ast: AstView, res: ResolveState) -> HirView {
    lower_items_s(ast, res, root_items(ast), empty_hir())
}

// ---------------------------------------------------------------------------
// What the lowered program means
// ---------------------------------------------------------------------------

/// Expression `id` of the syntax tree as lowering renders it: each identifier
/// becomes the local or function it was resolved to, or an error.
pub open spec fn lowered_expr(ast: AstView, res: ResolveState, id: ExprId) -> HirExprTree
    decreases ast.expr_rank()[id.0 as int],
{
    if id.0 >= ast.exprs.len() {
        HirExprTree::Error { span: Span { start: 0, end: 0 } }
    } else {
        let e = ast.exprs[id.0 as int];
        match e.kind {
            ExprKind::Ident(_) => match name_kind(res, id) {
                HirExprKindView::Local(local) => HirExprTree::Local { local, span: e.span },
                HirExprKindView::Function(function) => HirExprTree::Function { function, span: e.span },
                _ => HirExprTree::Error { span: e.span },
            },
            ExprKind::Number(n) => HirExprTree::Number { value: number_view(n), span: e.span },
            ExprKind::Unary { op, expr } => if ast.ranked_below(expr, id) {
                HirExprTree::Unary { op, operand: Box::new(lowered_expr(ast, res, expr)), span: e.span }
            } else {
                HirExprTree::Error { span: e.span }
            },
            ExprKind::Binary { lhs, op, rhs } => if ast.ranked_below(lhs, id) && ast.ranked_below(rhs, id) {
                HirExprTree::Binary {
                    lhs: Box::new(lowered_expr(ast, res, lhs)),
                    op,
                    rhs: Box::new(lowered_expr(ast, res, rhs)),
                    span: e.span,
                }
            } else {
                HirExprTree::Error { span: e.span }
            },
            ExprKind::Error(_) => HirExprTree::Error { span: e.span },
        }
    }
}

/// Statement `id` of the syntax tree as lowering renders it; a local
/// statement becomes its local symbol, or an error when it has none.
pub open spec fn lowered_stmt(ast: AstView, res: ResolveState, id: StmtId) -> HirStmtTree {
    let s = ast.stmts[id.0 as int];
    match s.kind {
        StmtKind::Expr(e) => HirStmtTree::Expr { expr: lowered_expr(ast, res, e), span: s.span },
        StmtKind::Print(e) => HirStmtTree::Print { expr: lowered_expr(ast, res, e), span: s.span },
        StmtKind::Local(l) => match first_local_for_stmt(res.locals, id) {
            Some(k) => HirStmtTree::Local {
                local: LocalId(k as usize),
                initializer: lowered_expr(ast, res, l.initializer),
                span: s.span,
            },
            None => HirStmtTree::Error { span: s.span },
        },
        StmtKind::Error(_) => HirStmtTree::Error { span: s.span },
    }
}

/// The function that `item` lowers to, if it is a function item with a
/// function symbol: its statements in order, in a block without a tail.
pub open spec fn lowered_item(ast: AstView, res: ResolveState, item: ItemId) -> Seq<HirFunctionTree> {
    let it = ast.items[item.0 as int];
    match it.kind {
        ItemKind::Function(f) => match first_function_for_item(res.functions, item) {
            Some(k) => seq![
                HirFunctionTree {
                    function: FunctionId(k as usize),
                    body: HirBlockTree {
                        stmts: f.body@.map_values(|s: StmtId| lowered_stmt(ast, res, s)),
                        tail: None,
                        span: it.span,
                    },
                    span: it.span,
                },
            ],
            None => seq![],
        },
        ItemKind::Error(_) => seq![],
    }
}

pub open spec fn lowered_items(ast: AstView, res: ResolveState, items: Seq<ItemId>) -> Seq<HirFunctionTree>
    decreases items.len(),
{
    if items.len() == 0 {
        seq![]
    } else {
        lowered_items(ast, res, items.drop_last()) + lowered_item(ast, res, items.last())
    }
}

/// The four arenas of `h` have lengths that fit in `usize`, as those of a
/// real arena do.
pub open spec fn hir_fits(h: HirView) -> bool {
    &&& h.functions.len() <= usize::MAX
    &&& h.blocks.len() <= usize::MAX
    &&& h.stmts.len() <= usize::MAX
    &&& h.exprs.len() <= usize::MAX
}

/// An identifier lowers to what the resolver recorded for it: to local `l`
/// when it recorded `Local(l)`, to function `f` when it recorded
/// `Function(f)`, and to an error when it recorded nothing; the new node keeps
/// the identifier's span and is the only node added.
pub proof fn lemma_lower_ident(ast: AstView, res: ResolveState, id: ExprId, h: HirView)
    requires
        id.0 < ast.exprs.len(),
        ast.exprs[id.0 as int].kind is Ident,
    ensures
        ({
            let (h2, x) = lower_expr_s(ast, res, id, h);
            let span = ast.exprs[id.0 as int].span;
            let recorded = if id.0 < res.names.len() {
                res.names[id.0 as int]
            } else {
                None
            };
            &&& h2.functions == h.functions
            &&& h2.blocks == h.blocks
            &&& h2.stmts == h.stmts
            &&& h2.exprs.len() == h.exprs.len() + 1
            &&& h2.exprs.drop_last() == h.exprs
            &&& x == HirExprId(h.exprs.len() as usize)
            &&& h2.exprs.last().span == span
            &&& forall|l: LocalId| recorded == Some(ResolvedName::Local(l)) ==> {
                &&& h2.exprs.last().kind == HirExprKindView::Local(l)
                &&& lowered_expr(ast, res, id) == HirExprTree::Local { local: l, span }
            }
            &&& forall|f: FunctionId| recorded == Some(ResolvedName::Function(f)) ==> {
                &&& h2.exprs.last().kind == HirExprKindView::Function(f)
                &&& lowered_expr(ast, res, id) == HirExprTree::Function { function: f, span }
            }
            &&& recorded is None ==> {
                &&& h2.exprs.last().kind == HirExprKindView::Error
                &&& lowered_expr(ast, res, id) == HirExprTree::Error { span }
            }
        }),
{
    let e = ast.exprs[id.0 as int];
    let (h2, x) = lower_expr_s(ast, res, id, h);
    assert(h2 == push_expr_s(h, HirExprView { kind: name_kind(res, id), span: e.span }).0);
    assert(h2.exprs.drop_last() =~= h.exprs);
    assert(h2.exprs.last() == HirExprView { kind: name_kind(res, id), span: e.span });
}

/// Lowering keeps the shape of an operator expression: a negation stays a
/// negation of its lowered operand, and a binary expression keeps its
/// operator and its left and right operands in place; a number keeps its
/// value. Each keeps its span.
pub proof fn lemma_lowered_shape(ast: AstView, res: ResolveState, id: ExprId)
    requires
        ast.refs_acyclic(),
        id.0 < ast.exprs.len(),
    ensures
        ({
            let e = ast.exprs[id.0 as int];
            &&& e.kind matches ExprKind::Number(n) ==> lowered_expr(ast, res, id) == HirExprTree::Number {
                value: number_view(n),
                span: e.span,
            }
            &&& e.kind matches ExprKind::Unary { op, expr } ==> lowered_expr(ast, res, id) == HirExprTree::Unary {
                op,
                operand: Box::new(lowered_expr(ast, res, expr)),
                span: e.span,
            }
            &&& e.kind matches ExprKind::Binary { lhs, op, rhs } ==> lowered_expr(ast, res, id) == HirExprTree::Binary {
                lhs: Box::new(lowered_expr(ast, res, lhs)),
                op,
                rhs: Box::new(lowered_expr(ast, res, rhs)),
                span: e.span,
            }
            &&& e.kind is Error ==> lowered_expr(ast, res, id) == HirExprTree::Error { span: e.span }
        }),
{
    lemma_ranked(ast, id);
}

/// Lowering keeps the kind of a statement: an expression statement and a
/// print statement keep their lowered expression; a local statement becomes
/// the local symbol it declared with its lowered initializer, or an error when
/// it declared none; an erroneous statement stays an error. Each keeps its
/// span.
pub proof fn lemma_lowered_stmt_shape(ast: AstView, res: ResolveState, id: StmtId)
    ensures
        ({
            let s = ast.stmts[id.0 as int];
            &&& s.kind matches StmtKind::Expr(e) ==> lowered_stmt(ast, res, id) == HirStmtTree::Expr {
                expr: lowered_expr(ast, res, e),
                span: s.span,
            }
            &&& s.kind matches StmtKind::Print(e) ==> lowered_stmt(ast, res, id) == HirStmtTree::Print {
                expr: lowered_expr(ast, res, e),
                span: s.span,
            }
            &&& s.kind matches StmtKind::Local(l) ==> (first_local_for_stmt(res.locals, id) matches Some(k)
                ==> lowered_stmt(ast, res, id) == HirStmtTree::Local {
                local: LocalId(k as usize),
                initializer: lowered_expr(ast, res, l.initializer),
                span: s.span,
            })
            &&& s.kind is Local && first_local_for_stmt(res.locals, id) is None ==> lowered_stmt(ast, res, id)
                == HirStmtTree::Error { span: s.span }
            &&& s.kind is Error ==> lowered_stmt(ast, res, id) == HirStmtTree::Error { span: s.span }
        }),
{
}

proof fn lemma_lower_expr(ast: AstView, res: ResolveState, id: ExprId, h: HirView)
    requires
        ast.refs_acyclic(),
        id.0 < ast.exprs.len(),
    ensures
        ({
            let (h2, x) = lower_expr_s(ast, res, id, h);
            &&& h2.extends(h)
            &&& h2.functions == h.functions
            &&& h2.blocks == h.blocks
            &&& h2.stmts == h.stmts
            &&& h2.exprs.len() <= usize::MAX ==> x.0 < h2.exprs.len() && h2.expr_tree(x) == lowered_expr(ast, res, id)
        }),
    decreases ast.expr_rank()[id.0 as int],
{
    let e = ast.exprs[id.0 as int];
    lemma_ranked(ast, id);
    match e.kind {
        ExprKind::Unary { op, expr } => {
            lemma_lower_expr(ast, res, expr, h);
            let (h1, x1) = lower_expr_s(ast, res, expr, h);
            let (h2, x) = lower_expr_s(ast, res, id, h);
            if h2.exprs.len() <= usize::MAX {
                lemma_hir_expr_tree_extends(h2, h1, x1);
            }
        },
        ExprKind::Binary { lhs, op, rhs } => {
            lemma_lower_expr(ast, res, lhs, h);
            let (h1, l) = lower_expr_s(ast, res, lhs, h);
            lemma_lower_expr(ast, res, rhs, h1);
            let (h2, r) = lower_expr_s(ast, res, rhs, h1);
            let (h3, x) = lower_expr_s(ast, res, id, h);
            if h3.exprs.len() <= usize::MAX {
                lemma_hir_expr_tree_extends(h3, h1, l);
                lemma_hir_expr_tree_extends(h3, h2, r);
            }
        },
        _ => {},
    }
}

proof fn lemma_lower_stmt(ast: AstView, res: ResolveState, id: StmtId, h: HirView)
    requires
        ast.refs_acyclic(),
        id.0 < ast.stmts.len(),
    ensures
        ({
            let (h2, s) = lower_stmt_s(ast, res, id, h);
            &&& h2.extends(h)
            &&& h2.functions == h.functions
            &&& h2.blocks == h.blocks
            &&& h.refs_ok() && hir_fits(h2) ==> h2.refs_ok()
            &&& hir_fits(h2) ==> s.0 < h2.stmts.len() && h2.stmt_tree(s) == lowered_stmt(ast, res, id)
        }),
{
    let st = ast.stmts[id.0 as int];
    assert(stmt_refs_below(st, ast.exprs.len() as int));
    let e = match st.kind {
        StmtKind::Expr(e) => e,
        StmtKind::Print(e) => e,
        StmtKind::Local(l) => l.initializer,
        StmtKind::Error(_) => ExprId(0),
    };
    if !(st.kind is Error) {
        lemma_lower_expr(ast, res, e, h);
        let (h1, x) = lower_expr_s(ast, res, e, h);
        let (h2, s) = lower_stmt_s(ast, res, id, h);
        assert(h2 == push_stmt_s(h1, h2.stmts.last()).0);
        if hir_fits(h2) {
            lemma_hir_expr_tree_extends(h2, h1, x);
        }
        if h.refs_ok() && hir_fits(h2) {
            assert(h1.refs_ok());
            assert(hir_stmt_refs_below(h2.stmts.last(), h2.exprs.len() as int));
            assert(h2.refs_ok());
        }
    }
}

proof fn lemma_lower_stmts(ast: AstView, res: ResolveState, body: Seq<StmtId>, h: HirView)
    requires
        ast.refs_acyclic(),
        forall|j: int| 0 <= j < body.len() ==> (#[trigger] body[j]).0 < ast.stmts.len(),
    ensures
        ({
            let (h2, ids) = lower_stmts_s(ast, res, body, h);
            &&& h2.extends(h)
            &&& h2.functions == h.functions
            &&& h2.blocks == h.blocks
            &&& ids.len() == body.len()
            &&& h.refs_ok() && hir_fits(h2) ==> h2.refs_ok()
            &&& h.refs_ok() && hir_fits(h2) ==> forall|j: int|
                0 <= j < ids.len() ==> (#[trigger] ids[j]).0 < h2.stmts.len() && h2.stmt_tree(ids[j]) == lowered_stmt(
                    ast,
                    res,
                    body[j],
                )
        }),
    decreases body.len(),
{
    if body.len() > 0 {
        let pre = body.drop_last();
        lemma_lower_stmts(ast, res, pre, h);
        let (h1, ids1) = lower_stmts_s(ast, res, pre, h);
        lemma_lower_stmt(ast, res, body.last(), h1);
        let (h2, s) = lower_stmt_s(ast, res, body.last(), h1);
        let ids = ids1.push(s);
        if h.refs_ok() && hir_fits(h2) {
            assert(hir_fits(h1));
            assert forall|j: int| 0 <= j < ids.len() implies (#[trigger] ids[j]).0 < h2.stmts.len() && h2.stmt_tree(ids[j])
                == lowered_stmt(ast, res, body[j]) by {
                if j < ids1.len() {
                    assert(ids[j] == ids1[j]);
                    assert(body[j] == pre[j]);
                    lemma_hir_stmt_tree_extends(h2, h1, ids1[j]);
                }
            }
        }
    }
}

proof fn lemma_lower_item(ast: AstView, res: ResolveState, item: ItemId, h: HirView)
    requires
        ast.refs_acyclic(),
        item.0 < ast.items.len(),
    ensures
        lower_item_s(ast, res, item, h).extends(h),
        h.refs_ok() && hir_fits(lower_item_s(ast, res, item, h)) ==> lower_item_s(ast, res, item, h).refs_ok(),
        h.refs_ok() && hir_fits(lower_item_s(ast, res, item, h)) ==> lower_item_s(ast, res, item, h).function_trees()
            == h.function_trees() + lowered_item(ast, res, item),
{
    let it = ast.items[item.0 as int];
    let h3 = lower_item_s(ast, res, item, h);
    match it.kind {
        ItemKind::Function(f) => match first_function_for_item(res.functions, item) {
            Some(k) => {
                assert(item_refs_below(it, ast.stmts.len() as int));
                lemma_lower_stmts(ast, res, f.body@, h);
                let (h1, ids) = lower_stmts_s(ast, res, f.body@, h);
                let (h2, b) = push_block_s(h1, HirBlockView { stmts: ids, tail: None, span: it.span });
                let func = HirFunction { function: FunctionId(k as usize), body: b, span: it.span };
                assert(h3 == HirView { functions: h2.functions.push(func), ..h2 });
                if h.refs_ok() && hir_fits(h3) {
                    assert(hir_fits(h1));
                    assert(h1.refs_ok());
                    assert(hir_block_refs_below(h3.blocks[b.0 as int], h3.stmts.len() as int, h3.exprs.len() as int));
                    assert(h3.refs_ok());
                    assert forall|j: int| 0 <= j < h.functions.len() implies #[trigger] h3.function_trees()[j]
                        == h.function_trees()[j] by {
                        lemma_hir_function_tree_extends(h3, h, h.functions[j]);
                    }
                    assert forall|j: int| 0 <= j < ids.len() implies #[trigger] h3.stmt_tree(ids[j]) == h1.stmt_tree(ids[j]) by {
                        lemma_hir_stmt_tree_extends(h3, h1, ids[j]);
                    }
                    assert(h3.block_tree(b).stmts =~= f.body@.map_values(|s: StmtId| lowered_stmt(ast, res, s)));
                    assert(h3.function_trees() =~= h.function_trees() + lowered_item(ast, res, item));
                }
            },
            None => {
                assert(h.function_trees() + lowered_item(ast, res, item) =~= h.function_trees());
            },
        },
        ItemKind::Error(_) => {
            assert(h.function_trees() + lowered_item(ast, res, item) =~= h.function_trees());
        },
    }
}

proof fn lemma_lower_items(ast: AstView, res: ResolveState, items: Seq<ItemId>, h: HirView)
    requires
        ast.refs_acyclic(),
        forall|j: int| 0 <= j < items.len() ==> (#[trigger] items[j]).0 < ast.items.len(),
    ensures
        lower_items_s(ast, res, items, h).extends(h),
        h.refs_ok() && hir_fits(lower_items_s(ast, res, items, h)) ==> lower_items_s(ast, res, items, h).refs_ok()
            && lower_items_s(ast, res, items, h).function_trees() == h.function_trees() + lowered_items(ast, res, items),
    decreases items.len(),
{
    if items.len() == 0 {
        assert(h.function_trees() + seq![] =~= h.function_trees());
    } else {
        let pre = items.drop_last();
        lemma_lower_items(ast, res, pre, h);
        let h1 = lower_items_s(ast, res, pre, h);
        lemma_lower_item(ast, res, items.last(), h1);
        let h2 = lower_items_s(ast, res, items, h);
        if h.refs_ok() && hir_fits(h2) {
            assert(hir_fits(h1));
            assert(h.function_trees() + lowered_items(ast, res, pre) + lowered_item(ast, res, items.last()) =~= h.function_trees()
                + lowered_items(ast, res, items));
        }
    }
}

/// A function symbol for `item` among `fs` is found.
proof fn lemma_first_function_for_item_found(fs: Seq<FunctionSymbolView>, item: ItemId, k: int)
    requires
        0 <= k < fs.len(),
        fs[k].item == item,
    ensures
        first_function_for_item(fs, item) is Some,
    decreases fs.len(),
{
    if k < fs.len() - 1 {
        assert(fs.drop_last()[k] == fs[k]);
        lemma_first_function_for_item_found(fs.drop_last(), item, k);
    }
}

/// The symbols that a prefix of `items` declares begin the symbols of all.
proof fn lemma_function_symbols_prefix(ast: AstView, items: Seq<ItemId>, n: int)
    requires
        0 <= n <= items.len(),
    ensures
        function_symbols_of(ast, items.take(n)).len() <= function_symbols_of(ast, items).len(),
        forall|k: int|
            0 <= k < function_symbols_of(ast, items.take(n)).len() ==> #[trigger] function_symbols_of(ast, items)[k]
                == function_symbols_of(ast, items.take(n))[k],
    decreases items.len() - n,
{
    if n < items.len() {
        lemma_function_symbols_prefix(ast, items, n + 1);
        assert(items.take(n + 1).drop_last() =~= items.take(n));
    } else {
        assert(items.take(n) =~= items);
    }
}

/// Lowering against `fs` keeps each function item of `items.take(n)` whose
/// symbol lies in `fs`.
proof fn lemma_lowered_count(ast: AstView, res: ResolveState, items: Seq<ItemId>, n: int)
    requires
        0 <= n <= items.len(),
        res.functions == function_symbols_of(ast, items),
    ensures
        lowered_items(ast, res, items.take(n)).len() == function_symbols_of(ast, items.take(n)).len(),
    decreases n,
{
    if n > 0 {
        lemma_lowered_count(ast, res, items, n - 1);
        let pre = items.take(n - 1);
        assert(items.take(n).drop_last() =~= pre);
        let it = items[n - 1];
        assert(items.take(n).last() == it);
        if let ItemKind::Function(f) = ast.items[it.0 as int].kind {
            lemma_function_symbols_prefix(ast, items, n);
            let k = function_symbols_of(ast, pre).len() as int;
            assert(function_symbols_of(ast, items.take(n))[k].item == it);
            lemma_first_function_for_item_found(res.functions, it, k);
        }
    }
}

/// Lowering what resolution produced keeps every function item of the root
/// module: one lowered function for each, in order.
pub proof fn lemma_lower_resolved_keeps_functions(ast: AstView)
    ensures
        lowered_items(ast, resolve_spec(ast), root_items(ast)).len() == function_symbols_of(ast, root_items(ast)).len(),
{
    lemma_resolve_symbols(ast);
    let items = root_items(ast);
    lemma_lowered_count(ast, resolve_spec(ast), items, items.len() as int);
    assert(items.take(items.len() as int) =~= items);
}

/// A local symbol declared by `stmt` among `ls` is found.
proof fn lemma_first_local_for_stmt_found(ls: Seq<LocalSymbolView>, stmt: StmtId, k: int)
    requires
        0 <= k < ls.len(),
        ls[k].source == LocalSource::Stmt(stmt),
    ensures
        first_local_for_stmt(ls, stmt) is Some,
    decreases ls.len(),
{
    if k < ls.len() - 1 {
        assert(ls.drop_last()[k] == ls[k]);
        lemma_first_local_for_stmt_found(ls.drop_last(), stmt, k);
    }
}

/// The locals of a prefix of a body begin the locals of the whole body.
proof fn lemma_stmts_locals_prefix(ast: AstView, body: Seq<StmtId>, n: int)
    requires
        0 <= n <= body.len(),
    ensures
        stmts_locals(ast, body.take(n)).len() <= stmts_locals(ast, body).len(),
        forall|k: int|
            0 <= k < stmts_locals(ast, body.take(n)).len() ==> #[trigger] stmts_locals(ast, body)[k]
                == stmts_locals(ast, body.take(n))[k],
    decreases body.len() - n,
{
    if n < body.len() {
        lemma_stmts_locals_prefix(ast, body, n + 1);
        assert(body.take(n + 1).drop_last() =~= body.take(n));
    } else {
        assert(body.take(n) =~= body);
    }
}

/// The locals of a prefix of the items begin the locals of all the items.
proof fn lemma_items_locals_prefix(ast: AstView, items: Seq<ItemId>, n: int)
    requires
        0 <= n <= items.len(),
    ensures
        items_locals(ast, items.take(n)).len() <= items_locals(ast, items).len(),
        forall|k: int|
            0 <= k < items_locals(ast, items.take(n)).len() ==> #[trigger] items_locals(ast, items)[k]
                == items_locals(ast, items.take(n))[k],
    decreases items.len() - n,
{
    if n < items.len() {
        lemma_items_locals_prefix(ast, items, n + 1);
        assert(items.take(n + 1).drop_last() =~= items.take(n));
    } else {
        assert(items.take(n) =~= items);
    }
}

/// The statements of a function item; none for another item.
pub open spec fn item_statements(ast: AstView, item: ItemId) -> Seq<StmtId> {
    match ast.items[item.0 as int].kind {
        ItemKind::Function(f) => f.body@,
        ItemKind::Error(_) => seq![],
    }
}

/// Lowering what resolution produced gives each local statement of a
/// function of the root module the local it declares: none of them becomes
/// an error statement.
pub proof fn lemma_lower_resolved_keeps_locals(ast: AstView, n: int, j: int)
    requires
        0 <= n < root_items(ast).len(),
        0 <= j < item_statements(ast, root_items(ast)[n]).len(),
        ast.stmts[item_statements(ast, root_items(ast)[n])[j].0 as int].kind is Local,
    ensures
        lowered_stmt(ast, resolve_spec(ast), item_statements(ast, root_items(ast)[n])[j]) is Local,
{
    lemma_resolve_symbols(ast);
    let items = root_items(ast);
    let it = items[n];
    let body = item_statements(ast, it);
    let s = body[j];
    let f = match ast.items[it.0 as int].kind {
        ItemKind::Function(f) => f,
        ItemKind::Error(_) => {
            assert(false);
            arbitrary()
        },
    };
    // The local of `s` inside the locals of its function.
    lemma_stmts_locals_prefix(ast, body, j + 1);
    assert(body.take(j + 1).drop_last() =~= body.take(j));
    assert(body.take(j + 1).last() == s);
    let kj = stmts_locals(ast, body.take(j)).len() as int;
    assert(stmts_locals(ast, body.take(j + 1))[kj].source == LocalSource::Stmt(s));
    assert(stmts_locals(ast, body)[kj].source == LocalSource::Stmt(s));
    let params = param_locals(it, f.params@);
    let ki = params.len() + kj;
    assert(item_locals(ast, it)[ki] == stmts_locals(ast, body)[kj]);
    // The locals of its function inside the locals of the root items.
    lemma_items_locals_prefix(ast, items, n + 1);
    assert(items.take(n + 1).drop_last() =~= items.take(n));
    assert(items.take(n + 1).last() == it);
    let k = items_locals(ast, items.take(n)).len() + ki;
    assert(items_locals(ast, items.take(n + 1))[k] == item_locals(ast, it)[ki]);
    assert(items_locals(ast, items)[k].source == LocalSource::Stmt(s));
    lemma_first_local_for_stmt_found(resolve_spec(ast).locals, s, k);
}

// ---------------------------------------------------------------------------
// The lowerer
// ---------------------------------------------------------------------------

fn lower_expr(hir: &mut Hir, ast: &Ast, resolved: &ResolveOutput, expr: ExprId) -> (id: HirExprId)
    requires
        ast@.refs_acyclic(),
        expr.0 < ast@.exprs.len(),
    ensures
        (final(hir)@, id) == lower_expr_s(ast@, resolved@, expr, old(hir)@),
    decreases ast@.expr_rank()[expr.0 as int],
{
    let e = ast.expr(expr);
    proof {
        lemma_ranked(ast@, expr);
    }
    let kind = match &e.kind {
        ExprKind::Ident(_) => match resolved.resolved_names.expr(expr) {
            Some(ResolvedName::Local(local)) => HirExprKind::Local(local),
            Some(ResolvedName::Function(function)) => HirExprKind::Function(function),
            None => HirExprKind::Error,
        },
        ExprKind::Number(number) => HirExprKind::Number(number.clone()),
        ExprKind::Unary { op, expr: operand } => {
            let x = lower_expr(hir, ast, resolved, *operand);
            HirExprKind::Unary { op: *op, expr: x }
        },
        ExprKind::Binary { lhs, op, rhs } => {
            let l = lower_expr(hir, ast, resolved, *lhs);
            let r = lower_expr(hir, ast, resolved, *rhs);
            HirExprKind::Binary { lhs: l, op: *op, rhs: r }
        },
        ExprKind::Error(_) => HirExprKind::Error,
    };
    hir.push_expr(HirExpr::new(kind, e.span))
}

fn lower_stmt(hir: &mut Hir, ast: &Ast, resolved: &ResolveOutput, stmt: StmtId) -> (id: HirStmtId)
    requires
        ast@.refs_acyclic(),
        stmt.0 < ast@.stmts.len(),
    ensures
        (final(hir)@, id) == lower_stmt_s(ast@, resolved@, stmt, old(hir)@),
{
    let s = ast.stmt(stmt);
    assert(stmt_refs_below(ast@.stmts[stmt.0 as int], ast@.exprs.len() as int));
    let kind = match &s.kind {
        StmtKind::Expr(e) => HirStmtKind::Expr(lower_expr(hir, ast, resolved, *e)),
        StmtKind::Print(e) => HirStmtKind::Print(lower_expr(hir, ast, resolved, *e)),
        StmtKind::Local(local) => {
            let initializer = lower_expr(hir, ast, resolved, local.initializer);
            match resolved.symbols.local_id_for_stmt(stmt) {
                Some(local_id) => HirStmtKind::Local { local: local_id, initializer },
                None => HirStmtKind::Error,
            }
        },
        StmtKind::Error(_) => HirStmtKind::Error,
    };
    hir.push_stmt(HirStmt::new(kind, s.span))
}

fn lower_block(hir: &mut Hir, ast: &Ast, resolved: &ResolveOutput, body: &Vec<StmtId>, span: Span) -> (id: HirBlockId)
    requires
        ast@.refs_acyclic(),
        forall|j: int| 0 <= j < body@.len() ==> (#[trigger] body@[j]).0 < ast@.stmts.len(),
    ensures
        ({
            let (h1, ids) = lower_stmts_s(ast@, resolved@, body@, old(hir)@);
            (final(hir)@, id) == push_block_s(h1, HirBlockView { stmts: ids, tail: None, span })
        }),
{
    let mut stmts: Vec<HirStmtId> = Vec::new();
    let mut i: usize = 0;
    while i < body.len()
        invariant
            ast@.refs_acyclic(),
            forall|j: int| 0 <= j < body@.len() ==> (#[trigger] body@[j]).0 < ast@.stmts.len(),
            i <= body@.len(),
            (hir@, stmts@) == lower_stmts_s(ast@, resolved@, body@.take(i as int), old(hir)@),
        decreases body@.len() - i,
    {
        assert(body@.take(i + 1).drop_last() =~= body@.take(i as int));
        let s = lower_stmt(hir, ast, resolved, body[i]);
        stmts.push(s);
        i = i + 1;
    }
    assert(body@.take(i as int) =~= body@);
    hir.push_block(HirBlock::new(stmts, None, span))
}

fn lower_item(hir: &mut Hir, ast: &Ast, resolved: &ResolveOutput, item: ItemId)
    requires
        ast@.refs_acyclic(),
        item.0 < ast@.items.len(),
    ensures
        final(hir)@ == lower_item_s(ast@, resolved@, item, old(hir)@),
{
    let it = ast.item(item);
    let function = match &it.kind {
        ItemKind::Function(function) => function,
        ItemKind::Error(_) => {
            return;
        },
    };
    let function_id = match resolved.symbols.function_id_for_item(item) {
        Some(id) => id,
        None => {
            return;
        },
    };
    assert(item_refs_below(ast@.items[item.0 as int], ast@.stmts.len() as int));
    let body = lower_block(hir, ast, resolved, &function.body, it.span);
    hir.push_function(HirFunction::new(function_id, body, it.span));
}

/// Lowers every function item of the root module of `ast` into HIR, with
/// each identifier replaced by the symbol `resolved` records for it.
pub fn lower(ast: &Ast, resolved: &ResolveOutput) -> (out: LowerOutput)
    requires
        ast@.refs_acyclic(),
    ensures
        out.hir@ == lower_spec(ast@, resolved@),
        out.hir@.refs_ok(),
        out.hir@.function_trees() == lowered_items(ast@, resolved@, root_items(ast@)),
        out.diagnostics@.len() == 0,
{
    proof {
        use_type_invariant(ast);
    }
    let mut hir = Hir::new();
    assert(hir@ =~= empty_hir());
    if let Some(module) = ast.root() {
        assert(module_refs_below(*module, ast@.items.len() as int));
        let mut i: usize = 0;
        while i < module.items.len()
            invariant
                ast@.refs_acyclic(),
                module_refs_below(*module, ast@.items.len() as int),
                root_items(ast@) == module.items@,
                i <= module.items@.len(),
                hir@ == lower_items_s(ast@, resolved@, module.items@.take(i as int), empty_hir()),
            decreases module.items@.len() - i,
        {
            assert(module.items@.take(i + 1).drop_last() =~= module.items@.take(i as int));
            lower_item(&mut hir, ast, resolved, module.items[i]);
            i = i + 1;
        }
        assert(module.items@.take(i as int) =~= module.items@);
    } else {
        assert(root_items(ast@) =~= Seq::<ItemId>::empty());
    }
    // The arena sizes fit in `usize`, as the ids of the lowered nodes need.
    let _function_count = hir.functions().len();
    let _block_count = hir.blocks().len();
    let _stmt_count = hir.stmts().len();
    let _expr_count = hir.exprs().len();
    proof {
        if let Some(m) = ast@.root {
            assert(module_refs_below(ast@.modules[m.0 as int], ast@.items.len() as int));
        }
        lemma_lower_items(ast@, resolved@, root_items(ast@), empty_hir());
        assert(empty_hir().function_trees() + lowered_items(ast@, resolved@, root_items(ast@)) =~= lowered_items(
            ast@,
            resolved@,
            root_items(ast@),
        ));
    }
    LowerOutput { hir, diagnostics: Vec::new() }
}

} // verus!
