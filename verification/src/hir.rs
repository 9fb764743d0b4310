use crate::ast::{number_view, BinaryOp, NumberLiteral, NumberView, UnaryOp};
use crate::diagnostics::Span;
use crate::name_resolver::{FunctionId, LocalId};
use vstd::prelude::*;

verus! {

/// What a [`Hir`] holds: its four arenas, each node taken by its view.
#[verifier::ext_equal]
pub struct HirView {
    pub functions: Seq<HirFunction>,
    pub blocks: Seq<HirBlockView>,
    pub stmts: Seq<HirStmt>,
    pub exprs: Seq<HirExprView>,
}

/// Arena of lowered nodes. Nodes refer to each other by typed indices.
#[derive(Debug, Clone, PartialEq, Eq)]
pub struct Hir {
    functions: Vec<HirFunction>,
    blocks: Vec<HirBlock>,
    stmts: Vec<HirStmt>,
    exprs: Vec<HirExpr>,
}

impl View for Hir {
    type V = HirView;

    closed spec fn view(&self) -> HirView {
        HirView {
            functions: self.functions@,
            blocks: self.blocks@.map_values(|b: HirBlock| b@),
            stmts: self.stmts@,
            exprs: self.exprs@.map_values(|e: HirExpr| e@),
        }
    }
}

impl Hir {
    pub fn new() -> (r: Self)
        ensures
            r@.functions.len() == 0,
            r@.blocks.len() == 0,
            r@.stmts.len() == 0,
            r@.exprs.len() == 0,
    {
        let r = Hir { functions: Vec::new(), blocks: Vec::new(), stmts: Vec::new(), exprs: Vec::new() };
        assert(r@.blocks =~= Seq::<HirBlockView>::empty());
        assert(r@.exprs =~= Seq::<HirExprView>::empty());
        r
    }

    pub fn push_function(&mut self, function: HirFunction) -> (id: HirFunctionId)
        ensures
            id.0 == old(self)@.functions.len(),
            final(self)@ == (HirView { functions: old(self)@.functions.push(function), ..old(self)@ }),
    {
        let id = HirFunctionId(self.functions.len());
        self.functions.push(function);
        id
    }

    pub fn push_block(&mut self, block: HirBlock) -> (id: HirBlockId)
        ensures
            id.0 == old(self)@.blocks.len(),
            final(self)@ == (HirView { blocks: old(self)@.blocks.push(block@), ..old(self)@ }),
    {
        let id = HirBlockId(self.blocks.len());
        let ghost b = block@;
        self.blocks.push(block);
        assert(self.blocks@.map_values(|b: HirBlock| b@) =~= old(self).blocks@.map_values(|b: HirBlock| b@).push(b));
        id
    }

    pub fn push_stmt(&mut self, stmt: HirStmt) -> (id: HirStmtId)
        ensures
            id.0 == old(self)@.stmts.len(),
            final(self)@ == (HirView { stmts: old(self)@.stmts.push(stmt), ..old(self)@ }),
    {
        let id = HirStmtId(self.stmts.len());
        self.stmts.push(stmt);
        id
    }

    pub fn push_expr(&mut self, expr: HirExpr) -> (id: HirExprId)
        ensures
            id.0 == old(self)@.exprs.len(),
            final(self)@ == (HirView { exprs: old(self)@.exprs.push(expr@), ..old(self)@ }),
    {
        let id = HirExprId(self.exprs.len());
        let ghost e = expr@;
        self.exprs.push(expr);
        assert(self.exprs@.map_values(|e: HirExpr| e@) =~= old(self).exprs@.map_values(|e: HirExpr| e@).push(e));
        id
    }

    pub fn functions(&self) -> (r: &[HirFunction])
        ensures
            r@ == self@.functions,
    {
        self.functions.as_slice()
    }

    pub fn blocks(&self) -> (r: &[HirBlock])
        ensures
            r@.map_values(|b: HirBlock| b@) == self@.blocks,
    {
        self.blocks.as_slice()
    }

    pub fn stmts(&self) -> (r: &[HirStmt])
        ensures
            r@ == self@.stmts,
    {
        self.stmts.as_slice()
    }

    pub fn exprs(&self) -> (r: &[HirExpr])
        ensures
            r@.map_values(|e: HirExpr| e@) == self@.exprs,
    {
        self.exprs.as_slice()
    }

    pub fn function(&self, id: HirFunctionId) -> (r: &HirFunction)
        requires
            id.0 < self@.functions.len(),
        ensures
            *r == self@.functions[id.0 as int],
    {
        &self.functions[id.0]
    }

    pub fn block(&self, id: HirBlockId) -> (r: &HirBlock)
        requires
            id.0 < self@.blocks.len(),
        ensures
            r@ == self@.blocks[id.0 as int],
    {
        &self.blocks[id.0]
    }

    pub fn stmt(&self, id: HirStmtId) -> (r: &HirStmt)
        requires
            id.0 < self@.stmts.len(),
        ensures
            *r == self@.stmts[id.0 as int],
    {
        &self.stmts[id.0]
    }

    pub fn expr(&self, id: HirExprId) -> (r: &HirExpr)
        requires
            id.0 < self@.exprs.len(),
        ensures
            r@ == self@.exprs[id.0 as int],
    {
        &self.exprs[id.0]
    }
}

impl Default for Hir {
    fn default() -> (r: Self)
        ensures
            r@.functions.len() == 0,
            r@.blocks.len() == 0,
            r@.stmts.len() == 0,
            r@.exprs.len() == 0,
    {
        Hir::new()
    }
}

#[derive(Debug, Clone, Copy, PartialEq, Eq, Hash, Structural)]
pub struct HirFunctionId(pub usize);

impl HirFunctionId {
    pub fn index(self) -> (r: usize)
        ensures
            r == self.0,
    {
        self.0
    }
}

#[derive(Debug, Clone, Copy, PartialEq, Eq, Hash, Structural)]
pub struct HirBlockId(pub usize);

impl HirBlockId {
    pub fn index(self) -> (r: usize)
        ensures
            r == self.0,
    {
        self.0
    }
}

#[derive(Debug, Clone, Copy, PartialEq, Eq, Hash, Structural)]
pub struct HirStmtId(pub usize);

impl HirStmtId {
    pub fn index(self) -> (r: usize)
        ensures
            r == self.0,
    {
        self.0
    }
}

#[derive(Debug, Clone, Copy, PartialEq, Eq, Hash, Structural)]
pub struct HirExprId(pub usize);

impl HirExprId {
    pub fn index(self) -> (r: usize)
        ensures
            r == self.0,
    {
        self.0
    }
}

/// A lowered function: the symbol it defines and its body block.
#[derive(Debug, Clone, PartialEq, Eq)]
pub struct HirFunction {
    pub function: FunctionId,
    pub body: HirBlockId,
    pub span: Span,
}

impl HirFunction {
    pub fn new(function: FunctionId, body: HirBlockId, span: Span) -> (r: Self)
        ensures
            r == (HirFunction { function, body, span }),
    {
        Self { function, body, span }
    }
}

/// A sequence of statements with an optional value.
#[derive(Debug, Clone, PartialEq, Eq)]
pub struct HirBlock {
    pub stmts: Vec<HirStmtId>,
    pub tail: Option<HirExprId>,
    pub span: Span,
}

pub struct HirBlockView {
    pub stmts: Seq<HirStmtId>,
    pub tail: Option<HirExprId>,
    pub span: Span,
}

impl View for HirBlock {
    type V = HirBlockView;

    open spec fn view(&self) -> HirBlockView {
        HirBlockView { stmts: self.stmts@, tail: self.tail, span: self.span }
    }
}

impl HirBlock {
    pub fn new(stmts: Vec<HirStmtId>, tail: Option<HirExprId>, span: Span) -> (r: Self)
        ensures
            r@ == (HirBlockView { stmts: stmts@, tail, span }),
    {
        Self { stmts, tail, span }
    }
}

#[derive(Debug, Clone, PartialEq, Eq)]
pub struct HirStmt {
    pub kind: HirStmtKind,
    pub span: Span,
}

impl HirStmt {
    pub fn new(kind: HirStmtKind, span: Span) -> (r: Self)
        ensures
            r == (HirStmt { kind, span }),
    {
        Self { kind, span }
    }
}

#[derive(Debug, Clone, PartialEq, Eq)]
pub enum HirStmtKind {
    Expr(HirExprId),
    Local { local: LocalId, initializer: HirExprId },
    Print(HirExprId),
    Error,
}

#[derive(Debug, Clone, PartialEq, Eq)]
pub struct HirExpr {
    pub kind: HirExprKind,
    pub span: Span,
}

impl HirExpr {
    pub fn new(kind: HirExprKind, span: Span) -> (r: Self)
        ensures
            r.kind == kind,
            r.span == span,
    {
        Self { kind, span }
    }
}

#[derive(Debug, Clone, PartialEq, Eq)]
pub enum HirExprKind {
    Local(LocalId),
    Function(FunctionId),
    Number(NumberLiteral),
    Unary { op: UnaryOp, expr: HirExprId },
    Binary { lhs: HirExprId, op: BinaryOp, rhs: HirExprId },
    Block(HirBlockId),
    Error,
}

/// What a lowered expression says, its literal taken by its view.
pub enum HirExprKindView {
    Local(LocalId),
    Function(FunctionId),
    Number(NumberView),
    Unary { op: UnaryOp, expr: HirExprId },
    Binary { lhs: HirExprId, op: BinaryOp, rhs: HirExprId },
    Block(HirBlockId),
    Error,
}

pub struct HirExprView {
    pub kind: HirExprKindView,
    pub span: Span,
}

pub open spec fn hir_expr_kind_view(k: HirExprKind) -> HirExprKindView {
    match k {
        HirExprKind::Local(l) => HirExprKindView::Local(l),
        HirExprKind::Function(f) => HirExprKindView::Function(f),
        HirExprKind::Number(n) => HirExprKindView::Number(number_view(n)),
        HirExprKind::Unary { op, expr } => HirExprKindView::Unary { op, expr },
        HirExprKind::Binary { lhs, op, rhs } => HirExprKindView::Binary { lhs, op, rhs },
        HirExprKind::Block(b) => HirExprKindView::Block(b),
        HirExprKind::Error => HirExprKindView::Error,
    }
}

impl View for HirExpr {
    type V = HirExprView;

    open spec fn view(&self) -> HirExprView {
        HirExprView { kind: hir_expr_kind_view(self.kind), span: self.span }
    }
}


// ---------------------------------------------------------------------------
// Trees: what the nodes reachable from an id say
// ---------------------------------------------------------------------------

/// A lowered expression with its operands resolved.
pub enum HirExprTree {
    Local { local: LocalId, span: Span },
    Function { function: FunctionId, span: Span },
    Number { value: NumberView, span: Span },
    Unary { op: UnaryOp, operand: Box<HirExprTree>, span: Span },
    Binary { lhs: Box<HirExprTree>, op: BinaryOp, rhs: Box<HirExprTree>, span: Span },
    Block { block: HirBlockId, span: Span },
    Error { span: Span },
}

/// A lowered statement with its expressions resolved.
pub enum HirStmtTree {
    Expr { expr: HirExprTree, span: Span },
    Local { local: LocalId, initializer: HirExprTree, span: Span },
    Print { expr: HirExprTree, span: Span },
    Error { span: Span },
}

/// A block with its statements and tail resolved.
pub struct HirBlockTree {
    pub stmts: Seq<HirStmtTree>,
    pub tail: Option<HirExprTree>,
    pub span: Span,
}

/// A lowered function with its body resolved.
pub struct HirFunctionTree {
    pub function: FunctionId,
    pub body: HirBlockTree,
    pub span: Span,
}

impl HirView {
    /// Every statement, block and function refers only to nodes that exist.
    pub open spec fn refs_ok(self) -> bool {
        &&& forall|k: int| 0 <= k < self.stmts.len() ==> hir_stmt_refs_below(#[trigger] self.stmts[k], self.exprs.len() as int)
        &&& forall|k: int|
            0 <= k < self.blocks.len() ==> hir_block_refs_below(#[trigger] self.blocks[k], self.stmts.len() as int, self.exprs.len() as int)
        &&& forall|k: int| 0 <= k < self.functions.len() ==> (#[trigger] self.functions[k]).body.0 < self.blocks.len()
    }

    /// `self` holds every node of `older` at the same index.
    pub open spec fn extends(self, older: HirView) -> bool {
        &&& older.functions.len() <= self.functions.len()
        &&& older.blocks.len() <= self.blocks.len()
        &&& older.stmts.len() <= self.stmts.len()
        &&& older.exprs.len() <= self.exprs.len()
        &&& forall|k: int| 0 <= k < older.functions.len() ==> #[trigger] self.functions[k] == older.functions[k]
        &&& forall|k: int| 0 <= k < older.blocks.len() ==> #[trigger] self.blocks[k] == older.blocks[k]
        &&& forall|k: int| 0 <= k < older.stmts.len() ==> #[trigger] self.stmts[k] == older.stmts[k]
        &&& forall|k: int| 0 <= k < older.exprs.len() ==> #[trigger] self.exprs[k] == older.exprs[k]
    }

    pub open spec fn expr_tree(self, id: HirExprId) -> HirExprTree
        decreases id.0,
    {
        if id.0 >= self.exprs.len() {
            HirExprTree::Error { span: Span { start: 0, end: 0 } }
        } else {
            let e = self.exprs[id.0 as int];
            match e.kind {
                HirExprKindView::Local(local) => HirExprTree::Local { local, span: e.span },
                HirExprKindView::Function(function) => HirExprTree::Function { function, span: e.span },
                HirExprKindView::Number(value) => HirExprTree::Number { value, span: e.span },
                HirExprKindView::Unary { op, expr } => if expr.0 < id.0 {
                    HirExprTree::Unary { op, operand: Box::new(self.expr_tree(expr)), span: e.span }
                } else {
                    HirExprTree::Error { span: e.span }
                },
                HirExprKindView::Binary { lhs, op, rhs } => if lhs.0 < id.0 && rhs.0 < id.0 {
                    HirExprTree::Binary {
                        lhs: Box::new(self.expr_tree(lhs)),
                        op,
                        rhs: Box::new(self.expr_tree(rhs)),
                        span: e.span,
                    }
                } else {
                    HirExprTree::Error { span: e.span }
                },
                HirExprKindView::Block(block) => HirExprTree::Block { block, span: e.span },
                HirExprKindView::Error => HirExprTree::Error { span: e.span },
            }
        }
    }

    pub open spec fn stmt_tree(self, id: HirStmtId) -> HirStmtTree {
        let s = self.stmts[id.0 as int];
        match s.kind {
            HirStmtKind::Expr(e) => HirStmtTree::Expr { expr: self.expr_tree(e), span: s.span },
            HirStmtKind::Local { local, initializer } => HirStmtTree::Local {
                local,
                initializer: self.expr_tree(initializer),
                span: s.span,
            },
            HirStmtKind::Print(e) => HirStmtTree::Print { expr: self.expr_tree(e), span: s.span },
            HirStmtKind::Error => HirStmtTree::Error { span: s.span },
        }
    }

    pub open spec fn block_tree(self, id: HirBlockId) -> HirBlockTree {
        let b = self.blocks[id.0 as int];
        HirBlockTree {
            stmts: b.stmts.map_values(|s: HirStmtId| self.stmt_tree(s)),
            tail: match b.tail {
                Some(t) => Some(self.expr_tree(t)),
                None => None,
            },
            span: b.span,
        }
    }

    pub open spec fn function_tree(self, f: HirFunction) -> HirFunctionTree {
        HirFunctionTree { function: f.function, body: self.block_tree(f.body), span: f.span }
    }

    /// Every function of the arena, its body resolved.
    pub open spec fn function_trees(self) -> Seq<HirFunctionTree> {
        self.functions.map_values(|f: HirFunction| self.function_tree(f))
    }
}

pub open spec fn hir_stmt_refs_below(s: HirStmt, n: int) -> bool {
    match s.kind {
        HirStmtKind::Expr(e) => e.0 < n,
        HirStmtKind::Local { initializer, .. } => initializer.0 < n,
        HirStmtKind::Print(e) => e.0 < n,
        HirStmtKind::Error => true,
    }
}

pub open spec fn hir_block_refs_below(b: HirBlockView, n_stmts: int, n_exprs: int) -> bool {
    &&& forall|j: int| 0 <= j < b.stmts.len() ==> (#[trigger] b.stmts[j]).0 < n_stmts
    &&& b.tail matches Some(t) ==> t.0 < n_exprs
}

/// Growing an arena keeps what every old expression id stands for.
pub proof fn lemma_hir_expr_tree_extends(newer: HirView, older: HirView, id: HirExprId)
    requires
        newer.extends(older),
        id.0 < older.exprs.len(),
    ensures
        newer.expr_tree(id) == older.expr_tree(id),
    decreases id.0,
{
    let e = older.exprs[id.0 as int];
    assert(newer.exprs[id.0 as int] == e);
    match e.kind {
        HirExprKindView::Unary { expr, .. } => {
            if expr.0 < id.0 {
                lemma_hir_expr_tree_extends(newer, older, expr);
            }
        },
        HirExprKindView::Binary { lhs, rhs, .. } => {
            if lhs.0 < id.0 && rhs.0 < id.0 {
                lemma_hir_expr_tree_extends(newer, older, lhs);
                lemma_hir_expr_tree_extends(newer, older, rhs);
            }
        },
        _ => {},
    }
}

/// Growing an arena keeps what every old statement id stands for.
pub proof fn lemma_hir_stmt_tree_extends(newer: HirView, older: HirView, id: HirStmtId)
    requires
        newer.extends(older),
        older.refs_ok(),
        id.0 < older.stmts.len(),
    ensures
        newer.stmt_tree(id) == older.stmt_tree(id),
{
    let s = older.stmts[id.0 as int];
    assert(newer.stmts[id.0 as int] == s);
    assert(hir_stmt_refs_below(s, older.exprs.len() as int));
    match s.kind {
        HirStmtKind::Expr(e) => lemma_hir_expr_tree_extends(newer, older, e),
        HirStmtKind::Local { initializer, .. } => lemma_hir_expr_tree_extends(newer, older, initializer),
        HirStmtKind::Print(e) => lemma_hir_expr_tree_extends(newer, older, e),
        HirStmtKind::Error => {},
    }
}

/// Growing an arena keeps what every old function stands for.
pub proof fn lemma_hir_function_tree_extends(newer: HirView, older: HirView, f: HirFunction)
    requires
        newer.extends(older),
        older.refs_ok(),
        f.body.0 < older.blocks.len(),
    ensures
        newer.function_tree(f) == older.function_tree(f),
{
    let b = older.blocks[f.body.0 as int];
    assert(newer.blocks[f.body.0 as int] == b);
    assert(hir_block_refs_below(b, older.stmts.len() as int, older.exprs.len() as int));
    assert forall|j: int| 0 <= j < b.stmts.len() implies #[trigger] newer.stmt_tree(b.stmts[j]) == older.stmt_tree(
        b.stmts[j],
    ) by {
        lemma_hir_stmt_tree_extends(newer, older, b.stmts[j]);
    }
    assert(b.stmts.map_values(|s: HirStmtId| newer.stmt_tree(s)) =~= b.stmts.map_values(
        |s: HirStmtId| older.stmt_tree(s),
    ));
    if let Some(t) = b.tail {
        lemma_hir_expr_tree_extends(newer, older, t);
    }
}

} // verus!
