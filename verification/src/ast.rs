use crate::diagnostics::Span;
use vstd::prelude::*;

verus! {

/// What an [`Ast`] holds: its four arenas and its root module.
pub struct AstView {
    pub modules: Seq<Module>,
    pub items: Seq<Item>,
    pub stmts: Seq<Stmt>,
    pub exprs: Seq<Expr>,
    pub root: Option<ModuleId>,
}

impl AstView {
    /// The root, when set, names a module of the arena. Every arena built
    /// through the methods of [`Ast`] keeps this.
    pub open spec fn root_valid(self) -> bool {
        self.root matches Some(r) ==> r.0 < self.modules.len()
    }
}

/// Arena of syntax nodes. Nodes refer to each other by typed indices.
#[derive(Debug, PartialEq, Eq)]
pub struct Ast {
    modules: Vec<Module>,
    items: Vec<Item>,
    stmts: Vec<Stmt>,
    exprs: Vec<Expr>,
    root: Option<ModuleId>,
}

impl View for Ast {
    type V = AstView;

    closed spec fn view(&self) -> AstView {
        AstView {
            modules: self.modules@,
            items: self.items@,
            stmts: self.stmts@,
            exprs: self.exprs@,
            root: self.root,
        }
    }
}

impl Ast {
    /// The root, when set, names a module of the arena: every arena keeps
    /// this, and `use_type_invariant` gives it.
    #[verifier::type_invariant]
    pub open spec fn root_in_arena(self) -> bool {
        self@.root_valid()
    }

    pub fn new() -> (r: Self)
        ensures
            r@.modules.len() == 0,
            r@.items.len() == 0,
            r@.stmts.len() == 0,
            r@.exprs.len() == 0,
            r@.root is None,
    {
        Ast {
            modules: Vec::new(),
            items: Vec::new(),
            stmts: Vec::new(),
            exprs: Vec::new(),
            root: None,
        }
    }

    /// An arena holding only `root`, which is its root module.
    pub fn with_root(root: Module) -> (r: Self)
        ensures
            r@.modules == seq![root],
            r@.items.len() == 0,
            r@.stmts.len() == 0,
            r@.exprs.len() == 0,
            r@.root == Some(ModuleId(0)),
    {
        let mut ast = Self::new();
        let root = ast.push_module(root);
        let ok = ast.set_root(root);
        assert(ok);
        ast
    }

    pub fn push_module(&mut self, module: Module) -> (id: ModuleId)
        ensures
            id.0 == old(self)@.modules.len(),
            final(self)@ == (AstView { modules: old(self)@.modules.push(module), ..old(self)@ }),
    {
        proof {
            use_type_invariant(&*self);
        }
        let id = ModuleId(self.modules.len());
        let mut taken = Ast::new();
        std::mem::swap(&mut taken, self);
        let Ast { mut modules, items, stmts, exprs, root } = taken;
        modules.push(module);
        *self = Ast { modules, items, stmts, exprs, root };
        id
    }

    pub fn push_item(&mut self, item: Item) -> (id: ItemId)
        ensures
            id.0 == old(self)@.items.len(),
            final(self)@ == (AstView { items: old(self)@.items.push(item), ..old(self)@ }),
    {
        proof {
            use_type_invariant(&*self);
        }
        let id = ItemId(self.items.len());
        let mut items = Vec::new();
        std::mem::swap(&mut items, &mut self.items);
        items.push(item);
        self.items = items;
        id
    }

    pub fn push_stmt(&mut self, stmt: Stmt) -> (id: StmtId)
        ensures
            id.0 == old(self)@.stmts.len(),
            final(self)@ == (AstView { stmts: old(self)@.stmts.push(stmt), ..old(self)@ }),
    {
        proof {
            use_type_invariant(&*self);
        }
        let id = StmtId(self.stmts.len());
        let mut stmts = Vec::new();
        std::mem::swap(&mut stmts, &mut self.stmts);
        stmts.push(stmt);
        self.stmts = stmts;
        id
    }

    pub fn push_expr(&mut self, expr: Expr) -> (id: ExprId)
        ensures
            id.0 == old(self)@.exprs.len(),
            final(self)@ == (AstView { exprs: old(self)@.exprs.push(expr), ..old(self)@ }),
    {
        proof {
            use_type_invariant(&*self);
        }
        let id = ExprId(self.exprs.len());
        let mut exprs = Vec::new();
        std::mem::swap(&mut exprs, &mut self.exprs);
        exprs.push(expr);
        self.exprs = exprs;
        id
    }

    pub fn modules(&self) -> (r: &[Module])
        ensures
            r@ == self@.modules,
    {
        self.modules.as_slice()
    }

    pub fn items(&self) -> (r: &[Item])
        ensures
            r@ == self@.items,
    {
        self.items.as_slice()
    }

    pub fn stmts(&self) -> (r: &[Stmt])
        ensures
            r@ == self@.stmts,
    {
        self.stmts.as_slice()
    }

    pub fn exprs(&self) -> (r: &[Expr])
        ensures
            r@ == self@.exprs,
    {
        self.exprs.as_slice()
    }

    pub fn root_id(&self) -> (r: Option<ModuleId>)
        ensures
            r == self@.root,
    {
        self.root
    }

    /// Makes `root` the root module when it names a module of the arena;
    /// otherwise leaves the arena unchanged and returns `false`.
    pub fn set_root(&mut self, root: ModuleId) -> (ok: bool)
        ensures
            ok == (root.0 < old(self)@.modules.len()),
            ok ==> final(self)@ == (AstView { root: Some(root), ..old(self)@ }),
            !ok ==> final(self)@ == old(self)@,
    {
        if root.0 >= self.modules.len() {
            return false;
        }
        self.root = Some(root);
        true
    }

    pub fn module(&self, id: ModuleId) -> (r: &Module)
        requires
            id.0 < self@.modules.len(),
        ensures
            *r == self@.modules[id.0 as int],
    {
        &self.modules[id.0]
    }

    pub fn get_module(&self, id: ModuleId) -> (r: Option<&Module>)
        ensures
            id.0 < self@.modules.len() ==> r == Some(&self@.modules[id.0 as int]),
            id.0 >= self@.modules.len() ==> r is None,
    {
        if id.0 < self.modules.len() {
            Some(&self.modules[id.0])
        } else {
            None
        }
    }

    pub fn item(&self, id: ItemId) -> (r: &Item)
        requires
            id.0 < self@.items.len(),
        ensures
            *r == self@.items[id.0 as int],
    {
        &self.items[id.0]
    }

    pub fn get_item(&self, id: ItemId) -> (r: Option<&Item>)
        ensures
            id.0 < self@.items.len() ==> r == Some(&self@.items[id.0 as int]),
            id.0 >= self@.items.len() ==> r is None,
    {
        if id.0 < self.items.len() {
            Some(&self.items[id.0])
        } else {
            None
        }
    }

    pub fn stmt(&self, id: StmtId) -> (r: &Stmt)
        requires
            id.0 < self@.stmts.len(),
        ensures
            *r == self@.stmts[id.0 as int],
    {
        &self.stmts[id.0]
    }

    pub fn get_stmt(&self, id: StmtId) -> (r: Option<&Stmt>)
        ensures
            id.0 < self@.stmts.len() ==> r == Some(&self@.stmts[id.0 as int]),
            id.0 >= self@.stmts.len() ==> r is None,
    {
        if id.0 < self.stmts.len() {
            Some(&self.stmts[id.0])
        } else {
            None
        }
    }

    pub fn expr(&self, id: ExprId) -> (r: &Expr)
        requires
            id.0 < self@.exprs.len(),
        ensures
            *r == self@.exprs[id.0 as int],
    {
        &self.exprs[id.0]
    }

    pub fn get_expr(&self, id: ExprId) -> (r: Option<&Expr>)
        ensures
            id.0 < self@.exprs.len() ==> r == Some(&self@.exprs[id.0 as int]),
            id.0 >= self@.exprs.len() ==> r is None,
    {
        if id.0 < self.exprs.len() {
            Some(&self.exprs[id.0])
        } else {
            None
        }
    }

    /// The root module, when one has been set.
    pub fn root(&self) -> (r: Option<&Module>)
        ensures
            r == (match self@.root {
                Some(id) => Some(&self@.modules[id.0 as int]),
                None => None,
            }),
    {
        proof {
            use_type_invariant(self);
        }
        match self.root {
            Some(root) => Some(&self.modules[root.0]),
            None => None,
        }
    }
}

impl Clone for Ast {
    fn clone(&self) -> (r: Self)
        ensures
            r@.modules.len() == self@.modules.len(),
            r@.items.len() == self@.items.len(),
            r@.stmts.len() == self@.stmts.len(),
            r@.exprs.len() == self@.exprs.len(),
            r@.root == self@.root,
    {
        proof {
            use_type_invariant(self);
        }
        Ast {
            modules: self.modules.clone(),
            items: self.items.clone(),
            stmts: self.stmts.clone(),
            exprs: self.exprs.clone(),
            root: self.root,
        }
    }
}

impl Default for Ast {
    fn default() -> (r: Self)
        ensures
            r@.modules.len() == 0,
            r@.items.len() == 0,
            r@.stmts.len() == 0,
            r@.exprs.len() == 0,
            r@.root is None,
    {
        Ast::new()
    }
}

#[derive(Debug, Clone, Copy, PartialEq, Eq, Hash, Structural)]
pub struct ModuleId(pub usize);

impl ModuleId {
    pub fn index(self) -> (r: usize)
        ensures
            r == self.0,
    {
        self.0
    }
}

#[derive(Debug, Clone, Copy, PartialEq, Eq, Hash, Structural)]
pub struct ItemId(pub usize);

impl ItemId {
    pub fn index(self) -> (r: usize)
        ensures
            r == self.0,
    {
        self.0
    }
}

#[derive(Debug, Clone, Copy, PartialEq, Eq, Hash, Structural)]
pub struct StmtId(pub usize);

impl StmtId {
    pub fn index(self) -> (r: usize)
        ensures
            r == self.0,
    {
        self.0
    }
}

#[derive(Debug, Clone, Copy, PartialEq, Eq, Hash, Structural)]
pub struct ExprId(pub usize);

impl ExprId {
    pub fn index(self) -> (r: usize)
        ensures
            r == self.0,
    {
        self.0
    }
}

/// A name together with where it was written.
#[derive(Debug, Clone, PartialEq, Eq)]
pub struct Ident {
    pub text: String,
    pub span: Span,
}

impl Ident {
    pub fn new(text: &str, span: Span) -> (r: Self)
        ensures
            r.text@ == text@,
            r.span == span,
    {
        Self { text: text.to_owned(), span }
    }
}

#[derive(Debug, Clone, PartialEq, Eq)]
pub struct Module {
    pub items: Vec<ItemId>,
    pub span: Span,
}

impl Module {
    pub fn new(items: Vec<ItemId>, span: Span) -> (r: Self)
        ensures
            r.items@ == items@,
            r.span == span,
    {
        Self { items, span }
    }
}

#[derive(Debug, Clone, PartialEq, Eq)]
pub struct Item {
    pub kind: ItemKind,
    pub span: Span,
}

impl Item {
    pub fn new(kind: ItemKind, span: Span) -> (r: Self)
        ensures
            r.kind == kind,
            r.span == span,
    {
        Self { kind, span }
    }
}

#[derive(Debug, Clone, PartialEq, Eq)]
pub enum ItemKind {
    Function(Function),
    Error(Error),
}

#[derive(Debug, Clone, PartialEq, Eq)]
pub struct Function {
    pub name: Ident,
    pub params: Vec<Param>,
    pub return_type: Option<TypeRef>,
    pub body: Vec<StmtId>,
}

impl Function {
    pub fn new(name: Ident, params: Vec<Param>, return_type: Option<TypeRef>, body: Vec<StmtId>) -> (r: Self)
        ensures
            r.name == name,
            r.params@ == params@,
            r.return_type == return_type,
            r.body@ == body@,
    {
        Self { name, params, return_type, body }
    }
}

#[derive(Debug, Clone, PartialEq, Eq)]
pub struct Param {
    pub name: Ident,
    pub ty: Option<TypeRef>,
}

impl Param {
    pub fn new(name: Ident, ty: Option<TypeRef>) -> (r: Self)
        ensures
            r.name == name,
            r.ty == ty,
    {
        Self { name, ty }
    }
}

/// A written type: a name, a name applied to arguments, or a function type.
#[derive(Debug, PartialEq, Eq)]
pub struct TypeRef {
    pub kind: TypeRefKind,
    pub span: Span,
}

impl TypeRef {
    /// The type named `name`, spanning the name.
    pub fn named(name: &str, span: Span) -> (r: Self)
        ensures
            r.kind matches TypeRefKind::Named(id) && id.text@ == name@ && id.span == span,
            r.span == span,
    {
        Self::named_ident(Ident::new(name, span))
    }

    /// The type named by `name`, spanning the name.
    pub fn named_ident(name: Ident) -> (r: Self)
        ensures
            r.kind == TypeRefKind::Named(name),
            r.span == name.span,
    {
        let span = name.span;
        Self { kind: TypeRefKind::Named(name), span }
    }

    pub fn new(kind: TypeRefKind, span: Span) -> (r: Self)
        ensures
            r.kind == kind,
            r.span == span,
    {
        Self { kind, span }
    }
}

#[derive(Debug, Clone, PartialEq, Eq)]
pub enum TypeRefKind {
    Named(Ident),
    Generic { base: Box<TypeRef>, args: Vec<TypeRef> },
    Function { params: Vec<TypeRef>, return_type: Option<Box<TypeRef>> },
}

/// What a [`TypeRef`] says, with its spans.
pub enum TypeRefView {
    Named { text: Seq<char>, name_span: Span, span: Span },
    Generic { base: Box<TypeRefView>, args: Seq<TypeRefView>, span: Span },
    Function { params: Seq<TypeRefView>, return_type: Option<Box<TypeRefView>>, span: Span },
}

/// The view of each type in `ts`.
pub open spec fn type_refs_view(ts: Seq<TypeRef>) -> Seq<TypeRefView>
    decreases ts,
{
    Seq::new(ts.len(), |i: int| if 0 <= i < ts.len() { type_ref_view(ts[i]) } else { arbitrary() })
}

pub open spec fn type_ref_view(t: TypeRef) -> TypeRefView
    decreases t,
{
    match t.kind {
        TypeRefKind::Named(id) => TypeRefView::Named { text: id.text@, name_span: id.span, span: t.span },
        TypeRefKind::Generic { base, args } => TypeRefView::Generic {
            base: Box::new(type_ref_view(*base)),
            args: type_refs_view(args@),
            span: t.span,
        },
        TypeRefKind::Function { params, return_type } => TypeRefView::Function {
            params: type_refs_view(params@),
            return_type: match return_type {
                Some(rt) => Some(Box::new(type_ref_view(*rt))),
                None => None,
            },
            span: t.span,
        },
    }
}

impl View for TypeRef {
    type V = TypeRefView;

    open spec fn view(&self) -> TypeRefView {
        type_ref_view(*self)
    }
}

impl Clone for TypeRef {
    fn clone(&self) -> (r: Self)
        ensures
            r@ == self@,
    {
        copy_type_ref(self)
    }
}

fn copy_type_ref(t: &TypeRef) -> (r: TypeRef)
    ensures
        type_ref_view(r) == type_ref_view(*t),
    decreases t,
{
    match &t.kind {
        TypeRefKind::Named(id) => {
            let c = Ident { text: id.text.clone(), span: id.span };
            TypeRef { kind: TypeRefKind::Named(c), span: t.span }
        },
        TypeRefKind::Generic { base, args } => {
            let b = copy_type_ref(&**base);
            let a = copy_type_refs(args);
            TypeRef { kind: TypeRefKind::Generic { base: Box::new(b), args: a }, span: t.span }
        },
        TypeRefKind::Function { params, return_type } => {
            let p = copy_type_refs(params);
            let rt = match return_type {
                Some(rt) => Some(Box::new(copy_type_ref(&**rt))),
                None => None,
            };
            TypeRef { kind: TypeRefKind::Function { params: p, return_type: rt }, span: t.span }
        },
    }
}

fn copy_type_refs(ts: &Vec<TypeRef>) -> (r: Vec<TypeRef>)
    ensures
        type_refs_view(r@) == type_refs_view(ts@),
    decreases ts,
{
    let mut out: Vec<TypeRef> = Vec::new();
    let mut i: usize = 0;
    while i < ts.len()
        invariant
            i <= ts@.len(),
            out@.len() == i,
            forall|j: int| 0 <= j < i ==> type_ref_view(#[trigger] out@[j]) == type_ref_view(ts@[j]),
        decreases ts@.len() - i,
    {
        assert(decreases_to!(ts => ts@[i as int]));
        let t = copy_type_ref(&ts[i]);
        out.push(t);
        i = i + 1;
    }
    assert(type_refs_view(out@) =~= type_refs_view(ts@));
    out
}

#[derive(Debug, Clone, PartialEq, Eq)]
pub struct Stmt {
    pub kind: StmtKind,
    pub span: Span,
}

impl Stmt {
    pub fn new(kind: StmtKind, span: Span) -> (r: Self)
        ensures
            r.kind == kind,
            r.span == span,
    {
        Self { kind, span }
    }
}

#[derive(Debug, Clone, PartialEq, Eq)]
pub enum StmtKind {
    Expr(ExprId),
    Local(Local),
    Print(ExprId),
    Error(Error),
}

#[derive(Debug, Clone, PartialEq, Eq)]
pub struct Local {
    pub kind: BindingKind,
    pub name: Ident,
    pub ty: Option<TypeRef>,
    pub initializer: ExprId,
}

impl Local {
    pub fn new(kind: BindingKind, name: Ident, ty: Option<TypeRef>, initializer: ExprId) -> (r: Self)
        ensures
            r.kind == kind,
            r.name == name,
            r.ty == ty,
            r.initializer == initializer,
    {
        Self { kind, name, ty, initializer }
    }
}

#[derive(Debug, Clone, Copy, PartialEq, Eq, Structural)]
pub enum BindingKind {
    Let,
    Var,
}

#[derive(Debug, Clone, PartialEq, Eq)]
pub struct Expr {
    pub kind: ExprKind,
    pub span: Span,
}

impl Expr {
    pub fn new(kind: ExprKind, span: Span) -> (r: Self)
        ensures
            r.kind == kind,
            r.span == span,
    {
        Self { kind, span }
    }
}

#[derive(Debug, Clone, PartialEq, Eq)]
pub enum ExprKind {
    Ident(Ident),
    Number(NumberLiteral),
    Unary { op: UnaryOp, expr: ExprId },
    Binary { lhs: ExprId, op: BinaryOp, rhs: ExprId },
    Error(Error),
}

/// Placeholder for a node that could not be parsed.
#[derive(Debug, Clone, PartialEq, Eq)]
pub struct Error;

impl Error {
    pub fn new() -> (r: Self)
        ensures
            r == Error,
    {
        Self
    }
}

#[derive(Debug, PartialEq, Eq)]
pub enum NumberLiteral {
    Integer(String),
    Float(String),
}

impl Clone for NumberLiteral {
    fn clone(&self) -> (r: Self)
        ensures
            number_view(r) == number_view(*self),
    {
        match self {
            NumberLiteral::Integer(v) => NumberLiteral::Integer(v.clone()),
            NumberLiteral::Float(v) => NumberLiteral::Float(v.clone()),
        }
    }
}

#[derive(Debug, Clone, Copy, PartialEq, Eq, Structural)]
pub enum UnaryOp {
    Neg,
}

#[derive(Debug, Clone, Copy, PartialEq, Eq, Structural)]
pub enum BinaryOp {
    Add,
    Sub,
    Mul,
    Div,
    Rem,
}


// ---------------------------------------------------------------------------
// Trees: what the nodes reachable from an id say
// ---------------------------------------------------------------------------

pub enum NumberView {
    Integer(Seq<char>),
    Float(Seq<char>),
}

pub open spec fn number_view(n: NumberLiteral) -> NumberView {
    match n {
        NumberLiteral::Integer(v) => NumberView::Integer(v@),
        NumberLiteral::Float(v) => NumberView::Float(v@),
    }
}

/// An expression with its subexpressions resolved.
pub enum ExprTree {
    Ident { text: Seq<char>, name_span: Span, span: Span },
    Number { value: NumberView, span: Span },
    Unary { op: UnaryOp, operand: Box<ExprTree>, span: Span },
    Binary { lhs: Box<ExprTree>, op: BinaryOp, rhs: Box<ExprTree>, span: Span },
    Error { span: Span },
}

impl ExprTree {
    pub open spec fn span(self) -> Span {
        match self {
            ExprTree::Ident { span, .. } => span,
            ExprTree::Number { span, .. } => span,
            ExprTree::Unary { span, .. } => span,
            ExprTree::Binary { span, .. } => span,
            ExprTree::Error { span } => span,
        }
    }
}

/// A statement with its expressions resolved.
pub enum StmtTree {
    Expr { expr: ExprTree, span: Span },
    Local {
        kind: BindingKind,
        name: Seq<char>,
        name_span: Span,
        ty: Option<TypeRefView>,
        initializer: ExprTree,
        span: Span,
    },
    Print { expr: ExprTree, span: Span },
    Error { span: Span },
}

impl StmtTree {
    pub open spec fn span(self) -> Span {
        match self {
            StmtTree::Expr { span, .. } => span,
            StmtTree::Local { span, .. } => span,
            StmtTree::Print { span, .. } => span,
            StmtTree::Error { span } => span,
        }
    }
}

pub struct ParamView {
    pub name: Seq<char>,
    pub name_span: Span,
    pub ty: Option<TypeRefView>,
}

pub open spec fn opt_type_view(t: Option<TypeRef>) -> Option<TypeRefView> {
    match t {
        Some(t) => Some(t@),
        None => None,
    }
}

pub open spec fn param_view(p: Param) -> ParamView {
    ParamView { name: p.name.text@, name_span: p.name.span, ty: opt_type_view(p.ty) }
}

/// An item with its statements resolved.
pub enum ItemTree {
    Function {
        name: Seq<char>,
        name_span: Span,
        params: Seq<ParamView>,
        return_type: Option<TypeRefView>,
        body: Seq<StmtTree>,
        span: Span,
    },
    Error { span: Span },
}

/// A module with its items resolved.
pub struct ModuleTree {
    pub items: Seq<ItemTree>,
    pub span: Span,
}

impl AstView {
    /// Every node refers only to nodes that exist, and an expression only to
    /// expressions added before it.
    pub open spec fn refs_ok(self) -> bool {
        &&& forall|k: int| 0 <= k < self.exprs.len() ==> expr_refs_below(#[trigger] self.exprs[k], k)
        &&& forall|k: int|
            0 <= k < self.stmts.len() ==> stmt_refs_below(#[trigger] self.stmts[k], self.exprs.len() as int)
        &&& forall|k: int|
            0 <= k < self.items.len() ==> item_refs_below(#[trigger] self.items[k], self.stmts.len() as int)
        &&& forall|k: int|
            0 <= k < self.modules.len() ==> module_refs_below(#[trigger] self.modules[k], self.items.len() as int)
    }

    /// `rank` gives each expression a number greater than the numbers of the
    /// expressions it refers to, which all exist: the references form no
    /// cycle.
    pub open spec fn ranks_exprs(self, rank: Seq<nat>) -> bool {
        &&& rank.len() == self.exprs.len()
        &&& forall|k: int| 0 <= k < self.exprs.len() ==> expr_refs_ranked(#[trigger] self.exprs[k], rank, rank[k])
    }

    /// `child` exists and ranks below `parent`.
    pub open spec fn ranked_below(self, child: ExprId, parent: ExprId) -> bool {
        child.0 < self.exprs.len() && self.expr_rank()[child.0 as int] < self.expr_rank()[parent.0 as int]
    }

    /// A ranking of the expressions, when there is one.
    pub open spec fn expr_rank(self) -> Seq<nat> {
        choose|rank: Seq<nat>| self.ranks_exprs(rank)
    }

    /// Every node refers only to nodes that exist, and the references between
    /// expressions form no cycle.
    pub open spec fn refs_acyclic(self) -> bool {
        &&& exists|rank: Seq<nat>| self.ranks_exprs(rank)
        &&& forall|k: int|
            0 <= k < self.stmts.len() ==> stmt_refs_below(#[trigger] self.stmts[k], self.exprs.len() as int)
        &&& forall|k: int|
            0 <= k < self.items.len() ==> item_refs_below(#[trigger] self.items[k], self.stmts.len() as int)
        &&& forall|k: int|
            0 <= k < self.modules.len() ==> module_refs_below(#[trigger] self.modules[k], self.items.len() as int)
    }

    /// `self` holds every node of `older` at the same index.
    pub open spec fn extends(self, older: AstView) -> bool {
        &&& older.modules.len() <= self.modules.len()
        &&& older.items.len() <= self.items.len()
        &&& older.stmts.len() <= self.stmts.len()
        &&& older.exprs.len() <= self.exprs.len()
        &&& forall|k: int| 0 <= k < older.modules.len() ==> #[trigger] self.modules[k] == older.modules[k]
        &&& forall|k: int| 0 <= k < older.items.len() ==> #[trigger] self.items[k] == older.items[k]
        &&& forall|k: int| 0 <= k < older.stmts.len() ==> #[trigger] self.stmts[k] == older.stmts[k]
        &&& forall|k: int| 0 <= k < older.exprs.len() ==> #[trigger] self.exprs[k] == older.exprs[k]
    }

    pub open spec fn expr_tree(self, id: ExprId) -> ExprTree
        decreases id.0,
    {
        if id.0 >= self.exprs.len() {
            ExprTree::Error { span: Span { start: 0, end: 0 } }
        } else {
            let e = self.exprs[id.0 as int];
            match e.kind {
                ExprKind::Ident(name) => ExprTree::Ident { text: name.text@, name_span: name.span, span: e.span },
                ExprKind::Number(n) => ExprTree::Number { value: number_view(n), span: e.span },
                ExprKind::Unary { op, expr } => if expr.0 < id.0 {
                    ExprTree::Unary { op, operand: Box::new(self.expr_tree(expr)), span: e.span }
                } else {
                    ExprTree::Error { span: e.span }
                },
                ExprKind::Binary { lhs, op, rhs } => if lhs.0 < id.0 && rhs.0 < id.0 {
                    ExprTree::Binary {
                        lhs: Box::new(self.expr_tree(lhs)),
                        op,
                        rhs: Box::new(self.expr_tree(rhs)),
                        span: e.span,
                    }
                } else {
                    ExprTree::Error { span: e.span }
                },
                ExprKind::Error(_) => ExprTree::Error { span: e.span },
            }
        }
    }

    pub open spec fn stmt_tree(self, id: StmtId) -> StmtTree {
        self.stmt_view(self.stmts[id.0 as int])
    }

    /// What statement `s` says, its expressions looked up in `self`.
    pub open spec fn stmt_view(self, s: Stmt) -> StmtTree {
        match s.kind {
            StmtKind::Expr(e) => StmtTree::Expr { expr: self.expr_tree(e), span: s.span },
            StmtKind::Local(l) => StmtTree::Local {
                kind: l.kind,
                name: l.name.text@,
                name_span: l.name.span,
                ty: opt_type_view(l.ty),
                initializer: self.expr_tree(l.initializer),
                span: s.span,
            },
            StmtKind::Print(e) => StmtTree::Print { expr: self.expr_tree(e), span: s.span },
            StmtKind::Error(_) => StmtTree::Error { span: s.span },
        }
    }

    pub open spec fn item_tree(self, id: ItemId) -> ItemTree {
        self.item_view(self.items[id.0 as int])
    }

    /// What item `it` says, its statements looked up in `self`.
    pub open spec fn item_view(self, it: Item) -> ItemTree {
        match it.kind {
            ItemKind::Function(f) => ItemTree::Function {
                name: f.name.text@,
                name_span: f.name.span,
                params: f.params@.map_values(|p: Param| param_view(p)),
                return_type: opt_type_view(f.return_type),
                body: f.body@.map_values(|b: StmtId| self.stmt_tree(b)),
                span: it.span,
            },
            ItemKind::Error(_) => ItemTree::Error { span: it.span },
        }
    }

    pub open spec fn module_tree(self, id: ModuleId) -> ModuleTree {
        self.module_view(self.modules[id.0 as int])
    }

    /// What module `m` says, its items looked up in `self`.
    pub open spec fn module_view(self, m: Module) -> ModuleTree {
        ModuleTree { items: m.items@.map_values(|i: ItemId| self.item_tree(i)), span: m.span }
    }
}

// ---------------------------------------------------------------------------
// Layout: the nodes of an arena, and the arena a tree is stored as
// ---------------------------------------------------------------------------

/// What an expression node says, its text taken by its characters.
pub enum ExprNode {
    Ident { text: Seq<char>, name_span: Span },
    Number(NumberView),
    Unary { op: UnaryOp, expr: ExprId },
    Binary { lhs: ExprId, op: BinaryOp, rhs: ExprId },
    Error,
}

pub struct ExprNodeView {
    pub kind: ExprNode,
    pub span: Span,
}

pub enum StmtNode {
    Expr(ExprId),
    Local { kind: BindingKind, name: Seq<char>, name_span: Span, ty: Option<TypeRefView>, initializer: ExprId },
    Print(ExprId),
    Error,
}

pub struct StmtNodeView {
    pub kind: StmtNode,
    pub span: Span,
}

pub enum ItemNode {
    Function {
        name: Seq<char>,
        name_span: Span,
        params: Seq<ParamView>,
        return_type: Option<TypeRefView>,
        body: Seq<StmtId>,
    },
    Error,
}

pub struct ItemNodeView {
    pub kind: ItemNode,
    pub span: Span,
}

pub struct ModuleNodeView {
    pub items: Seq<ItemId>,
    pub span: Span,
}

/// Every node of an arena, each taken by what it says, and the root.
#[verifier::ext_equal]
pub struct AstNodes {
    pub modules: Seq<ModuleNodeView>,
    pub items: Seq<ItemNodeView>,
    pub stmts: Seq<StmtNodeView>,
    pub exprs: Seq<ExprNodeView>,
    pub root: Option<ModuleId>,
}

pub open spec fn expr_node(e: Expr) -> ExprNodeView {
    ExprNodeView {
        kind: match e.kind {
            ExprKind::Ident(name) => ExprNode::Ident { text: name.text@, name_span: name.span },
            ExprKind::Number(n) => ExprNode::Number(number_view(n)),
            ExprKind::Unary { op, expr } => ExprNode::Unary { op, expr },
            ExprKind::Binary { lhs, op, rhs } => ExprNode::Binary { lhs, op, rhs },
            ExprKind::Error(_) => ExprNode::Error,
        },
        span: e.span,
    }
}

pub open spec fn stmt_node(s: Stmt) -> StmtNodeView {
    StmtNodeView {
        kind: match s.kind {
            StmtKind::Expr(e) => StmtNode::Expr(e),
            StmtKind::Local(l) => StmtNode::Local {
                kind: l.kind,
                name: l.name.text@,
                name_span: l.name.span,
                ty: opt_type_view(l.ty),
                initializer: l.initializer,
            },
            StmtKind::Print(e) => StmtNode::Print(e),
            StmtKind::Error(_) => StmtNode::Error,
        },
        span: s.span,
    }
}

pub open spec fn item_node(it: Item) -> ItemNodeView {
    ItemNodeView {
        kind: match it.kind {
            ItemKind::Function(f) => ItemNode::Function {
                name: f.name.text@,
                name_span: f.name.span,
                params: f.params@.map_values(|p: Param| param_view(p)),
                return_type: opt_type_view(f.return_type),
                body: f.body@,
            },
            ItemKind::Error(_) => ItemNode::Error,
        },
        span: it.span,
    }
}

pub open spec fn module_node(m: Module) -> ModuleNodeView {
    ModuleNodeView { items: m.items@, span: m.span }
}

impl AstView {
    pub open spec fn nodes(self) -> AstNodes {
        AstNodes {
            modules: self.modules.map_values(|m: Module| module_node(m)),
            items: self.items.map_values(|i: Item| item_node(i)),
            stmts: self.stmts.map_values(|s: Stmt| stmt_node(s)),
            exprs: self.exprs.map_values(|e: Expr| expr_node(e)),
            root: self.root,
        }
    }
}

/// Number of nodes of an expression tree.
pub open spec fn expr_size(t: ExprTree) -> nat
    decreases t,
{
    match t {
        ExprTree::Unary { operand, .. } => expr_size(*operand) + 1,
        ExprTree::Binary { lhs, rhs, .. } => expr_size(*lhs) + expr_size(*rhs) + 1,
        _ => 1,
    }
}

/// The nodes that store expression tree `t` from index `base` on: operands
/// first, left before right, then the expression itself.
pub open spec fn expr_layout(t: ExprTree, base: int) -> Seq<ExprNodeView>
    decreases t,
{
    match t {
        ExprTree::Ident { text, name_span, span } => seq![ExprNodeView { kind: ExprNode::Ident { text, name_span }, span }],
        ExprTree::Number { value, span } => seq![ExprNodeView { kind: ExprNode::Number(value), span }],
        ExprTree::Unary { op, operand, span } => expr_layout(*operand, base) + seq![
            ExprNodeView {
                kind: ExprNode::Unary { op, expr: ExprId((base + expr_size(*operand) - 1) as usize) },
                span,
            },
        ],
        ExprTree::Binary { lhs, op, rhs, span } => expr_layout(*lhs, base) + expr_layout(*rhs, base + expr_size(*lhs))
            + seq![
            ExprNodeView {
                kind: ExprNode::Binary {
                    lhs: ExprId((base + expr_size(*lhs) - 1) as usize),
                    op,
                    rhs: ExprId((base + expr_size(*lhs) + expr_size(*rhs) - 1) as usize),
                },
                span,
            },
        ],
        ExprTree::Error { span } => seq![ExprNodeView { kind: ExprNode::Error, span }],
    }
}

pub proof fn lemma_expr_layout_len(t: ExprTree, base: int)
    ensures
        expr_layout(t, base).len() == expr_size(t),
        expr_size(t) >= 1,
    decreases t,
{
    match t {
        ExprTree::Unary { operand, .. } => lemma_expr_layout_len(*operand, base),
        ExprTree::Binary { lhs, rhs, .. } => {
            lemma_expr_layout_len(*lhs, base);
            lemma_expr_layout_len(*rhs, base + expr_size(*lhs));
        },
        _ => {},
    }
}

/// The expression of a statement, if it has one.
pub open spec fn stmt_expr(t: StmtTree) -> Option<ExprTree> {
    match t {
        StmtTree::Expr { expr, .. } => Some(expr),
        StmtTree::Local { initializer, .. } => Some(initializer),
        StmtTree::Print { expr, .. } => Some(expr),
        StmtTree::Error { .. } => None,
    }
}

pub open spec fn stmt_exprs_size(t: StmtTree) -> nat {
    match stmt_expr(t) {
        Some(e) => expr_size(e),
        None => 0,
    }
}

pub open spec fn stmt_exprs_layout(t: StmtTree, base: int) -> Seq<ExprNodeView> {
    match stmt_expr(t) {
        Some(e) => expr_layout(e, base),
        None => seq![],
    }
}

/// The statement node of `t`, its expressions stored from index `base` on.
pub open spec fn stmt_layout(t: StmtTree, base: int) -> StmtNodeView {
    let root = ExprId((base + stmt_exprs_size(t) - 1) as usize);
    match t {
        StmtTree::Expr { span, .. } => StmtNodeView { kind: StmtNode::Expr(root), span },
        StmtTree::Local { kind, name, name_span, ty, span, .. } => StmtNodeView {
            kind: StmtNode::Local { kind, name, name_span, ty, initializer: root },
            span,
        },
        StmtTree::Print { span, .. } => StmtNodeView { kind: StmtNode::Print(root), span },
        StmtTree::Error { span } => StmtNodeView { kind: StmtNode::Error, span },
    }
}

pub open spec fn body_exprs_size(ts: Seq<StmtTree>) -> nat
    decreases ts.len(),
{
    if ts.len() == 0 {
        0
    } else {
        body_exprs_size(ts.drop_last()) + stmt_exprs_size(ts.last())
    }
}

/// The expression nodes of statements `ts`, stored from index `base` on.
pub open spec fn body_exprs_layout(ts: Seq<StmtTree>, base: int) -> Seq<ExprNodeView>
    decreases ts.len(),
{
    if ts.len() == 0 {
        seq![]
    } else {
        body_exprs_layout(ts.drop_last(), base) + stmt_exprs_layout(ts.last(), base + body_exprs_size(ts.drop_last()))
    }
}

/// The statement nodes of statements `ts`, their expressions stored from
/// index `base` on.
pub open spec fn body_stmts_layout(ts: Seq<StmtTree>, base: int) -> Seq<StmtNodeView>
    decreases ts.len(),
{
    if ts.len() == 0 {
        seq![]
    } else {
        body_stmts_layout(ts.drop_last(), base).push(stmt_layout(ts.last(), base + body_exprs_size(ts.drop_last())))
    }
}

pub proof fn lemma_body_layout_len(ts: Seq<StmtTree>, base: int)
    ensures
        body_exprs_layout(ts, base).len() == body_exprs_size(ts),
        body_stmts_layout(ts, base).len() == ts.len(),
    decreases ts.len(),
{
    if ts.len() > 0 {
        lemma_body_layout_len(ts.drop_last(), base);
        if let Some(e) = stmt_expr(ts.last()) {
            lemma_expr_layout_len(e, base + body_exprs_size(ts.drop_last()));
        }
    }
}

/// The ids `base`, `base + 1`, ... of `n` consecutive statements.
pub open spec fn stmt_ids(base: int, n: nat) -> Seq<StmtId> {
    Seq::new(n, |j: int| StmtId((base + j) as usize))
}

/// The ids `base`, `base + 1`, ... of `n` consecutive items.
pub open spec fn item_ids(base: int, n: nat) -> Seq<ItemId> {
    Seq::new(n, |j: int| ItemId((base + j) as usize))
}

pub open spec fn item_body(t: ItemTree) -> Seq<StmtTree> {
    match t {
        ItemTree::Function { body, .. } => body,
        ItemTree::Error { .. } => seq![],
    }
}

/// The item node of `t`, its statements stored from index `sbase` on.
pub open spec fn item_layout(t: ItemTree, sbase: int) -> ItemNodeView {
    match t {
        ItemTree::Function { name, name_span, params, return_type, body, span } => ItemNodeView {
            kind: ItemNode::Function { name, name_span, params, return_type, body: stmt_ids(sbase, body.len()) },
            span,
        },
        ItemTree::Error { span } => ItemNodeView { kind: ItemNode::Error, span },
    }
}

pub open spec fn items_exprs_size(ts: Seq<ItemTree>) -> nat
    decreases ts.len(),
{
    if ts.len() == 0 {
        0
    } else {
        items_exprs_size(ts.drop_last()) + body_exprs_size(item_body(ts.last()))
    }
}

pub open spec fn items_stmts_count(ts: Seq<ItemTree>) -> nat
    decreases ts.len(),
{
    if ts.len() == 0 {
        0
    } else {
        items_stmts_count(ts.drop_last()) + item_body(ts.last()).len()
    }
}

pub open spec fn items_exprs_layout(ts: Seq<ItemTree>, ebase: int) -> Seq<ExprNodeView>
    decreases ts.len(),
{
    if ts.len() == 0 {
        seq![]
    } else {
        items_exprs_layout(ts.drop_last(), ebase) + body_exprs_layout(
            item_body(ts.last()),
            ebase + items_exprs_size(ts.drop_last()),
        )
    }
}

pub open spec fn items_stmts_layout(ts: Seq<ItemTree>, ebase: int) -> Seq<StmtNodeView>
    decreases ts.len(),
{
    if ts.len() == 0 {
        seq![]
    } else {
        items_stmts_layout(ts.drop_last(), ebase) + body_stmts_layout(
            item_body(ts.last()),
            ebase + items_exprs_size(ts.drop_last()),
        )
    }
}

pub open spec fn items_layout(ts: Seq<ItemTree>, sbase: int) -> Seq<ItemNodeView>
    decreases ts.len(),
{
    if ts.len() == 0 {
        seq![]
    } else {
        items_layout(ts.drop_last(), sbase).push(item_layout(ts.last(), sbase + items_stmts_count(ts.drop_last())))
    }
}

pub proof fn lemma_items_layout_len(ts: Seq<ItemTree>, ebase: int, sbase: int)
    ensures
        items_exprs_layout(ts, ebase).len() == items_exprs_size(ts),
        items_stmts_layout(ts, ebase).len() == items_stmts_count(ts),
        items_layout(ts, sbase).len() == ts.len(),
    decreases ts.len(),
{
    if ts.len() > 0 {
        lemma_items_layout_len(ts.drop_last(), ebase, sbase);
        lemma_body_layout_len(item_body(ts.last()), ebase + items_exprs_size(ts.drop_last()));
    }
}

/// The arena that stores module tree `m` alone: its expressions, statements
/// and items in the order they are written, each node after the nodes it
/// refers to, and the module last.
pub open spec fn module_layout(m: ModuleTree) -> AstNodes {
    AstNodes {
        modules: seq![ModuleNodeView { items: item_ids(0, m.items.len()), span: m.span }],
        items: items_layout(m.items, 0),
        stmts: items_stmts_layout(m.items, 0),
        exprs: items_exprs_layout(m.items, 0),
        root: Some(ModuleId(0)),
    }
}

/// The expressions that `e` refers to exist and have ranks below `r`.
pub open spec fn expr_refs_ranked(e: Expr, rank: Seq<nat>, r: nat) -> bool {
    match e.kind {
        ExprKind::Unary { expr, .. } => expr.0 < rank.len() && rank[expr.0 as int] < r,
        ExprKind::Binary { lhs, rhs, .. } => lhs.0 < rank.len() && rank[lhs.0 as int] < r && rhs.0 < rank.len()
            && rank[rhs.0 as int] < r,
        _ => true,
    }
}

/// In an arena without cycles, what each expression refers to ranks below it.
pub proof fn lemma_ranked(a: AstView, id: ExprId)
    requires
        a.refs_acyclic(),
        id.0 < a.exprs.len(),
    ensures
        a.ranks_exprs(a.expr_rank()),
        match a.exprs[id.0 as int].kind {
            ExprKind::Unary { expr, .. } => a.ranked_below(expr, id),
            ExprKind::Binary { lhs, rhs, .. } => a.ranked_below(lhs, id) && a.ranked_below(rhs, id),
            _ => true,
        },
{
    assert(expr_refs_ranked(a.exprs[id.0 as int], a.expr_rank(), a.expr_rank()[id.0 as int]));
}

/// An arena whose expressions refer only to earlier ones has no cycle.
pub proof fn lemma_refs_ok_acyclic(a: AstView)
    requires
        a.refs_ok(),
    ensures
        a.refs_acyclic(),
        a.ranks_exprs(a.expr_rank()),
{
    let rank = Seq::new(a.exprs.len(), |i: int| i as nat);
    assert forall|k: int| 0 <= k < a.exprs.len() implies expr_refs_ranked(#[trigger] a.exprs[k], rank, rank[k]) by {
        assert(expr_refs_below(a.exprs[k], k));
    }
    assert(a.ranks_exprs(rank));
}

pub open spec fn expr_refs_below(e: Expr, k: int) -> bool {
    match e.kind {
        ExprKind::Unary { expr, .. } => expr.0 < k,
        ExprKind::Binary { lhs, rhs, .. } => lhs.0 < k && rhs.0 < k,
        _ => true,
    }
}

pub open spec fn stmt_refs_below(s: Stmt, n: int) -> bool {
    match s.kind {
        StmtKind::Expr(e) => e.0 < n,
        StmtKind::Local(l) => l.initializer.0 < n,
        StmtKind::Print(e) => e.0 < n,
        StmtKind::Error(_) => true,
    }
}

pub open spec fn module_refs_below(m: Module, n: int) -> bool {
    forall|j: int| 0 <= j < m.items@.len() ==> (#[trigger] m.items@[j]).0 < n
}

pub open spec fn item_refs_below(it: Item, n: int) -> bool {
    match it.kind {
        ItemKind::Function(f) => forall|j: int| 0 <= j < f.body@.len() ==> (#[trigger] f.body@[j]).0 < n,
        ItemKind::Error(_) => true,
    }
}

/// Growing an arena keeps what every old expression id stands for.
pub proof fn lemma_expr_tree_extends(newer: AstView, older: AstView, id: ExprId)
    requires
        newer.extends(older),
        id.0 < older.exprs.len(),
    ensures
        newer.expr_tree(id) == older.expr_tree(id),
    decreases id.0,
{
    let e = older.exprs[id.0 as int];
    assert(newer.exprs[id.0 as int] == e);
    match e.kind {
        ExprKind::Unary { op, expr } => {
            if expr.0 < id.0 {
                lemma_expr_tree_extends(newer, older, expr);
            }
        },
        ExprKind::Binary { lhs, op, rhs } => {
            if lhs.0 < id.0 && rhs.0 < id.0 {
                lemma_expr_tree_extends(newer, older, lhs);
                lemma_expr_tree_extends(newer, older, rhs);
            }
        },
        _ => {},
    }
}

/// Growing an arena keeps what every old statement id stands for.
pub proof fn lemma_stmt_tree_extends(newer: AstView, older: AstView, id: StmtId)
    requires
        newer.extends(older),
        older.refs_ok(),
        id.0 < older.stmts.len(),
    ensures
        newer.stmt_tree(id) == older.stmt_tree(id),
{
    let s = older.stmts[id.0 as int];
    assert(newer.stmts[id.0 as int] == s);
    assert(stmt_refs_below(s, older.exprs.len() as int));
    match s.kind {
        StmtKind::Expr(e) => lemma_expr_tree_extends(newer, older, e),
        StmtKind::Local(l) => lemma_expr_tree_extends(newer, older, l.initializer),
        StmtKind::Print(e) => lemma_expr_tree_extends(newer, older, e),
        StmtKind::Error(_) => {},
    }
}


/// Growing an arena keeps what every old item id stands for.
pub proof fn lemma_item_tree_extends(newer: AstView, older: AstView, id: ItemId)
    requires
        newer.extends(older),
        older.refs_ok(),
        id.0 < older.items.len(),
    ensures
        newer.item_tree(id) == older.item_tree(id),
{
    let it = older.items[id.0 as int];
    assert(newer.items[id.0 as int] == it);
    assert(item_refs_below(it, older.stmts.len() as int));
    match it.kind {
        ItemKind::Function(f) => {
            assert forall|j: int| 0 <= j < f.body@.len() implies #[trigger] newer.stmt_tree(f.body@[j])
                == older.stmt_tree(f.body@[j]) by {
                lemma_stmt_tree_extends(newer, older, f.body@[j]);
            }
            assert(f.body@.map_values(|b: StmtId| newer.stmt_tree(b)) =~= f.body@.map_values(
                |b: StmtId| older.stmt_tree(b),
            ));
        },
        ItemKind::Error(_) => {},
    }
}

/// Growing an arena keeps what every old node id stands for.
pub proof fn lemma_trees_extend(newer: AstView, older: AstView)
    requires
        newer.extends(older),
        older.refs_ok(),
    ensures
        forall|k: ExprId| k.0 < older.exprs.len() ==> #[trigger] newer.expr_tree(k) == older.expr_tree(k),
        forall|k: StmtId| k.0 < older.stmts.len() ==> #[trigger] newer.stmt_tree(k) == older.stmt_tree(k),
        forall|k: ItemId| k.0 < older.items.len() ==> #[trigger] newer.item_tree(k) == older.item_tree(k),
{
    assert forall|k: ExprId| k.0 < older.exprs.len() implies #[trigger] newer.expr_tree(k) == older.expr_tree(k) by {
        lemma_expr_tree_extends(newer, older, k);
    }
    assert forall|k: StmtId| k.0 < older.stmts.len() implies #[trigger] newer.stmt_tree(k) == older.stmt_tree(k) by {
        lemma_stmt_tree_extends(newer, older, k);
    }
    assert forall|k: ItemId| k.0 < older.items.len() implies #[trigger] newer.item_tree(k) == older.item_tree(k) by {
        lemma_item_tree_extends(newer, older, k);
    }
}

} // verus!
