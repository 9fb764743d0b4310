use crate::ast::{
    lemma_ranked, item_refs_below, module_refs_below, stmt_refs_below, Ast, AstView, BindingKind, ExprId,
    ExprKind, Ident, ItemId, ItemKind, Param, StmtId, StmtKind,
};
use crate::diagnostics::{diag_views, error_view, DiagView, Diagnostic, NoteView, Severity, Span};
use crate::text::str_equal;
use vstd::prelude::*;
use vstd::string::StrSliceExecFns;
use vstd::string::StringExecFns;

verus! {

/// Symbols, what each name expression refers to, and diagnostics.
#[derive(Debug, Clone, PartialEq, Eq)]
pub struct ResolveOutput {
    pub symbols: Symbols,
    pub resolved_names: ResolvedNames,
    pub diagnostics: Vec<Diagnostic>,
}

impl View for ResolveOutput {
    type V = ResolveState;

    open spec fn view(&self) -> ResolveState {
        ResolveState {
            functions: function_views(self.symbols.functions@),
            locals: local_views(self.symbols.locals@),
            names: self.resolved_names.exprs@,
            diagnostics: diag_views(self.diagnostics@),
        }
    }
}

/// Every function and every local binding declared, in declaration order.
#[derive(Debug, Clone, PartialEq, Eq)]
pub struct Symbols {
    pub functions: Vec<FunctionSymbol>,
    pub locals: Vec<LocalSymbol>,
}

/// What a function symbol says.
pub struct FunctionSymbolView {
    pub name: Seq<char>,
    pub name_span: Span,
    pub item: ItemId,
}

/// What a local symbol says.
pub struct LocalSymbolView {
    pub name: Seq<char>,
    pub name_span: Span,
    pub kind: BindingKind,
    pub source: LocalSource,
}

pub open spec fn function_views(fs: Seq<FunctionSymbol>) -> Seq<FunctionSymbolView> {
    fs.map_values(|f: FunctionSymbol| f@)
}

pub open spec fn local_views(ls: Seq<LocalSymbol>) -> Seq<LocalSymbolView> {
    ls.map_values(|l: LocalSymbol| l@)
}

/// The first index in `fs` of a function named `name`.
pub open spec fn first_function(fs: Seq<FunctionSymbolView>, name: Seq<char>) -> Option<int>
    decreases fs.len(),
{
    if fs.len() == 0 {
        None
    } else {
        match first_function(fs.drop_last(), name) {
            Some(k) => Some(k),
            None => if fs.last().name == name {
                Some(fs.len() - 1)
            } else {
                None
            },
        }
    }
}

/// The first index at or after `start` in `ls` of a local named `name`.
pub open spec fn first_local(ls: Seq<LocalSymbolView>, start: int, name: Seq<char>) -> Option<int>
    decreases ls.len(),
{
    if ls.len() == 0 || ls.len() <= start {
        None
    } else {
        match first_local(ls.drop_last(), start, name) {
            Some(k) => Some(k),
            None => if ls.last().name == name {
                Some(ls.len() - 1)
            } else {
                None
            },
        }
    }
}

/// A found function has the name looked for.
pub proof fn lemma_first_function_found(fs: Seq<FunctionSymbolView>, name: Seq<char>)
    ensures
        first_function(fs, name) matches Some(k) ==> 0 <= k < fs.len() && fs[k].name == name,
    decreases fs.len(),
{
    if fs.len() > 0 {
        lemma_first_function_found(fs.drop_last(), name);
    }
}

/// A found local lies at or after `start` and has the name looked for.
pub proof fn lemma_first_local_found(ls: Seq<LocalSymbolView>, start: int, name: Seq<char>)
    ensures
        first_local(ls, start, name) matches Some(k) ==> 0 <= k && start <= k < ls.len() && ls[k].name == name,
    decreases ls.len(),
{
    if ls.len() > 0 && ls.len() > start {
        lemma_first_local_found(ls.drop_last(), start, name);
        if let Some(k) = first_local(ls.drop_last(), start, name) {
            assert(ls.drop_last()[k] == ls[k]);
        }
    }
}

/// The function a name finds is the earliest with that name: `Some(k)` exactly
/// when `fs[k]` has the name and no function before it does, and `None`
/// exactly when no function has it.
pub proof fn lemma_first_function_earliest(fs: Seq<FunctionSymbolView>, name: Seq<char>)
    ensures
        first_function(fs, name) matches Some(k) ==> {
            &&& 0 <= k < fs.len()
            &&& fs[k].name == name
            &&& forall|j: int| 0 <= j < k ==> #[trigger] fs[j].name != name
        },
        first_function(fs, name) is None ==> forall|j: int| 0 <= j < fs.len() ==> #[trigger] fs[j].name != name,
    decreases fs.len(),
{
    if fs.len() > 0 {
        let pre = fs.drop_last();
        lemma_first_function_earliest(pre, name);
        assert forall|j: int| 0 <= j < pre.len() implies #[trigger] fs[j] == pre[j] by {}
    }
}

/// The local a name finds in the scope that starts at `start` is the earliest
/// of the scope with that name: `Some(k)` exactly when `ls[k]` has the name,
/// `start <= k`, and no local of the scope before it does; `None` exactly when
/// no local of the scope has it.
pub proof fn lemma_first_local_earliest(ls: Seq<LocalSymbolView>, start: int, name: Seq<char>)
    ensures
        first_local(ls, start, name) matches Some(k) ==> {
            &&& 0 <= k < ls.len()
            &&& start <= k
            &&& ls[k].name == name
            &&& forall|j: int| 0 <= j < k && start <= j ==> #[trigger] ls[j].name != name
        },
        first_local(ls, start, name) is None ==> forall|j: int|
            0 <= j < ls.len() && start <= j ==> #[trigger] ls[j].name != name,
    decreases ls.len(),
{
    lemma_first_local_found(ls, start, name);
    if ls.len() > 0 && ls.len() > start {
        let pre = ls.drop_last();
        lemma_first_local_earliest(pre, start, name);
        assert forall|j: int| 0 <= j < pre.len() implies #[trigger] ls[j] == pre[j] by {}
    }
}

/// The first index in `fs` of the function declared by `item`.
pub open spec fn first_function_for_item(fs: Seq<FunctionSymbolView>, item: ItemId) -> Option<int>
    decreases fs.len(),
{
    if fs.len() == 0 {
        None
    } else {
        match first_function_for_item(fs.drop_last(), item) {
            Some(k) => Some(k),
            None => if fs.last().item == item {
                Some(fs.len() - 1)
            } else {
                None
            },
        }
    }
}

/// The first index in `ls` of the local declared by statement `stmt`.
pub open spec fn first_local_for_stmt(ls: Seq<LocalSymbolView>, stmt: StmtId) -> Option<int>
    decreases ls.len(),
{
    if ls.len() == 0 {
        None
    } else {
        match first_local_for_stmt(ls.drop_last(), stmt) {
            Some(k) => Some(k),
            None => if ls.last().source == LocalSource::Stmt(stmt) {
                Some(ls.len() - 1)
            } else {
                None
            },
        }
    }
}

/// The function symbol found for `item` is the earliest declared by it:
/// `Some(k)` exactly when `fs[k]` comes from `item` and none before it does,
/// `None` exactly when none does.
pub proof fn lemma_first_function_for_item_earliest(fs: Seq<FunctionSymbolView>, item: ItemId)
    ensures
        first_function_for_item(fs, item) matches Some(k) ==> {
            &&& 0 <= k < fs.len()
            &&& fs[k].item == item
            &&& forall|j: int| 0 <= j < k ==> #[trigger] fs[j].item != item
        },
        first_function_for_item(fs, item) is None ==> forall|j: int| 0 <= j < fs.len() ==> #[trigger] fs[j].item != item,
    decreases fs.len(),
{
    if fs.len() > 0 {
        let pre = fs.drop_last();
        lemma_first_function_for_item_earliest(pre, item);
        assert forall|j: int| 0 <= j < pre.len() implies #[trigger] fs[j] == pre[j] by {}
    }
}

/// The local symbol found for statement `stmt` is the earliest declared by
/// it: `Some(k)` exactly when `ls[k]` comes from `stmt` and none before it
/// does, `None` exactly when none does.
pub proof fn lemma_first_local_for_stmt_earliest(ls: Seq<LocalSymbolView>, stmt: StmtId)
    ensures
        first_local_for_stmt(ls, stmt) matches Some(k) ==> {
            &&& 0 <= k < ls.len()
            &&& ls[k].source == LocalSource::Stmt(stmt)
            &&& forall|j: int| 0 <= j < k ==> #[trigger] ls[j].source != LocalSource::Stmt(stmt)
        },
        first_local_for_stmt(ls, stmt) is None ==> forall|j: int|
            0 <= j < ls.len() ==> #[trigger] ls[j].source != LocalSource::Stmt(stmt),
    decreases ls.len(),
{
    if ls.len() > 0 {
        let pre = ls.drop_last();
        lemma_first_local_for_stmt_earliest(pre, stmt);
        assert forall|j: int| 0 <= j < pre.len() implies #[trigger] ls[j] == pre[j] by {}
    }
}

impl Default for Symbols {
    fn default() -> (r: Self)
        ensures
            r.functions@.len() == 0,
            r.locals@.len() == 0,
    {
        Symbols { functions: Vec::new(), locals: Vec::new() }
    }
}

impl Symbols {
    pub fn function(&self, id: FunctionId) -> (r: &FunctionSymbol)
        requires
            id.0 < self.functions@.len(),
        ensures
            *r == self.functions@[id.0 as int],
    {
        &self.functions[id.0]
    }

    pub fn local(&self, id: LocalId) -> (r: &LocalSymbol)
        requires
            id.0 < self.locals@.len(),
        ensures
            *r == self.locals@[id.0 as int],
    {
        &self.locals[id.0]
    }

    /// The first function declared by `item`.
    pub fn function_id_for_item(&self, item: ItemId) -> (r: Option<FunctionId>)
        ensures
            r == (match first_function_for_item(function_views(self.functions@), item) {
                Some(k) => Some(FunctionId(k as usize)),
                None => None,
            }),
    {
        let ghost vs = function_views(self.functions@);
        let mut k: usize = 0;
        while k < self.functions.len()
            invariant
                k <= self.functions@.len(),
                vs == function_views(self.functions@),
                first_function_for_item(vs.take(k as int), item) is None,
            decreases self.functions@.len() - k,
        {
            assert(vs.take(k + 1).drop_last() =~= vs.take(k as int));
            if self.functions[k].item == item {
                proof {
                    lemma_first_function_for_item_prefix(vs, item, k as int);
                }
                return Some(FunctionId(k));
            }
            k = k + 1;
        }
        assert(vs.take(k as int) =~= vs);
        None
    }

    /// The first local declared by statement `stmt`.
    pub fn local_id_for_stmt(&self, stmt: StmtId) -> (r: Option<LocalId>)
        ensures
            r == (match first_local_for_stmt(local_views(self.locals@), stmt) {
                Some(k) => Some(LocalId(k as usize)),
                None => None,
            }),
    {
        let ghost vs = local_views(self.locals@);
        let mut k: usize = 0;
        while k < self.locals.len()
            invariant
                k <= self.locals@.len(),
                vs == local_views(self.locals@),
                first_local_for_stmt(vs.take(k as int), stmt) is None,
            decreases self.locals@.len() - k,
        {
            assert(vs.take(k + 1).drop_last() =~= vs.take(k as int));
            let found = match self.locals[k].source {
                LocalSource::Stmt(s) => s == stmt,
                _ => false,
            };
            if found {
                proof {
                    lemma_first_local_for_stmt_prefix(vs, stmt, k as int);
                }
                return Some(LocalId(k));
            }
            k = k + 1;
        }
        assert(vs.take(k as int) =~= vs);
        None
    }
}

/// When the first `k + 1` functions hold the first one declared by `item` at `k`,
/// so do all of them.
proof fn lemma_first_function_for_item_prefix(fs: Seq<FunctionSymbolView>, item: ItemId, k: int)
    requires
        0 <= k < fs.len(),
        first_function_for_item(fs.take(k), item) is None,
        fs[k].item == item,
    ensures
        first_function_for_item(fs, item) == Some(k),
    decreases fs.len(),
{
    if fs.len() == k + 1 {
        assert(fs.drop_last() =~= fs.take(k));
    } else {
        assert(fs.drop_last().take(k) =~= fs.take(k));
        lemma_first_function_for_item_prefix(fs.drop_last(), item, k);
    }
}

proof fn lemma_first_local_for_stmt_prefix(ls: Seq<LocalSymbolView>, stmt: StmtId, k: int)
    requires
        0 <= k < ls.len(),
        first_local_for_stmt(ls.take(k), stmt) is None,
        ls[k].source == LocalSource::Stmt(stmt),
    ensures
        first_local_for_stmt(ls, stmt) == Some(k),
    decreases ls.len(),
{
    if ls.len() == k + 1 {
        assert(ls.drop_last() =~= ls.take(k));
    } else {
        assert(ls.drop_last().take(k) =~= ls.take(k));
        lemma_first_local_for_stmt_prefix(ls.drop_last(), stmt, k);
    }
}

#[derive(Debug, Clone, PartialEq, Eq)]
pub struct FunctionSymbol {
    pub name: Ident,
    pub item: ItemId,
}

#[derive(Debug, Clone, PartialEq, Eq)]
pub struct LocalSymbol {
    pub name: Ident,
    pub kind: BindingKind,
    pub source: LocalSource,
}

/// Where a local was declared: a parameter of an item, or a statement.
#[derive(Debug, Clone, PartialEq, Eq, Structural)]
pub enum LocalSource {
    Param { item: ItemId, index: usize },
    Stmt(StmtId),
}

/// For each expression of the arena, the symbol its name refers to, if any.
#[derive(Debug, Clone, PartialEq, Eq)]
pub struct ResolvedNames {
    pub exprs: Vec<Option<ResolvedName>>,
}

impl ResolvedNames {
    fn new(expr_count: usize) -> (r: Self)
        ensures
            r.exprs@ == Seq::new(expr_count as nat, |i: int| None::<ResolvedName>),
    {
        let mut exprs: Vec<Option<ResolvedName>> = Vec::new();
        let mut k: usize = 0;
        while k < expr_count
            invariant
                k <= expr_count,
                exprs@ == Seq::new(k as nat, |i: int| None::<ResolvedName>),
            decreases expr_count - k,
        {
            exprs.push(None);
            k = k + 1;
            assert(exprs@ =~= Seq::new(k as nat, |i: int| None::<ResolvedName>));
        }
        ResolvedNames { exprs }
    }

    /// What the expression `id` refers to; `None` for an id out of range.
    pub fn expr(&self, id: ExprId) -> (r: Option<ResolvedName>)
        ensures
            r == (if id.0 < self.exprs@.len() {
                self.exprs@[id.0 as int]
            } else {
                None
            }),
    {
        if id.0 < self.exprs.len() {
            self.exprs[id.0]
        } else {
            None
        }
    }

    fn set_expr(&mut self, id: ExprId, resolution: ResolvedName)
        ensures
            final(self).exprs@ == set_resolution(old(self).exprs@, id, resolution),
    {
        if id.0 < self.exprs.len() {
            self.exprs.set(id.0, Some(resolution));
        }
    }
}

/// `names` with the entry of `id`, when it exists, set to `r`.
pub open spec fn set_resolution(names: Seq<Option<ResolvedName>>, id: ExprId, r: ResolvedName) -> Seq<Option<ResolvedName>> {
    if id.0 < names.len() {
        names.update(id.0 as int, Some(r))
    } else {
        names
    }
}

#[derive(Debug, Clone, Copy, PartialEq, Eq, Structural)]
pub enum ResolvedName {
    Function(FunctionId),
    Local(LocalId),
}

#[derive(Debug, Clone, Copy, PartialEq, Eq, Hash, Structural)]
pub struct FunctionId(pub usize);

impl FunctionId {
    pub fn index(self) -> (r: usize)
        ensures
            r == self.0,
    {
        self.0
    }
}

#[derive(Debug, Clone, Copy, PartialEq, Eq, Hash, Structural)]
pub struct LocalId(pub usize);

impl LocalId {
    pub fn index(self) -> (r: usize)
        ensures
            r == self.0,
    {
        self.0
    }
}


impl View for FunctionSymbol {
    type V = FunctionSymbolView;

    open spec fn view(&self) -> FunctionSymbolView {
        FunctionSymbolView { name: self.name.text@, name_span: self.name.span, item: self.item }
    }
}

impl View for LocalSymbol {
    type V = LocalSymbolView;

    open spec fn view(&self) -> LocalSymbolView {
        LocalSymbolView { name: self.name.text@, name_span: self.name.span, kind: self.kind, source: self.source }
    }
}

// ---------------------------------------------------------------------------
// What resolution computes
// ---------------------------------------------------------------------------

/// The symbols, resolutions and diagnostics gathered so far.
#[verifier::ext_equal]
pub struct ResolveState {
    pub functions: Seq<FunctionSymbolView>,
    pub locals: Seq<LocalSymbolView>,
    pub names: Seq<Option<ResolvedName>>,
    pub diagnostics: Seq<DiagView>,
}

/// The note pointing back at an earlier definition.
pub open spec fn previous_note(previous: Span) -> NoteView {
    NoteView { message: "previous definition is here"@, span: Some(previous) }
}

pub open spec fn duplicate_function_diag(name: Seq<char>, span: Span, previous: Span) -> DiagView {
    DiagView {
        severity: Severity::Error,
        code: "resolve.duplicate_function"@,
        message: "function `"@ + name + "` is already defined"@,
        span,
        notes: seq![previous_note(previous)],
    }
}

pub open spec fn duplicate_local_diag(name: Seq<char>, span: Span, previous: Span) -> DiagView {
    DiagView {
        severity: Severity::Error,
        code: "resolve.duplicate_local"@,
        message: "local `"@ + name + "` is already defined in this scope"@,
        span,
        notes: seq![previous_note(previous)],
    }
}

pub open spec fn undefined_name_diag(name: Seq<char>, span: Span) -> DiagView {
    error_view("resolve.undefined_name"@, "undefined name `"@ + name + "`"@, span)
}

/// Declares a function: its symbol is always added; a name already taken by
/// an earlier function is reported, pointing at the first definition.
pub open spec fn declare_function_s(st: ResolveState, item: ItemId, name: Seq<char>, span: Span) -> ResolveState {
    let added = ResolveState {
        functions: st.functions.push(FunctionSymbolView { name, name_span: span, item }),
        ..st
    };
    match first_function(st.functions, name) {
        Some(p) => ResolveState {
            diagnostics: st.diagnostics.push(duplicate_function_diag(name, span, st.functions[p].name_span)),
            ..added
        },
        None => added,
    }
}

/// Declares `item` when it is a function.
pub open spec fn declare_item_s(ast: AstView, item: ItemId, st: ResolveState) -> ResolveState {
    match ast.items[item.0 as int].kind {
        ItemKind::Function(f) => declare_function_s(st, item, f.name.text@, f.name.span),
        ItemKind::Error(_) => st,
    }
}

/// Declares each function item among `items`, in order.
pub open spec fn declare_items_s(ast: AstView, items: Seq<ItemId>, st: ResolveState) -> ResolveState
    decreases items.len(),
{
    if items.len() == 0 {
        st
    } else {
        declare_item_s(ast, items.last(), declare_items_s(ast, items.drop_last(), st))
    }
}

/// Declares a local of the scope that starts at `scope`: its symbol is always
/// added; a name already taken in the scope is reported.
pub open spec fn declare_local_s(
    st: ResolveState,
    scope: int,
    kind: BindingKind,
    name: Seq<char>,
    span: Span,
    source: LocalSource,
) -> ResolveState {
    let added = ResolveState {
        locals: st.locals.push(LocalSymbolView { name, name_span: span, kind, source }),
        ..st
    };
    match first_local(st.locals, scope, name) {
        Some(p) => ResolveState {
            diagnostics: st.diagnostics.push(duplicate_local_diag(name, span, st.locals[p].name_span)),
            ..added
        },
        None => added,
    }
}

/// Resolves the name of expression `id`: a local of the scope first, then a
/// function; otherwise it is reported as undefined.
pub open spec fn resolve_name_s(st: ResolveState, scope: int, id: ExprId, name: Seq<char>, span: Span) -> ResolveState {
    match first_local(st.locals, scope, name) {
        Some(k) => ResolveState { names: set_resolution(st.names, id, ResolvedName::Local(LocalId(k as usize))), ..st },
        None => match first_function(st.functions, name) {
            Some(k) => ResolveState {
                names: set_resolution(st.names, id, ResolvedName::Function(FunctionId(k as usize))),
                ..st
            },
            None => ResolveState { diagnostics: st.diagnostics.push(undefined_name_diag(name, span)), ..st },
        },
    }
}

/// Resolves every name in expression `id`, left operand before right.
pub open spec fn resolve_expr_s(ast: AstView, id: ExprId, st: ResolveState, scope: int) -> ResolveState
    decreases ast.expr_rank()[id.0 as int],
{
    if id.0 >= ast.exprs.len() {
        st
    } else {
        match ast.exprs[id.0 as int].kind {
            ExprKind::Ident(name) => resolve_name_s(st, scope, id, name.text@, name.span),
            ExprKind::Unary { expr, .. } => if ast.ranked_below(expr, id) {
                resolve_expr_s(ast, expr, st, scope)
            } else {
                st
            },
            ExprKind::Binary { lhs, rhs, .. } => if ast.ranked_below(lhs, id) && ast.ranked_below(rhs, id) {
                resolve_expr_s(ast, rhs, resolve_expr_s(ast, lhs, st, scope), scope)
            } else {
                st
            },
            _ => st,
        }
    }
}

/// Resolves statement `id`: a local's initializer is resolved before the
/// local is declared.
pub open spec fn resolve_stmt_s(ast: AstView, id: StmtId, st: ResolveState, scope: int) -> ResolveState {
    match ast.stmts[id.0 as int].kind {
        StmtKind::Expr(e) => resolve_expr_s(ast, e, st, scope),
        StmtKind::Print(e) => resolve_expr_s(ast, e, st, scope),
        StmtKind::Local(l) => declare_local_s(
            resolve_expr_s(ast, l.initializer, st, scope),
            scope,
            l.kind,
            l.name.text@,
            l.name.span,
            LocalSource::Stmt(id),
        ),
        StmtKind::Error(_) => st,
    }
}

pub open spec fn resolve_stmts_s(ast: AstView, body: Seq<StmtId>, st: ResolveState, scope: int) -> ResolveState
    decreases body.len(),
{
    if body.len() == 0 {
        st
    } else {
        resolve_stmt_s(ast, body.last(), resolve_stmts_s(ast, body.drop_last(), st, scope), scope)
    }
}

/// Declares the parameters of `item` as `let` locals, in order.
pub open spec fn declare_params_s(item: ItemId, params: Seq<Param>, st: ResolveState, scope: int) -> ResolveState
    decreases params.len(),
{
    if params.len() == 0 {
        st
    } else {
        let p = params.last();
        declare_local_s(
            declare_params_s(item, params.drop_last(), st, scope),
            scope,
            BindingKind::Let,
            p.name.text@,
            p.name.span,
            LocalSource::Param { item, index: (params.len() - 1) as usize },
        )
    }
}

/// Resolves a function item in a fresh scope: parameters, then body.
pub open spec fn resolve_item_s(ast: AstView, item: ItemId, st: ResolveState) -> ResolveState {
    match ast.items[item.0 as int].kind {
        ItemKind::Function(f) => {
            let scope = st.locals.len() as int;
            resolve_stmts_s(ast, f.body@, declare_params_s(item, f.params@, st, scope), scope)
        },
        ItemKind::Error(_) => st,
    }
}

pub open spec fn resolve_items_s(ast: AstView, items: Seq<ItemId>, st: ResolveState) -> ResolveState
    decreases items.len(),
{
    if items.len() == 0 {
        st
    } else {
        resolve_item_s(ast, items.last(), resolve_items_s(ast, items.drop_last(), st))
    }
}

/// Nothing declared, nothing resolved, for an arena of `n` expressions.
pub open spec fn initial_state(n: nat) -> ResolveState {
    ResolveState {
        functions: seq![],
        locals: seq![],
        names: Seq::new(n, |i: int| None::<ResolvedName>),
        diagnostics: seq![],
    }
}

/// Resolution of a whole arena: every function of the root module is
/// declared first, then each item is resolved in order.
pub open spec fn resolve_spec(ast: AstView) -> ResolveState {
    let init = initial_state(ast.exprs.len());
    match ast.root {
        None => init,
        Some(m) => {
            let items = ast.modules[m.0 as int].items@;
            resolve_items_s(ast, items, declare_items_s(ast, items, init))
        },
    }
}

// ---------------------------------------------------------------------------
// What resolution declares, and what it resolves names to
// ---------------------------------------------------------------------------

/// The function symbols that `items` declare: one per function item, in order.
pub open spec fn function_symbols_of(ast: AstView, items: Seq<ItemId>) -> Seq<FunctionSymbolView>
    decreases items.len(),
{
    if items.len() == 0 {
        seq![]
    } else {
        let before = function_symbols_of(ast, items.drop_last());
        match ast.items[items.last().0 as int].kind {
            ItemKind::Function(f) => before.push(
                FunctionSymbolView { name: f.name.text@, name_span: f.name.span, item: items.last() },
            ),
            ItemKind::Error(_) => before,
        }
    }
}

/// The `let` locals that the parameters of `item` declare, in order.
pub open spec fn param_locals(item: ItemId, params: Seq<Param>) -> Seq<LocalSymbolView> {
    Seq::new(
        params.len(),
        |i: int|
            LocalSymbolView {
                name: params[i].name.text@,
                name_span: params[i].name.span,
                kind: BindingKind::Let,
                source: LocalSource::Param { item, index: i as usize },
            },
    )
}

/// The local that statement `id` declares, if it is a local statement.
pub open spec fn stmt_locals(ast: AstView, id: StmtId) -> Seq<LocalSymbolView> {
    match ast.stmts[id.0 as int].kind {
        StmtKind::Local(l) => seq![
            LocalSymbolView {
                name: l.name.text@,
                name_span: l.name.span,
                kind: l.kind,
                source: LocalSource::Stmt(id),
            },
        ],
        _ => seq![],
    }
}

pub open spec fn stmts_locals(ast: AstView, body: Seq<StmtId>) -> Seq<LocalSymbolView>
    decreases body.len(),
{
    if body.len() == 0 {
        seq![]
    } else {
        stmts_locals(ast, body.drop_last()) + stmt_locals(ast, body.last())
    }
}

/// The locals of a function item: its parameters, then its local statements.
pub open spec fn item_locals(ast: AstView, item: ItemId) -> Seq<LocalSymbolView> {
    match ast.items[item.0 as int].kind {
        ItemKind::Function(f) => param_locals(item, f.params@) + stmts_locals(ast, f.body@),
        ItemKind::Error(_) => seq![],
    }
}

pub open spec fn items_locals(ast: AstView, items: Seq<ItemId>) -> Seq<LocalSymbolView>
    decreases items.len(),
{
    if items.len() == 0 {
        seq![]
    } else {
        items_locals(ast, items.drop_last()) + item_locals(ast, items.last())
    }
}

/// The items of the root module, none without a root.
pub open spec fn root_items(ast: AstView) -> Seq<ItemId> {
    match ast.root {
        Some(m) => ast.modules[m.0 as int].items@,
        None => seq![],
    }
}

/// Resolution `r` recorded for expression `e` names a symbol that exists and
/// carries the text of the identifier `e` is.
pub open spec fn resolution_ok(ast: AstView, st: ResolveState, e: int, r: Option<ResolvedName>) -> bool {
    match r {
        None => true,
        Some(ResolvedName::Local(l)) => {
            &&& l.0 < st.locals.len()
            &&& ast.exprs[e].kind matches ExprKind::Ident(n) && st.locals[l.0 as int].name == n.text@
        },
        Some(ResolvedName::Function(f)) => {
            &&& f.0 < st.functions.len()
            &&& ast.exprs[e].kind matches ExprKind::Ident(n) && st.functions[f.0 as int].name == n.text@
        },
    }
}

/// One entry per expression, each naming a symbol with the identifier's text.
pub open spec fn resolutions_sound(ast: AstView, st: ResolveState) -> bool {
    &&& st.names.len() == ast.exprs.len()
    &&& forall|e: int| 0 <= e < st.names.len() ==> #[trigger] resolution_ok(ast, st, e, st.names[e])
}

/// Adding symbols keeps every recorded resolution sound.
proof fn lemma_sound_grow(ast: AstView, a: ResolveState, b: ResolveState)
    requires
        resolutions_sound(ast, a),
        b.names == a.names,
        a.functions.len() <= b.functions.len(),
        a.locals.len() <= b.locals.len(),
        forall|k: int| 0 <= k < a.functions.len() ==> b.functions[k] == a.functions[k],
        forall|k: int| 0 <= k < a.locals.len() ==> b.locals[k] == a.locals[k],
    ensures
        resolutions_sound(ast, b),
{
    assert forall|e: int| 0 <= e < b.names.len() implies #[trigger] resolution_ok(ast, b, e, b.names[e]) by {
        assert(resolution_ok(ast, a, e, a.names[e]));
        match a.names[e] {
            Some(ResolvedName::Local(l)) => assert(b.locals[l.0 as int] == a.locals[l.0 as int]),
            Some(ResolvedName::Function(f)) => assert(b.functions[f.0 as int] == a.functions[f.0 as int]),
            None => {},
        }
    }
}

proof fn lemma_declare_local(st: ResolveState, scope: int, kind: BindingKind, name: Seq<char>, span: Span, source: LocalSource)
    ensures
        declare_local_s(st, scope, kind, name, span, source).functions == st.functions,
        declare_local_s(st, scope, kind, name, span, source).locals == st.locals + seq![
            LocalSymbolView { name, name_span: span, kind, source },
        ],
        declare_local_s(st, scope, kind, name, span, source).names == st.names,
{
    assert(st.locals.push(LocalSymbolView { name, name_span: span, kind, source }) =~= st.locals + seq![
        LocalSymbolView { name, name_span: span, kind, source },
    ]);
}

proof fn lemma_resolve_name(ast: AstView, st: ResolveState, scope: int, id: ExprId, name: Seq<char>, span: Span)
    requires
        id.0 < ast.exprs.len(),
        ast.exprs[id.0 as int].kind matches ExprKind::Ident(n) && n.text@ == name,
    ensures
        resolve_name_s(st, scope, id, name, span).functions == st.functions,
        resolve_name_s(st, scope, id, name, span).names.len() == st.names.len(),
        resolve_name_s(st, scope, id, name, span).locals == st.locals,
        resolutions_sound(ast, st) && st.functions.len() <= usize::MAX && st.locals.len() <= usize::MAX
            ==> resolutions_sound(ast, resolve_name_s(st, scope, id, name, span)),
{
    lemma_first_local_found(st.locals, scope, name);
    lemma_first_function_found(st.functions, name);
    let out = resolve_name_s(st, scope, id, name, span);
    if resolutions_sound(ast, st) && st.functions.len() <= usize::MAX && st.locals.len() <= usize::MAX {
        assert forall|e: int| 0 <= e < out.names.len() implies #[trigger] resolution_ok(ast, out, e, out.names[e]) by {
            if e != id.0 {
                assert(resolution_ok(ast, st, e, st.names[e]));
                assert(out.names[e] == st.names[e]);
            } else {
                match first_local(st.locals, scope, name) {
                    Some(k) => {
                        assert(out.names[e] == Some(ResolvedName::Local(LocalId(k as usize))));
                    },
                    None => match first_function(st.functions, name) {
                        Some(k) => {
                            assert(out.names[e] == Some(ResolvedName::Function(FunctionId(k as usize))));
                        },
                        None => {
                            assert(resolution_ok(ast, st, e, st.names[e]));
                        },
                    },
                }
            }
        }
    }
}

proof fn lemma_resolve_expr(ast: AstView, id: ExprId, st: ResolveState, scope: int)
    ensures
        resolve_expr_s(ast, id, st, scope).functions == st.functions,
        resolve_expr_s(ast, id, st, scope).names.len() == st.names.len(),
        resolve_expr_s(ast, id, st, scope).locals == st.locals,
        resolutions_sound(ast, st) && st.functions.len() <= usize::MAX && st.locals.len() <= usize::MAX
            ==> resolutions_sound(ast, resolve_expr_s(ast, id, st, scope)),
    decreases ast.expr_rank()[id.0 as int],
{
    if id.0 < ast.exprs.len() {
        match ast.exprs[id.0 as int].kind {
            ExprKind::Ident(name) => lemma_resolve_name(ast, st, scope, id, name.text@, name.span),
            ExprKind::Unary { expr, .. } => if ast.ranked_below(expr, id) {
                lemma_resolve_expr(ast, expr, st, scope);
            },
            ExprKind::Binary { lhs, rhs, .. } => if ast.ranked_below(lhs, id) && ast.ranked_below(rhs, id) {
                lemma_resolve_expr(ast, lhs, st, scope);
                lemma_resolve_expr(ast, rhs, resolve_expr_s(ast, lhs, st, scope), scope);
            },
            _ => {},
        }
    }
}

/// Expression `e` is `id` or lies inside it: under the operand of a unary
/// expression or under either operand of a binary one.
pub open spec fn occurs_in(ast: AstView, e: ExprId, id: ExprId) -> bool
    decreases ast.expr_rank()[id.0 as int],
{
    if id.0 >= ast.exprs.len() {
        false
    } else if e == id {
        true
    } else {
        match ast.exprs[id.0 as int].kind {
            ExprKind::Unary { expr, .. } => ast.ranked_below(expr, id) && occurs_in(ast, e, expr),
            ExprKind::Binary { lhs, rhs, .. } => ast.ranked_below(lhs, id) && ast.ranked_below(rhs, id) && (
            occurs_in(ast, e, lhs) || occurs_in(ast, e, rhs)),
            _ => false,
        }
    }
}

/// In a well-formed arena an expression occurs in itself, and what occurs in
/// an operand occurs in the expression.
pub proof fn lemma_occurs_in_operands(ast: AstView, e: ExprId, id: ExprId)
    requires
        ast.refs_acyclic(),
        id.0 < ast.exprs.len(),
    ensures
        occurs_in(ast, id, id),
        ast.exprs[id.0 as int].kind matches ExprKind::Unary { expr, .. } ==> (occurs_in(ast, e, expr) ==> occurs_in(
            ast,
            e,
            id,
        )),
        ast.exprs[id.0 as int].kind matches ExprKind::Binary { lhs, rhs, .. } ==> (occurs_in(ast, e, lhs)
            || occurs_in(ast, e, rhs) ==> occurs_in(ast, e, id)),
{
    lemma_ranked(ast, id);
}

/// What name `name` resolves to in the scope that starts at `scope`.
spec fn lookup_s(st: ResolveState, scope: int, name: Seq<char>) -> Option<ResolvedName> {
    match first_local(st.locals, scope, name) {
        Some(k) => Some(ResolvedName::Local(LocalId(k as usize))),
        None => match first_function(st.functions, name) {
            Some(k) => Some(ResolvedName::Function(FunctionId(k as usize))),
            None => None,
        },
    }
}

/// `r` is what identifier `e` resolves to in the scope at `scope`.
spec fn set_by_lookup(ast: AstView, st: ResolveState, scope: int, e: int, r: Option<ResolvedName>) -> bool {
    &&& 0 <= e < ast.exprs.len()
    &&& r is Some
    &&& match ast.exprs[e].kind {
        ExprKind::Ident(n) => r == lookup_s(st, scope, n.text@),
        _ => false,
    }
}

/// Resolving an expression keeps every earlier diagnostic, and changes an
/// entry of `names` only by setting it to what its identifier resolves to.
proof fn lemma_resolve_expr_keeps(ast: AstView, id: ExprId, st: ResolveState, scope: int)
    ensures
        ({
            let out = resolve_expr_s(ast, id, st, scope);
            &&& out.diagnostics.len() >= st.diagnostics.len()
            &&& forall|k: int| 0 <= k < st.diagnostics.len() ==> #[trigger] out.diagnostics[k] == st.diagnostics[k]
            &&& forall|e: int|
                0 <= e < st.names.len() ==> #[trigger] out.names[e] == st.names[e] || set_by_lookup(
                    ast,
                    st,
                    scope,
                    e,
                    out.names[e],
                )
        }),
    decreases ast.expr_rank()[id.0 as int],
{
    if id.0 < ast.exprs.len() {
        match ast.exprs[id.0 as int].kind {
            ExprKind::Ident(name) => {},
            ExprKind::Unary { expr, .. } => if ast.ranked_below(expr, id) {
                lemma_resolve_expr_keeps(ast, expr, st, scope);
            },
            ExprKind::Binary { lhs, rhs, .. } => if ast.ranked_below(lhs, id) && ast.ranked_below(rhs, id) {
                lemma_resolve_expr_keeps(ast, lhs, st, scope);
                lemma_resolve_expr(ast, lhs, st, scope);
                let mid = resolve_expr_s(ast, lhs, st, scope);
                lemma_resolve_expr_keeps(ast, rhs, mid, scope);
                let out = resolve_expr_s(ast, rhs, mid, scope);
                assert forall|e: int| 0 <= e < st.names.len() implies #[trigger] out.names[e] == st.names[e] || set_by_lookup(
                    ast,
                    st,
                    scope,
                    e,
                    out.names[e],
                ) by {
                    assert(mid.names[e] == st.names[e] || set_by_lookup(ast, st, scope, e, mid.names[e]));
                    assert(out.names[e] == mid.names[e] || set_by_lookup(ast, mid, scope, e, out.names[e]));
                }
                assert forall|k: int| 0 <= k < st.diagnostics.len() implies #[trigger] out.diagnostics[k]
                    == st.diagnostics[k] by {
                    assert(mid.diagnostics[k] == st.diagnostics[k]);
                }
            },
            _ => {},
        }
    }
}

/// Every identifier that occurs in an expression is resolved or reported:
/// after resolving `id`, an identifier `e` inside it has a resolution or an
/// undefined-name error at its span. A local of the scope with its name, the
/// first one declared, wins; with none, the first function with its name.
pub proof fn lemma_resolve_expr_complete(ast: AstView, id: ExprId, st: ResolveState, scope: int, e: ExprId)
    requires
        occurs_in(ast, e, id),
        ast.exprs[e.0 as int].kind is Ident,
        e.0 < st.names.len(),
    ensures
        ({
            let out = resolve_expr_s(ast, id, st, scope);
            let n = ast.exprs[e.0 as int].kind->Ident_0;
            &&& out.names[e.0 as int] is Some || out.diagnostics.contains(undefined_name_diag(n.text@, n.span))
            &&& first_local(st.locals, scope, n.text@) matches Some(k) ==> out.names[e.0 as int] == Some(
                ResolvedName::Local(LocalId(k as usize)),
            )
            &&& first_local(st.locals, scope, n.text@) is None ==> (first_function(st.functions, n.text@) matches Some(
                k,
            ) ==> out.names[e.0 as int] == Some(ResolvedName::Function(FunctionId(k as usize))))
        }),
    decreases ast.expr_rank()[id.0 as int],
{
    let n = ast.exprs[e.0 as int].kind->Ident_0;
    let out = resolve_expr_s(ast, id, st, scope);
    if e == id {
        if out.names[e.0 as int] is None {
            let d = undefined_name_diag(n.text@, n.span);
            assert(out.diagnostics.last() == d);
            assert(out.diagnostics[out.diagnostics.len() - 1] == d);
        }
    } else {
        match ast.exprs[id.0 as int].kind {
            ExprKind::Unary { expr, .. } => {
                lemma_resolve_expr_complete(ast, expr, st, scope, e);
            },
            ExprKind::Binary { lhs, rhs, .. } => {
                lemma_resolve_expr(ast, lhs, st, scope);
                let mid = resolve_expr_s(ast, lhs, st, scope);
                if occurs_in(ast, e, lhs) {
                    lemma_resolve_expr_complete(ast, lhs, st, scope, e);
                    lemma_resolve_expr_keeps(ast, rhs, mid, scope);
                    assert(out.names[e.0 as int] == mid.names[e.0 as int] || set_by_lookup(
                        ast,
                        mid,
                        scope,
                        e.0 as int,
                        out.names[e.0 as int],
                    ));
                    if out.names[e.0 as int] is None {
                        let d = undefined_name_diag(n.text@, n.span);
                        let j = choose|j: int| 0 <= j < mid.diagnostics.len() && mid.diagnostics[j] == d;
                        assert(out.diagnostics[j] == d);
                    }
                } else {
                    lemma_resolve_expr_complete(ast, rhs, mid, scope, e);
                }
            },
            _ => {},
        }
    }
}

/// The expression of statement `id`: what an expression or print statement
/// evaluates, or a local's initializer.
pub open spec fn stmt_expr(ast: AstView, id: StmtId) -> Option<ExprId> {
    match ast.stmts[id.0 as int].kind {
        StmtKind::Expr(e) => Some(e),
        StmtKind::Print(e) => Some(e),
        StmtKind::Local(l) => Some(l.initializer),
        StmtKind::Error(_) => None,
    }
}

/// Every identifier in a statement is resolved or reported, as in an
/// expression, against the locals declared before the statement: a local's
/// own name is not yet in scope in its initializer.
pub proof fn lemma_resolve_stmt_complete(ast: AstView, id: StmtId, st: ResolveState, scope: int, e: ExprId)
    requires
        stmt_expr(ast, id) matches Some(x) && occurs_in(ast, e, x),
        ast.exprs[e.0 as int].kind is Ident,
        e.0 < st.names.len(),
    ensures
        ({
            let out = resolve_stmt_s(ast, id, st, scope);
            let n = ast.exprs[e.0 as int].kind->Ident_0;
            &&& out.names[e.0 as int] is Some || out.diagnostics.contains(undefined_name_diag(n.text@, n.span))
            &&& first_local(st.locals, scope, n.text@) matches Some(k) ==> out.names[e.0 as int] == Some(
                ResolvedName::Local(LocalId(k as usize)),
            )
            &&& first_local(st.locals, scope, n.text@) is None ==> (first_function(st.functions, n.text@) matches Some(
                k,
            ) ==> out.names[e.0 as int] == Some(ResolvedName::Function(FunctionId(k as usize))))
        }),
{
    let x = stmt_expr(ast, id)->Some_0;
    let n = ast.exprs[e.0 as int].kind->Ident_0;
    lemma_resolve_expr_complete(ast, x, st, scope, e);
    let mid = resolve_expr_s(ast, x, st, scope);
    if let StmtKind::Local(l) = ast.stmts[id.0 as int].kind {
        let out = resolve_stmt_s(ast, id, st, scope);
        lemma_declare_local(mid, scope, l.kind, l.name.text@, l.name.span, LocalSource::Stmt(id));
        if out.names[e.0 as int] is None {
            let d = undefined_name_diag(n.text@, n.span);
            let j = choose|j: int| 0 <= j < mid.diagnostics.len() && mid.diagnostics[j] == d;
            assert(out.diagnostics[j] == d);
        }
    }
}

proof fn lemma_resolve_stmt(ast: AstView, id: StmtId, st: ResolveState, scope: int)
    ensures
        resolve_stmt_s(ast, id, st, scope).functions == st.functions,
        resolve_stmt_s(ast, id, st, scope).names.len() == st.names.len(),
        resolve_stmt_s(ast, id, st, scope).locals == st.locals + stmt_locals(ast, id),
        resolutions_sound(ast, st) && st.functions.len() <= usize::MAX && st.locals.len() <= usize::MAX
            ==> resolutions_sound(ast, resolve_stmt_s(ast, id, st, scope)),
{
    match ast.stmts[id.0 as int].kind {
        StmtKind::Expr(e) => {
            lemma_resolve_expr(ast, e, st, scope);
            assert(st.locals + seq![] =~= st.locals);
        },
        StmtKind::Print(e) => {
            lemma_resolve_expr(ast, e, st, scope);
            assert(st.locals + seq![] =~= st.locals);
        },
        StmtKind::Local(l) => {
            lemma_resolve_expr(ast, l.initializer, st, scope);
            let mid = resolve_expr_s(ast, l.initializer, st, scope);
            let sym = LocalSymbolView { name: l.name.text@, name_span: l.name.span, kind: l.kind, source: LocalSource::Stmt(id) };
            lemma_declare_local(mid, scope, l.kind, l.name.text@, l.name.span, LocalSource::Stmt(id));
            if resolutions_sound(ast, st) && st.functions.len() <= usize::MAX && st.locals.len() <= usize::MAX {
                lemma_sound_grow(ast, mid, resolve_stmt_s(ast, id, st, scope));
            }
        },
        StmtKind::Error(_) => {
            assert(st.locals + seq![] =~= st.locals);
        },
    }
}

proof fn lemma_resolve_stmts(ast: AstView, body: Seq<StmtId>, st: ResolveState, scope: int)
    ensures
        resolve_stmts_s(ast, body, st, scope).functions == st.functions,
        resolve_stmts_s(ast, body, st, scope).names.len() == st.names.len(),
        resolve_stmts_s(ast, body, st, scope).locals == st.locals + stmts_locals(ast, body),
        resolutions_sound(ast, st) && st.functions.len() <= usize::MAX && st.locals.len() + stmts_locals(ast, body).len()
            <= usize::MAX ==> resolutions_sound(ast, resolve_stmts_s(ast, body, st, scope)),
    decreases body.len(),
{
    if body.len() == 0 {
        assert(st.locals + seq![] =~= st.locals);
    } else {
        lemma_resolve_stmts(ast, body.drop_last(), st, scope);
        let mid = resolve_stmts_s(ast, body.drop_last(), st, scope);
        lemma_resolve_stmt(ast, body.last(), mid, scope);
        assert(st.locals + stmts_locals(ast, body.drop_last()) + stmt_locals(ast, body.last()) =~= st.locals
            + stmts_locals(ast, body));
    }
}

proof fn lemma_declare_params(item: ItemId, params: Seq<Param>, st: ResolveState, scope: int)
    ensures
        declare_params_s(item, params, st, scope).functions == st.functions,
        declare_params_s(item, params, st, scope).locals == st.locals + param_locals(item, params),
        declare_params_s(item, params, st, scope).names == st.names,
    decreases params.len(),
{
    if params.len() == 0 {
        assert(st.locals + param_locals(item, params) =~= st.locals);
    } else {
        lemma_declare_params(item, params.drop_last(), st, scope);
        let mid = declare_params_s(item, params.drop_last(), st, scope);
        let p = params.last();
        lemma_declare_local(
            mid,
            scope,
            BindingKind::Let,
            p.name.text@,
            p.name.span,
            LocalSource::Param { item, index: (params.len() - 1) as usize },
        );
        assert(param_locals(item, params.drop_last()) + seq![
            LocalSymbolView {
                name: p.name.text@,
                name_span: p.name.span,
                kind: BindingKind::Let,
                source: LocalSource::Param { item, index: (params.len() - 1) as usize },
            },
        ] =~= param_locals(item, params));
        assert(st.locals + param_locals(item, params.drop_last()) + param_locals(item, params).subrange(
            params.len() - 1,
            params.len() as int,
        ) =~= st.locals + param_locals(item, params));
    }
}

proof fn lemma_resolve_item(ast: AstView, item: ItemId, st: ResolveState)
    ensures
        resolve_item_s(ast, item, st).functions == st.functions,
        resolve_item_s(ast, item, st).names.len() == st.names.len(),
        resolve_item_s(ast, item, st).locals == st.locals + item_locals(ast, item),
        resolutions_sound(ast, st) && st.functions.len() <= usize::MAX && st.locals.len() + item_locals(ast, item).len()
            <= usize::MAX ==> resolutions_sound(ast, resolve_item_s(ast, item, st)),
{
    match ast.items[item.0 as int].kind {
        ItemKind::Function(f) => {
            let scope = st.locals.len() as int;
            lemma_declare_params(item, f.params@, st, scope);
            let mid = declare_params_s(item, f.params@, st, scope);
            lemma_resolve_stmts(ast, f.body@, mid, scope);
            if resolutions_sound(ast, st) {
                lemma_sound_grow(ast, st, mid);
            }
            assert(item_locals(ast, item).len() == param_locals(item, f.params@).len() + stmts_locals(ast, f.body@).len());
            assert(st.locals + param_locals(item, f.params@) + stmts_locals(ast, f.body@) =~= st.locals + item_locals(
                ast,
                item,
            ));
        },
        ItemKind::Error(_) => {
            assert(st.locals + seq![] =~= st.locals);
        },
    }
}

proof fn lemma_resolve_items(ast: AstView, items: Seq<ItemId>, st: ResolveState)
    ensures
        resolve_items_s(ast, items, st).functions == st.functions,
        resolve_items_s(ast, items, st).names.len() == st.names.len(),
        resolve_items_s(ast, items, st).locals == st.locals + items_locals(ast, items),
        resolutions_sound(ast, st) && st.functions.len() <= usize::MAX && st.locals.len() + items_locals(ast, items).len()
            <= usize::MAX ==> resolutions_sound(ast, resolve_items_s(ast, items, st)),
    decreases items.len(),
{
    if items.len() == 0 {
        assert(st.locals + seq![] =~= st.locals);
    } else {
        lemma_resolve_items(ast, items.drop_last(), st);
        let mid = resolve_items_s(ast, items.drop_last(), st);
        lemma_resolve_item(ast, items.last(), mid);
        assert(st.locals + items_locals(ast, items.drop_last()) + item_locals(ast, items.last()) =~= st.locals
            + items_locals(ast, items));
    }
}

proof fn lemma_declare_items(ast: AstView, items: Seq<ItemId>, st: ResolveState)
    ensures
        declare_items_s(ast, items, st).functions == st.functions + function_symbols_of(ast, items),
        declare_items_s(ast, items, st).locals == st.locals,
        declare_items_s(ast, items, st).names == st.names,
    decreases items.len(),
{
    if items.len() == 0 {
        assert(st.functions + seq![] =~= st.functions);
    } else {
        lemma_declare_items(ast, items.drop_last(), st);
        match ast.items[items.last().0 as int].kind {
            ItemKind::Function(f) => {
                assert((st.functions + function_symbols_of(ast, items.drop_last())).push(
                    FunctionSymbolView { name: f.name.text@, name_span: f.name.span, item: items.last() },
                ) =~= st.functions + function_symbols_of(ast, items));
            },
            ItemKind::Error(_) => {},
        }
    }
}

/// `b` comes from `a` by resolving more: the same number of entries, every
/// resolved entry still resolved, every diagnostic of `a` kept in place.
spec fn grows(a: ResolveState, b: ResolveState) -> bool {
    &&& b.names.len() == a.names.len()
    &&& forall|e: int| 0 <= e < a.names.len() && a.names[e] is Some ==> #[trigger] b.names[e] is Some
    &&& b.diagnostics.len() >= a.diagnostics.len()
    &&& forall|k: int| 0 <= k < a.diagnostics.len() ==> #[trigger] b.diagnostics[k] == a.diagnostics[k]
}

/// Entry `e` is resolved, or diagnostic `d` was reported.
spec fn resolved_or_reported(st: ResolveState, e: int, d: DiagView) -> bool {
    st.names[e] is Some || st.diagnostics.contains(d)
}

proof fn lemma_grows_keeps(a: ResolveState, b: ResolveState, e: int, d: DiagView)
    requires
        grows(a, b),
        0 <= e < a.names.len(),
        resolved_or_reported(a, e, d),
    ensures
        resolved_or_reported(b, e, d),
{
    if a.names[e] is None {
        let j = choose|j: int| 0 <= j < a.diagnostics.len() && a.diagnostics[j] == d;
        assert(b.diagnostics[j] == d);
    }
}

proof fn lemma_grows_trans(a: ResolveState, b: ResolveState, c: ResolveState)
    requires
        grows(a, b),
        grows(b, c),
    ensures
        grows(a, c),
{
    assert forall|e: int| 0 <= e < a.names.len() && a.names[e] is Some implies #[trigger] c.names[e] is Some by {
        assert(b.names[e] is Some);
    }
    assert forall|k: int| 0 <= k < a.diagnostics.len() implies #[trigger] c.diagnostics[k] == a.diagnostics[k] by {
        assert(b.diagnostics[k] == a.diagnostics[k]);
    }
}

proof fn lemma_grows_expr(ast: AstView, id: ExprId, st: ResolveState, scope: int)
    ensures
        grows(st, resolve_expr_s(ast, id, st, scope)),
{
    lemma_resolve_expr(ast, id, st, scope);
    lemma_resolve_expr_keeps(ast, id, st, scope);
    let out = resolve_expr_s(ast, id, st, scope);
    assert forall|e: int| 0 <= e < st.names.len() && st.names[e] is Some implies #[trigger] out.names[e] is Some by {
        assert(out.names[e] == st.names[e] || set_by_lookup(ast, st, scope, e, out.names[e]));
    }
}

proof fn lemma_grows_local(st: ResolveState, scope: int, kind: BindingKind, name: Seq<char>, span: Span, source: LocalSource)
    ensures
        grows(st, declare_local_s(st, scope, kind, name, span, source)),
{
}

proof fn lemma_grows_stmt(ast: AstView, id: StmtId, st: ResolveState, scope: int)
    ensures
        grows(st, resolve_stmt_s(ast, id, st, scope)),
{
    match ast.stmts[id.0 as int].kind {
        StmtKind::Expr(e) => lemma_grows_expr(ast, e, st, scope),
        StmtKind::Print(e) => lemma_grows_expr(ast, e, st, scope),
        StmtKind::Local(l) => {
            lemma_grows_expr(ast, l.initializer, st, scope);
            let mid = resolve_expr_s(ast, l.initializer, st, scope);
            lemma_grows_local(mid, scope, l.kind, l.name.text@, l.name.span, LocalSource::Stmt(id));
            lemma_grows_trans(st, mid, resolve_stmt_s(ast, id, st, scope));
        },
        StmtKind::Error(_) => {},
    }
}

proof fn lemma_grows_stmts(ast: AstView, body: Seq<StmtId>, st: ResolveState, scope: int)
    ensures
        grows(st, resolve_stmts_s(ast, body, st, scope)),
    decreases body.len(),
{
    if body.len() > 0 {
        lemma_grows_stmts(ast, body.drop_last(), st, scope);
        let mid = resolve_stmts_s(ast, body.drop_last(), st, scope);
        lemma_grows_stmt(ast, body.last(), mid, scope);
        lemma_grows_trans(st, mid, resolve_stmts_s(ast, body, st, scope));
    }
}

proof fn lemma_grows_params(item: ItemId, params: Seq<Param>, st: ResolveState, scope: int)
    ensures
        grows(st, declare_params_s(item, params, st, scope)),
    decreases params.len(),
{
    if params.len() > 0 {
        lemma_grows_params(item, params.drop_last(), st, scope);
        let mid = declare_params_s(item, params.drop_last(), st, scope);
        let p = params.last();
        lemma_grows_local(
            mid,
            scope,
            BindingKind::Let,
            p.name.text@,
            p.name.span,
            LocalSource::Param { item, index: (params.len() - 1) as usize },
        );
        lemma_grows_trans(st, mid, declare_params_s(item, params, st, scope));
    }
}

proof fn lemma_grows_item(ast: AstView, item: ItemId, st: ResolveState)
    ensures
        grows(st, resolve_item_s(ast, item, st)),
{
    if let ItemKind::Function(f) = ast.items[item.0 as int].kind {
        let scope = st.locals.len() as int;
        lemma_grows_params(item, f.params@, st, scope);
        let mid = declare_params_s(item, f.params@, st, scope);
        lemma_grows_stmts(ast, f.body@, mid, scope);
        lemma_grows_trans(st, mid, resolve_item_s(ast, item, st));
    }
}

proof fn lemma_grows_items(ast: AstView, items: Seq<ItemId>, st: ResolveState)
    ensures
        grows(st, resolve_items_s(ast, items, st)),
    decreases items.len(),
{
    if items.len() > 0 {
        lemma_grows_items(ast, items.drop_last(), st);
        let mid = resolve_items_s(ast, items.drop_last(), st);
        lemma_grows_item(ast, items.last(), mid);
        lemma_grows_trans(st, mid, resolve_items_s(ast, items, st));
    }
}

/// An identifier in statement `j` of `body` is resolved or reported once the
/// whole body is resolved.
proof fn lemma_stmts_complete(ast: AstView, body: Seq<StmtId>, st: ResolveState, scope: int, j: int, e: ExprId)
    requires
        0 <= j < body.len(),
        stmt_expr(ast, body[j]) matches Some(x) && occurs_in(ast, e, x),
        ast.exprs[e.0 as int].kind is Ident,
        e.0 < st.names.len(),
    ensures
        ({
            let n = ast.exprs[e.0 as int].kind->Ident_0;
            resolved_or_reported(resolve_stmts_s(ast, body, st, scope), e.0 as int, undefined_name_diag(n.text@, n.span))
        }),
    decreases body.len(),
{
    let n = ast.exprs[e.0 as int].kind->Ident_0;
    let d = undefined_name_diag(n.text@, n.span);
    let pre = body.drop_last();
    lemma_grows_stmts(ast, pre, st, scope);
    let mid = resolve_stmts_s(ast, pre, st, scope);
    if j == body.len() - 1 {
        lemma_resolve_stmt_complete(ast, body.last(), mid, scope, e);
    } else {
        assert(pre[j] == body[j]);
        lemma_stmts_complete(ast, pre, st, scope, j, e);
        lemma_grows_stmt(ast, body.last(), mid, scope);
        lemma_grows_keeps(mid, resolve_stmts_s(ast, body, st, scope), e.0 as int, d);
    }
}

/// An identifier in statement `j` of function item `items[i]` is resolved or
/// reported once all of `items` are resolved.
proof fn lemma_items_complete(ast: AstView, items: Seq<ItemId>, st: ResolveState, i: int, j: int, e: ExprId)
    requires
        0 <= i < items.len(),
        occurs_in_item_stmt(ast, items[i], j, e),
        ast.exprs[e.0 as int].kind is Ident,
        e.0 < st.names.len(),
    ensures
        ({
            let n = ast.exprs[e.0 as int].kind->Ident_0;
            resolved_or_reported(resolve_items_s(ast, items, st), e.0 as int, undefined_name_diag(n.text@, n.span))
        }),
    decreases items.len(),
{
    let n = ast.exprs[e.0 as int].kind->Ident_0;
    let d = undefined_name_diag(n.text@, n.span);
    let pre = items.drop_last();
    lemma_grows_items(ast, pre, st);
    let mid = resolve_items_s(ast, pre, st);
    if i == items.len() - 1 {
        let f = ast.items[items[i].0 as int].kind->Function_0;
        let scope = mid.locals.len() as int;
        lemma_grows_params(items[i], f.params@, mid, scope);
        let before = declare_params_s(items[i], f.params@, mid, scope);
        lemma_stmts_complete(ast, f.body@, before, scope, j, e);
    } else {
        assert(pre[i] == items[i]);
        lemma_items_complete(ast, pre, st, i, j, e);
        lemma_grows_item(ast, items.last(), mid);
        lemma_grows_keeps(mid, resolve_items_s(ast, items, st), e.0 as int, d);
    }
}

/// Resolution leaves no identifier unaccounted for: every identifier that
/// occurs in a statement of a function of the root module (under any operand)
/// ends up resolved, or an undefined-name error is reported at its span.
pub proof fn lemma_resolve_complete(ast: AstView, i: int, j: int, e: ExprId)
    requires
        0 <= i < root_items(ast).len(),
        occurs_in_item_stmt(ast, root_items(ast)[i], j, e),
        e.0 < ast.exprs.len(),
        ast.exprs[e.0 as int].kind is Ident,
    ensures
        ({
            let out = resolve_spec(ast);
            let n = ast.exprs[e.0 as int].kind->Ident_0;
            out.names[e.0 as int] is Some || out.diagnostics.contains(undefined_name_diag(n.text@, n.span))
        }),
{
    let m = ast.root->Some_0;
    let items = ast.modules[m.0 as int].items@;
    let init = initial_state(ast.exprs.len());
    lemma_declare_items(ast, items, init);
    lemma_items_complete(ast, items, declare_items_s(ast, items, init), i, j, e);
}

/// Expression `e` occurs in the expression of statement `id`.
pub open spec fn occurs_in_stmt(ast: AstView, id: StmtId, e: ExprId) -> bool {
    stmt_expr(ast, id) matches Some(x) && occurs_in(ast, e, x)
}

/// Expression `e` occurs in statement `j` of function item `item`.
pub open spec fn occurs_in_item_stmt(ast: AstView, item: ItemId, j: int, e: ExprId) -> bool {
    ast.items[item.0 as int].kind matches ItemKind::Function(f) && 0 <= j < f.body@.len() && occurs_in_stmt(
        ast,
        f.body@[j],
        e,
    )
}

/// Resolving an expression that `e` does not occur in leaves `e`'s entry alone.
proof fn lemma_resolve_expr_untouched(ast: AstView, id: ExprId, st: ResolveState, scope: int, e: ExprId)
    requires
        !occurs_in(ast, e, id),
        e.0 < st.names.len(),
    ensures
        resolve_expr_s(ast, id, st, scope).names[e.0 as int] == st.names[e.0 as int],
    decreases ast.expr_rank()[id.0 as int],
{
    if id.0 < ast.exprs.len() {
        match ast.exprs[id.0 as int].kind {
            ExprKind::Unary { expr, .. } => if ast.ranked_below(expr, id) {
                lemma_resolve_expr_untouched(ast, expr, st, scope, e);
            },
            ExprKind::Binary { lhs, rhs, .. } => if ast.ranked_below(lhs, id) && ast.ranked_below(rhs, id) {
                lemma_resolve_expr_untouched(ast, lhs, st, scope, e);
                lemma_resolve_expr(ast, lhs, st, scope);
                let mid = resolve_expr_s(ast, lhs, st, scope);
                lemma_resolve_expr_untouched(ast, rhs, mid, scope, e);
            },
            _ => {},
        }
    }
}

proof fn lemma_resolve_stmt_untouched(ast: AstView, id: StmtId, st: ResolveState, scope: int, e: ExprId)
    requires
        !occurs_in_stmt(ast, id, e),
        e.0 < st.names.len(),
    ensures
        resolve_stmt_s(ast, id, st, scope).names[e.0 as int] == st.names[e.0 as int],
{
    match ast.stmts[id.0 as int].kind {
        StmtKind::Expr(x) => lemma_resolve_expr_untouched(ast, x, st, scope, e),
        StmtKind::Print(x) => lemma_resolve_expr_untouched(ast, x, st, scope, e),
        StmtKind::Local(l) => {
            lemma_resolve_expr_untouched(ast, l.initializer, st, scope, e);
            lemma_resolve_expr(ast, l.initializer, st, scope);
            let mid = resolve_expr_s(ast, l.initializer, st, scope);
            lemma_declare_local(mid, scope, l.kind, l.name.text@, l.name.span, LocalSource::Stmt(id));
        },
        StmtKind::Error(_) => {},
    }
}

proof fn lemma_resolve_stmts_untouched(ast: AstView, body: Seq<StmtId>, st: ResolveState, scope: int, e: ExprId)
    requires
        forall|j: int| 0 <= j < body.len() ==> !occurs_in_stmt(ast, #[trigger] body[j], e),
        e.0 < st.names.len(),
    ensures
        resolve_stmts_s(ast, body, st, scope).names[e.0 as int] == st.names[e.0 as int],
    decreases body.len(),
{
    if body.len() > 0 {
        let pre = body.drop_last();
        assert forall|j: int| 0 <= j < pre.len() implies !occurs_in_stmt(ast, #[trigger] pre[j], e) by {
            assert(pre[j] == body[j]);
        }
        lemma_resolve_stmts_untouched(ast, pre, st, scope, e);
        lemma_resolve_stmts(ast, pre, st, scope);
        assert(!occurs_in_stmt(ast, body[body.len() - 1], e));
        lemma_resolve_stmt_untouched(ast, body.last(), resolve_stmts_s(ast, pre, st, scope), scope, e);
    }
}

proof fn lemma_resolve_item_untouched(ast: AstView, item: ItemId, st: ResolveState, e: ExprId)
    requires
        forall|j: int| !#[trigger] occurs_in_item_stmt(ast, item, j, e),
        e.0 < st.names.len(),
    ensures
        resolve_item_s(ast, item, st).names[e.0 as int] == st.names[e.0 as int],
{
    if let ItemKind::Function(f) = ast.items[item.0 as int].kind {
        let scope = st.locals.len() as int;
        lemma_declare_params(item, f.params@, st, scope);
        assert forall|j: int| 0 <= j < f.body@.len() implies !occurs_in_stmt(ast, #[trigger] f.body@[j], e) by {
            assert(!occurs_in_item_stmt(ast, item, j, e));
        }
        lemma_resolve_stmts_untouched(ast, f.body@, declare_params_s(item, f.params@, st, scope), scope, e);
    }
}

/// Where `e` occurs only in statement `j` of `body`, resolving the body
/// resolves `e` against the locals declared before that statement.
proof fn lemma_stmts_resolve_to(ast: AstView, body: Seq<StmtId>, st: ResolveState, scope: int, j: int, e: ExprId)
    requires
        0 <= j < body.len(),
        occurs_in_stmt(ast, body[j], e),
        forall|j2: int| 0 <= j2 < body.len() && j2 != j ==> !occurs_in_stmt(ast, #[trigger] body[j2], e),
        ast.exprs[e.0 as int].kind is Ident,
        e.0 < st.names.len(),
    ensures
        ({
            let out = resolve_stmts_s(ast, body, st, scope);
            let n = ast.exprs[e.0 as int].kind->Ident_0;
            let locals = st.locals + stmts_locals(ast, body.take(j));
            &&& first_local(locals, scope, n.text@) matches Some(k) ==> out.names[e.0 as int] == Some(
                ResolvedName::Local(LocalId(k as usize)),
            )
            &&& first_local(locals, scope, n.text@) is None ==> (first_function(st.functions, n.text@) matches Some(
                k,
            ) ==> out.names[e.0 as int] == Some(ResolvedName::Function(FunctionId(k as usize))))
        }),
    decreases body.len(),
{
    let pre = body.drop_last();
    lemma_resolve_stmts(ast, pre, st, scope);
    let mid = resolve_stmts_s(ast, pre, st, scope);
    if j == body.len() - 1 {
        assert(pre =~= body.take(j));
        lemma_resolve_stmt_complete(ast, body.last(), mid, scope, e);
    } else {
        assert(pre[j] == body[j]);
        assert forall|j2: int| 0 <= j2 < pre.len() && j2 != j implies !occurs_in_stmt(ast, #[trigger] pre[j2], e) by {
            assert(pre[j2] == body[j2]);
        }
        assert(pre.take(j) =~= body.take(j));
        lemma_stmts_resolve_to(ast, pre, st, scope, j, e);
        assert(!occurs_in_stmt(ast, body[body.len() - 1], e));
        lemma_resolve_stmt_untouched(ast, body.last(), mid, scope, e);
    }
}

/// Where `e` occurs only in statement `j` of item `items[i]`, resolving the
/// items resolves `e` against the locals of that item declared before the
/// statement, parameters first.
proof fn lemma_items_resolve_to(ast: AstView, items: Seq<ItemId>, st: ResolveState, i: int, j: int, e: ExprId)
    requires
        0 <= i < items.len(),
        occurs_in_item_stmt(ast, items[i], j, e),
        forall|i2: int, j2: int|
            0 <= i2 < items.len() && (i2, j2) != (i, j) ==> !#[trigger] occurs_in_item_stmt(ast, items[i2], j2, e),
        ast.exprs[e.0 as int].kind is Ident,
        e.0 < st.names.len(),
    ensures
        ({
            let out = resolve_items_s(ast, items, st);
            let n = ast.exprs[e.0 as int].kind->Ident_0;
            let f = ast.items[items[i].0 as int].kind->Function_0;
            let scope = (st.locals.len() + items_locals(ast, items.take(i)).len()) as int;
            let locals = st.locals + items_locals(ast, items.take(i)) + param_locals(items[i], f.params@)
                + stmts_locals(ast, f.body@.take(j));
            &&& first_local(locals, scope, n.text@) matches Some(k) ==> out.names[e.0 as int] == Some(
                ResolvedName::Local(LocalId(k as usize)),
            )
            &&& first_local(locals, scope, n.text@) is None ==> (first_function(st.functions, n.text@) matches Some(
                k,
            ) ==> out.names[e.0 as int] == Some(ResolvedName::Function(FunctionId(k as usize))))
        }),
    decreases items.len(),
{
    let pre = items.drop_last();
    lemma_resolve_items(ast, pre, st);
    let mid = resolve_items_s(ast, pre, st);
    if i == items.len() - 1 {
        assert(pre =~= items.take(i));
        let f = ast.items[items[i].0 as int].kind->Function_0;
        let scope = mid.locals.len() as int;
        lemma_declare_params(items[i], f.params@, mid, scope);
        let before = declare_params_s(items[i], f.params@, mid, scope);
        assert forall|j2: int| 0 <= j2 < f.body@.len() && j2 != j implies !occurs_in_stmt(
            ast,
            #[trigger] f.body@[j2],
            e,
        ) by {
            assert(!occurs_in_item_stmt(ast, items[i], j2, e));
        }
        lemma_stmts_resolve_to(ast, f.body@, before, scope, j, e);
    } else {
        assert(pre[i] == items[i]);
        assert forall|i2: int, j2: int| 0 <= i2 < pre.len() && (i2, j2) != (i, j) implies !#[trigger] occurs_in_item_stmt(
            ast,
            pre[i2],
            j2,
            e,
        ) by {
            assert(pre[i2] == items[i2]);
            assert(!occurs_in_item_stmt(ast, items[i2], j2, e));
        }
        assert(pre.take(i) =~= items.take(i));
        lemma_items_resolve_to(ast, pre, st, i, j, e);
        assert forall|j2: int| !#[trigger] occurs_in_item_stmt(ast, items.last(), j2, e) by {
            assert(!occurs_in_item_stmt(ast, items[items.len() - 1], j2, e));
        }
        lemma_resolve_item_untouched(ast, items.last(), mid, e);
    }
}

/// What an identifier of the program resolves to: where identifier `e`
/// occurs in statement `j` of function `i` of the root module and in no other
/// statement, it resolves to the first local of that function declared before
/// the statement (parameters first, then earlier local statements) with its
/// name; with no such local, to the first function of the root module with
/// its name.
pub proof fn lemma_resolve_to_earlier_local(ast: AstView, i: int, j: int, e: ExprId)
    requires
        0 <= i < root_items(ast).len(),
        occurs_in_item_stmt(ast, root_items(ast)[i], j, e),
        forall|i2: int, j2: int|
            0 <= i2 < root_items(ast).len() && (i2, j2) != (i, j) ==> !#[trigger] occurs_in_item_stmt(
                ast,
                root_items(ast)[i2],
                j2,
                e,
            ),
        e.0 < ast.exprs.len(),
        ast.exprs[e.0 as int].kind is Ident,
    ensures
        ({
            let out = resolve_spec(ast);
            let items = root_items(ast);
            let n = ast.exprs[e.0 as int].kind->Ident_0;
            let f = ast.items[items[i].0 as int].kind->Function_0;
            let scope = items_locals(ast, items.take(i)).len() as int;
            let locals = items_locals(ast, items.take(i)) + param_locals(items[i], f.params@) + stmts_locals(
                ast,
                f.body@.take(j),
            );
            &&& first_local(locals, scope, n.text@) matches Some(k) ==> out.names[e.0 as int] == Some(
                ResolvedName::Local(LocalId(k as usize)),
            )
            &&& first_local(locals, scope, n.text@) is None ==> (first_function(
                function_symbols_of(ast, items),
                n.text@,
            ) matches Some(k) ==> out.names[e.0 as int] == Some(ResolvedName::Function(FunctionId(k as usize))))
        }),
{
    let m = ast.root->Some_0;
    let items = ast.modules[m.0 as int].items@;
    let init = initial_state(ast.exprs.len());
    lemma_declare_items(ast, items, init);
    let declared = declare_items_s(ast, items, init);
    assert(Seq::<FunctionSymbolView>::empty() + function_symbols_of(ast, items) =~= function_symbols_of(ast, items));
    assert(declared.locals =~= Seq::<LocalSymbolView>::empty());
    lemma_items_resolve_to(ast, items, declared, i, j, e);
    let f = ast.items[items[i].0 as int].kind->Function_0;
    assert(declared.locals + items_locals(ast, items.take(i)) =~= items_locals(ast, items.take(i)));
}

/// Resolution adds one function symbol per function item of the root module
/// and one local symbol per parameter and per local statement of those
/// functions, in source order, duplicates included.
pub proof fn lemma_resolve_symbols(ast: AstView)
    ensures
        resolve_spec(ast).functions == function_symbols_of(ast, root_items(ast)),
        resolve_spec(ast).locals == items_locals(ast, root_items(ast)),
        resolve_spec(ast).names.len() == ast.exprs.len(),
{
    lemma_resolve_all(ast);
}

/// Every name that resolution resolves refers to a symbol that exists and
/// bears the identifier's text. (Symbols are numbered by `usize`, so their
/// count is taken to fit in one.)
pub proof fn lemma_resolve_sound(ast: AstView)
    requires
        function_symbols_of(ast, root_items(ast)).len() <= usize::MAX,
        items_locals(ast, root_items(ast)).len() <= usize::MAX,
    ensures
        resolutions_sound(ast, resolve_spec(ast)),
{
    lemma_resolve_all(ast);
}

proof fn lemma_resolve_all(ast: AstView)
    ensures
        resolve_spec(ast).functions == function_symbols_of(ast, root_items(ast)),
        resolve_spec(ast).locals == items_locals(ast, root_items(ast)),
        resolve_spec(ast).names.len() == ast.exprs.len(),
        function_symbols_of(ast, root_items(ast)).len() <= usize::MAX && items_locals(ast, root_items(ast)).len()
            <= usize::MAX ==> resolutions_sound(ast, resolve_spec(ast)),
{
    let init = initial_state(ast.exprs.len());
    assert(resolutions_sound(ast, init));
    match ast.root {
        None => {
            assert(function_symbols_of(ast, root_items(ast)) =~= seq![]);
            assert(items_locals(ast, root_items(ast)) =~= seq![]);
        },
        Some(m) => {
            let items = ast.modules[m.0 as int].items@;
            lemma_declare_items(ast, items, init);
            let declared = declare_items_s(ast, items, init);
            assert(init.functions + function_symbols_of(ast, items) =~= function_symbols_of(ast, items));
            lemma_sound_grow(ast, init, declared);
            lemma_resolve_items(ast, items, declared);
            assert(declared.locals + items_locals(ast, items) =~= items_locals(ast, items));
        },
    }
}

// ---------------------------------------------------------------------------
// The resolver
// ---------------------------------------------------------------------------

/// The index of the first function in `fs` named `name`.
fn find_function(fs: &Vec<FunctionSymbol>, name: &str) -> (r: Option<usize>)
    ensures
        r matches Some(k) ==> first_function(function_views(fs@), name@) == Some(k as int),
        r is None ==> first_function(function_views(fs@), name@) is None,
{
    let ghost vs = function_views(fs@);
    let mut k: usize = 0;
    while k < fs.len()
        invariant
            k <= fs@.len(),
            vs == function_views(fs@),
            first_function(vs.take(k as int), name@) is None,
        decreases fs@.len() - k,
    {
        assert(vs.take(k + 1).drop_last() =~= vs.take(k as int));
        if str_equal(fs[k].name.text.as_str(), name) {
            proof {
                lemma_first_function_prefix(vs, name@, k as int);
            }
            return Some(k);
        }
        k = k + 1;
    }
    assert(vs.take(k as int) =~= vs);
    None
}

proof fn lemma_first_function_prefix(fs: Seq<FunctionSymbolView>, name: Seq<char>, k: int)
    requires
        0 <= k < fs.len(),
        first_function(fs.take(k), name) is None,
        fs[k].name == name,
    ensures
        first_function(fs, name) == Some(k),
    decreases fs.len(),
{
    if fs.len() == k + 1 {
        assert(fs.drop_last() =~= fs.take(k));
    } else {
        assert(fs.drop_last().take(k) =~= fs.take(k));
        lemma_first_function_prefix(fs.drop_last(), name, k);
    }
}

/// The index of the first local at or after `start` in `ls` named `name`.
fn find_local(ls: &Vec<LocalSymbol>, start: usize, name: &str) -> (r: Option<usize>)
    requires
        start <= ls@.len(),
    ensures
        r matches Some(k) ==> first_local(local_views(ls@), start as int, name@) == Some(k as int),
        r is None ==> first_local(local_views(ls@), start as int, name@) is None,
{
    let ghost vs = local_views(ls@);
    let mut k: usize = start;
    while k < ls.len()
        invariant
            start <= k <= ls@.len(),
            vs == local_views(ls@),
            first_local(vs.take(k as int), start as int, name@) is None,
        decreases ls@.len() - k,
    {
        assert(vs.take(k + 1).drop_last() =~= vs.take(k as int));
        if str_equal(ls[k].name.text.as_str(), name) {
            proof {
                lemma_first_local_prefix(vs, start as int, name@, k as int);
            }
            return Some(k);
        }
        k = k + 1;
    }
    assert(vs.take(k as int) =~= vs);
    None
}

proof fn lemma_first_local_prefix(ls: Seq<LocalSymbolView>, start: int, name: Seq<char>, k: int)
    requires
        0 <= start <= k < ls.len(),
        first_local(ls.take(k), start, name) is None,
        ls[k].name == name,
    ensures
        first_local(ls, start, name) == Some(k),
    decreases ls.len(),
{
    if ls.len() == k + 1 {
        assert(ls.drop_last() =~= ls.take(k));
    } else {
        assert(ls.drop_last().take(k) =~= ls.take(k));
        lemma_first_local_prefix(ls.drop_last(), start, name, k);
    }
}

fn copy_ident(id: &Ident) -> (r: Ident)
    ensures
        r.text@ == id.text@,
        r.span == id.span,
{
    Ident { text: id.text.clone(), span: id.span }
}

struct Resolver {
    symbols: Symbols,
    resolved_names: ResolvedNames,
    diagnostics: Vec<Diagnostic>,
}

impl Resolver {
    spec fn state(&self) -> ResolveState {
        ResolveState {
            functions: function_views(self.symbols.functions@),
            locals: local_views(self.symbols.locals@),
            names: self.resolved_names.exprs@,
            diagnostics: diag_views(self.diagnostics@),
        }
    }

    fn report(&mut self, d: Diagnostic)
        ensures
            final(self).symbols == old(self).symbols,
            final(self).resolved_names == old(self).resolved_names,
            final(self).state() == (ResolveState {
                diagnostics: old(self).state().diagnostics.push(d@),
                ..old(self).state()
            }),
    {
        self.diagnostics.push(d);
        assert(diag_views(self.diagnostics@) =~= diag_views(old(self).diagnostics@).push(d@));
    }

    fn declare_item(&mut self, ast: &Ast, item: ItemId)
        requires
            item.0 < ast@.items.len(),
        ensures
            final(self).state() == declare_item_s(ast@, item, old(self).state()),
    {
        let function = match &ast.item(item).kind {
            ItemKind::Function(function) => function,
            ItemKind::Error(_) => {
                return;
            },
        };
        let previous = find_function(&self.symbols.functions, function.name.text.as_str());
        proof {
            lemma_first_function_found(function_views(self.symbols.functions@), function.name.text@);
        }
        let name = copy_ident(&function.name);
        let ghost before = self.state();
        self.symbols.functions.push(FunctionSymbol { name, item });
        assert(function_views(self.symbols.functions@) =~= before.functions.push(
            FunctionSymbolView { name: function.name.text@, name_span: function.name.span, item },
        ));
        if let Some(p) = previous {
            let mut message = String::from_str("function `");
            message.append(function.name.text.as_str());
            message.append("` is already defined");
            let previous_span = self.symbols.functions[p].name.span;
            let d = Diagnostic::error("resolve.duplicate_function", message, function.name.span).with_note(
                String::from_str("previous definition is here"),
                Some(previous_span),
            );
            assert(d@.notes =~= seq![previous_note(previous_span)]);
            self.report(d);
        }
    }

    fn declare_local(&mut self, scope: usize, kind: BindingKind, name: &Ident, source: LocalSource)
        requires
            scope <= old(self).symbols.locals@.len(),
        ensures
            final(self).state() == declare_local_s(old(self).state(), scope as int, kind, name.text@, name.span, source),
            final(self).symbols.locals@.len() == old(self).symbols.locals@.len() + 1,
    {
        let previous = find_local(&self.symbols.locals, scope, name.text.as_str());
        proof {
            lemma_first_local_found(local_views(self.symbols.locals@), scope as int, name.text@);
        }
        let copy = copy_ident(name);
        let ghost before = self.state();
        self.symbols.locals.push(LocalSymbol { name: copy, kind, source });
        assert(local_views(self.symbols.locals@) =~= before.locals.push(
            LocalSymbolView { name: name.text@, name_span: name.span, kind, source },
        ));
        if let Some(p) = previous {
            let mut message = String::from_str("local `");
            message.append(name.text.as_str());
            message.append("` is already defined in this scope");
            let previous_span = self.symbols.locals[p].name.span;
            let d = Diagnostic::error("resolve.duplicate_local", message, name.span).with_note(
                String::from_str("previous definition is here"),
                Some(previous_span),
            );
            assert(d@.notes =~= seq![previous_note(previous_span)]);
            self.report(d);
        }
    }

    fn resolve_name(&mut self, scope: usize, expr: ExprId, name: &Ident)
        requires
            scope <= old(self).symbols.locals@.len(),
        ensures
            final(self).state() == resolve_name_s(old(self).state(), scope as int, expr, name.text@, name.span),
            final(self).symbols == old(self).symbols,
    {
        if let Some(local) = find_local(&self.symbols.locals, scope, name.text.as_str()) {
            self.resolved_names.set_expr(expr, ResolvedName::Local(LocalId(local)));
            return;
        }
        if let Some(function) = find_function(&self.symbols.functions, name.text.as_str()) {
            self.resolved_names.set_expr(expr, ResolvedName::Function(FunctionId(function)));
            return;
        }
        let mut message = String::from_str("undefined name `");
        message.append(name.text.as_str());
        message.append("`");
        let d = Diagnostic::error("resolve.undefined_name", message, name.span);
        assert(d@.notes =~= Seq::<NoteView>::empty());
        self.report(d);
    }

    fn resolve_expr(&mut self, ast: &Ast, scope: usize, expr: ExprId)
        requires
            ast@.refs_acyclic(),
            expr.0 < ast@.exprs.len(),
            scope <= old(self).symbols.locals@.len(),
        ensures
            final(self).state() == resolve_expr_s(ast@, expr, old(self).state(), scope as int),
            final(self).symbols == old(self).symbols,
        decreases ast@.expr_rank()[expr.0 as int],
    {
        let e = ast.expr(expr);
        proof {
            lemma_ranked(ast@, expr);
        }
        match &e.kind {
            ExprKind::Ident(name) => self.resolve_name(scope, expr, name),
            ExprKind::Number(_) | ExprKind::Error(_) => {},
            ExprKind::Unary { expr: operand, .. } => self.resolve_expr(ast, scope, *operand),
            ExprKind::Binary { lhs, rhs, .. } => {
                self.resolve_expr(ast, scope, *lhs);
                self.resolve_expr(ast, scope, *rhs);
            },
        }
    }

    fn resolve_stmt(&mut self, ast: &Ast, scope: usize, stmt: StmtId)
        requires
            ast@.refs_acyclic(),
            stmt.0 < ast@.stmts.len(),
            scope <= old(self).symbols.locals@.len(),
        ensures
            final(self).state() == resolve_stmt_s(ast@, stmt, old(self).state(), scope as int),
            final(self).symbols.locals@.len() >= old(self).symbols.locals@.len(),
    {
        let s = ast.stmt(stmt);
        assert(stmt_refs_below(ast@.stmts[stmt.0 as int], ast@.exprs.len() as int));
        match &s.kind {
            StmtKind::Expr(e) => self.resolve_expr(ast, scope, *e),
            StmtKind::Print(e) => self.resolve_expr(ast, scope, *e),
            StmtKind::Local(local) => {
                self.resolve_expr(ast, scope, local.initializer);
                self.declare_local(scope, local.kind, &local.name, LocalSource::Stmt(stmt));
            },
            StmtKind::Error(_) => {},
        }
    }

    fn resolve_item(&mut self, ast: &Ast, item: ItemId)
        requires
            ast@.refs_acyclic(),
            item.0 < ast@.items.len(),
        ensures
            final(self).state() == resolve_item_s(ast@, item, old(self).state()),
    {
        let function = match &ast.item(item).kind {
            ItemKind::Function(function) => function,
            ItemKind::Error(_) => {
                return;
            },
        };
        assert(item_refs_below(ast@.items[item.0 as int], ast@.stmts.len() as int));
        let ghost start = self.state();
        let scope = self.symbols.locals.len();
        let mut i: usize = 0;
        while i < function.params.len()
            invariant
                i <= function.params@.len(),
                scope <= self.symbols.locals@.len(),
                scope == start.locals.len(),
                self.state() == declare_params_s(item, function.params@.take(i as int), start, scope as int),
            decreases function.params@.len() - i,
        {
            assert(function.params@.take(i + 1).drop_last() =~= function.params@.take(i as int));
            self.declare_local(scope, BindingKind::Let, &function.params[i].name, LocalSource::Param { item, index: i });
            i = i + 1;
        }
        assert(function.params@.take(i as int) =~= function.params@);
        let ghost declared = self.state();
        let mut j: usize = 0;
        while j < function.body.len()
            invariant
                ast@.refs_acyclic(),
                item_refs_below(ast@.items[item.0 as int], ast@.stmts.len() as int),
                ast@.items[item.0 as int].kind == ItemKind::Function(*function),
                j <= function.body@.len(),
                scope <= self.symbols.locals@.len(),
                self.state() == resolve_stmts_s(ast@, function.body@.take(j as int), declared, scope as int),
            decreases function.body@.len() - j,
        {
            assert(function.body@.take(j + 1).drop_last() =~= function.body@.take(j as int));
            self.resolve_stmt(ast, scope, function.body[j]);
            j = j + 1;
        }
        assert(function.body@.take(j as int) =~= function.body@);
    }
}

/// Resolves the names of the root module of `ast`: declares every function,
/// then resolves each function's parameters and body in a scope of its own.
pub fn resolve(ast: &Ast) -> (out: ResolveOutput)
    requires
        ast@.refs_acyclic(),
    ensures
        out@ == resolve_spec(ast@),
        function_views(out.symbols.functions@) == function_symbols_of(ast@, root_items(ast@)),
        local_views(out.symbols.locals@) == items_locals(ast@, root_items(ast@)),
        out.resolved_names.exprs@.len() == ast@.exprs.len(),
        resolutions_sound(ast@, resolve_spec(ast@)),
{
    proof {
        use_type_invariant(ast);
    }
    let mut r = Resolver {
        symbols: Symbols::default(),
        resolved_names: ResolvedNames::new(ast.exprs().len()),
        diagnostics: Vec::new(),
    };
    let ghost init = initial_state(ast@.exprs.len());
    assert(r.state() =~= init);
    if let Some(module) = ast.root() {
        assert(module_refs_below(*module, ast@.items.len() as int));
        let mut i: usize = 0;
        while i < module.items.len()
            invariant
                module_refs_below(*module, ast@.items.len() as int),
                i <= module.items@.len(),
                r.state() == declare_items_s(ast@, module.items@.take(i as int), init),
            decreases module.items@.len() - i,
        {
            assert(module.items@.take(i + 1).drop_last() =~= module.items@.take(i as int));
            r.declare_item(ast, module.items[i]);
            i = i + 1;
        }
        assert(module.items@.take(i as int) =~= module.items@);
        let ghost declared = r.state();
        let mut j: usize = 0;
        while j < module.items.len()
            invariant
                ast@.refs_acyclic(),
                module_refs_below(*module, ast@.items.len() as int),
                j <= module.items@.len(),
                r.state() == resolve_items_s(ast@, module.items@.take(j as int), declared),
            decreases module.items@.len() - j,
        {
            assert(module.items@.take(j + 1).drop_last() =~= module.items@.take(j as int));
            r.resolve_item(ast, module.items[j]);
            j = j + 1;
        }
        assert(module.items@.take(j as int) =~= module.items@);
    }
    // The symbol counts fit in `usize`, as the soundness of the ids needs.
    let _function_count = r.symbols.functions.len();
    let _local_count = r.symbols.locals.len();
    proof {
        lemma_resolve_all(ast@);
    }
    ResolveOutput { symbols: r.symbols, resolved_names: r.resolved_names, diagnostics: r.diagnostics }
}

} // verus!
