use rex::ast::{
    Ast, BinaryOp, Expr, ExprKind, Function, Ident, Item, ItemKind, Module, ModuleId, NumberLiteral, Param, Stmt,
    StmtKind, TypeRef, TypeRefKind,
};
use rex::diagnostics::Span;

fn integer(value: &str, span: Span) -> Expr {
    Expr::new(ExprKind::Number(NumberLiteral::Integer(value.into())), span)
}

#[test]
fn ast_starts_without_a_root() {
    let ast = Ast::new();

    assert_eq!(ast.root_id(), None);
    assert!(ast.root().is_none());
    assert!(ast.modules().is_empty());
}

#[test]
fn ast_adds_typed_nodes_and_returns_ids() {
    let mut ast = Ast::new();
    let lhs = ast.push_expr(integer("1", Span::new(0, 1)));
    let rhs = ast.push_expr(integer("2", Span::new(4, 5)));
    let root = ast.push_expr(Expr::new(ExprKind::Binary { lhs, op: BinaryOp::Add, rhs }, Span::new(0, 5)));

    assert_eq!(lhs.index(), 0);
    assert_eq!(rhs.index(), 1);
    assert_eq!(root.index(), 2);
    assert_eq!(ast.expr(root).span, Span::new(0, 5));
}

#[test]
fn ast_rejects_invalid_root_ids() {
    let mut ast = Ast::new();

    assert!(!ast.set_root(ModuleId(0)));
    assert_eq!(ast.root_id(), None);
    assert!(ast.get_module(ModuleId(0)).is_none());
}

#[test]
fn ast_represents_function_items_with_type_refs() {
    let mut ast = Ast::new();
    let param_ty = TypeRef::named("Enemy", Span::new(16, 21));
    let return_ty = TypeRef::named("float", Span::new(26, 31));
    let body_expr = ast.push_expr(integer("1", Span::new(37, 38)));
    let body_stmt = ast.push_stmt(Stmt::new(StmtKind::Print(body_expr), Span::new(31, 38)));
    let function = ast.push_item(Item::new(
        ItemKind::Function(Function::new(
            Ident::new("read_hp", Span::new(3, 10)),
            vec![Param::new(Ident::new("enemy", Span::new(11, 16)), Some(param_ty.clone()))],
            Some(return_ty.clone()),
            vec![body_stmt],
        )),
        Span::new(0, 38),
    ));
    let module = ast.push_module(Module::new(vec![function], Span::new(0, 38)));

    assert!(ast.set_root(module));
    assert_eq!(ast.root_id(), Some(module));
    assert_eq!(param_ty.kind, TypeRefKind::Named(Ident::new("Enemy", Span::new(16, 21))));
    assert_eq!(return_ty.kind, TypeRefKind::Named(Ident::new("float", Span::new(26, 31))));
    assert_eq!(ast.root().expect("root module").items, vec![function]);

    let ItemKind::Function(function) = &ast.item(function).kind else {
        panic!("item should be a function");
    };
    assert_eq!(function.body, vec![body_stmt]);
    assert_eq!(ast.stmt(body_stmt).kind, StmtKind::Print(body_expr));
}

#[test]
fn ast_get_accessors_answer_none_out_of_range() {
    let mut ast = Ast::new();
    let e = ast.push_expr(integer("7", Span::new(0, 1)));
    assert!(ast.get_expr(e).is_some());
    assert!(ast.get_expr(rex::ast::ExprId(1)).is_none());
    assert!(ast.get_stmt(rex::ast::StmtId(0)).is_none());
    assert!(ast.get_item(rex::ast::ItemId(0)).is_none());
    assert_eq!(ast.exprs().len(), 1);
}

#[test]
fn ast_with_root_holds_one_module() {
    let ast = Ast::with_root(Module::new(vec![], Span::new(0, 0)));
    assert_eq!(ast.root_id(), Some(ModuleId(0)));
    assert_eq!(ast.modules().len(), 1);
    assert!(ast.root().is_some());
}

#[test]
fn cloned_type_ref_keeps_nested_names() {
    let base = TypeRef::named("Vec", Span::new(0, 3));
    let arg = TypeRef::named("int", Span::new(4, 7));
    let generic = TypeRef::new(TypeRefKind::Generic { base: Box::new(base), args: vec![arg] }, Span::new(0, 8));
    let copy = generic.clone();
    assert_eq!(copy, generic);
}

#[test]
fn spans_measure_their_length() {
    assert_eq!(Span::new(3, 10).len(), 7);
    assert!(Span::at(4).is_empty());
    assert!(!Span::new(4, 5).is_empty());
}
