use rex::ast::{
    Ast, BinaryOp, Expr, ExprId, ExprKind, Function, Ident, Item, ItemKind, Module, NumberLiteral, Param, Stmt, StmtKind,
};
use rex::diagnostics::Span;
use rex::hir::{HirExprKind, HirStmtKind};
use rex::lexer::lex;
use rex::lowering::lower;
use rex::name_resolver::{resolve, FunctionId, LocalId, ResolvedName};
use rex::parser::parse;

fn parse_program(source: &str) -> Ast {
    let output = parse(lex(source));
    assert!(output.diagnostics.is_empty());
    output.ast
}

#[test]
fn lowers_locals_and_resolved_identifier_expressions() {
    let ast = parse_program("fn main():\n    var x = 1 + 2\n    print x\n");
    let resolved = resolve(&ast);
    assert!(resolved.diagnostics.is_empty());

    let output = lower(&ast, &resolved);

    assert!(output.diagnostics.is_empty());
    assert_eq!(output.hir.functions().len(), 1);
    let function = &output.hir.functions()[0];
    let body = output.hir.block(function.body);
    assert_eq!(body.stmts.len(), 2);
    assert_eq!(body.tail, None);

    let HirStmtKind::Local { local, initializer } = output.hir.stmt(body.stmts[0]).kind else {
        panic!("expected local statement");
    };
    assert_eq!(local.index(), 0);
    assert!(matches!(output.hir.expr(initializer).kind, HirExprKind::Binary { op: BinaryOp::Add, .. }));

    let HirStmtKind::Print(expr) = output.hir.stmt(body.stmts[1]).kind else {
        panic!("expected print statement");
    };
    assert!(matches!(output.hir.expr(expr).kind, HirExprKind::Local(local) if local.index() == 0));
}

#[test]
fn lowers_unresolved_identifiers_to_error_expressions() {
    let ast = parse_program("fn main():\n    print missing\n");
    let resolved = resolve(&ast);
    let output = lower(&ast, &resolved);

    let function = &output.hir.functions()[0];
    let body = output.hir.block(function.body);
    let HirStmtKind::Print(expr) = output.hir.stmt(body.stmts[0]).kind else {
        panic!("expected print statement");
    };
    assert_eq!(output.hir.expr(expr).kind, HirExprKind::Error);
}

#[test]
fn lowers_number_literals() {
    let ast = parse_program("fn main():\n    print 42\n");
    let resolved = resolve(&ast);
    let output = lower(&ast, &resolved);

    let function = &output.hir.functions()[0];
    let body = output.hir.block(function.body);
    let HirStmtKind::Print(expr) = output.hir.stmt(body.stmts[0]).kind else {
        panic!("expected print statement");
    };
    assert!(matches!(
        &output.hir.expr(expr).kind,
        HirExprKind::Number(NumberLiteral::Integer(value)) if value == "42"
    ));
}

#[test]
fn lowers_operands_before_the_expression_that_uses_them() {
    let ast = parse_program("fn main():\n    print -1 * 2\n");
    let resolved = resolve(&ast);
    let output = lower(&ast, &resolved);
    let kinds: Vec<HirExprKind> = output.hir.exprs().iter().map(|e| e.kind.clone()).collect();
    assert_eq!(kinds.len(), 4);
    assert_eq!(kinds[0], HirExprKind::Number(NumberLiteral::Integer("1".into())));
    assert!(matches!(kinds[1], HirExprKind::Unary { expr, .. } if expr.index() == 0));
    assert_eq!(kinds[2], HirExprKind::Number(NumberLiteral::Integer("2".into())));
    assert!(matches!(kinds[3], HirExprKind::Binary { lhs, rhs, op: BinaryOp::Mul } if lhs.index() == 1 && rhs.index() == 2));
}

#[test]
fn each_function_item_becomes_one_hir_function() {
    let ast = parse_program("fn a():\n    print 1\nfn b():\n    print a\n");
    let resolved = resolve(&ast);
    let output = lower(&ast, &resolved);
    assert_eq!(output.hir.functions().len(), 2);
    assert_eq!(output.hir.functions()[0].function, FunctionId(0));
    assert_eq!(output.hir.functions()[1].function, FunctionId(1));
    assert_eq!(output.hir.blocks().len(), 2);
    let body = output.hir.block(output.hir.functions()[1].body);
    let HirStmtKind::Print(expr) = output.hir.stmt(body.stmts[0]).kind else {
        panic!("expected print statement");
    };
    assert_eq!(output.hir.expr(expr).kind, HirExprKind::Function(FunctionId(0)));
}

#[test]
fn lowering_an_arena_without_root_gives_empty_hir() {
    let ast = Ast::new();
    let resolved = resolve(&ast);
    assert!(resolved.symbols.functions.is_empty());
    let output = lower(&ast, &resolved);
    assert!(output.hir.functions().is_empty());
    assert!(output.hir.stmts().is_empty());
}

#[test]
fn resolves_and_lowers_expressions_that_refer_forward() {
    let mut ast = Ast::new();
    let sum = ast.push_expr(Expr::new(
        ExprKind::Binary { lhs: ExprId(1), op: BinaryOp::Add, rhs: ExprId(2) },
        Span::new(20, 25),
    ));
    let x = ast.push_expr(Expr::new(ExprKind::Ident(Ident::new("x", Span::new(20, 21))), Span::new(20, 21)));
    ast.push_expr(Expr::new(ExprKind::Number(NumberLiteral::Integer("1".into())), Span::new(24, 25)));
    let stmt = ast.push_stmt(Stmt::new(StmtKind::Print(sum), Span::new(14, 25)));
    let item = ast.push_item(Item::new(
        ItemKind::Function(Function::new(
            Ident::new("f", Span::new(3, 4)),
            vec![Param::new(Ident::new("x", Span::new(5, 6)), None)],
            None,
            vec![stmt],
        )),
        Span::new(0, 25),
    ));
    let module = ast.push_module(Module::new(vec![item], Span::new(0, 25)));
    assert!(ast.set_root(module));

    let resolved = resolve(&ast);
    assert!(resolved.diagnostics.is_empty());
    assert_eq!(resolved.resolved_names.expr(x), Some(ResolvedName::Local(LocalId(0))));

    let output = lower(&ast, &resolved);
    let kinds: Vec<HirExprKind> = output.hir.exprs().iter().map(|e| e.kind.clone()).collect();
    assert_eq!(kinds.len(), 3);
    assert_eq!(kinds[0], HirExprKind::Local(LocalId(0)));
    assert_eq!(kinds[1], HirExprKind::Number(NumberLiteral::Integer("1".into())));
    assert!(matches!(kinds[2], HirExprKind::Binary { lhs, rhs, op: BinaryOp::Add } if lhs.index() == 0 && rhs.index() == 1));
}
