use rex::ast::{BinaryOp, BindingKind, ExprKind, Function, ItemKind, NumberLiteral, StmtKind, TypeRef, TypeRefKind, UnaryOp};
use rex::lexer::lex;
use rex::parser::{parse, ParseOutput};

fn parse_source(source: &str) -> ParseOutput {
    parse(lex(source))
}

fn only_function(output: &ParseOutput) -> &Function {
    let module = output.ast.root().expect("root module");
    let ItemKind::Function(function) = &output.ast.item(module.items[0]).kind else {
        panic!("expected function item");
    };
    function
}

fn named_type_text(ty: &TypeRef) -> &str {
    let TypeRefKind::Named(name) = &ty.kind else {
        panic!("expected named type");
    };
    &name.text
}

#[test]
fn parses_function_with_temporary_print_statement() {
    let output = parse_source("fn main():\n    print 1 + 2 * 3\n");

    assert!(output.diagnostics.is_empty());
    let module = output.ast.root().expect("root module");
    assert_eq!(module.items.len(), 1);

    let ItemKind::Function(function) = &output.ast.item(module.items[0]).kind else {
        panic!("expected function item");
    };
    assert_eq!(function.name.text, "main");
    assert_eq!(function.body.len(), 1);

    let StmtKind::Print(expr) = output.ast.stmt(function.body[0]).kind else {
        panic!("expected print statement");
    };
    let ExprKind::Binary { lhs, op: BinaryOp::Add, rhs } = output.ast.expr(expr).kind else {
        panic!("expected addition expression");
    };

    assert!(matches!(
        output.ast.expr(lhs).kind,
        ExprKind::Number(NumberLiteral::Integer(ref value)) if value == "1"
    ));
    assert!(matches!(output.ast.expr(rhs).kind, ExprKind::Binary { op: BinaryOp::Mul, .. }));
}

#[test]
fn parses_unary_minus_with_higher_precedence_than_addition() {
    let output = parse_source("fn main():\n    print -1 + 2\n");

    assert!(output.diagnostics.is_empty());
    let function = only_function(&output);
    let StmtKind::Print(expr) = output.ast.stmt(function.body[0]).kind else {
        panic!("expected print statement");
    };
    let ExprKind::Binary { lhs, op: BinaryOp::Add, .. } = output.ast.expr(expr).kind else {
        panic!("expected addition expression");
    };

    assert!(matches!(output.ast.expr(lhs).kind, ExprKind::Unary { op: UnaryOp::Neg, .. }));
}

#[test]
fn parses_local_bindings_and_identifier_expressions() {
    let output = parse_source("fn main():\n    var x = 1 + 2\n    let y = x * 3\n    print y\n");

    assert!(output.diagnostics.is_empty());
    let function = only_function(&output);
    assert_eq!(function.body.len(), 3);

    let StmtKind::Local(local) = &output.ast.stmt(function.body[0]).kind else {
        panic!("expected local binding");
    };
    assert_eq!(local.kind, BindingKind::Var);
    assert_eq!(local.name.text, "x");
    assert_eq!(local.ty, None);
    assert!(matches!(output.ast.expr(local.initializer).kind, ExprKind::Binary { op: BinaryOp::Add, .. }));

    let StmtKind::Local(local) = &output.ast.stmt(function.body[1]).kind else {
        panic!("expected local binding");
    };
    assert_eq!(local.kind, BindingKind::Let);
    assert_eq!(local.name.text, "y");
    assert_eq!(local.ty, None);

    let StmtKind::Print(expr) = output.ast.stmt(function.body[2]).kind else {
        panic!("expected print statement");
    };
    assert!(matches!(&output.ast.expr(expr).kind, ExprKind::Ident(ident) if ident.text == "y"));
}

#[test]
fn parses_function_parameter_and_return_types() {
    let output = parse_source("fn add(x: int, y: float) -> float:\n    print x\n");

    assert!(output.diagnostics.is_empty());
    let function = only_function(&output);

    assert_eq!(function.params.len(), 2);
    assert_eq!(function.params[0].name.text, "x");
    assert_eq!(named_type_text(function.params[0].ty.as_ref().expect("param type")), "int");
    assert_eq!(function.params[1].name.text, "y");
    assert_eq!(named_type_text(function.params[1].ty.as_ref().expect("param type")), "float");
    assert_eq!(named_type_text(function.return_type.as_ref().expect("return type")), "float");
}

#[test]
fn parses_local_type_annotations() {
    let output = parse_source("fn main():\n    var enemy: Enemy = 1\n");

    assert!(output.diagnostics.is_empty());
    let function = only_function(&output);
    let StmtKind::Local(local) = &output.ast.stmt(function.body[0]).kind else {
        panic!("expected local binding");
    };

    assert_eq!(local.name.text, "enemy");
    assert_eq!(named_type_text(local.ty.as_ref().expect("local type")), "Enemy");
}

#[test]
fn parses_generic_type_refs() {
    let output = parse_source("fn main(values: Vec[int]):\n    print values\n");

    assert!(output.diagnostics.is_empty());
    let function = only_function(&output);
    let ty = function.params[0].ty.as_ref().expect("param type");

    let TypeRefKind::Generic { base, args } = &ty.kind else {
        panic!("expected generic type");
    };
    assert_eq!(named_type_text(base), "Vec");
    assert_eq!(args.len(), 1);
    assert_eq!(named_type_text(&args[0]), "int");
}

#[test]
fn reports_invalid_top_level_tokens() {
    let output = parse_source("1 + 2\n");

    assert!(output.diagnostics.iter().any(|diagnostic| diagnostic.code == "parse.expected_item"));
}

#[test]
fn parses_empty_source_to_an_empty_root_module() {
    let output = parse_source("");
    assert!(output.diagnostics.is_empty());
    let module = output.ast.root().expect("root module");
    assert!(module.items.is_empty());
}

#[test]
fn subtraction_associates_to_the_left() {
    let output = parse_source("fn main():\n    print 1 - 2 - 3\n");
    assert!(output.diagnostics.is_empty());
    let function = only_function(&output);
    let StmtKind::Print(expr) = output.ast.stmt(function.body[0]).kind else {
        panic!("expected print statement");
    };
    let ExprKind::Binary { lhs, op: BinaryOp::Sub, rhs } = output.ast.expr(expr).kind else {
        panic!("expected subtraction");
    };
    assert!(matches!(output.ast.expr(lhs).kind, ExprKind::Binary { op: BinaryOp::Sub, .. }));
    assert!(matches!(&output.ast.expr(rhs).kind, ExprKind::Number(NumberLiteral::Integer(v)) if v == "3"));
}

#[test]
fn parse_keeps_lexer_diagnostics_first() {
    let output = parse_source("fn main():\n    print \"open\n");
    assert_eq!(output.diagnostics[0].code, "lex.unterminated_string");
}

#[test]
fn reports_missing_colon_after_signature() {
    let output = parse_source("fn main()\n    print 1\n");
    assert!(output.diagnostics.iter().any(|d| d.code == "parse.expected_symbol"
        && d.message == "expected `:` after function signature"));
}

#[test]
fn reports_missing_indented_body() {
    let output = parse_source("fn main():\nprint 1\n");
    assert!(output.diagnostics.iter().any(|d| d.code == "parse.expected_indent"));
}

#[test]
fn stores_operands_before_the_expressions_that_use_them() {
    let output = parse_source("fn main():\n    print -1 * 2\n    print x\n");
    assert!(output.diagnostics.is_empty());
    let kinds: Vec<ExprKind> = output.ast.exprs().iter().map(|e| e.kind.clone()).collect();
    assert_eq!(kinds.len(), 5);
    assert!(matches!(&kinds[0], ExprKind::Number(NumberLiteral::Integer(v)) if v == "1"));
    assert!(matches!(kinds[1], ExprKind::Unary { expr, .. } if expr.index() == 0));
    assert!(matches!(&kinds[2], ExprKind::Number(NumberLiteral::Integer(v)) if v == "2"));
    assert!(matches!(kinds[3], ExprKind::Binary { lhs, rhs, op: BinaryOp::Mul } if lhs.index() == 1 && rhs.index() == 2));
    assert!(matches!(&kinds[4], ExprKind::Ident(name) if name.text == "x"));
    assert_eq!(output.ast.stmts().len(), 2);
    assert_eq!(output.ast.stmts()[0].kind, StmtKind::Print(rex::ast::ExprId(3)));
    assert_eq!(output.ast.stmts()[1].kind, StmtKind::Print(rex::ast::ExprId(4)));
    assert_eq!(output.ast.items().len(), 1);
    assert_eq!(output.ast.modules().len(), 1);
    assert_eq!(output.ast.root_id(), Some(rex::ast::ModuleId(0)));
}

#[test]
fn multiplication_binds_tighter_and_addition_groups_left() {
    let output = parse_source("fn main():\n    print 1 + 2 * 3\n    print 1 * 2 + 3\n    print 1 + 2 + 3\n");
    assert!(output.diagnostics.is_empty());
    let function = only_function(&output);
    let top = |i: usize| {
        let StmtKind::Print(expr) = output.ast.stmt(function.body[i]).kind else {
            panic!("expected print statement");
        };
        output.ast.expr(expr).kind.clone()
    };
    let ExprKind::Binary { op: BinaryOp::Add, rhs, .. } = top(0) else { panic!("expected addition") };
    assert!(matches!(output.ast.expr(rhs).kind, ExprKind::Binary { op: BinaryOp::Mul, .. }));
    let ExprKind::Binary { op: BinaryOp::Add, lhs, .. } = top(1) else { panic!("expected addition") };
    assert!(matches!(output.ast.expr(lhs).kind, ExprKind::Binary { op: BinaryOp::Mul, .. }));
    let ExprKind::Binary { op: BinaryOp::Add, lhs, .. } = top(2) else { panic!("expected addition") };
    assert!(matches!(output.ast.expr(lhs).kind, ExprKind::Binary { op: BinaryOp::Add, .. }));
}
