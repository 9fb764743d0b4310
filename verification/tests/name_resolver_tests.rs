use rex::ast::{Ast, Expr, ExprKind, Function, Ident, Item, ItemKind, Module, Param, Stmt, StmtKind, TypeRef};
use rex::diagnostics::Span;
use rex::lexer::lex;
use rex::name_resolver::{resolve, FunctionId, LocalId, LocalSource, ResolvedName};
use rex::parser::parse;

fn parse_clean(source: &str) -> Ast {
    let output = parse(lex(source));
    assert!(output.diagnostics.is_empty());
    output.ast
}

#[test]
fn resolves_local_identifiers() {
    let ast = parse_clean("fn main():\n    var x = 1 + 2\n    let y = x * 3\n    print y\n");
    let output = resolve(&ast);

    assert!(output.diagnostics.is_empty());
    assert_eq!(output.symbols.functions.len(), 1);
    assert_eq!(output.symbols.locals.len(), 2);
    assert_eq!(output.symbols.locals[0].name.text, "x");
    assert_eq!(output.symbols.locals[1].name.text, "y");

    let LocalSource::Stmt(stmt) = output.symbols.locals[1].source else {
        panic!("expected statement local");
    };
    let y_initializer = match &ast.stmt(stmt).kind {
        StmtKind::Local(local) => local.initializer,
        _ => panic!("expected local statement"),
    };
    let ExprKind::Binary { lhs, .. } = ast.expr(y_initializer).kind else {
        panic!("expected binary initializer");
    };
    assert_eq!(output.resolved_names.expr(lhs), Some(ResolvedName::Local(LocalId(0))));
}

#[test]
fn reports_undefined_names() {
    let ast = parse_clean("fn main():\n    print missing\n");
    let output = resolve(&ast);

    assert!(output.diagnostics.iter().any(|diagnostic| diagnostic.code == "resolve.undefined_name"));
}

#[test]
fn reports_duplicate_local_names() {
    let ast = parse_clean("fn main():\n    var x = 1\n    let x = 2\n    print x\n");
    let output = resolve(&ast);

    assert!(output.diagnostics.iter().any(|diagnostic| diagnostic.code == "resolve.duplicate_local"));
    assert_eq!(output.symbols.locals.len(), 2);
}

#[test]
fn resolves_function_parameters() {
    let mut ast = Ast::new();
    let param = Param::new(Ident::new("x", Span::new(8, 9)), Some(TypeRef::named("int", Span::new(11, 14))));
    let param_ref =
        ast.push_expr(Expr::new(ExprKind::Ident(Ident::new("x", Span::new(27, 28))), Span::new(27, 28)));
    let stmt = ast.push_stmt(Stmt::new(StmtKind::Print(param_ref), Span::new(21, 28)));
    let item = ast.push_item(Item::new(
        ItemKind::Function(Function::new(Ident::new("main", Span::new(3, 7)), vec![param], None, vec![stmt])),
        Span::new(0, 28),
    ));
    let module = ast.push_module(Module::new(vec![item], Span::new(0, 28)));
    ast.set_root(module);

    let output = resolve(&ast);

    assert!(output.diagnostics.is_empty());
    assert_eq!(output.symbols.locals.len(), 1);
    assert_eq!(output.symbols.locals[0].source, LocalSource::Param { item, index: 0 });
    assert_eq!(output.resolved_names.expr(param_ref), Some(ResolvedName::Local(LocalId(0))));
}

#[test]
fn reports_duplicate_functions_with_a_note_on_the_first() {
    let ast = parse_clean("fn f():\n    print 1\nfn f():\n    print 2\n");
    let output = resolve(&ast);

    assert_eq!(output.symbols.functions.len(), 2);
    assert_eq!(output.diagnostics.len(), 1);
    let d = &output.diagnostics[0];
    assert_eq!(d.code, "resolve.duplicate_function");
    assert_eq!(d.message, "function `f` is already defined");
    assert_eq!(d.span, Span::new(23, 24));
    assert_eq!(d.notes.len(), 1);
    assert_eq!(d.notes[0].message, "previous definition is here");
    assert_eq!(d.notes[0].span, Some(Span::new(3, 4)));
}

#[test]
fn locals_shadow_functions_and_functions_resolve_across_items() {
    let ast = parse_clean("fn g():\n    print h\nfn h():\n    var g = 1\n    print g\n");
    let output = resolve(&ast);
    assert!(output.diagnostics.is_empty());
    let mut found_function = false;
    let mut found_local = false;
    for (index, expr) in ast.exprs().iter().enumerate() {
        if let ExprKind::Ident(name) = &expr.kind {
            let resolution = output.resolved_names.exprs[index];
            if name.text == "h" {
                assert_eq!(resolution, Some(ResolvedName::Function(FunctionId(1))));
                found_function = true;
            } else {
                assert_eq!(resolution, Some(ResolvedName::Local(LocalId(0))));
                found_local = true;
            }
        }
    }
    assert!(found_function && found_local);
}

#[test]
fn undefined_name_message_quotes_the_name() {
    let ast = parse_clean("fn main():\n    print nope\n");
    let output = resolve(&ast);
    assert_eq!(output.diagnostics.len(), 1);
    assert_eq!(output.diagnostics[0].message, "undefined name `nope`");
    assert_eq!(output.diagnostics[0].span, Span::new(21, 25));
}

#[test]
fn scopes_end_with_their_function() {
    let ast = parse_clean("fn a():\n    var x = 1\nfn b():\n    print x\n");
    let output = resolve(&ast);
    assert!(output.diagnostics.iter().any(|d| d.code == "resolve.undefined_name"));
}

#[test]
fn symbol_lookups_by_item_and_statement() {
    let ast = parse_clean("fn main():\n    var x = 1\n");
    let output = resolve(&ast);
    let module = ast.root().expect("root module");
    let item = module.items[0];
    assert_eq!(output.symbols.function_id_for_item(item), Some(FunctionId(0)));
    assert_eq!(output.symbols.function(FunctionId(0)).name.text, "main");
    let ItemKind::Function(function) = &ast.item(item).kind else {
        panic!("expected function item");
    };
    assert_eq!(output.symbols.local_id_for_stmt(function.body[0]), Some(LocalId(0)));
    assert_eq!(output.symbols.local(LocalId(0)).name.text, "x");
    assert_eq!(output.resolved_names.expr(rex::ast::ExprId(99)), None);
}
