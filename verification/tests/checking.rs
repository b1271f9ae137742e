use lil::ast::{AbstractSyntaxTree, Decl, Expr, Name, Node, Parameter, Stmt, Type};
use lil::error::{
    expected_subtype, internal_failure, variable_not_found, ErrorCode, SyntaxError,
};
use lil::parser::Parser;
use lil::source_map::{empty_highlight, highlight, to_whitespace, SourceMap};
use lil::type_map::TypeMap;
use lil::typer::{Env, TypeChecker};
use lil::typing::ExprType;

fn no_map<'a>(_: usize, _: &'a str) {}

fn no_types(_: usize, _: Type) {}

fn check(input: &str) -> Result<(), SyntaxError> {
    let mut ast = AbstractSyntaxTree::new();
    let d = Parser::new(input, &mut ast, no_map).parse_decl().unwrap();
    TypeChecker::new(&ast, no_types).check(d)
}

fn code(e: &SyntaxError) -> &'static str {
    match e.errno {
        ErrorCode::InternalFailure(_) => "internal failure",
        ErrorCode::ExpectedSubtype => "expected subtype",
        ErrorCode::VariableNotFound => "variable not found",
    }
}

#[test]
fn assert_takes_a_boolean() {
    assert!(check("void f(bool b){ assert b; }").is_ok());
    assert!(check("void f(){ assert true; }").is_ok());
    let e = check("void f(){ assert 1; }").unwrap_err();
    assert_eq!((e.node, code(&e)), (2, "expected subtype"));
    let e = check("void f(i32 i){ assert i; }").unwrap_err();
    assert_eq!((e.node, code(&e)), (5, "expected subtype"));
    let e = check("void f(bool[] b){ assert b; }").unwrap_err();
    assert_eq!((e.node, code(&e)), (6, "expected subtype"));
}

#[test]
fn unknown_variable_is_an_error() {
    let e = check("void f(){ assert b; }").unwrap_err();
    assert_eq!((e.node, code(&e)), (3, "variable not found"));
    let e = check("void f(bool a){ assert 1 < b; }").unwrap_err();
    assert_eq!((e.node, code(&e)), (6, "variable not found"));
}

#[test]
fn comparison_takes_integers_of_one_type() {
    assert!(check("void f(i32 i){ assert i < 0; }").is_ok());
    assert!(check("void f(u8 a, u8 b){ assert a < b; }").is_ok());
    assert!(check("void f(){ assert 1 < (2); }").is_ok());
    let e = check("void f(bool b){ assert b < 0; }").unwrap_err();
    assert_eq!((e.node, code(&e)), (5, "expected subtype"));
    let e = check("void f(u8 a){ assert a < 0; }").unwrap_err();
    assert_eq!((e.node, code(&e)), (6, "expected subtype"));
    let e = check("void f(i64 a, i32 b){ assert b < a; }").unwrap_err();
    assert_eq!((e.node, code(&e)), (9, "expected subtype"));
    let e = check("void f(u32 a){ assert 0 < a; }").unwrap_err();
    assert_eq!((e.node, code(&e)), (6, "expected subtype"));
    let e = check("void f(i32 a){ assert 0 < true; }").unwrap_err();
    assert_eq!((e.node, code(&e)), (5, "expected subtype"));
}

#[test]
fn comparison_is_boolean() {
    let mut ast = AbstractSyntaxTree::new();
    let e = Parser::new("(1 < 2) < 3", &mut ast, no_map).parse_expr().unwrap();
    let checker = TypeChecker::new(&ast, no_types);
    let error = checker.check_expr(&Env::new(), e).unwrap_err();
    assert_eq!((error.node, code(&error)), (2, "expected subtype"));
    assert!(matches!(checker.check_expr(&Env::new(), Expr { index: 2 }), Ok(ExprType::Bool)));
}

#[test]
fn first_failure_of_a_block_is_reported() {
    let e = check("void f(bool b){ skip; assert 1; assert c; }").unwrap_err();
    assert_eq!((e.node, code(&e)), (5, "expected subtype"));
    let e = check("void f(bool b){ assert c; assert 1; }").unwrap_err();
    assert_eq!((e.node, code(&e)), (5, "variable not found"));
    assert!(check("void f(bool b){ skip; skip; assert b; }").is_ok());
    assert!(check("void f(){ }").is_ok());
}

#[test]
fn later_parameter_hides_earlier_one() {
    assert!(check("void f(i32 x, bool x){ assert x; }").is_ok());
    let e = check("void f(bool x, i32 x){ assert x; }").unwrap_err();
    assert_eq!((e.node, code(&e)), (7, "expected subtype"));
}

#[test]
fn type_declaration_binds_nothing() {
    assert!(check("type t = {i32 a, (&bool)[] b};").is_ok());
    let mut ast = AbstractSyntaxTree::new();
    let first = Parser::new("type t = bool;", &mut ast, no_map).parse_decl().unwrap();
    let second = Parser::new("void f(){ assert t; }", &mut ast, no_map).parse_decl().unwrap();
    let checker = TypeChecker::new(&ast, no_types);
    assert!(checker.check(first).is_ok());
    let e = checker.check(second).unwrap_err();
    assert_eq!(code(&e), "variable not found");
}

#[test]
fn literal_types() {
    let ast = AbstractSyntaxTree::new();
    let checker = TypeChecker::new(&ast, no_types);
    let env = Env::new();
    assert!(matches!(checker.check_boolean_literal(&env, false), Ok(ExprType::Bool)));
    assert!(matches!(checker.check_integer_literal(&env, 7), Ok(ExprType::Int(true, 32))));
    assert!(matches!(checker.check_integer_literal(&env, -7), Ok(ExprType::Int(true, 32))));
    assert!(checker.check_skip(&env).is_ok());
}

#[test]
fn handles_which_lead_nowhere_are_internal_failures() {
    let mut ast = AbstractSyntaxTree::new();
    let t = Type::new(&mut ast, Node::BoolType);
    let n = Name::new(&mut ast, "n");
    let e = Expr::new(&mut ast, Node::BoolExpr(true));
    let eq = Expr::new(&mut ast, Node::EqualsExpr(e, e));
    let ne = Expr::new(&mut ast, Node::NotEqualsExpr(e, e));
    let var = Expr::new(&mut ast, Node::VarExpr(Name(0)));
    let checker = TypeChecker::new(&ast, no_types);
    let env = Env::new();
    let error = checker.check(Decl { index: 0 }).unwrap_err();
    assert_eq!((error.node, code(&error)), (0, "internal failure"));
    let error = checker.check(Decl { index: 99 }).unwrap_err();
    assert_eq!((error.node, code(&error)), (99, "internal failure"));
    let error = checker.check_stmt(&env, Stmt { index: 1 }).unwrap_err();
    assert_eq!((error.node, code(&error)), (1, "internal failure"));
    let error = checker.check_stmt(&env, Stmt { index: 99 }).unwrap_err();
    assert_eq!((error.node, code(&error)), (99, "internal failure"));
    let error = checker.check_expr(&env, Expr { index: 0 }).unwrap_err();
    assert_eq!((error.node, code(&error)), (0, "internal failure"));
    let error = checker.check_expr(&env, eq).unwrap_err();
    assert_eq!((error.node, code(&error)), (3, "internal failure"));
    let error = checker.check_expr(&env, ne).unwrap_err();
    assert_eq!((error.node, code(&error)), (4, "internal failure"));
    let error = checker.check_expr(&env, var).unwrap_err();
    assert_eq!((error.node, code(&error)), (0, "internal failure"));
    let error = checker.check_type(&Type(1)).unwrap_err();
    assert_eq!((error.node, code(&error)), (1, "internal failure"));
    let error = checker.check_type_alias(n, Type(42)).unwrap_err();
    assert_eq!((error.node, code(&error)), (42, "internal failure"));
    let error = checker
        .check_method(n, t, vec![Parameter { declared: t, name: Name(2) }], Stmt { index: 0 })
        .unwrap_err();
    assert_eq!((error.node, code(&error)), (2, "internal failure"));
    let error = checker.check_block(&env, vec![Stmt { index: 6 }]).unwrap_err();
    assert_eq!((error.node, code(&error)), (6, "internal failure"));
    match error.errno {
        ErrorCode::InternalFailure(message) => assert_eq!(message, "unknown statement"),
        _ => unreachable!(),
    }
}

#[test]
fn nodes_which_point_upwards_are_refused() {
    let mut ast = AbstractSyntaxTree::new();
    ast.push(Node::ArrayType(Type(0)));
    ast.push(Node::LessThanExpr(Expr { index: 1 }, Expr { index: 1 }));
    ast.push(Node::BlockStmt(vec![Stmt { index: 2 }]));
    ast.push(Node::ReferenceType(Type(4)));
    ast.push(Node::ReferenceType(Type(3)));
    let checker = TypeChecker::new(&ast, no_types);
    let env = Env::new();
    assert_eq!(code(&checker.check_type(&Type(0)).unwrap_err()), "internal failure");
    assert_eq!(code(&checker.check_type(&Type(4)).unwrap_err()), "internal failure");
    assert_eq!(code(&checker.check_expr(&env, Expr { index: 1 }).unwrap_err()), "internal failure");
    assert_eq!(code(&checker.check_stmt(&env, Stmt { index: 2 }).unwrap_err()), "internal failure");
    assert!(checker.check_matching_types(&Type(0), &Type(0)).is_err());
    assert!(!Type::is(&ast, ast.get(4)));
}

#[test]
fn declared_types_are_checked_by_structure() {
    let mut ast = AbstractSyntaxTree::new();
    let source = "{i32 a, (&bool)[] b} {i32 a, (&bool)[] b} {i32 a, (&bool)[] c} \
                  {i32 a, (&u8)[] b} {i32 a} i32 i32 u32 i64 bool bool null void null";
    let mut parser = Parser::new(source, &mut ast, no_map);
    let mut types = Vec::new();
    for _ in 0..14 {
        types.push(parser.parse_type().unwrap());
    }
    let checker = TypeChecker::new(&ast, no_types);
    for t in &types {
        assert!(checker.check_type(t).is_ok());
        assert!(checker.check_matching_types(t, t).is_ok());
    }
    assert!(checker.check_matching_types(&types[0], &types[1]).is_ok());
    assert!(checker.check_matching_types(&types[1], &types[0]).is_ok());
    assert!(checker.check_matching_types(&types[5], &types[6]).is_ok());
    assert!(checker.check_matching_types(&types[9], &types[10]).is_ok());
    assert!(checker.check_matching_types(&types[11], &types[13]).is_ok());
    for (a, b) in [(0, 2), (0, 3), (0, 4), (4, 0), (5, 7), (5, 8), (5, 9), (11, 12), (9, 11)] {
        let e = checker.check_matching_types(&types[a], &types[b]).unwrap_err();
        assert_eq!((e.node, code(&e)), (types[b].0, "expected subtype"));
    }
    assert!(checker.check_int_type(types[5]).is_ok());
    assert!(checker.check_int_type(types[7]).is_ok());
    let e = checker.check_int_type(types[9]).unwrap_err();
    assert_eq!((e.node, code(&e)), (types[9].0, "expected subtype"));
    assert!(checker.check_bool_type(types[9]).is_ok());
    let e = checker.check_bool_type(types[5]).unwrap_err();
    assert_eq!((e.node, code(&e)), (types[5].0, "expected subtype"));
    assert!(checker.check_bool_type(Type(1000)).is_err());
    assert!(checker.check_int_type(Type(1000)).is_err());
}

#[test]
fn variable_access_by_text() {
    let mut ast = AbstractSyntaxTree::new();
    let t = Type::new(&mut ast, Node::BoolType);
    let u = Type::new(&mut ast, Node::VoidType);
    let x = Name::new(&mut ast, "x");
    let other_x = Name::new(&mut ast, "x");
    let y = Name::new(&mut ast, "y");
    let checker = TypeChecker::new(&ast, no_types);
    let mut env = Env::new();
    env.insert("x".to_string(), t);
    assert_eq!(checker.check_variable_access(&env, 9, x).unwrap(), t);
    assert_eq!(checker.check_variable_access(&env, 9, other_x).unwrap(), t);
    let e = checker.check_variable_access(&env, 9, y).unwrap_err();
    assert_eq!((e.node, code(&e)), (9, "variable not found"));
    let e = checker.check_variable_access(&env, 9, Name(0)).unwrap_err();
    assert_eq!((e.node, code(&e)), (0, "internal failure"));
    let copy = env.clone();
    env.insert("x".to_string(), u);
    env.insert("y".to_string(), t);
    assert_eq!(env.get(&"x".to_string()), Some(u));
    assert_eq!(env.get(&"y".to_string()), Some(t));
    assert_eq!(env.get(&"z".to_string()), None);
    assert_eq!(copy.get(&"x".to_string()), Some(t));
    assert_eq!(copy.get(&"y".to_string()), None);
}

#[test]
fn assert_on_an_expression() {
    let mut ast = AbstractSyntaxTree::new();
    let t = Expr::new(&mut ast, Node::BoolExpr(true));
    let i = Expr::new(&mut ast, Node::IntExpr(1));
    let checker = TypeChecker::new(&ast, no_types);
    let env = Env::new();
    assert!(checker.check_assert(&env, t).is_ok());
    let e = checker.check_assert(&env, i).unwrap_err();
    assert_eq!((e.node, code(&e)), (1, "expected subtype"));
    assert!(matches!(checker.check_lessthan_comparator(&env, i, i), Ok(ExprType::Bool)));
    let e = checker.check_lessthan_comparator(&env, t, i).unwrap_err();
    assert_eq!((e.node, code(&e)), (0, "expected subtype"));
}

#[test]
fn errors_are_made_of_their_parts() {
    let e = internal_failure(4, "broken");
    assert_eq!(e.node, 4);
    match &e.errno {
        ErrorCode::InternalFailure(message) => assert_eq!(message, "broken"),
        _ => unreachable!(),
    }
    let e = expected_subtype(5);
    assert_eq!((e.node, code(&e)), (5, "expected subtype"));
    let e = variable_not_found(6);
    assert_eq!((e.node, code(&e)), (6, "variable not found"));
    assert_eq!(e.errno.to_string(), "expected a type, found another type");
    assert_eq!(ErrorCode::ExpectedSubtype.to_string(), "expected a type, found another type");
}

#[test]
fn highlights_of_mapped_nodes() {
    let line = "type t = bool;";
    let mut sources = SourceMap::new(line);
    assert_eq!(sources.input, line);
    let h = sources.get_highlight(3);
    assert_eq!((h.line, h.start, h.end), ("", 0, 0));
    sources.map(3, &line[9..13]);
    sources.map(4, line);
    let h = sources.get_highlight(3);
    assert_eq!((h.line, h.start, h.end), ("bool", 0, 1));
    let h = sources.get_highlight(4);
    assert_eq!((h.line, h.start, h.end), (line, 0, 1));
    sources.map(3, &line[0..4]);
    let h = sources.get_highlight(3);
    assert_eq!((h.line, h.start, h.end), ("type", 0, 1));
    let h = sources.get_highlight(5);
    assert_eq!((h.line, h.start, h.end), ("", 0, 0));
    let h = empty_highlight();
    assert_eq!((h.line, h.start, h.end), ("", 0, 0));
}

#[test]
fn types_of_mapped_nodes() {
    let mut types = TypeMap::new();
    let empty = types.clone();
    types.map(1, Type(7));
    let one = types.clone();
    assert!(types == one);
    assert!(types != empty);
    types.map(1, Type(8));
    assert!(types != one);
    types.map(1, Type(7));
    assert!(types == one);
}

#[test]
fn marks_below_a_line() {
    assert_eq!(to_whitespace("type nat i8;", 9), "         ");
    assert_eq!(to_whitespace("type", 0), "");
    assert_eq!(to_whitespace("type", 100), "    ");
    assert_eq!(to_whitespace("\u{e9}\u{4e2d}x", 2), " ");
    assert_eq!(to_whitespace("\u{e9}\u{4e2d}x", 3), "  ");
    assert_eq!(to_whitespace("\u{e9}\u{4e2d}x", 5), "  ");
    assert_eq!(to_whitespace("\u{e9}\u{4e2d}x", 6), "   ");
    assert_eq!(highlight("type nat i8;", 9, 11), "         ^^");
    assert_eq!(highlight("type nat i8;", 3, 3), "   ");
    assert_eq!(highlight("type nat i8;", 5, 2), "     ");
    assert_eq!(highlight("ab", usize::MAX, usize::MAX), "  ");
    assert_eq!(highlight("\u{e9} #", 3, 4), "  ^");
}

#[test]
fn accepted_declarations_never_fail_internally() {
    let sources = [
        "type t = {i32 a, (&bool)[] b};",
        "void f(){}",
        "void f(){ assert 1; }",
        "void f(){ assert b; }",
        "void f(bool b){ assert b < 0; }",
        "void f({i8 x} r, &u8 p){ skip; assert (p < r) < (true); assert r; }",
        "i64[] g(i64 a, i64 a){ assert a < a; assert ((1)) < 2; }",
    ];
    for source in sources {
        match check(source) {
            Ok(()) => {}
            Err(e) => assert_ne!(code(&e), "internal failure", "{}", source),
        }
    }
}
