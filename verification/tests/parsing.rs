use lil::ast::{AbstractSyntaxTree, Decl, Expr, Name, Node, Parameter, Stmt, Type};
use lil::lexer::TokenType;
use lil::parser::{Error, Parser};

fn no_map<'a>(_: usize, _: &'a str) {}

fn nodes_of(ast: &AbstractSyntaxTree) -> Vec<Node> {
    (0..ast.len()).map(|i| ast.get(i).clone()).collect()
}

fn name(text: &str) -> Node {
    Node::Utf8(text.to_string())
}

fn decl_error(input: &str) -> Error {
    let mut ast = AbstractSyntaxTree::new();
    let mut parser = Parser::new(input, &mut ast, no_map);
    parser.parse_decl().unwrap_err()
}

#[test]
fn references_nest_in_source_order() {
    let mut ast = AbstractSyntaxTree::new();
    let mut parser = Parser::new("&&&i16", &mut ast, no_map);
    assert_eq!(parser.parse_type().unwrap(), Type(3));
    assert_eq!(
        nodes_of(&ast),
        vec![
            Node::IntType(true, 16),
            Node::ReferenceType(Type(0)),
            Node::ReferenceType(Type(1)),
            Node::ReferenceType(Type(2)),
        ]
    );
}

#[test]
fn reference_to_a_bracketed_array() {
    let mut ast = AbstractSyntaxTree::new();
    let mut parser = Parser::new("&(i32[])", &mut ast, no_map);
    assert_eq!(parser.parse_type().unwrap(), Type(2));
    assert_eq!(
        nodes_of(&ast),
        vec![Node::IntType(true, 32), Node::ArrayType(Type(0)), Node::ReferenceType(Type(1))]
    );
}

#[test]
fn arrays_nest_outer_wraps_inner() {
    let mut ast = AbstractSyntaxTree::new();
    let mut parser = Parser::new("bool[][][]", &mut ast, no_map);
    assert_eq!(parser.parse_type().unwrap(), Type(3));
    assert_eq!(
        nodes_of(&ast),
        vec![
            Node::BoolType,
            Node::ArrayType(Type(0)),
            Node::ArrayType(Type(1)),
            Node::ArrayType(Type(2)),
        ]
    );
}

#[test]
fn array_of_references_needs_brackets() {
    let mut ast = AbstractSyntaxTree::new();
    let mut parser = Parser::new("(&u32)[]", &mut ast, no_map);
    assert_eq!(parser.parse_type().unwrap(), Type(2));
    assert!(parser.lexer.peek().kind == TokenType::EOF);
    assert_eq!(
        nodes_of(&ast),
        vec![Node::IntType(false, 32), Node::ReferenceType(Type(0)), Node::ArrayType(Type(1))]
    );
}

#[test]
fn reference_binds_tighter_than_array_suffix() {
    let mut ast = AbstractSyntaxTree::new();
    let mut parser = Parser::new("&u32[]", &mut ast, no_map);
    assert_eq!(parser.parse_type().unwrap(), Type(1));
    let next = parser.lexer.peek();
    assert!(next.kind == TokenType::LeftSquare);
    assert_eq!(next.start, 4);
    assert_eq!(nodes_of(&ast), vec![Node::IntType(false, 32), Node::ReferenceType(Type(0))]);
}

#[test]
fn reference_with_array_suffix_is_no_declaration() {
    let e = decl_error("type t = &u32[];");
    assert_eq!((e.start, e.end), (13, 14));
    assert_eq!(e.message, "expected one thing, found another");
}

#[test]
fn array_of_records_needs_brackets() {
    let mut ast = AbstractSyntaxTree::new();
    let mut parser = Parser::new("({bool b})[]", &mut ast, no_map);
    assert_eq!(parser.parse_type().unwrap(), Type(3));
    assert_eq!(
        nodes_of(&ast),
        vec![
            Node::BoolType,
            name("b"),
            Node::RecordType(vec![(Type(0), Name(1))]),
            Node::ArrayType(Type(2)),
        ]
    );
    let e = decl_error("type t = {bool b}[];");
    assert_eq!((e.start, e.end), (17, 18));
}

#[test]
fn record_fields_keep_their_order() {
    let mut ast = AbstractSyntaxTree::new();
    let mut parser = Parser::new("{i64 f, u32 g, bool a, null z}", &mut ast, no_map);
    assert_eq!(parser.parse_type().unwrap(), Type(8));
    assert_eq!(
        nodes_of(&ast),
        vec![
            Node::IntType(true, 64),
            name("f"),
            Node::IntType(false, 32),
            name("g"),
            Node::BoolType,
            name("a"),
            Node::NullType,
            name("z"),
            Node::RecordType(vec![
                (Type(0), Name(1)),
                (Type(2), Name(3)),
                (Type(4), Name(5)),
                (Type(6), Name(7)),
            ]),
        ]
    );
}

#[test]
fn empty_record_and_nested_record() {
    let mut ast = AbstractSyntaxTree::new();
    let mut parser = Parser::new("{ {} inner, void v }", &mut ast, no_map);
    assert_eq!(parser.parse_type().unwrap(), Type(4));
    assert_eq!(
        nodes_of(&ast),
        vec![
            Node::RecordType(vec![]),
            name("inner"),
            Node::VoidType,
            name("v"),
            Node::RecordType(vec![(Type(0), Name(1)), (Type(2), Name(3))]),
        ]
    );
}

#[test]
fn every_primitive_type() {
    let cases = [
        ("null", Node::NullType),
        ("bool", Node::BoolType),
        ("i8", Node::IntType(true, 8)),
        ("i16", Node::IntType(true, 16)),
        ("i32", Node::IntType(true, 32)),
        ("i64", Node::IntType(true, 64)),
        ("u8", Node::IntType(false, 8)),
        ("u16", Node::IntType(false, 16)),
        ("u32", Node::IntType(false, 32)),
        ("u64", Node::IntType(false, 64)),
        ("void", Node::VoidType),
    ];
    for (text, node) in cases {
        let mut ast = AbstractSyntaxTree::new();
        let mut parser = Parser::new(text, &mut ast, no_map);
        assert_eq!(parser.parse_type_base().unwrap(), Type(0));
        assert_eq!(nodes_of(&ast), vec![node]);
    }
}

#[test]
fn handles_count_from_the_nodes_already_there() {
    let mut ast = AbstractSyntaxTree::new();
    assert_eq!(Name::new(&mut ast, "first"), Name(0));
    assert_eq!(Type::new(&mut ast, Node::BoolType), Type(1));
    assert_eq!(Type::new(&mut ast, Node::ArrayType(Type(1))), Type(2));
    assert_eq!(Expr::new(&mut ast, Node::BoolExpr(true)), Expr { index: 3 });
    assert_eq!(Stmt::new(&mut ast, Node::SkipStmt), Stmt { index: 4 });
    assert_eq!(Decl::new(&mut ast, Node::TypeDecl(Name(0), Type(2))), Decl { index: 5 });
    let mut parser = Parser::new("&bool", &mut ast, no_map);
    assert_eq!(parser.parse_type().unwrap(), Type(7));
    assert_eq!(ast.len(), 8);
    assert_eq!(ast.get(0), &name("first"));
    assert_eq!(ast.get(5), &Node::TypeDecl(Name(0), Type(2)));
    assert_eq!(ast.get(6), &Node::BoolType);
    assert_eq!(ast.get(7), &Node::ReferenceType(Type(6)));
}

#[test]
fn method_with_statements() {
    let mut ast = AbstractSyntaxTree::new();
    let mut parser = Parser::new("u8 g(&u8 p) { skip; assert (p) < (1); }", &mut ast, no_map);
    assert_eq!(parser.parse_decl().unwrap(), Decl { index: 12 });
    assert_eq!(
        nodes_of(&ast),
        vec![
            Node::IntType(false, 8),
            name("g"),
            Node::IntType(false, 8),
            Node::ReferenceType(Type(2)),
            name("p"),
            Node::SkipStmt,
            name("p"),
            Node::VarExpr(Name(6)),
            Node::IntExpr(1),
            Node::LessThanExpr(Expr { index: 7 }, Expr { index: 8 }),
            Node::AssertStmt(Expr { index: 9 }),
            Node::BlockStmt(vec![Stmt { index: 5 }, Stmt { index: 10 }]),
            Node::MethodDecl(
                Name(1),
                Type(0),
                vec![Parameter { declared: Type(3), name: Name(4) }],
                Stmt { index: 11 },
            ),
        ]
    );
}

#[test]
fn expression_terms() {
    let mut ast = AbstractSyntaxTree::new();
    let mut parser = Parser::new("((true)) 17 x false", &mut ast, no_map);
    assert_eq!(parser.parse_expr().unwrap(), Expr { index: 0 });
    assert_eq!(parser.parse_expr_term().unwrap(), Expr { index: 1 });
    assert_eq!(parser.parse_expr().unwrap(), Expr { index: 3 });
    assert_eq!(parser.parse_expr_term().unwrap(), Expr { index: 4 });
    assert_eq!(
        nodes_of(&ast),
        vec![
            Node::BoolExpr(true),
            Node::IntExpr(17),
            name("x"),
            Node::VarExpr(Name(2)),
            Node::BoolExpr(false),
        ]
    );
}

#[test]
fn comparison_takes_one_operator() {
    let mut ast = AbstractSyntaxTree::new();
    let mut parser = Parser::new("1 < 2 < 3", &mut ast, no_map);
    assert_eq!(parser.parse_expr().unwrap(), Expr { index: 2 });
    let next = parser.lexer.peek();
    assert!(next.kind == TokenType::LeftAngle);
    assert_eq!(next.start, 6);
}

#[test]
fn diagnostic_for_an_unknown_token() {
    let e = decl_error("void f() { return; }");
    assert_eq!((e.start, e.end), (11, 17));
    assert_eq!(e.message, "unknown token encountered");
    let e = decl_error("voi");
    assert_eq!((e.start, e.end), (0, 3));
    assert_eq!(e.message, "unknown token encountered");
    let e = decl_error("void f() { assert ; }");
    assert_eq!((e.start, e.end), (18, 19));
    assert_eq!(e.message, "unknown token encountered");
    let e = decl_error("# f() {}");
    assert_eq!((e.start, e.end), (0, 1));
    assert_eq!(e.message, "unknown token encountered");
}

#[test]
fn diagnostic_for_another_token_than_expected() {
    let e = decl_error("type nat i8;");
    assert_eq!((e.start, e.end), (9, 11));
    assert_eq!(e.message, "expected one thing, found another");
    let e = decl_error("type nat = i32");
    assert_eq!((e.start, e.end), (usize::MAX, usize::MAX));
    assert_eq!(e.message, "expected one thing, found another");
    let e = decl_error("void f(i32 x bool y) {}");
    assert_eq!((e.start, e.end), (13, 17));
    assert_eq!(e.message, "expected one thing, found another");
    let e = decl_error("void f() { skip }");
    assert_eq!((e.start, e.end), (16, 17));
    assert_eq!(e.message, "expected one thing, found another");
    let e = decl_error("type a = i32[;");
    assert_eq!((e.start, e.end), (13, 14));
    assert_eq!(e.message, "expected one thing, found another");
}

#[test]
fn diagnostic_for_the_end_of_the_input() {
    let e = decl_error("");
    assert_eq!((e.start, e.end), (usize::MAX, usize::MAX));
    assert_eq!(e.message, "unexpected end-of-file");
    let e = decl_error("type t =");
    assert_eq!(e.message, "unexpected end-of-file");
    let e = decl_error("void f(i32 x,");
    assert_eq!(e.message, "unexpected end-of-file");
}

#[test]
fn diagnostic_for_a_number_out_of_range() {
    let e = decl_error("void f() { assert 2147483648 < 1; }");
    assert_eq!((e.start, e.end), (18, 28));
    assert_eq!(e.message, "integer literal out of range");
    let mut ast = AbstractSyntaxTree::new();
    let mut parser = Parser::new("void f() { assert 2147483647 < 1; }", &mut ast, no_map);
    assert!(parser.parse_decl().is_ok());
    assert_eq!(ast.get(2), &Node::IntExpr(2147483647));
}

#[test]
fn nodes_of_a_failed_attempt_stay_behind() {
    let mut ast = AbstractSyntaxTree::new();
    let mut parser = Parser::new("type t = {i32 a, &bool}", &mut ast, no_map);
    let e = parser.parse_decl().unwrap_err();
    assert_eq!((e.start, e.end), (22, 23));
    assert_eq!(
        nodes_of(&ast),
        vec![
            name("t"),
            Node::IntType(true, 32),
            name("a"),
            Node::BoolType,
            Node::ReferenceType(Type(3)),
        ]
    );
}

#[test]
fn error_is_made_of_the_token() {
    let mut lexer = lil::lexer::Lexer::new("  while");
    let e = Error::new(lexer.next(), "unknown token encountered");
    assert_eq!((e.start, e.end, e.message), (2, 7, "unknown token encountered"));
}

#[test]
fn category_of_a_node() {
    let mut ast = AbstractSyntaxTree::new();
    let t = Type::new(&mut ast, Node::BoolType);
    let n = Name::new(&mut ast, "n");
    let e = Expr::new(&mut ast, Node::BoolExpr(true));
    let s = Stmt::new(&mut ast, Node::SkipStmt);
    let all = vec![
        name("x"),
        Node::TypeDecl(n, t),
        Node::MethodDecl(n, t, vec![], s),
        Node::AssertStmt(e),
        Node::BlockStmt(vec![s]),
        Node::SkipStmt,
        Node::BoolExpr(false),
        Node::EqualsExpr(e, e),
        Node::NotEqualsExpr(e, e),
        Node::LessThanExpr(e, e),
        Node::IntExpr(3),
        Node::VarExpr(n),
        Node::ArrayType(t),
        Node::BoolType,
        Node::IntType(false, 8),
        Node::NullType,
        Node::RecordType(vec![(t, n)]),
        Node::ReferenceType(t),
        Node::VoidType,
    ];
    let decls: Vec<bool> = all.iter().map(Decl::is).collect();
    let stmts: Vec<bool> = all.iter().map(Stmt::is).collect();
    let exprs: Vec<bool> = all.iter().map(Expr::is).collect();
    let types: Vec<bool> = all.iter().map(|node| Type::is(&ast, node)).collect();
    let f = false;
    let t = true;
    assert_eq!(decls, vec![f, t, t, f, f, f, f, f, f, f, f, f, f, f, f, f, f, f, f]);
    assert_eq!(stmts, vec![f, f, f, t, t, t, f, f, f, f, f, f, f, f, f, f, f, f, f]);
    assert_eq!(exprs, vec![f, f, f, f, f, f, t, t, t, t, t, t, f, f, f, f, f, f, f]);
    assert_eq!(types, vec![f, f, f, f, f, f, f, f, f, f, f, f, t, t, t, t, t, t, t]);
}

#[test]
fn a_type_is_made_of_types() {
    let mut ast = AbstractSyntaxTree::new();
    let n = Name::new(&mut ast, "n");
    let b = Type::new(&mut ast, Node::BoolType);
    let a = Type::new(&mut ast, Node::ArrayType(b));
    assert!(Type::is(&ast, &Node::ReferenceType(a)));
    assert!(Type::is(&ast, &Node::RecordType(vec![(a, n), (b, n)])));
    assert!(!Type::is(&ast, &Node::ArrayType(Type(0))));
    assert!(!Type::is(&ast, &Node::ReferenceType(Type(3))));
    assert!(!Type::is(&ast, &Node::RecordType(vec![(a, n), (Type(0), n)])));
    assert!(!Type::is(&ast, &Node::RecordType(vec![(Type(17), n)])));
}

#[test]
fn handles_from_references_into_the_arena() {
    let mut ast = AbstractSyntaxTree::new();
    ast.push(Node::BoolType);
    assert_eq!(Name::from(ast.push(name("n"))), Name(1));
    assert_eq!(Type::from(ast.push(Node::ArrayType(Type(0)))), Type(2));
    assert_eq!(Stmt::from(ast.push(Node::SkipStmt)), Stmt { index: 3 });
    let decl: Decl = ast.push(Node::TypeDecl(Name(1), Type(2))).into();
    assert_eq!(decl, Decl { index: 4 });
}

fn parts(node: &Node) -> Vec<usize> {
    match node {
        Node::TypeDecl(n, t) => vec![n.0, t.0],
        Node::MethodDecl(n, t, ps, b) => {
            let mut all = vec![n.0, t.0, b.index];
            for p in ps {
                all.push(p.declared.0);
                all.push(p.name.0);
            }
            all
        }
        Node::AssertStmt(e) => vec![e.index],
        Node::BlockStmt(ss) => ss.iter().map(|s| s.index).collect(),
        Node::EqualsExpr(l, r) | Node::NotEqualsExpr(l, r) | Node::LessThanExpr(l, r) => {
            vec![l.index, r.index]
        }
        Node::VarExpr(n) => vec![n.0],
        Node::ArrayType(t) | Node::ReferenceType(t) => vec![t.0],
        Node::RecordType(fs) => fs.iter().flat_map(|(t, n)| [t.0, n.0]).collect(),
        _ => vec![],
    }
}

#[test]
fn trees_are_built_bottom_up() {
    let sources = [
        "type rec = {i64 f, (&({null[] z}))[] deep};",
        "u8[] g(&u8 p,{i8 x}r){assert (1<2)<((p));assert((true));skip;}",
        "type t = {i32 a, &bool}",
        "void f(i32 x, {bool b, u8[] c",
        "void f() { assert (1 < 2) < (3 < ; }",
        "&&&({i8 a, i8[][",
    ];
    let mut ast = AbstractSyntaxTree::new();
    for source in sources {
        let _ = Parser::new(source, &mut ast, no_map).parse_decl();
        for i in 0..ast.len() {
            for part in parts(ast.get(i)) {
                assert!(part < i, "{} in node {} of {:?}", part, i, source);
            }
        }
    }
    assert!(ast.len() > 40);
}
