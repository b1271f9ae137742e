use lil::ast::{AbstractSyntaxTree, Decl, Expr, Name, Node, Stmt, Type};
use lil::parser::Parser;
use lil::typer::TypeChecker;

fn no_map<'a>(_: usize, _: &'a str) {}

fn no_types(_: usize, _: Type) {}

fn text_of(ast: &AbstractSyntaxTree, name: Name) -> String {
    match ast.get(name.0) {
        Node::Utf8(text) => text.clone(),
        other => panic!("no name: {:?}", other),
    }
}

fn is_primitive(node: &Node) -> bool {
    matches!(node, Node::BoolType | Node::NullType | Node::VoidType | Node::IntType(_, _))
}

fn operand(ast: &AbstractSyntaxTree, t: Type, out: &mut Vec<String>) {
    if is_primitive(ast.get(t.0)) {
        write_type(ast, t, out);
    } else {
        out.push("(".to_string());
        write_type(ast, t, out);
        out.push(")".to_string());
    }
}

fn write_pairs(ast: &AbstractSyntaxTree, pairs: &[(Type, Name)], out: &mut Vec<String>) {
    for (i, (t, n)) in pairs.iter().enumerate() {
        if i > 0 {
            out.push(",".to_string());
        }
        write_type(ast, *t, out);
        out.push(text_of(ast, *n));
    }
}

fn write_type(ast: &AbstractSyntaxTree, t: Type, out: &mut Vec<String>) {
    match ast.get(t.0) {
        Node::BoolType => out.push("bool".to_string()),
        Node::NullType => out.push("null".to_string()),
        Node::VoidType => out.push("void".to_string()),
        Node::IntType(signed, width) => {
            out.push(format!("{}{}", if *signed { "i" } else { "u" }, width))
        }
        Node::ArrayType(_) => {
            let mut depth = 0;
            let mut core = t;
            while let Node::ArrayType(e) = ast.get(core.0) {
                depth += 1;
                core = *e;
            }
            operand(ast, core, out);
            for _ in 0..depth {
                out.push("[".to_string());
                out.push("]".to_string());
            }
        }
        Node::ReferenceType(_) => {
            let mut core = t;
            while let Node::ReferenceType(e) = ast.get(core.0) {
                out.push("&".to_string());
                core = *e;
            }
            operand(ast, core, out);
        }
        Node::RecordType(fields) => {
            out.push("{".to_string());
            write_pairs(ast, fields, out);
            out.push("}".to_string());
        }
        other => panic!("no type: {:?}", other),
    }
}

fn write_term(ast: &AbstractSyntaxTree, e: Expr, out: &mut Vec<String>) {
    if matches!(ast.get(e.index), Node::LessThanExpr(_, _)) {
        out.push("(".to_string());
        write_expr(ast, e, out);
        out.push(")".to_string());
    } else {
        write_expr(ast, e, out);
    }
}

fn write_expr(ast: &AbstractSyntaxTree, e: Expr, out: &mut Vec<String>) {
    match ast.get(e.index) {
        Node::BoolExpr(value) => out.push(value.to_string()),
        Node::IntExpr(value) => out.push(value.to_string()),
        Node::VarExpr(name) => out.push(text_of(ast, *name)),
        Node::LessThanExpr(lhs, rhs) => {
            write_term(ast, *lhs, out);
            out.push("<".to_string());
            write_term(ast, *rhs, out);
        }
        other => panic!("no expression: {:?}", other),
    }
}

fn write_stmt(ast: &AbstractSyntaxTree, s: Stmt, out: &mut Vec<String>) {
    match ast.get(s.index) {
        Node::AssertStmt(condition) => {
            out.push("assert".to_string());
            write_expr(ast, *condition, out);
        }
        Node::SkipStmt => out.push("skip".to_string()),
        other => panic!("no statement: {:?}", other),
    }
    out.push(";".to_string());
}

fn write_decl(ast: &AbstractSyntaxTree, d: Decl) -> String {
    let mut out = Vec::new();
    match ast.get(d.index) {
        Node::TypeDecl(name, aliased) => {
            out.push("type".to_string());
            out.push(text_of(ast, *name));
            out.push("=".to_string());
            write_type(ast, *aliased, &mut out);
            out.push(";".to_string());
        }
        Node::MethodDecl(name, result, params, body) => {
            write_type(ast, *result, &mut out);
            out.push(text_of(ast, *name));
            out.push("(".to_string());
            let pairs: Vec<(Type, Name)> = params.iter().map(|p| (p.declared, p.name)).collect();
            write_pairs(ast, &pairs, &mut out);
            out.push(")".to_string());
            out.push("{".to_string());
            match ast.get(body.index) {
                Node::BlockStmt(stmts) => {
                    for s in stmts {
                        write_stmt(ast, *s, &mut out);
                    }
                }
                other => panic!("no block: {:?}", other),
            }
            out.push("}".to_string());
        }
        other => panic!("no declaration: {:?}", other),
    }
    out.iter().map(|word| format!("{} ", word)).collect()
}

fn read(source: &str, ast: &mut AbstractSyntaxTree) -> Decl {
    let mut parser = Parser::new(source, ast, no_map);
    let d = parser.parse_decl().unwrap();
    assert!(parser.lexer.peek() == lil::lexer::eof());
    d
}

fn read_again(source: &str, written: &str) {
    let mut first = AbstractSyntaxTree::new();
    let d = read(source, &mut first);
    let text = write_decl(&first, d);
    assert_eq!(text, written);
    // Into an arena which holds other nodes already
    let mut second = AbstractSyntaxTree::new();
    second.push(Node::SkipStmt);
    second.push(Node::NullType);
    let again = read(&text, &mut second);
    assert_eq!(write_decl(&second, again), written);
    assert_eq!(second.len(), first.len() + 2);
    for i in 0..first.len() {
        assert_eq!(
            std::mem::discriminant(first.get(i)),
            std::mem::discriminant(second.get(i + 2))
        );
    }
    assert_eq!(
        TypeChecker::new(&first, no_types).check(d).is_ok(),
        TypeChecker::new(&second, no_types).check(again).is_ok()
    );
}

#[test]
fn written_type_declarations_are_read_back() {
    read_again("type t=bool;", "type t = bool ; ");
    read_again("type r = &&i16;", "type r = & & i16 ; ");
    read_again("type a = i32[][];", "type a = i32 [ ] [ ] ; ");
    read_again("type a = (&u32)[];", "type a = ( & u32 ) [ ] ; ");
    read_again("type a = &(u32[]);", "type a = & ( u32 [ ] ) ; ");
    read_again("type a = ((u32))[];", "type a = u32 [ ] ; ");
    read_again(
        "type rec = {i64 f, u32 g, {} n, (&({null[] z}))[] deep};",
        "type rec = { i64 f , u32 g , { } n , ( & ( { null [ ] z } ) ) [ ] deep } ; ",
    );
}

#[test]
fn written_method_declarations_are_read_back() {
    read_again("void f(){}", "void f ( ) { } ");
    read_again(
        "bool f(i32 i, bool b) { assert i < 0; skip; assert b; }",
        "bool f ( i32 i , bool b ) { assert i < 0 ; skip ; assert b ; } ",
    );
    read_again(
        "u8[] g(&u8 p,{i8 x}r){assert (1<2)<((p));assert((true));assert 0042 <r;}",
        "u8 [ ] g ( & u8 p , { i8 x } r ) { assert ( 1 < 2 ) < p ; assert true ; \
         assert 42 < r ; } ",
    );
}
