use icfp_lang::integer::Integer;
use icfp_lang::parser::Node;
use icfp_lang::transpiler::Transpiler;
use rust_lisp::default_env;
use rust_lisp::interpreter::eval;
use rust_lisp::model::Value;
use rust_lisp::parser::parse;
use std::cell::RefCell;
use std::rc::Rc;

fn integer(v: i64) -> Node {
    Node::Integer(Integer::from_i64(v))
}

fn variable(v: u64) -> Node {
    Node::Variable(Integer::from_u64(v))
}

fn binder(v: u64) -> Integer {
    Integer::from_u64(v)
}

#[test]
fn test_transpile() {
    let node = Node::BinaryOperator(
        "+".to_string(),
        Box::new(integer(1)),
        Box::new(integer(2)),
    );
    let transpiler = Transpiler::new(node);
    let result = transpiler.transpile();
    assert_eq!(result, "(+ 1 2)");
    let env = Rc::new(RefCell::new(default_env()));
    let mut ast_iter = parse(&result);
    let ast = ast_iter.next().unwrap().unwrap();
    let result = eval(env.clone(), &ast).unwrap();
    assert_eq!(result, Value::Int(3));
}

#[test]
fn test_transpile_nested() {
    let node = Node::BinaryOperator(
        "+".to_string(),
        Box::new(integer(1)),
        Box::new(Node::BinaryOperator(
            "+".to_string(),
            Box::new(integer(2)),
            Box::new(integer(3)),
        )),
    );
    let transpiler = Transpiler::new(node);
    let result = transpiler.transpile();
    assert_eq!(result, "(+ 1 (+ 2 3))");
    let env = Rc::new(RefCell::new(default_env()));
    let mut ast_iter = parse(&result);
    let ast = ast_iter.next().unwrap().unwrap();
    let result = eval(env.clone(), &ast).unwrap();
    assert_eq!(result, Value::Int(6));
}

#[test]
fn test_transpile_if() {
    let node = Node::If(
        Box::new(Node::Boolean(true)),
        Box::new(integer(1)),
        Box::new(integer(2)),
    );
    let transpiler = Transpiler::new(node);
    let result = transpiler.transpile();
    assert_eq!(result, "(if 1 1 2)");
    let env = Rc::new(RefCell::new(default_env()));
    let mut ast_iter = parse(&result);
    let ast = ast_iter.next().unwrap().unwrap();
    let result = eval(env.clone(), &ast).unwrap();
    assert_eq!(result, Value::Int(1));

    let node = Node::If(
        Box::new(Node::Boolean(false)),
        Box::new(integer(1)),
        Box::new(integer(2)),
    );
    let transpiler = Transpiler::new(node);
    let result = transpiler.transpile();
    assert_eq!(result, "(if nil 1 2)");
    let env = Rc::new(RefCell::new(default_env()));
    let mut ast_iter = parse(&result);
    let ast = ast_iter.next().unwrap().unwrap();
    let result = eval(env.clone(), &ast).unwrap();
    assert_eq!(result, Value::Int(2));
}

#[test]
fn test_transpile_lambda() {
    let node = Node::Lambda(
        binder(2),
        Box::new(Node::BinaryOperator(
            "+".to_string(),
            Box::new(integer(1)),
            Box::new(variable(2)),
        )),
    );
    let transpiler = Transpiler::new(node);
    let result = transpiler.transpile();
    assert_eq!(result, "(lambda (v2) (+ 1 v2))");
    let env = Rc::new(RefCell::new(default_env()));
    let mut ast_iter = parse(&result);
    let ast = ast_iter.next().unwrap().unwrap();
    let result = eval(env.clone(), &ast).unwrap();
    assert!(matches!(result, Value::Lambda(_)));
}

#[test]
fn test_transpile_nested_lambda() {
    let node = Node::Lambda(
        binder(2),
        Box::new(Node::Lambda(
            binder(3),
            Box::new(Node::BinaryOperator(
                "+".to_string(),
                Box::new(variable(2)),
                Box::new(variable(3)),
            )),
        )),
    );
    let transpiler = Transpiler::new(node);
    let result = transpiler.transpile();
    assert_eq!(result, "(lambda (v2) (lambda (v3) (+ v2 v3)))");
    let env = Rc::new(RefCell::new(default_env()));
    let mut ast_iter = parse(&result);
    let ast = ast_iter.next().unwrap().unwrap();
    let result = eval(env.clone(), &ast).unwrap();
    assert!(matches!(result, Value::Lambda(_)));
}

#[test]
fn test_transpile_unary_operator() {
    let node = Node::UnaryOperator("-".to_string(), Box::new(integer(1)));
    let transpiler = Transpiler::new(node);
    let result = transpiler.transpile();
    assert_eq!(result, "-1");
    let env = Rc::new(RefCell::new(default_env()));
    let mut ast_iter = parse(&result);
    let ast = ast_iter.next().unwrap().unwrap();
    let result = eval(env.clone(), &ast).unwrap();
    assert_eq!(result, Value::Int(-1));

    let node = Node::UnaryOperator("!".to_string(), Box::new(Node::Boolean(true)));
    let transpiler = Transpiler::new(node);
    let result = transpiler.transpile();
    assert_eq!(result, "nil");
}

#[test]
fn test_integration() {
    let node = Node::BinaryOperator(
        "$".to_string(),
        Box::new(Node::Lambda(
            binder(3),
            Box::new(Node::BinaryOperator(
                "+".to_string(),
                Box::new(integer(4)),
                Box::new(variable(3)),
            )),
        )),
        Box::new(integer(1)),
    );
    let transpiler = Transpiler::new(node);
    let result = transpiler.transpile();
    assert_eq!(result, "(funcall (lambda (v3) (+ 4 v3)) 1)");

    let node = Node::BinaryOperator(
        "$".to_string(),
        Box::new(Node::Lambda(
            binder(2),
            Box::new(Node::BinaryOperator(
                "$".to_string(),
                Box::new(Node::Lambda(
                    binder(3),
                    Box::new(Node::BinaryOperator(
                        "+".to_string(),
                        Box::new(variable(2)),
                        Box::new(variable(3)),
                    )),
                )),
                Box::new(integer(1)),
            )),
        )),
        Box::new(integer(2)),
    );
    let transpiler = Transpiler::new(node);
    let result = transpiler.transpile();
    assert_eq!(
        result,
        "(funcall (lambda (v2) (funcall (lambda (v3) (+ v2 v3)) 1)) 2)"
    );
}

#[test]
fn test_more_complex() {
    let node = Node::BinaryOperator(
        "$".to_string(),
        Box::new(Node::Lambda(
            binder(2),
            Box::new(Node::BinaryOperator(
                "$".to_string(),
                Box::new(Node::Lambda(
                    binder(3),
                    Box::new(Node::BinaryOperator(
                        "+".to_string(),
                        Box::new(variable(2)),
                        Box::new(variable(3)),
                    )),
                )),
                Box::new(integer(1)),
            )),
        )),
        Box::new(Node::BinaryOperator(
            "$".to_string(),
            Box::new(Node::Lambda(
                binder(3),
                Box::new(Node::BinaryOperator(
                    "+".to_string(),
                    Box::new(integer(4)),
                    Box::new(variable(3)),
                )),
            )),
            Box::new(integer(2)),
        )),
    );
    let transpiler = Transpiler::new(node);
    let result = transpiler.transpile();
    assert_eq!(
        result,
        "(funcall (lambda (v2) (funcall (lambda (v3) (+ v2 v3)) 1)) (funcall (lambda (v3) (+ 4 v3)) 2))"
    );
}

#[test]
fn test_lambda_variable() {
    let node = Node::BinaryOperator(
        "$".to_string(),
        Box::new(Node::Lambda(
            binder(2),
            Box::new(Node::BinaryOperator(
                "$".to_string(),
                Box::new(variable(2)),
                Box::new(integer(2)),
            )),
        )),
        Box::new(Node::Lambda(
            binder(1),
            Box::new(Node::BinaryOperator(
                "+".to_string(),
                Box::new(variable(1)),
                Box::new(integer(3)),
            )),
        )),
    );
    let transpiler = Transpiler::new(node);
    let result = transpiler.transpile();
    assert_eq!(
        result,
        "(funcall (lambda (v2) (funcall v2 2)) (lambda (v1) (+ v1 3)))"
    );
}

#[test]
fn transpile_the_remaining_forms() {
    assert_eq!(
        Transpiler::new(Node::String("a b".to_string())).transpile(),
        "\"a b\""
    );
    assert_eq!(Transpiler::new(integer(-12)).transpile(), "-12");
    assert_eq!(
        Transpiler::new(Node::UnaryOperator(
            "!".to_string(),
            Box::new(Node::Boolean(false))
        ))
        .transpile(),
        "1"
    );
    assert_eq!(
        Transpiler::new(Node::UnaryOperator("#".to_string(), Box::new(variable(1)))).transpile(),
        "# v1"
    );
    assert_eq!(
        Transpiler::new(Node::BinaryOperator(
            ".".to_string(),
            Box::new(Node::String("a".to_string())),
            Box::new(Node::String("b".to_string()))
        ))
        .transpile(),
        "(concatenate 'string \"a\" \"b\")"
    );
    assert_eq!(
        Transpiler::new(Node::BinaryOperator(
            "=".to_string(),
            Box::new(integer(1)),
            Box::new(integer(2))
        ))
        .transpile(),
        "(== 1 2)"
    );
}

#[test]
fn dump_tree_examples() {
    let node = Node::BinaryOperator(
        "$".to_string(),
        Box::new(Node::Lambda(
            binder(2),
            Box::new(Node::If(
                Box::new(Node::Boolean(true)),
                Box::new(Node::UnaryOperator("-".to_string(), Box::new(variable(2)))),
                Box::new(Node::String("\n".to_string())),
            )),
        )),
        Box::new(integer(-7)),
    );
    assert_eq!(
        node.dump_tree(0),
        "BinaryOperator($)\n  Lambda(2)\n    If\n      Boolean(true)\n      UnaryOperator(-)\n        Variable(2)\n      String(\\n)\n  Integer(-7)\n"
    );
    assert_eq!(integer(5).dump_tree(3), "   Integer(5)\n");
    assert_eq!(
        Node::String("a\nb".to_string()).dump_tree(1),
        " String(a\nb)\n"
    );
}
