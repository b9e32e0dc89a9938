use icfp_lang::error::Error;
use icfp_lang::evaluator::Evaluator;
use icfp_lang::integer::Integer;
use icfp_lang::parser::{Node, Parser};
use icfp_lang::tokenizer::Tokenizer;

fn integer(v: i64) -> Node {
    Node::Integer(Integer::from_i64(v))
}

fn id(v: u64) -> Integer {
    Integer::from_u64(v)
}

fn var(v: u64) -> Node {
    Node::Variable(Integer::from_u64(v))
}

fn text(s: &str) -> Node {
    Node::String(s.to_string())
}

fn node(n: Node) -> Box<Node> {
    Box::new(n)
}

fn binary(op: &str, left: Node, right: Node) -> Node {
    Node::BinaryOperator(op.to_string(), Box::new(left), Box::new(right))
}

fn unary(op: &str, operand: Node) -> Node {
    Node::UnaryOperator(op.to_string(), Box::new(operand))
}

fn lambda(binder: u64, body: Node) -> Node {
    Node::Lambda(Integer::from_u64(binder), Box::new(body))
}

fn run(wire: &str) -> Result<Node, Error> {
    let tokens = Tokenizer::new(wire).tokenize()?;
    let node = Parser::new(&tokens).parse()?;
    Evaluator::new(node).evaluate()
}

#[test]
fn test_evaluate_unary_operator() {
    let mut evaluator = Evaluator::new(Node::Integer(Integer::from_i64(42)));
    assert_eq!(
        evaluator.evaluate_unary_operator("-", Node::Integer(Integer::from_i64(42))),
        Ok(Node::Integer(Integer::from_i64(-42)))
    );
    assert_eq!(
        evaluator.evaluate_unary_operator("!", Node::Boolean(true)),
        Ok(Node::Boolean(false))
    );
    assert_eq!(
        evaluator.evaluate_unary_operator("$", Node::Integer(Integer::from_i64(15818151))),
        Ok(Node::String("test".to_string()))
    );
}

#[test]
fn test_evaluate_binary_operator() {
    let mut evaluator = Evaluator::new(Node::Integer(Integer::from_i64(42)));
    let cases = vec![
        ("+", integer(2), integer(3), integer(5)),
        ("-", integer(3), integer(2), integer(1)),
        ("*", integer(3), integer(2), integer(6)),
        ("/", integer(-7), integer(2), integer(-3)),
        ("%", integer(-7), integer(2), integer(-1)),
        ("<", integer(3), integer(2), Node::Boolean(false)),
        (">", integer(3), integer(2), Node::Boolean(true)),
        ("=", integer(3), integer(2), Node::Boolean(false)),
        (
            "|",
            Node::Boolean(true),
            Node::Boolean(false),
            Node::Boolean(true),
        ),
        (
            "&",
            Node::Boolean(true),
            Node::Boolean(false),
            Node::Boolean(false),
        ),
        (
            ".",
            Node::String("te".to_string()),
            Node::String("st".to_string()),
            Node::String("test".to_string()),
        ),
        (
            "T",
            integer(3),
            Node::String("test".to_string()),
            Node::String("tes".to_string()),
        ),
        (
            "D",
            integer(3),
            Node::String("test".to_string()),
            Node::String("t".to_string()),
        ),
    ];
    for (operator, left, right, expected) in cases {
        assert_eq!(
            evaluator.evaluate_binary_operator(Node::BinaryOperator(
                operator.to_string(),
                Box::new(left),
                Box::new(right)
            )),
            Ok(expected)
        );
    }
}

#[test]
fn test_evaluate_lambda() {
    let mut evaluator = Evaluator::new(Node::Lambda(
        id(1),
        Box::new(Node::BinaryOperator(
            "+".to_string(),
            Box::new(integer(1)),
            Box::new(integer(2)),
        )),
    ));
    assert_eq!(
        evaluator.evaluate(),
        Ok(Node::Lambda(
            id(1),
            Box::new(Node::BinaryOperator(
                "+".to_string(),
                Box::new(integer(1)),
                Box::new(integer(2))
            ))
        ))
    );

    let mut evaluator = Evaluator::new(Node::Lambda(
        id(1),
        Box::new(Node::BinaryOperator(
            "+".to_string(),
            Box::new(integer(1)),
            Box::new(var(2)),
        )),
    ));
    assert_eq!(
        evaluator.evaluate(),
        Ok(Node::Lambda(
            id(1),
            Box::new(Node::BinaryOperator(
                "+".to_string(),
                Box::new(integer(1)),
                Box::new(var(2))
            ))
        ))
    );

    let mut evaluator = Evaluator::new(Node::BinaryOperator(
        "$".to_string(),
        Box::new(Node::Lambda(
            id(1),
            Box::new(Node::BinaryOperator(
                "+".to_string(),
                Box::new(integer(1)),
                Box::new(var(1)),
            )),
        )),
        Box::new(integer(42)),
    ));
    assert_eq!(evaluator.evaluate(), Ok(integer(43)));

    let mut evaluator = Evaluator::new(Node::BinaryOperator(
        "$".to_string(),
        Box::new(Node::BinaryOperator(
            "$".to_string(),
            Box::new(Node::Lambda(
                id(2),
                Box::new(Node::Lambda(
                    id(1),
                    Box::new(Node::BinaryOperator(
                        "+".to_string(),
                        Box::new(var(1)),
                        Box::new(var(2)),
                    )),
                )),
            )),
            Box::new(integer(42)),
        )),
        Box::new(integer(43)),
    ));
    assert_eq!(evaluator.evaluate(), Ok(integer(85)));
}

#[test]
fn test_evaluate() {
    let mut tokenizer = Tokenizer::new("B$ B$ L# L$ v# B. SB%,,/ S}Q/2,$_ IK");
    let tokens = tokenizer.tokenize().unwrap();
    let mut parser = Parser::new(&tokens);
    let node = parser.parse().unwrap();
    let mut evaluator = Evaluator::new(node);
    assert_eq!(
        evaluator.evaluate(),
        Ok(Node::String("Hello World!".to_string()))
    );
}

#[test]
fn test_apply_one_lambda() {
    let evaluator = Evaluator::new(Node::String("test".to_string()));
    let result = evaluator.apply_one_lambda(&Node::BinaryOperator(
        "$".to_string(),
        node(Node::Lambda(
            id(1),
            node(Node::BinaryOperator(
                "$".to_string(),
                node(var(1)),
                node(integer(1)),
            )),
        )),
        node(Node::Lambda(
            id(1),
            node(Node::BinaryOperator(
                "$".to_string(),
                node(var(1)),
                node(integer(2)),
            )),
        )),
    ));

    assert_eq!(
        result,
        Ok(Node::BinaryOperator(
            "$".to_string(),
            node(Node::Lambda(
                id(1),
                node(Node::BinaryOperator(
                    "$".to_string(),
                    node(var(1)),
                    node(integer(2)),
                )),
            )),
            node(integer(1)),
        ))
    );
}

fn prod_program() -> Node {
    Node::BinaryOperator(
        "$".to_string(),
        node(Node::Lambda(
            id(1),
            node(Node::BinaryOperator(
                "$".to_string(),
                node(Node::Lambda(
                    id(2),
                    node(Node::BinaryOperator(
                        "$".to_string(),
                        node(var(1)),
                        node(Node::BinaryOperator(
                            "$".to_string(),
                            node(var(2)),
                            node(var(2)),
                        )),
                    )),
                )),
                node(Node::Lambda(
                    id(2),
                    node(Node::BinaryOperator(
                        "$".to_string(),
                        node(var(1)),
                        node(Node::BinaryOperator(
                            "$".to_string(),
                            node(var(2)),
                            node(var(2)),
                        )),
                    )),
                )),
            )),
        )),
        node(Node::Lambda(
            id(3),
            node(Node::Lambda(
                id(2),
                node(Node::If(
                    node(Node::BinaryOperator(
                        "=".to_string(),
                        node(var(2)),
                        node(integer(1)),
                    )),
                    node(var(1)),
                    node(Node::BinaryOperator(
                        ".".to_string(),
                        node(var(1)),
                        node(Node::BinaryOperator(
                            "$".to_string(),
                            node(var(3)),
                            node(Node::BinaryOperator(
                                "-".to_string(),
                                node(var(2)),
                                node(integer(1)),
                            )),
                        )),
                    )),
                )),
            )),
        )),
    )
}

#[test]
fn test_prod() {
    let program = prod_program();
    let evaluator = Evaluator::new(Node::String("test".to_string()));
    let result = evaluator.apply_one_lambda(&program);
    assert!(result.is_ok());
}

#[test]
fn literals_evaluate_to_themselves() {
    for literal in [integer(7), integer(-7), text("x"), Node::Boolean(true)] {
        assert_eq!(
            Evaluator::new(literal.clone()).evaluate(),
            Ok(literal.clone())
        );
        assert_eq!(
            Evaluator::with_limit(literal.clone(), 0).evaluate(),
            Ok(literal)
        );
    }
}

#[test]
fn evaluating_a_result_again_changes_nothing() {
    let program = binary("+", integer(1), integer(2));
    let first = Evaluator::new(program).evaluate().unwrap();
    assert_eq!(Evaluator::new(first.clone()).evaluate(), Ok(first));
}

#[test]
fn a_free_variable_has_no_value() {
    assert_eq!(Evaluator::new(var(1)).evaluate(), Err(Error::Type));
    assert_eq!(
        Evaluator::new(binary("+", var(1), integer(1))).evaluate(),
        Err(Error::Type)
    );
}

#[test]
fn if_never_forces_the_untaken_branch() {
    let broken = binary("+", integer(1), text("x"));
    assert_eq!(
        Evaluator::new(broken.clone()).evaluate(),
        Err(Error::Type)
    );
    let program = Node::If(
        node(Node::Boolean(true)),
        node(integer(1)),
        node(broken.clone()),
    );
    assert_eq!(Evaluator::new(program).evaluate(), Ok(integer(1)));
    let program = Node::If(
        node(Node::Boolean(false)),
        node(broken.clone()),
        node(integer(2)),
    );
    assert_eq!(Evaluator::new(program).evaluate(), Ok(integer(2)));
    let program = Node::If(node(Node::Boolean(false)), node(integer(2)), node(broken));
    assert_eq!(Evaluator::new(program).evaluate(), Err(Error::Type));
}

#[test]
fn if_with_a_condition_that_is_no_boolean() {
    let program = Node::If(node(integer(1)), node(integer(1)), node(integer(2)));
    assert_eq!(Evaluator::new(program).evaluate(), Err(Error::Type));
}

#[test]
fn application_of_successor() {
    let program = binary("$", lambda(1, binary("+", var(1), integer(1))), integer(41));
    assert_eq!(Evaluator::new(program).evaluate(), Ok(integer(42)));
}

#[test]
fn application_does_not_reduce_an_unused_argument() {
    let broken = binary("/", integer(1), integer(0));
    let program = binary("$", lambda(1, integer(5)), broken);
    assert_eq!(Evaluator::new(program).evaluate(), Ok(integer(5)));
}

#[test]
fn application_of_what_is_no_lambda() {
    assert_eq!(
        Evaluator::new(binary("$", integer(1), integer(2))).evaluate(),
        Err(Error::Type)
    );
}

#[test]
fn inner_lambda_shadows_outer_binder() {
    let outer = lambda(1, lambda(1, var(1)));
    let applied = binary("$", outer.clone(), integer(99));
    assert_eq!(
        Evaluator::new(applied.clone()).evaluate(),
        Ok(lambda(1, var(1)))
    );
    let program = binary("$", applied, integer(7));
    assert_eq!(Evaluator::new(program).evaluate(), Ok(integer(7)));
}

#[test]
fn replace_variable_examples() {
    let argument = integer(9);
    let one = id(1);
    assert_eq!(Evaluator::replace_variable(&var(1), &one, &argument), integer(9));
    assert_eq!(Evaluator::replace_variable(&var(2), &one, &argument), var(2));
    assert_eq!(
        Evaluator::replace_variable(&lambda(1, var(1)), &one, &argument),
        lambda(1, var(1))
    );
    assert_eq!(
        Evaluator::replace_variable(&lambda(2, var(1)), &one, &argument),
        lambda(2, integer(9))
    );
    assert_eq!(
        Evaluator::replace_variable(
            &Node::If(
                node(var(1)),
                node(unary("-", var(1))),
                node(binary("+", var(1), var(2)))
            ),
            &one,
            &argument
        ),
        Node::If(
            node(integer(9)),
            node(unary("-", integer(9))),
            node(binary("+", integer(9), var(2)))
        )
    );
}

#[test]
fn apply_one_lambda_refuses_what_is_no_redex() {
    let evaluator = Evaluator::new(integer(0));
    assert_eq!(evaluator.apply_one_lambda(&integer(1)), Err(Error::Type));
    assert_eq!(
        evaluator.apply_one_lambda(&binary("+", lambda(1, var(1)), integer(1))),
        Err(Error::Type)
    );
    assert_eq!(
        evaluator.apply_one_lambda(&binary("$", var(1), integer(1))),
        Err(Error::Type)
    );
}

#[test]
fn end_to_end_hello_world() {
    assert_eq!(
        run("B$ B$ L# L$ v# B. SB%,,/ S}Q/2,$_ IK"),
        Ok(text("Hello World!"))
    );
}

#[test]
fn end_to_end_integer_to_string() {
    assert_eq!(run("U$ I4%34"), Ok(text("test")));
    assert_eq!(run("U# S4%34"), Ok(integer(15818151)));
}

#[test]
fn division_and_remainder_round_toward_zero() {
    assert_eq!(
        Evaluator::new(binary("/", integer(-7), integer(2))).evaluate(),
        Ok(integer(-3))
    );
    assert_eq!(
        Evaluator::new(binary("%", integer(-7), integer(2))).evaluate(),
        Ok(integer(-1))
    );
    assert_eq!(
        Evaluator::new(binary("/", integer(7), integer(-2))).evaluate(),
        Ok(integer(-3))
    );
    assert_eq!(
        Evaluator::new(binary("%", integer(7), integer(-2))).evaluate(),
        Ok(integer(1))
    );
    assert_eq!(
        Evaluator::new(binary("/", integer(-7), integer(-2))).evaluate(),
        Ok(integer(3))
    );
    assert_eq!(
        Evaluator::new(binary("%", integer(-7), integer(-2))).evaluate(),
        Ok(integer(-1))
    );
    assert_eq!(
        Evaluator::new(binary("/", integer(7), integer(2))).evaluate(),
        Ok(integer(3))
    );
}

#[test]
fn division_by_zero() {
    assert_eq!(
        Evaluator::new(binary("/", integer(1), integer(0))).evaluate(),
        Err(Error::Division)
    );
    assert_eq!(
        Evaluator::new(binary("%", integer(1), integer(0))).evaluate(),
        Err(Error::Division)
    );
}

#[test]
fn operators_outside_their_domain() {
    let cases = vec![
        unary("-", text("x")),
        unary("!", integer(1)),
        unary("#", integer(1)),
        unary("$", text("x")),
        unary("$", integer(-1)),
        unary("?", integer(1)),
        unary("--", integer(1)),
        binary("+", integer(1), Node::Boolean(true)),
        binary(".", integer(1), text("x")),
        binary("|", integer(1), integer(2)),
        binary("<", text("a"), text("b")),
        binary("T", text("abc"), integer(1)),
        binary("T", integer(-1), text("abc")),
        binary("D", integer(-1), text("abc")),
        binary("^", integer(1), integer(2)),
        binary("=", integer(1), text("1")),
        binary("=", lambda(1, var(1)), lambda(1, var(1))),
    ];
    for program in cases {
        assert_eq!(Evaluator::new(program).evaluate(), Err(Error::Type));
    }
}

#[test]
fn string_to_integer_needs_the_text_alphabet() {
    assert_eq!(
        Evaluator::new(unary("#", text("{"))).evaluate(),
        Err(Error::Alphabet)
    );
}

#[test]
fn equality_on_each_kind_of_literal() {
    assert_eq!(
        Evaluator::new(binary("=", integer(3), integer(3))).evaluate(),
        Ok(Node::Boolean(true))
    );
    assert_eq!(
        Evaluator::new(binary("=", text("a"), text("a"))).evaluate(),
        Ok(Node::Boolean(true))
    );
    assert_eq!(
        Evaluator::new(binary("=", text("a"), text("b"))).evaluate(),
        Ok(Node::Boolean(false))
    );
    assert_eq!(
        Evaluator::new(binary("=", Node::Boolean(true), Node::Boolean(false))).evaluate(),
        Ok(Node::Boolean(false))
    );
}

#[test]
fn take_and_drop_beyond_the_end() {
    assert_eq!(
        Evaluator::new(binary("T", integer(10), text("test"))).evaluate(),
        Ok(text("test"))
    );
    assert_eq!(
        Evaluator::new(binary("D", integer(10), text("test"))).evaluate(),
        Ok(text(""))
    );
    assert_eq!(
        Evaluator::new(binary("T", integer(0), text("test"))).evaluate(),
        Ok(text(""))
    );
    assert_eq!(
        Evaluator::new(binary("D", integer(0), text("test"))).evaluate(),
        Ok(text("test"))
    );
    let huge = binary("*", integer(i64::MAX), integer(i64::MAX));
    assert_eq!(
        Evaluator::new(binary("T", huge, text("test"))).evaluate(),
        Ok(text("test"))
    );
}

#[test]
fn arithmetic_beyond_machine_words() {
    let big = binary("*", integer(i64::MAX), integer(i64::MAX));
    let program = binary("/", big, integer(i64::MAX));
    assert_eq!(Evaluator::new(program).evaluate(), Ok(integer(i64::MAX)));
}

#[test]
fn left_operand_fails_first() {
    let program = binary(
        "+",
        binary("/", integer(1), integer(0)),
        binary("+", integer(1), text("x")),
    );
    assert_eq!(Evaluator::new(program).evaluate(), Err(Error::Division));
    let program = binary(
        "+",
        binary("+", integer(1), text("x")),
        binary("/", integer(1), integer(0)),
    );
    assert_eq!(Evaluator::new(program).evaluate(), Err(Error::Type));
}

#[test]
fn equal_subterms_share_one_result() {
    let shared = binary("$", lambda(1, binary("*", var(1), var(1))), integer(12));
    let alone = Evaluator::new(shared.clone()).evaluate();
    assert_eq!(alone, Ok(integer(144)));
    let twice = binary("+", shared.clone(), shared.clone());
    let mut evaluator = Evaluator::new(twice);
    assert_eq!(evaluator.evaluate(), Ok(integer(288)));
    assert_eq!(evaluator.evaluate_node(&shared), alone);
    assert_eq!(evaluator.evaluate(), Ok(integer(288)));
}

#[test]
fn remembered_results_spare_the_budget() {
    let inner = unary("-", unary("-", unary("-", integer(1))));
    let mut evaluator = Evaluator::with_limit(inner.clone(), 3);
    assert_eq!(evaluator.evaluate(), Ok(integer(-1)));
    let outer = unary("-", inner);
    assert_eq!(evaluator.evaluate_node(&outer), Ok(integer(1)));
    assert_eq!(
        Evaluator::with_limit(outer, 3).evaluate(),
        Err(Error::Exhausted)
    );
}

#[test]
fn the_limit_counts_nested_reductions() {
    let program = unary("-", unary("-", integer(1)));
    assert_eq!(
        Evaluator::with_limit(program.clone(), 0).evaluate(),
        Err(Error::Exhausted)
    );
    assert_eq!(
        Evaluator::with_limit(program.clone(), 1).evaluate(),
        Err(Error::Exhausted)
    );
    assert_eq!(
        Evaluator::with_limit(program, 2).evaluate(),
        Ok(integer(1))
    );
}

#[test]
fn self_application_runs_out_of_budget() {
    let omega = lambda(1, binary("$", var(1), var(1)));
    let program = binary("$", omega.clone(), omega);
    assert_eq!(Evaluator::new(program.clone()).evaluate(), Err(Error::Exhausted));
    assert_eq!(
        Evaluator::with_limit(program, 100_000).evaluate(),
        Err(Error::Exhausted)
    );
}

fn fixed_point() -> Node {
    let half = lambda(2, binary("$", var(1), binary("$", var(2), var(2))));
    lambda(1, binary("$", half.clone(), half))
}

#[test]
fn fixed_point_recursion() {
    let factorial = lambda(
        3,
        lambda(
            4,
            Node::If(
                node(binary("=", var(4), integer(0))),
                node(integer(1)),
                node(binary(
                    "*",
                    var(4),
                    binary("$", var(3), binary("-", var(4), integer(1))),
                )),
            ),
        ),
    );
    let program = binary("$", binary("$", fixed_point(), factorial), integer(10));
    assert_eq!(Evaluator::new(program).evaluate(), Ok(integer(3628800)));
}

#[test]
fn fixed_point_with_a_free_variable_in_the_function() {
    let mut evaluator = Evaluator::new(binary("$", prod_program(), integer(4)));
    assert_eq!(evaluator.evaluate(), Err(Error::Type));
}

fn negations(depth: usize) -> Node {
    let mut program = integer(1);
    for _ in 0..depth {
        program = unary("-", program);
    }
    program
}

#[test]
fn nesting_up_to_the_default_limit() {
    assert_eq!(Evaluator::new(negations(1024)).evaluate(), Ok(integer(1)));
    assert_eq!(
        Evaluator::new(negations(1025)).evaluate(),
        Err(Error::Exhausted)
    );
}

#[test]
fn every_result_is_remembered() {
    let mut evaluator = Evaluator::new(integer(0));
    assert_eq!(evaluator.recall(&integer(5)), None);
    assert_eq!(evaluator.evaluate_node(&integer(5)), Ok(integer(5)));
    assert_eq!(evaluator.recall(&integer(5)), Some(integer(5)));
    let identity = lambda(1, var(1));
    assert_eq!(evaluator.evaluate_node(&identity), Ok(identity.clone()));
    assert_eq!(evaluator.recall(&identity), Some(identity));
    let sum = binary("+", integer(5), integer(6));
    assert_eq!(evaluator.evaluate_node(&sum), Ok(integer(11)));
    assert_eq!(evaluator.recall(&sum), Some(integer(11)));
    assert_eq!(evaluator.recall(&integer(6)), Some(integer(6)));
    assert_eq!(evaluator.recall(&integer(5)), Some(integer(5)));
    assert_eq!(evaluator.evaluate_node(&var(1)), Err(Error::Type));
    assert_eq!(evaluator.recall(&var(1)), None);
}
