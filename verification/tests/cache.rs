use icfp_lang::cache::{fingerprint, Cache, MODULUS};
use icfp_lang::integer::Integer;
use icfp_lang::parser::Node;

fn integer(v: i64) -> Node {
    Node::Integer(Integer::from_i64(v))
}

fn sum(left: Node, right: Node) -> Node {
    Node::BinaryOperator("+".to_string(), Box::new(left), Box::new(right))
}

#[test]
fn equal_terms_have_equal_fingerprints() {
    let a = sum(integer(1), Node::String("x".to_string()));
    let b = sum(integer(1), Node::String("x".to_string()));
    assert_eq!(fingerprint(&a), fingerprint(&b));
    assert!(fingerprint(&a) < MODULUS);
}

#[test]
fn fingerprints_of_small_terms() {
    assert_eq!(fingerprint(&integer(0)), 31);
    assert_eq!(fingerprint(&integer(5)), 36);
    assert_eq!(fingerprint(&integer(-5)), 36);
    assert_eq!(fingerprint(&Node::Boolean(true)), 94);
    assert_eq!(fingerprint(&Node::Boolean(false)), 93);
    assert_eq!(fingerprint(&Node::String("".to_string())), 69);
    assert_eq!(fingerprint(&Node::String("a".to_string())), 2 * 31 + 7 * 31 + 97);
    assert_eq!(
        fingerprint(&Node::Variable(Integer::from_u64(2147483648))),
        4 * 31 + 1
    );
}

#[test]
fn a_new_cache_recalls_nothing() {
    let cache = Cache::new();
    assert_eq!(cache.recall(&integer(1)), None);
}

#[test]
fn a_cache_recalls_by_structure() {
    let mut cache = Cache::new();
    cache.remember(sum(integer(1), integer(2)), integer(3));
    assert_eq!(cache.recall(&sum(integer(1), integer(2))), Some(integer(3)));
    assert_eq!(cache.recall(&sum(integer(2), integer(1))), None);
    cache.remember(sum(integer(2), integer(1)), integer(3));
    cache.remember(sum(integer(2), integer(2)), integer(4));
    assert_eq!(cache.recall(&sum(integer(2), integer(1))), Some(integer(3)));
    assert_eq!(cache.recall(&sum(integer(2), integer(2))), Some(integer(4)));
    assert_eq!(cache.recall(&sum(integer(1), integer(2))), Some(integer(3)));
}

#[test]
fn terms_with_one_fingerprint_are_told_apart() {
    let mut cache = Cache::new();
    assert_eq!(fingerprint(&integer(5)), fingerprint(&integer(-5)));
    cache.remember(integer(5), integer(5));
    assert_eq!(cache.recall(&integer(-5)), None);
    cache.remember(integer(-5), integer(-5));
    assert_eq!(cache.recall(&integer(5)), Some(integer(5)));
    assert_eq!(cache.recall(&integer(-5)), Some(integer(-5)));
}
