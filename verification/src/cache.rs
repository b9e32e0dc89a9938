//! The memory of the evaluator: results of reductions, found again by the
//! term they belong to.
//!
//! Terms are looked up by structure, not by where they are stored. A
//! fingerprint of the term chooses a bucket of a hash map, and the terms in
//! the bucket are compared with the one asked for.

use crate::chars::{chars_of, code_point};
use crate::integer::{lemma_trunc_div_rem, trunc_rem, Integer};
use crate::parser::Node;
use crate::term::{settles, Term};
use std::collections::HashMap;
use vstd::prelude::*;

verus! {

/// Fingerprints are numbers below this prime.
pub const MODULUS: u64 = 2147483647;

/// A fingerprint carried on by one more number.
pub open spec fn mix(fingerprint: int, x: int) -> int {
    (fingerprint * 31 + x) % 2147483647
}

/// The fingerprint of a number: the size of its remainder by the modulus.
pub open spec fn integer_fingerprint(value: int) -> int {
    let remainder = trunc_rem(value, 2147483647);
    if remainder < 0 {
        -remainder
    } else {
        remainder
    }
}

/// The fingerprint of a sequence of characters.
pub open spec fn text_fingerprint(text: Seq<char>) -> int
    decreases text.len(),
{
    if text.len() == 0 {
        7
    } else {
        mix(text_fingerprint(text.drop_last()), text.last() as int)
    }
}

/// The fingerprint of a term: a number that equal terms share.
pub open spec fn term_fingerprint(t: Term) -> int
    decreases t,
{
    match t {
        Term::Integer(value) => mix(1, integer_fingerprint(value)),
        Term::String(value) => mix(2, text_fingerprint(value)),
        Term::Boolean(value) => mix(
            3,
            if value {
                1
            } else {
                0
            },
        ),
        Term::Variable(binder) => mix(4, integer_fingerprint(binder)),
        Term::UnaryOperator(op, operand) => mix(
            mix(5, text_fingerprint(op)),
            term_fingerprint(*operand),
        ),
        Term::BinaryOperator(op, left, right) => mix(
            mix(mix(6, text_fingerprint(op)), term_fingerprint(*left)),
            term_fingerprint(*right),
        ),
        Term::If(condition, first, second) => mix(
            mix(mix(7, term_fingerprint(*condition)), term_fingerprint(*first)),
            term_fingerprint(*second),
        ),
        Term::Lambda(binder, body) => mix(
            mix(8, integer_fingerprint(binder)),
            term_fingerprint(*body),
        ),
    }
}

/// A fingerprint carried on by one more number.
fn mixed(fingerprint: u64, x: u64) -> (r: u64)
    requires
        fingerprint < MODULUS,
        x <= u32::MAX,
    ensures
        r == mix(fingerprint as int, x as int),
        r < MODULUS,
{
    (fingerprint * 31 + x) % MODULUS
}

/// The fingerprint of a number.
fn fingerprint_of_integer(value: &Integer) -> (r: u64)
    ensures
        r == integer_fingerprint(value@),
        r < MODULUS,
{
    let modulus = Integer::from_u64(MODULUS);
    proof {
        lemma_trunc_div_rem(value@, 2147483647);
    }
    let remainder = value.remainder(&modulus).unwrap();
    let size = if remainder.is_negative() {
        remainder.negated()
    } else {
        remainder
    };
    size.to_usize().unwrap() as u64
}

/// The fingerprint of a string.
fn fingerprint_of_text(text: &str) -> (r: u64)
    ensures
        r == text_fingerprint(text@),
        r < MODULUS,
{
    let chars = chars_of(text);
    let mut fingerprint: u64 = 7;
    let mut i: usize = 0;
    while i < chars.len()
        invariant
            i <= chars@.len(),
            fingerprint < MODULUS,
            fingerprint == text_fingerprint(chars@.take(i as int)),
        decreases chars@.len() - i,
    {
        let c: char = chars[i];
        let code: u32 = code_point(c);
        proof {
            let now = chars@.take(i + 1);
            assert(now.drop_last() =~= chars@.take(i as int));
            assert(now.last() == c);
            assert(code as int == c as int);
            assert(text_fingerprint(now) == mix(text_fingerprint(now.drop_last()), c as int));
        }
        fingerprint = mixed(fingerprint, code as u64);
        i += 1;
    }
    proof {
        assert(chars@.take(i as int) =~= chars@);
    }
    fingerprint
}

/// The fingerprint of a syntax tree.
pub fn fingerprint(node: &Node) -> (r: u64)
    ensures
        r == term_fingerprint(node@),
        r < MODULUS,
    decreases node,
{
    match node {
        Node::Integer(value) => mixed(1, fingerprint_of_integer(value)),
        Node::String(value) => mixed(2, fingerprint_of_text(value.as_str())),
        Node::Boolean(value) => mixed(
            3,
            if *value {
                1
            } else {
                0
            },
        ),
        Node::Variable(binder) => mixed(4, fingerprint_of_integer(binder)),
        Node::UnaryOperator(op, operand) => mixed(
            mixed(5, fingerprint_of_text(op.as_str())),
            fingerprint(operand),
        ),
        Node::BinaryOperator(op, left, right) => mixed(
            mixed(mixed(6, fingerprint_of_text(op.as_str())), fingerprint(left)),
            fingerprint(right),
        ),
        Node::If(condition, first, second) => mixed(
            mixed(mixed(7, fingerprint(condition)), fingerprint(first)),
            fingerprint(second),
        ),
        Node::Lambda(binder, body) => mixed(
            mixed(8, fingerprint_of_integer(binder)),
            fingerprint(body),
        ),
    }
}

/// Results of reductions, each with the term it belongs to.
pub struct Cache {
    buckets: HashMap<u64, Vec<(Node, Node)>>,
}

impl Cache {
    /// Whether `value` is remembered as a result for `t`.
    pub closed spec fn holds(&self, t: Term, value: Term) -> bool {
        exists|key: u64, i: int|
            self.buckets@.contains_key(key) && 0 <= i < self.buckets@[key]@.len() && (
            #[trigger] self.buckets@[key]@[i]).0@ == t && self.buckets@[key]@[i].1@ == value
    }

    /// Whether everything that `earlier` held is still held.
    pub closed spec fn keeps(&self, earlier: &Cache) -> bool {
        forall|t: Term, value: Term| #[trigger] earlier.holds(t, value) ==> self.holds(t, value)
    }

    /// What a cache keeps, it holds.
    pub proof fn lemma_keeps(&self, earlier: &Cache, t: Term, value: Term)
        requires
            self.keeps(earlier),
            earlier.holds(t, value),
        ensures
            self.holds(t, value),
    {
    }

    /// A cache keeps what it holds itself.
    pub proof fn lemma_keeps_itself(&self)
        ensures
            self.keeps(self),
    {
    }

    /// Keeping goes on through a cache in between.
    pub proof fn lemma_keeps_through(&self, between: &Cache, earlier: &Cache)
        requires
            self.keeps(between),
            between.keeps(earlier),
        ensures
            self.keeps(earlier),
    {
    }

    /// Every entry lies in the bucket of its term's fingerprint.
    pub closed spec fn sorted(&self) -> bool {
        forall|key: u64, i: int|
            self.buckets@.contains_key(key) && 0 <= i < self.buckets@[key]@.len()
                ==> term_fingerprint((#[trigger] self.buckets@[key]@[i]).0@) == key
    }

    /// Every result remembered is the value that reduction gives for its
    /// term.
    pub open spec fn wf(&self) -> bool {
        &&& self.sorted()
        &&& forall|t: Term, value: Term| #[trigger]
            self.holds(t, value) ==> settles(t, Ok(value))
    }

    /// A cache that remembers nothing.
    pub fn new() -> (r: Cache)
        ensures
            r.wf(),
            forall|t: Term, value: Term| !r.holds(t, value),
    {
        Cache { buckets: HashMap::new() }
    }

    /// A result remembered for a term equal to `node`, if there is one.
    pub fn recall(&self, node: &Node) -> (r: Option<Node>)
        requires
            self.wf(),
        ensures
            r is Some ==> self.holds(node@, r->Some_0@),
            r is None ==> forall|value: Term| !self.holds(node@, value),
    {
        let key = fingerprint(node);
        match self.buckets.get(&key) {
            Some(bucket) => {
                let mut i: usize = 0;
                while i < bucket.len()
                    invariant
                        i <= bucket@.len(),
                        self.buckets@.contains_key(key),
                        self.buckets@[key] == *bucket,
                        forall|k: int| 0 <= k < i ==> (#[trigger] bucket@[k]).0@ != node@,
                    decreases bucket@.len() - i,
                {
                    if bucket[i].0.equals(node) {
                        return Some(bucket[i].1.clone());
                    }
                    i += 1;
                }
                None
            },
            None => None,
        }
    }

    /// Remembers `value` as the result for `node`.
    pub fn remember(&mut self, node: Node, value: Node)
        requires
            old(self).wf(),
            settles(node@, Ok(value@)),
        ensures
            final(self).wf(),
            final(self).keeps(old(self)),
            forall|t: Term, v: Term|
                final(self).holds(t, v) <==> old(self).holds(t, v) || (t == node@ && v == value@),
    {
        let key = fingerprint(&node);
        let ghost before = self.buckets@;
        let ghost entry = (node, value);
        let mut bucket = match self.buckets.remove(&key) {
            Some(bucket) => bucket,
            None => Vec::new(),
        };
        let ghost old_bucket = bucket@;
        bucket.push((node, value));
        let ghost new_bucket = bucket;
        self.buckets.insert(key, bucket);
        proof {
            let after = self.buckets@;
            assert(after =~= before.insert(key, new_bucket));
            assert(new_bucket@ == old_bucket.push(entry));
            assert(before.contains_key(key) ==> before[key]@ == old_bucket);
            assert(!before.contains_key(key) ==> old_bucket.len() == 0);
            assert forall|t: Term, v: Term| self.holds(t, v) implies old(self).holds(t, v) || (t
                == entry.0@ && v == entry.1@) by {
                let (k, i) = choose|k: u64, i: int|
                    after.contains_key(k) && 0 <= i < after[k]@.len() && (#[trigger] after[k]@[i]).0@
                        == t && after[k]@[i].1@ == v;
                if k == key {
                    if i < old_bucket.len() {
                        assert(before[k]@[i] == after[k]@[i]);
                    }
                } else {
                    assert(before[k]@[i] == after[k]@[i]);
                }
            }
            assert forall|t: Term, v: Term|
                old(self).holds(t, v) || (t == entry.0@ && v == entry.1@) implies self.holds(
                t,
                v,
            ) by {
                if old(self).holds(t, v) {
                    let (k, i) = choose|k: u64, i: int|
                        before.contains_key(k) && 0 <= i < before[k]@.len() && (
                        #[trigger] before[k]@[i]).0@ == t && before[k]@[i].1@ == v;
                    assert(after[k]@[i] == before[k]@[i]);
                } else {
                    assert(after[key]@[old_bucket.len() as int] == entry);
                }
            }
            assert forall|k: u64, i: int|
                after.contains_key(k) && 0 <= i < after[k]@.len() implies term_fingerprint(
                (#[trigger] after[k]@[i]).0@,
            ) == k by {
                if k == key {
                    if i < old_bucket.len() {
                        assert(before[k]@[i] == after[k]@[i]);
                    }
                } else {
                    assert(before[k]@[i] == after[k]@[i]);
                }
            }
        }
    }
}

} // verus!
