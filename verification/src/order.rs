//! Lexicographic orders on names and call stacks.
//!
//! Names are ordered as Rust orders `String`s: byte-wise lexicographically on
//! their UTF-8 encoding. Stacks (sequences of names) are ordered
//! lexicographically, element by element, with a proper prefix first.

use vstd::prelude::*;
use vstd::utf8::*;

verus! {

/// Outcome of a three-way comparison.
#[derive(Debug, Clone, Copy, PartialEq, Eq)]
pub enum Order {
    Less,
    Equal,
    Greater,
}

/// Strict lexicographic order on byte sequences.
pub open spec fn bytes_lt(a: Seq<u8>, b: Seq<u8>) -> bool
    decreases a.len(),
{
    if a.len() == 0 {
        b.len() > 0
    } else if b.len() == 0 {
        false
    } else if a[0] != b[0] {
        a[0] < b[0]
    } else {
        bytes_lt(a.drop_first(), b.drop_first())
    }
}

/// Strict order on names: their UTF-8 encodings compared byte-wise.
pub open spec fn name_lt(a: Seq<char>, b: Seq<char>) -> bool {
    bytes_lt(encode_utf8(a), encode_utf8(b))
}

/// Strict lexicographic order on stacks of names.
pub open spec fn stack_lt(a: Seq<Seq<char>>, b: Seq<Seq<char>>) -> bool
    decreases a.len(),
{
    if a.len() == 0 {
        b.len() > 0
    } else if b.len() == 0 {
        false
    } else if a[0] != b[0] {
        name_lt(a[0], b[0])
    } else {
        stack_lt(a.drop_first(), b.drop_first())
    }
}

/// The names held by a vector of strings.
pub open spec fn names_view(v: Seq<String>) -> Seq<Seq<char>> {
    v.map_values(|s: String| s@)
}

pub proof fn lemma_bytes_lt_irreflexive(a: Seq<u8>)
    ensures
        !bytes_lt(a, a),
    decreases a.len(),
{
    if a.len() > 0 {
        lemma_bytes_lt_irreflexive(a.drop_first());
    }
}

pub proof fn lemma_bytes_lt_transitive(a: Seq<u8>, b: Seq<u8>, c: Seq<u8>)
    requires
        bytes_lt(a, b),
        bytes_lt(b, c),
    ensures
        bytes_lt(a, c),
    decreases a.len(),
{
    if a.len() > 0 && b.len() > 0 && c.len() > 0 && a[0] == b[0] && b[0] == c[0] {
        lemma_bytes_lt_transitive(a.drop_first(), b.drop_first(), c.drop_first());
    }
}

pub proof fn lemma_bytes_lt_total(a: Seq<u8>, b: Seq<u8>)
    ensures
        a =~= b || bytes_lt(a, b) || bytes_lt(b, a),
    decreases a.len(),
{
    if a.len() > 0 && b.len() > 0 && a[0] == b[0] {
        lemma_bytes_lt_total(a.drop_first(), b.drop_first());
        if a.drop_first() =~= b.drop_first() {
            assert(a =~= seq![a[0]] + a.drop_first());
            assert(b =~= seq![b[0]] + b.drop_first());
        }
    }
}

pub proof fn lemma_bytes_lt_asymmetric(a: Seq<u8>, b: Seq<u8>)
    requires
        bytes_lt(a, b),
    ensures
        !bytes_lt(b, a),
{
    if bytes_lt(b, a) {
        lemma_bytes_lt_transitive(a, b, a);
        lemma_bytes_lt_irreflexive(a);
    }
}

pub proof fn lemma_encode_injective(a: Seq<char>, b: Seq<char>)
    requires
        encode_utf8(a) == encode_utf8(b),
    ensures
        a == b,
{
    encode_utf8_decode_utf8(a);
    encode_utf8_decode_utf8(b);
}

pub proof fn lemma_name_lt_irreflexive(a: Seq<char>)
    ensures
        !name_lt(a, a),
{
    lemma_bytes_lt_irreflexive(encode_utf8(a));
}

pub proof fn lemma_name_lt_transitive(a: Seq<char>, b: Seq<char>, c: Seq<char>)
    requires
        name_lt(a, b),
        name_lt(b, c),
    ensures
        name_lt(a, c),
{
    lemma_bytes_lt_transitive(encode_utf8(a), encode_utf8(b), encode_utf8(c));
}

pub proof fn lemma_name_lt_total(a: Seq<char>, b: Seq<char>)
    ensures
        a == b || name_lt(a, b) || name_lt(b, a),
{
    lemma_bytes_lt_total(encode_utf8(a), encode_utf8(b));
    if encode_utf8(a) =~= encode_utf8(b) {
        lemma_encode_injective(a, b);
    }
}

pub proof fn lemma_stack_lt_irreflexive(a: Seq<Seq<char>>)
    ensures
        !stack_lt(a, a),
    decreases a.len(),
{
    if a.len() > 0 {
        lemma_stack_lt_irreflexive(a.drop_first());
    }
}

pub proof fn lemma_stack_lt_transitive(a: Seq<Seq<char>>, b: Seq<Seq<char>>, c: Seq<Seq<char>>)
    requires
        stack_lt(a, b),
        stack_lt(b, c),
    ensures
        stack_lt(a, c),
    decreases a.len(),
{
    if a.len() > 0 && b.len() > 0 && c.len() > 0 {
        if a[0] == b[0] && b[0] == c[0] {
            lemma_stack_lt_transitive(a.drop_first(), b.drop_first(), c.drop_first());
        } else if a[0] != b[0] && b[0] != c[0] {
            lemma_name_lt_transitive(a[0], b[0], c[0]);
            if a[0] == c[0] {
                lemma_name_lt_irreflexive(a[0]);
            }
        }
    }
}

pub proof fn lemma_stack_lt_asymmetric(a: Seq<Seq<char>>, b: Seq<Seq<char>>)
    requires
        stack_lt(a, b),
    ensures
        !stack_lt(b, a),
{
    if stack_lt(b, a) {
        lemma_stack_lt_transitive(a, b, a);
        lemma_stack_lt_irreflexive(a);
    }
}

/// Compares two byte sequences lexicographically.
pub fn compare_bytes(a: &[u8], b: &[u8]) -> (r: Order)
    ensures
        r == Order::Less <==> bytes_lt(a@, b@),
        r == Order::Equal <==> a@ == b@,
        r == Order::Greater <==> bytes_lt(b@, a@),
{
    let mut i: usize = 0;
    assert(a@.skip(0) =~= a@);
    assert(b@.skip(0) =~= b@);
    while i < a.len() && i < b.len()
        invariant
            0 <= i <= a@.len(),
            i <= b@.len(),
            a@.subrange(0, i as int) =~= b@.subrange(0, i as int),
            bytes_lt(a@, b@) == bytes_lt(a@.skip(i as int), b@.skip(i as int)),
            bytes_lt(b@, a@) == bytes_lt(b@.skip(i as int), a@.skip(i as int)),
        decreases a@.len() - i,
    {
        if a[i] != b[i] {
            proof {
                assert(a@.skip(i as int)[0] == a@[i as int]);
                assert(b@.skip(i as int)[0] == b@[i as int]);
                assert(a@.skip(i as int)[0] != b@.skip(i as int)[0]);
            }
            if a[i] < b[i] {
                proof { lemma_bytes_lt_asymmetric(a@, b@); }
                return Order::Less;
            } else {
                proof { lemma_bytes_lt_asymmetric(b@, a@); }
                return Order::Greater;
            }
        }
        proof {
            assert(a@.skip(i as int).drop_first() =~= a@.skip(i + 1));
            assert(b@.skip(i as int).drop_first() =~= b@.skip(i + 1));
        }
        i = i + 1;
    }
    proof {
        lemma_bytes_lt_irreflexive(a@);
    }
    if a.len() == b.len() {
        assert(a@ =~= a@.subrange(0, i as int));
        assert(b@ =~= b@.subrange(0, i as int));
        Order::Equal
    } else if a.len() < b.len() {
        assert(a@.skip(i as int).len() == 0);
        proof { lemma_bytes_lt_asymmetric(a@, b@); }
        Order::Less
    } else {
        assert(b@.skip(i as int).len() == 0);
        proof { lemma_bytes_lt_asymmetric(b@, a@); }
        Order::Greater
    }
}

/// Compares two names as Rust orders strings.
pub fn compare_names(a: &String, b: &String) -> (r: Order)
    ensures
        r == Order::Less <==> name_lt(a@, b@),
        r == Order::Equal <==> a@ == b@,
        r == Order::Greater <==> name_lt(b@, a@),
{
    let ab = a.as_str().as_bytes();
    let bb = b.as_str().as_bytes();
    let r = compare_bytes(ab, bb);
    proof {
        if ab@ == bb@ {
            lemma_encode_injective(a@, b@);
        }
    }
    r
}

/// Compares two stacks of names lexicographically.
pub fn compare_stacks(a: &Vec<String>, b: &Vec<String>) -> (r: Order)
    ensures
        r == Order::Less <==> stack_lt(names_view(a@), names_view(b@)),
        r == Order::Equal <==> names_view(a@) == names_view(b@),
        r == Order::Greater <==> stack_lt(names_view(b@), names_view(a@)),
{
    let ghost av = names_view(a@);
    let ghost bv = names_view(b@);
    let mut i: usize = 0;
    assert(av.skip(0) =~= av);
    assert(bv.skip(0) =~= bv);
    while i < a.len() && i < b.len()
        invariant
            av == names_view(a@),
            bv == names_view(b@),
            0 <= i <= a@.len(),
            i <= b@.len(),
            av.subrange(0, i as int) =~= bv.subrange(0, i as int),
            stack_lt(av, bv) == stack_lt(av.skip(i as int), bv.skip(i as int)),
            stack_lt(bv, av) == stack_lt(bv.skip(i as int), av.skip(i as int)),
        decreases a@.len() - i,
    {
        let r = compare_names(&a[i], &b[i]);
        proof {
            assert(av.skip(i as int)[0] == av[i as int]);
            assert(bv.skip(i as int)[0] == bv[i as int]);
        }
        match r {
            Order::Less => {
                proof { lemma_stack_lt_asymmetric(av, bv); }
                return Order::Less;
            },
            Order::Greater => {
                proof { lemma_stack_lt_asymmetric(bv, av); }
                return Order::Greater;
            },
            Order::Equal => {},
        }
        proof {
            assert(av.skip(i as int).drop_first() =~= av.skip(i + 1));
            assert(bv.skip(i as int).drop_first() =~= bv.skip(i + 1));
        }
        i = i + 1;
    }
    proof {
        lemma_stack_lt_irreflexive(av);
    }
    if a.len() == b.len() {
        assert(av =~= av.subrange(0, i as int));
        assert(bv =~= bv.subrange(0, i as int));
        Order::Equal
    } else if a.len() < b.len() {
        assert(av.skip(i as int).len() == 0);
        proof { lemma_stack_lt_asymmetric(av, bv); }
        Order::Less
    } else {
        assert(bv.skip(i as int).len() == 0);
        proof { lemma_stack_lt_asymmetric(bv, av); }
        Order::Greater
    }
}

} // verus!
