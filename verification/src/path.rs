//! Relative paths as sequences of name components, and their order.
//!
//! A path is compared component by component, each component byte by byte,
//! which is how `std::path::Path` orders relative paths without `.` or `..`.

use vstd::prelude::*;
use vstd::slice::slice_to_vec;
use crate::lex::{
    lemma_lex_asymmetric, lemma_lex_connected, lemma_lex_irreflexive, lemma_lex_skip_common,
    lemma_lex_strict_total, lemma_lex_transitive, lex_lt, strict_total,
};

verus! {

/// How one value stands to another in a total order.
#[derive(Clone, Copy, Debug, PartialEq, Eq, Structural)]
pub enum Order {
    Less,
    Equal,
    Greater,
}

/// The order of single bytes.
pub open spec fn byte_lt() -> spec_fn(u8, u8) -> bool {
    |x: u8, y: u8| x < y
}

/// One name comes before another: bytewise lexicographic order.
pub open spec fn name_lt(a: Seq<u8>, b: Seq<u8>) -> bool {
    lex_lt(byte_lt(), a, b)
}

/// The order of names, as a function.
pub open spec fn name_order() -> spec_fn(Seq<u8>, Seq<u8>) -> bool {
    |a: Seq<u8>, b: Seq<u8>| lex_lt(byte_lt(), a, b)
}

/// One path comes before another: lexicographic order over the components,
/// each compared as a name.
pub open spec fn path_lt(p: Seq<Seq<u8>>, q: Seq<Seq<u8>>) -> bool {
    lex_lt(name_order(), p, q)
}

/// Bytes are strictly and totally ordered, and so are names.
pub proof fn lemma_name_order_strict_total()
    ensures
        strict_total(byte_lt()),
        strict_total(name_order()),
{
    lemma_lex_strict_total(byte_lt());
    assert(name_order() == (|a: Seq<u8>, b: Seq<u8>| lex_lt(byte_lt(), a, b)));
}

/// No path comes before itself.
pub proof fn lemma_path_lt_irreflexive(p: Seq<Seq<u8>>)
    ensures
        !path_lt(p, p),
{
    lemma_name_order_strict_total();
    lemma_lex_irreflexive(name_order(), p);
}

/// The order of paths is transitive.
pub proof fn lemma_path_lt_transitive(p: Seq<Seq<u8>>, q: Seq<Seq<u8>>, r: Seq<Seq<u8>>)
    requires
        path_lt(p, q),
        path_lt(q, r),
    ensures
        path_lt(p, r),
{
    lemma_name_order_strict_total();
    lemma_lex_transitive(name_order(), p, q, r);
}

/// Of two paths exactly one holds: the first comes before the second, they
/// are equal, or the second comes before the first.
pub proof fn lemma_path_lt_trichotomy(p: Seq<Seq<u8>>, q: Seq<Seq<u8>>)
    ensures
        path_lt(p, q) || p == q || path_lt(q, p),
        !(path_lt(p, q) && p == q),
        !(path_lt(q, p) && p == q),
        !(path_lt(p, q) && path_lt(q, p)),
{
    lemma_name_order_strict_total();
    if p != q {
        lemma_lex_connected(name_order(), p, q);
    }
    lemma_lex_irreflexive(name_order(), p);
    if path_lt(p, q) {
        lemma_lex_asymmetric(name_order(), p, q);
    }
}

/// Compares two names byte by byte.
pub fn compare_names(a: &[u8], b: &[u8]) -> (r: Order)
    ensures
        r == Order::Less <==> name_lt(a@, b@),
        r == Order::Equal <==> a@ == b@,
        r == Order::Greater <==> name_lt(b@, a@),
{
    proof {
        lemma_name_order_strict_total();
        lemma_lex_irreflexive(byte_lt(), a@);
    }
    let mut i: usize = 0;
    while i < a.len() && i < b.len()
        invariant
            i <= a.len(),
            i <= b.len(),
            a@.take(i as int) == b@.take(i as int),
        decreases a.len() - i,
    {
        proof {
            lemma_lex_skip_common(byte_lt(), a@, b@, i as int);
            lemma_lex_skip_common(byte_lt(), b@, a@, i as int);
        }
        if a[i] < b[i] {
            proof {
                lemma_lex_asymmetric(byte_lt(), a@, b@);
                assert(a@ != b@) by {
                    lemma_lex_irreflexive(byte_lt(), a@);
                }
            }
            return Order::Less;
        }
        if b[i] < a[i] {
            proof {
                lemma_lex_asymmetric(byte_lt(), b@, a@);
                assert(a@ != b@) by {
                    lemma_lex_irreflexive(byte_lt(), a@);
                }
            }
            return Order::Greater;
        }
        assert(a@.take(i + 1) =~= a@.take(i as int).push(a@[i as int]));
        assert(b@.take(i + 1) =~= b@.take(i as int).push(b@[i as int]));
        i = i + 1;
    }
    proof {
        lemma_lex_skip_common(byte_lt(), a@, b@, i as int);
        lemma_lex_skip_common(byte_lt(), b@, a@, i as int);
    }
    if i < b.len() {
        proof {
            lemma_lex_asymmetric(byte_lt(), a@, b@);
        }
        Order::Less
    } else if i < a.len() {
        proof {
            lemma_lex_asymmetric(byte_lt(), b@, a@);
        }
        Order::Greater
    } else {
        assert(a@ =~= a@.take(i as int));
        assert(b@ =~= b@.take(i as int));
        Order::Equal
    }
}

/// A path relative to the root of a tree: the names to follow from the root,
/// outermost first. The empty path is the root itself.
#[derive(Debug, PartialEq, Eq, PartialOrd, Ord, Hash)]
pub struct RelPath {
    pub components: Vec<Vec<u8>>,
}

impl View for RelPath {
    type V = Seq<Seq<u8>>;

    open spec fn view(&self) -> Seq<Seq<u8>> {
        Seq::new(self.components@.len(), |i: int| self.components@[i]@)
    }
}

impl RelPath {
    /// The empty path.
    pub fn new() -> (p: RelPath)
        ensures
            p@ == Seq::<Seq<u8>>::empty(),
    {
        let p = RelPath { components: Vec::new() };
        assert(p@ =~= Seq::<Seq<u8>>::empty());
        p
    }

    /// The path with the given components.
    pub fn from_components(components: Vec<Vec<u8>>) -> (p: RelPath)
        ensures
            p.components == components,
    {
        RelPath { components }
    }

    /// The number of components.
    pub fn len(&self) -> (n: usize)
        ensures
            n == self@.len(),
    {
        self.components.len()
    }

    /// Appends one component.
    pub fn push(&mut self, name: &[u8])
        ensures
            final(self)@ == old(self)@.push(name@),
    {
        self.components.push(slice_to_vec(name));
        assert(self@ =~= old(self)@.push(name@));
    }

    /// Drops the last component and tells whether there was one.
    pub fn pop(&mut self) -> (popped: bool)
        ensures
            popped == (old(self)@.len() > 0),
            popped ==> final(self)@ == old(self)@.drop_last(),
            !popped ==> final(self)@ == old(self)@,
    {
        let popped = self.components.pop().is_some();
        proof {
            if popped {
                assert(self@ =~= old(self)@.drop_last());
            } else {
                assert(self@ =~= old(self)@);
            }
        }
        popped
    }

    /// A copy of this path.
    pub fn duplicate(&self) -> (p: RelPath)
        ensures
            p@ == self@,
    {
        let mut components: Vec<Vec<u8>> = Vec::new();
        let mut i: usize = 0;
        while i < self.components.len()
            invariant
                i <= self.components.len(),
                components@.len() == i,
                forall|j: int| 0 <= j < i ==> (#[trigger] components@[j])@ == self.components@[j]@,
            decreases self.components.len() - i,
        {
            components.push(slice_to_vec(self.components[i].as_slice()));
            i = i + 1;
        }
        let p = RelPath { components };
        assert(p@ =~= self@);
        p
    }

    /// Compares two paths component by component.
    pub fn compare(&self, other: &RelPath) -> (r: Order)
        ensures
            r == Order::Less <==> path_lt(self@, other@),
            r == Order::Equal <==> self@ == other@,
            r == Order::Greater <==> path_lt(other@, self@),
    {
        let ghost a = self@;
        let ghost b = other@;
        proof {
            lemma_name_order_strict_total();
            lemma_lex_irreflexive(name_order(), a);
        }
        let mut i: usize = 0;
        while i < self.components.len() && i < other.components.len()
            invariant
                a == self@,
                b == other@,
                i <= a.len(),
                i <= b.len(),
                a.take(i as int) == b.take(i as int),
                strict_total(name_order()),
            decreases self.components.len() - i,
        {
            proof {
                lemma_lex_skip_common(name_order(), a, b, i as int);
                lemma_lex_skip_common(name_order(), b, a, i as int);
                lemma_lex_irreflexive(name_order(), a);
            }
            let c = compare_names(self.components[i].as_slice(), other.components[i].as_slice());
            assert(a.skip(i as int)[0] == self.components@[i as int]@);
            assert(b.skip(i as int)[0] == other.components@[i as int]@);
            match c {
                Order::Less => {
                    proof {
                        lemma_lex_asymmetric(name_order(), a, b);
                    }
                    return Order::Less;
                },
                Order::Greater => {
                    proof {
                        lemma_lex_asymmetric(name_order(), b, a);
                    }
                    return Order::Greater;
                },
                Order::Equal => {
                    assert(a.take(i + 1) =~= a.take(i as int).push(a[i as int]));
                    assert(b.take(i + 1) =~= b.take(i as int).push(b[i as int]));
                },
            }
            i = i + 1;
        }
        proof {
            lemma_lex_skip_common(name_order(), a, b, i as int);
            lemma_lex_skip_common(name_order(), b, a, i as int);
        }
        if i < other.components.len() {
            proof {
                lemma_lex_asymmetric(name_order(), a, b);
            }
            Order::Less
        } else if i < self.components.len() {
            proof {
                lemma_lex_asymmetric(name_order(), b, a);
            }
            Order::Greater
        } else {
            assert(a =~= a.take(i as int));
            assert(b =~= b.take(i as int));
            Order::Equal
        }
    }
}

} // verus!
