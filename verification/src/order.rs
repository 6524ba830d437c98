//! Strict total orders on mathematical values, and the lexicographic order that they give on
//! sequences.

use vstd::prelude::*;

verus! {

/// A strict total order.
pub trait Ordered: Sized {
    /// Whether `self` comes strictly before `other`.
    spec fn before(self, other: Self) -> bool;

    /// Nothing precedes itself, precedence is transitive, and two different values are always
    /// comparable.
    proof fn order_laws(a: Self, b: Self, c: Self)
        ensures
            !a.before(a),
            a.before(b) && b.before(c) ==> a.before(c),
            a == b || a.before(b) || b.before(a),
    ;
}

impl Ordered for char {
    open spec fn before(self, other: char) -> bool {
        self < other
    }

    proof fn order_laws(a: char, b: char, c: char) {
    }
}

/// Lexicographic precedence: at the first place where the sequences part, `a` has ended, or
/// holds the lesser item.
pub open spec fn lexicographic<A: Ordered>(a: Seq<A>, b: Seq<A>) -> bool
    decreases a.len(),
{
    if b.len() == 0 {
        false
    } else if a.len() == 0 {
        true
    } else if a[0] == b[0] {
        lexicographic(a.drop_first(), b.drop_first())
    } else {
        a[0].before(b[0])
    }
}

proof fn lexicographic_laws<A: Ordered>(a: Seq<A>, b: Seq<A>, c: Seq<A>)
    ensures
        !lexicographic(a, a),
        lexicographic(a, b) && lexicographic(b, c) ==> lexicographic(a, c),
        a == b || lexicographic(a, b) || lexicographic(b, a),
    decreases a.len() + b.len() + c.len(),
{
    if a.len() > 0 {
        A::order_laws(a[0], a[0], a[0]);
        lexicographic_irreflexive(a);
    }
    if a.len() > 0 && b.len() > 0 {
        A::order_laws(a[0], b[0], a[0]);
        if a[0] == b[0] {
            if c.len() > 0 {
                lexicographic_laws(a.drop_first(), b.drop_first(), c.drop_first());
            } else {
                lexicographic_laws(a.drop_first(), b.drop_first(), Seq::empty());
            }
            if a.drop_first() == b.drop_first() {
                assert(a =~= seq![a[0]] + a.drop_first());
                assert(b =~= seq![b[0]] + b.drop_first());
            }
        }
        if c.len() > 0 {
            A::order_laws(a[0], b[0], c[0]);
        }
    } else if a.len() == 0 && b.len() == 0 {
        assert(a =~= b);
    }
}

proof fn lexicographic_irreflexive<A: Ordered>(a: Seq<A>)
    ensures
        !lexicographic(a, a),
    decreases a.len(),
{
    if a.len() > 0 {
        lexicographic_irreflexive(a.drop_first());
    }
}

impl<A: Ordered> Ordered for Seq<A> {
    open spec fn before(self, other: Seq<A>) -> bool {
        lexicographic(self, other)
    }

    proof fn order_laws(a: Seq<A>, b: Seq<A>, c: Seq<A>) {
        lexicographic_laws(a, b, c);
    }
}

/// If two sequences agree up to `i`, their order is that of what follows.
pub proof fn lexicographic_skips_common<A: Ordered>(a: Seq<A>, b: Seq<A>, i: int)
    requires
        0 <= i <= a.len(),
        i <= b.len(),
        a.take(i) == b.take(i),
    ensures
        lexicographic(a, b) == lexicographic(a.skip(i), b.skip(i)),
    decreases i,
{
    if i == 0 {
        assert(a.skip(0) =~= a);
        assert(b.skip(0) =~= b);
    } else {
        assert(a[0] == a.take(i)[0]);
        assert(b[0] == b.take(i)[0]);
        assert(a.drop_first().take(i - 1) =~= a.take(i).drop_first());
        assert(b.drop_first().take(i - 1) =~= b.take(i).drop_first());
        lexicographic_skips_common(a.drop_first(), b.drop_first(), i - 1);
        assert(a.drop_first().skip(i - 1) =~= a.skip(i));
        assert(b.drop_first().skip(i - 1) =~= b.skip(i));
    }
}

/// How one key stands to another.
#[derive(Clone, Copy, Debug, PartialEq, Eq, Structural)]
pub enum Place {
    Before,
    Same,
    After,
}

/// What `Place` says of two values.
pub open spec fn placed<A: Ordered>(a: A, b: A, place: Place) -> bool {
    match place {
        Place::Before => a.before(b),
        Place::Same => a == b,
        Place::After => b.before(a),
    }
}

} // verus!
