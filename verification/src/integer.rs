//! Integers of any size, as the octets of their two's complement.

use vstd::arithmetic::power::{lemma_pow_positive, pow};
use vstd::prelude::*;

verus! {

/// The number that octets stand for, in two's complement with the most significant octet first.
pub open spec fn integer_value(octets: Seq<u8>) -> int
    decreases octets.len(),
{
    if octets.len() == 0 {
        0
    } else if octets.len() == 1 {
        if octets[0] < 0x80 {
            octets[0] as int
        } else {
            octets[0] - 0x100
        }
    } else {
        integer_value(octets.drop_last()) * 0x100 + octets.last()
    }
}

/// Whether octets are the content of an integer: there are some, and the first cannot be left out.
pub open spec fn is_integer(octets: Seq<u8>) -> bool {
    &&& octets.len() > 0
    &&& octets.len() > 1 && octets[0] == 0x00 ==> octets[1] >= 0x80
    &&& octets.len() > 1 && octets[0] == 0xff ==> octets[1] < 0x80
}

/// The octets that stand for a number.
pub open spec fn integer_octets(value: int) -> Seq<u8>
    decreases
            if value < 0 {
                -value
            } else {
                value
            },
{
    if -0x80 <= value < 0x80 {
        seq![(value % 0x100) as u8]
    } else {
        integer_octets(value / 0x100).push((value % 0x100) as u8)
    }
}

/// What stands for a number is well formed and gives back the number.
pub proof fn octets_give_back_value(value: int)
    ensures
        is_integer(integer_octets(value)),
        integer_value(integer_octets(value)) == value,
    decreases
            if value < 0 {
                -value
            } else {
                value
            },
{
    if !(-0x80 <= value < 0x80) {
        let rest = value / 0x100;
        octets_give_back_value(rest);
        let octets = integer_octets(value);
        assert(octets.drop_last() =~= integer_octets(rest));
        if -0x80 <= rest < 0x80 {
            assert(integer_octets(rest) =~= seq![(rest % 0x100) as u8]);
            assert(octets[0] == (rest % 0x100) as u8);
            assert(octets[1] == (value % 0x100) as u8);
        } else {
            assert(integer_octets(rest).len() > 1) by {
                reveal_with_fuel(integer_octets, 3);
            }
            assert(octets[0] == integer_octets(rest)[0]);
            assert(octets[1] == integer_octets(rest)[1]);
        }
    }
}

/// A number is encoded in one way: the octets of its content are those that stand for it. So two
/// contents are the same octet by octet exactly if they are the same number.
pub proof fn value_gives_back_octets(octets: Seq<u8>)
    requires
        is_integer(octets),
    ensures
        integer_octets(integer_value(octets)) == octets,
    decreases octets.len(),
{
    if octets.len() == 1 {
        assert(integer_octets(integer_value(octets)) =~= octets);
    } else {
        let rest = octets.drop_last();
        value_gives_back_octets(rest);
        let value = integer_value(octets);
        assert(value / 0x100 == integer_value(rest) && value % 0x100 == octets.last());
        if -0x80 <= value < 0x80 {
            assert(integer_value(rest) == 0 || integer_value(rest) == -1);
            assert(rest == integer_octets(integer_value(rest)));
            assert(integer_octets(0) =~= seq![0u8]);
            assert(integer_octets(-1) =~= seq![0xffu8]);
            assert(rest[0] == octets[0]);
            assert(octets.len() == 2);
            assert(false);
        }
        assert(integer_octets(value) =~= octets);
    }
}

/// The number that octets stand for without a sign, the first being the most significant.
pub open spec fn unsigned_value(octets: Seq<u8>) -> int
    decreases octets.len(),
{
    if octets.len() == 0 {
        0
    } else {
        unsigned_value(octets.drop_last()) * 0x100 + octets.last()
    }
}

/// The first octet counts as many times as there are numbers of the octets behind it.
proof fn lemma_first_octet(octets: Seq<u8>)
    requires
        octets.len() > 0,
    ensures
        unsigned_value(octets) == octets[0] * pow(0x100, (octets.len() - 1) as nat) + unsigned_value(octets.drop_first()),
    decreases octets.len(),
{
    reveal(pow);
    let rest = octets.drop_first();
    if octets.len() == 1 {
        reveal_with_fuel(unsigned_value, 2);
        assert(octets.drop_last() =~= Seq::empty());
        assert(unsigned_value(octets) == octets[0]);
        assert(pow(0x100, 0) == 1);
        assert(unsigned_value(rest) == 0);
    } else {
        let shorter = octets.drop_last();
        let n = (octets.len() - 2) as nat;
        lemma_first_octet(shorter);
        assert(shorter.drop_first() =~= rest.drop_last());
        assert(pow(0x100, (octets.len() - 1) as nat) == 0x100 * pow(0x100, n));
        assert((octets[0] * pow(0x100, n)) * 0x100 == octets[0] * (0x100 * pow(0x100, n))) by (nonlinear_arith);
    }
}

/// Octets stand for a number in two's complement: the number without a sign, less the number of all
/// such numbers if the first bit is set.
pub proof fn value_is_twos_complement(octets: Seq<u8>)
    requires
        octets.len() > 0,
    ensures
        integer_value(octets) == unsigned_value(octets) - if octets[0] >= 0x80 {
            pow(0x100, octets.len())
        } else {
            0
        },
    decreases octets.len(),
{
    reveal(pow);
    let rest = octets.drop_last();
    if octets.len() == 1 {
        reveal_with_fuel(unsigned_value, 2);
        assert(rest =~= Seq::empty());
        assert(pow(0x100, 1) == 0x100 * pow(0x100, 0));
    } else {
        value_is_twos_complement(rest);
        assert(pow(0x100, octets.len()) == 0x100 * pow(0x100, (octets.len() - 1) as nat));
    }
}

/// Octets are the content of an integer exactly if they are the fewest that stand for it: there are
/// some, and without the first they would stand for another number.
#[verifier::spinoff_prover]
#[verifier::rlimit(60)]
pub proof fn integer_is_shortest(octets: Seq<u8>)
    ensures
        is_integer(octets) <==> octets.len() > 0 && (octets.len() > 1 ==> integer_value(octets.drop_first())
            != integer_value(octets)),
{
    if octets.len() > 1 {
        let rest = octets.drop_first();
        let n = (octets.len() - 1) as nat;
        let p = pow(0x100, n);
        lemma_first_octet(octets);
        value_is_twos_complement(octets);
        value_is_twos_complement(rest);
        lemma_pow_positive(0x100, n);
        assert(pow(0x100, octets.len()) == 0x100 * p) by {
            reveal(pow);
        }
        let first: int = octets[0] - if octets[0] >= 0x80 {
            0x100int
        } else {
            0
        } + if rest[0] >= 0x80 {
            1int
        } else {
            0
        };
        assert(integer_value(octets) - integer_value(rest) == first * p) by (nonlinear_arith)
            requires
                integer_value(octets) == octets[0] * p + unsigned_value(rest) - if octets[0] >= 0x80 {
                    0x100 * p
                } else {
                    0
                },
                integer_value(rest) == unsigned_value(rest) - if rest[0] >= 0x80 {
                    p
                } else {
                    0
                },
                first == octets[0] - if octets[0] >= 0x80 {
                    0x100int
                } else {
                    0
                } + if rest[0] >= 0x80 {
                    1int
                } else {
                    0
                },
        ;
        assert(first * p == 0 <==> first == 0) by (nonlinear_arith)
            requires
                p > 0,
        ;
        assert(rest[0] == octets[1]);
    }
}

/// An integer of any size.
#[derive(Debug)]
pub struct Integer {
    octets: Vec<u8>,
}

impl View for Integer {
    type V = int;

    closed spec fn view(&self) -> int {
        integer_value(self.octets@)
    }
}

impl Integer {
    #[verifier::type_invariant]
    spec fn well_formed(self) -> bool {
        is_integer(self.octets@)
    }

    /// The integer with the given content octets, if they are the content of one.
    pub fn from_octets(octets: Vec<u8>) -> (res: Option<Integer>)
        ensures
            match res {
                Some(value) => is_integer(octets@) && value@ == integer_value(octets@),
                None => !is_integer(octets@),
            },
    {
        if octets.len() == 0 {
            return None;
        }
        if octets.len() > 1 && octets[0] == 0x00 && octets[1] < 0x80 {
            return None;
        }
        if octets.len() > 1 && octets[0] == 0xff && octets[1] >= 0x80 {
            return None;
        }
        Some(Integer { octets })
    }

    /// The integer of a machine number.
    pub fn from_u64(value: u64) -> (res: Integer)
        ensures
            res@ == value,
    {
        let octets: Vec<u8> = octets_of_u64(value);
        Integer { octets }
    }

    /// The content octets.
    pub fn as_slice(&self) -> (res: &[u8])
        ensures
            res@ == integer_octets(self@),
    {
        proof {
            use_type_invariant(self);
            value_gives_back_octets(self.octets@);
        }
        self.octets.as_slice()
    }

    /// Whether two integers are the same number.
    pub fn is_same(&self, other: &Integer) -> (res: bool)
        ensures
            res == (self@ == other@),
    {
        proof {
            use_type_invariant(self);
            use_type_invariant(other);
            value_gives_back_octets(self.octets@);
            value_gives_back_octets(other.octets@);
        }
        same_octets(self.octets.as_slice(), other.octets.as_slice())
    }
}

/// Whether two strings of octets are the same.
pub fn same_octets(a: &[u8], b: &[u8]) -> (res: bool)
    ensures
        res == (a@ == b@),
{
    if a.len() != b.len() {
        return false;
    }
    let mut i: usize = 0;
    while i < a.len()
        invariant
            i <= a@.len(),
            a@.len() == b@.len(),
            forall|k: int| 0 <= k < i ==> a@[k] == b@[k],
        decreases a@.len() - i,
    {
        if a[i] != b[i] {
            return false;
        }
        i += 1;
    }
    assert(a@ =~= b@);
    true
}

/// `bcder::Integer::from` for a `u64`, with `bcder::Integer::as_slice`. The content octets are
/// claimed to be well formed and to stand for the number.
#[verifier::external_body]
fn octets_of_u64(value: u64) -> (res: Vec<u8>)
    ensures
        is_integer(res@),
        integer_value(res@) == value,
{
    bcder::Integer::from(value).as_slice().to_vec()
}

} // verus!
