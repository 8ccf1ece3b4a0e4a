use vstd::prelude::*;

use crate::digit::Digit;

verus! {

/// A set of digits, kept as a mask of nine bits: bit `d - 1` stands for
/// digit `d`.
#[derive(Debug, PartialEq, Eq, Structural, Hash, Clone, Copy)]
pub struct Candidates {
    bits: u16,
}

/// `d` is one of `1..=9`.
pub open spec fn is_digit(d: u8) -> bool {
    1 <= d <= 9
}

/// Bit `i` of the mask is set.
spec fn bit(bits: u16, i: u16) -> bool {
    bits & (1u16 << i) != 0
}

proof fn lemma_bit_zero(i: u16)
    by (bit_vector)
    requires
        i < 9,
    ensures
        !bit(0u16, i),
{
}

proof fn lemma_bit_full(i: u16)
    by (bit_vector)
    requires
        i < 9,
    ensures
        bit(0x1ffu16, i),
{
}

proof fn lemma_bit_set(bits: u16, i: u16, j: u16)
    by (bit_vector)
    requires
        i < 9,
        j < 9,
    ensures
        bit(bits | (1u16 << i), j) == (i == j || bit(bits, j)),
        bits < 512 ==> bits | (1u16 << i) < 512,
{
}

proof fn lemma_bit_clear(bits: u16, i: u16, j: u16)
    by (bit_vector)
    requires
        i < 9,
        j < 9,
    ensures
        bit(bits & !(1u16 << i), j) == (i != j && bit(bits, j)),
        bits < 512 ==> bits & !(1u16 << i) < 512,
{
}

proof fn lemma_bit_flip(bits: u16, i: u16, j: u16)
    by (bit_vector)
    requires
        i < 9,
        j < 9,
    ensures
        bit(bits ^ (1u16 << i), j) == (if i == j {
            !bit(bits, j)
        } else {
            bit(bits, j)
        }),
        bits < 512 ==> bits ^ (1u16 << i) < 512,
{
}

proof fn lemma_bits_equal(a: u16, b: u16)
    by (bit_vector)
    requires
        a < 512,
        b < 512,
        bit(a, 0) == bit(b, 0),
        bit(a, 1) == bit(b, 1),
        bit(a, 2) == bit(b, 2),
        bit(a, 3) == bit(b, 3),
        bit(a, 4) == bit(b, 4),
        bit(a, 5) == bit(b, 5),
        bit(a, 6) == bit(b, 6),
        bit(a, 7) == bit(b, 7),
        bit(a, 8) == bit(b, 8),
    ensures
        a == b,
{
}

impl View for Candidates {
    type V = Set<u8>;

    /// The digits that the mask holds.
    closed spec fn view(&self) -> Set<u8> {
        Set::new(|d: u8| is_digit(d) && bit(self.bits, (d - 1) as u16))
    }
}

impl Candidates {
    /// No bit above the ninth is set, so that two masks with the same
    /// digits are the same value.
    pub closed spec fn wf(self) -> bool {
        self.bits < 512
    }

    /// The set without members; `empty()` in specifications.
    pub closed spec fn spec_empty() -> Self {
        Candidates { bits: 0 }
    }

    /// The set of all nine digits; `all()` in specifications.
    pub closed spec fn spec_all() -> Self {
        Candidates { bits: 0x1ff }
    }

    /// What the two constant sets hold.
    pub proof fn lemma_empty_and_all()
        ensures
            Self::spec_empty()@ == Set::<u8>::empty(),
            Self::spec_empty().wf(),
            Self::spec_all()@ == Set::new(|d: u8| is_digit(d)),
            Self::spec_all().wf(),
    {
        assert forall|d: u8| !Self::spec_empty()@.contains(d) by {
            if is_digit(d) {
                lemma_bit_zero((d - 1) as u16);
            }
        }
        assert(Self::spec_empty()@ =~= Set::<u8>::empty());
        assert forall|d: u8| Self::spec_all()@.contains(d) == is_digit(d) by {
            if is_digit(d) {
                lemma_bit_full((d - 1) as u16);
            }
        }
        assert(Self::spec_all()@ =~= Set::new(|d: u8| is_digit(d)));
    }

    /// The set that holds `digit` alone.
    pub closed spec fn spec_single(digit: Digit) -> Self {
        Candidates { bits: 1u16 << ((digit.0 - 1) as u16) }
    }

    /// What the set of one digit holds.
    pub proof fn lemma_single(digit: Digit)
        requires
            digit.wf(),
        ensures
            Self::spec_single(digit)@ == set![digit.0],
            Self::spec_single(digit).wf(),
    {
        let i = (digit.0 - 1) as u16;
        let single = Self::spec_single(digit);
        lemma_bit_set(0u16, i, i);
        assert(0u16 | (1u16 << i) == 1u16 << i) by (bit_vector);
        assert forall|d: u8| single@.contains(d) == (d == digit.0) by {
            if is_digit(d) {
                lemma_bit_set(0u16, i, (d - 1) as u16);
                lemma_bit_zero((d - 1) as u16);
            }
        }
        assert(single@ =~= set![digit.0]);
    }

    /// The members of the set that are smaller than `k`.
    pub open spec fn below(self, k: int) -> Set<u8> {
        Set::new(|d: u8| d < k && self@.contains(d))
    }

    /// Only digits are members, and there are finitely many of them.
    pub proof fn lemma_members(self)
        ensures
            forall|d: u8| #[trigger] self@.contains(d) ==> is_digit(d),
            self@.finite(),
            self@.len() <= 9,
            self.below(10) == self@,
    {
        self.lemma_below(10);
        assert(self.below(10) =~= self@);
    }

    proof fn lemma_below(self, k: int)
        requires
            0 <= k <= 10,
        ensures
            self.below(k).finite(),
            k <= 1 ==> self.below(k).len() == 0,
            k >= 1 ==> self.below(k).len() <= k - 1,
        decreases k,
    {
        if k <= 1 {
            assert(self.below(k) =~= Set::<u8>::empty());
        } else {
            self.lemma_below(k - 1);
            self.lemma_below_step((k - 1) as u8);
        }
    }

    /// How the members below `d + 1` arise from those below `d`.
    pub proof fn lemma_below_step(self, d: u8)
        requires
            d < 255,
        ensures
            self@.contains(d) ==> self.below(d + 1) == self.below(d as int).insert(d),
            !self@.contains(d) ==> self.below(d + 1) == self.below(d as int),
            !self.below(d as int).contains(d),
    {
        if self@.contains(d) {
            assert(self.below(d + 1) =~= self.below(d as int).insert(d));
        } else {
            assert(self.below(d + 1) =~= self.below(d as int));
        }
    }

    /// Two well-formed masks with the same members are equal.
    pub proof fn lemma_view_injective(self, other: Self)
        requires
            self.wf(),
            other.wf(),
            self@ == other@,
        ensures
            self == other,
    {
        assert forall|i: u16| i < 9 implies bit(self.bits, i) == bit(other.bits, i) by {
            let d = (i + 1) as u8;
            assert((d - 1) as u16 == i);
            assert(self@.contains(d) == (is_digit(d) && bit(self.bits, (d - 1) as u16)));
            assert(other@.contains(d) == (is_digit(d) && bit(other.bits, (d - 1) as u16)));
        }
        lemma_bits_equal(self.bits, other.bits);
    }

    /// The set without members.
    #[verifier::when_used_as_spec(spec_empty)]
    pub fn empty() -> (r: Self)
        ensures
            r == Self::spec_empty(),
            r@ == Set::<u8>::empty(),
            r.wf(),
    {
        proof {
            Self::lemma_empty_and_all();
        }
        Candidates { bits: 0 }
    }

    /// The set of all nine digits.
    #[verifier::when_used_as_spec(spec_all)]
    pub fn all() -> (r: Self)
        ensures
            r == Self::spec_all(),
            r@ == Set::new(|d: u8| is_digit(d)),
            r.wf(),
    {
        proof {
            Self::lemma_empty_and_all();
        }
        Candidates { bits: 0x1ff }
    }

    /// Makes `digit` a member.
    pub fn add(&mut self, digit: Digit)
        requires
            digit.wf(),
        ensures
            final(self)@ == old(self)@.insert(digit.0),
            old(self).wf() ==> final(self).wf(),
    {
        let i: u16 = (digit.0 - 1) as u16;
        let ghost before = *self;
        self.bits = self.bits | (1u16 << i);
        proof {
            lemma_bit_set(before.bits, i, i);
            assert forall|d: u8| self@.contains(d) == before@.insert(digit.0).contains(d) by {
                if is_digit(d) {
                    lemma_bit_set(before.bits, i, (d - 1) as u16);
                }
            }
            assert(self@ =~= before@.insert(digit.0));
        }
    }

    /// Makes `digit` no member.
    pub fn remove(&mut self, digit: Digit)
        requires
            digit.wf(),
        ensures
            final(self)@ == old(self)@.remove(digit.0),
            old(self).wf() ==> final(self).wf(),
    {
        let i: u16 = (digit.0 - 1) as u16;
        let ghost before = *self;
        self.bits = self.bits & !(1u16 << i);
        proof {
            lemma_bit_clear(before.bits, i, i);
            assert forall|d: u8| self@.contains(d) == before@.remove(digit.0).contains(d) by {
                if is_digit(d) {
                    lemma_bit_clear(before.bits, i, (d - 1) as u16);
                }
            }
            assert(self@ =~= before@.remove(digit.0));
        }
    }

    /// Makes `digit` a member if it is none, and none if it is one.
    pub fn toggle(&mut self, digit: Digit)
        requires
            digit.wf(),
        ensures
            old(self)@.contains(digit.0) ==> final(self)@ == old(self)@.remove(digit.0),
            !old(self)@.contains(digit.0) ==> final(self)@ == old(self)@.insert(digit.0),
            old(self).wf() ==> final(self).wf(),
    {
        let i: u16 = (digit.0 - 1) as u16;
        let ghost before = *self;
        self.bits = self.bits ^ (1u16 << i);
        proof {
            lemma_bit_flip(before.bits, i, i);
            let ghost expected = if before@.contains(digit.0) {
                before@.remove(digit.0)
            } else {
                before@.insert(digit.0)
            };
            assert forall|d: u8| self@.contains(d) == expected.contains(d) by {
                if is_digit(d) {
                    lemma_bit_flip(before.bits, i, (d - 1) as u16);
                }
            }
            assert(self@ =~= expected);
        }
    }

    /// Whether `digit` is a member.
    pub fn contains(&self, digit: Digit) -> (r: bool)
        requires
            digit.wf(),
        ensures
            r == self@.contains(digit.0),
    {
        let i: u16 = (digit.0 - 1) as u16;
        self.bits & (1u16 << i) != 0
    }

    /// The members in ascending order.
    pub fn digits(&self) -> (r: Vec<Digit>)
        ensures
            r@.len() == self@.len(),
            forall|i: int| 0 <= i < r@.len() ==> (#[trigger] r@[i]).wf() && self@.contains(r@[i].0),
            forall|i: int, j: int| 0 <= i < j < r@.len() ==> r@[i].0 < r@[j].0,
            forall|d: u8| #[trigger] self@.contains(d) ==> r@.contains(Digit(d)),
    {
        let mut out: Vec<Digit> = Vec::new();
        let mut d: u8 = 1;
        proof {
            self.lemma_below(1);
        }
        while d <= 9
            invariant
                1 <= d <= 10,
                self.below(d as int).finite(),
                out@.len() == self.below(d as int).len(),
                forall|i: int|
                    0 <= i < out@.len() ==> (#[trigger] out@[i]).wf() && self@.contains(out@[i].0)
                        && out@[i].0 < d,
                forall|i: int, j: int| 0 <= i < j < out@.len() ==> out@[i].0 < out@[j].0,
                forall|e: u8| e < d && #[trigger] self@.contains(e) ==> out@.contains(Digit(e)),
            decreases 10 - d,
        {
            let digit = Digit::new_unchecked(d);
            proof {
                self.lemma_below_step(d);
            }
            if self.contains(digit) {
                let ghost before = out@;
                out.push(digit);
                proof {
                    assert forall|e: u8| e < d + 1 && #[trigger] self@.contains(e) implies out@.contains(
                        Digit(e),
                    ) by {
                        if e < d {
                            let k = choose|k: int| 0 <= k < before.len() && before[k] == Digit(e);
                            assert(out@[k] == Digit(e));
                        } else {
                            assert(out@[out@.len() - 1] == Digit(e));
                        }
                    }
                }
            }
            d = d + 1;
        }
        proof {
            self.lemma_members();
        }
        out
    }

    /// The number of members.
    pub fn count(&self) -> (r: usize)
        ensures
            r == self@.len(),
    {
        self.digits().len()
    }
}

impl From<Digit> for Candidates {
    /// The set that holds `value` alone; the empty set where `value` is
    /// no digit.
    fn from(value: Digit) -> (r: Self) {
        let mut candidates = Candidates::empty();
        if Digit::is_valid(value.0) {
            candidates.add(value);
            proof {
                Candidates::lemma_single(value);
                assert(candidates@ =~= set![value.0]);
                candidates.lemma_view_injective(Candidates::spec_single(value));
            }
        }
        candidates
    }
}

impl vstd::std_specs::convert::FromSpecImpl<Digit> for Candidates {
    open spec fn obeys_from_spec() -> bool {
        true
    }

    open spec fn from_spec(value: Digit) -> Self {
        if value.wf() {
            Candidates::spec_single(value)
        } else {
            Candidates::empty()
        }
    }
}

impl Default for Candidates {
    fn default() -> (r: Self)
        ensures
            r == Candidates::empty(),
    {
        Candidates::empty()
    }
}

} // verus!
