//! Ordering: by magnitude, and by signed value.

use crate::bigint::BigInt;
use crate::digits::{lemma_pow10_monotonic, lemma_value_first_difference};
use vstd::prelude::*;

verus! {

impl<const MAX_SIZE: usize> BigInt<MAX_SIZE> {
    /// Whether `|self| < |other|`: the shorter number is the smaller; of two
    /// numbers of one length the first digit that differs decides.
    pub(super) fn abs_less(self, other: Self) -> (r: bool)
        ensures
            r == (self.magnitude() < other.magnitude()),
    {
        proof {
            use_type_invariant(self);
            use_type_invariant(other);
            self.lemma_shape();
            other.lemma_shape();
        }
        if self.current_size != other.current_size {
            proof {
                if self.current_size < other.current_size {
                    lemma_pow10_monotonic(
                        self.current_size as nat,
                        (other.current_size - 1) as nat,
                    );
                } else {
                    lemma_pow10_monotonic(
                        other.current_size as nat,
                        (self.current_size - 1) as nat,
                    );
                }
            }
            return self.current_size < other.current_size;
        }
        let mut i: usize = MAX_SIZE - self.current_size;
        while i < MAX_SIZE
            invariant
                self.wf(),
                other.wf(),
                self.current_size == other.current_size,
                MAX_SIZE - self.current_size <= i <= MAX_SIZE,
                self.magnitude() == crate::digits::digits_value(self.digits@),
                other.magnitude() == crate::digits::digits_value(other.digits@),
                forall|j: int| 0 <= j < i ==> self.digits@[j] == other.digits@[j],
            decreases MAX_SIZE - i,
        {
            if self.digits[i] < other.digits[i] {
                proof {
                    lemma_value_first_difference(self.digits@, other.digits@, i as int);
                }
                return true;
            } else if self.digits[i] > other.digits[i] {
                proof {
                    lemma_value_first_difference(other.digits@, self.digits@, i as int);
                }
                return false;
            }
            i += 1;
        }
        assert(self.digits@ =~= other.digits@);
        false
    }

    /// Whether `self < other`.
    pub fn less(self, other: Self) -> (r: bool)
        ensures
            r == (self@ < other@),
    {
        proof {
            use_type_invariant(self);
            use_type_invariant(other);
            self.lemma_shape();
            other.lemma_shape();
        }
        if self.is_negative && !other.is_negative {
            true
        } else if !self.is_negative && other.is_negative {
            false
        } else if self.is_negative {
            other.abs_less(self)
        } else {
            self.abs_less(other)
        }
    }

    /// Whether `self == other`: the same sign, the same number of digits
    /// and the same digits.
    pub fn equal(self, other: Self) -> (r: bool)
        ensures
            r == (self@ == other@),
            r == (self == other),
    {
        proof {
            use_type_invariant(self);
            use_type_invariant(other);
            if self@ == other@ {
                self.lemma_view_injective(other);
            }
        }
        proof {
            use_type_invariant(self);
            use_type_invariant(other);
            self.lemma_shape();
            other.lemma_shape();
        }
        if self.is_negative != other.is_negative {
            return false;
        }
        if self.current_size != other.current_size {
            proof {
                if self.current_size < other.current_size {
                    lemma_pow10_monotonic(
                        self.current_size as nat,
                        (other.current_size - 1) as nat,
                    );
                } else {
                    lemma_pow10_monotonic(
                        other.current_size as nat,
                        (self.current_size - 1) as nat,
                    );
                }
            }
            return false;
        }
        let mut i: usize = MAX_SIZE - self.current_size;
        while i < MAX_SIZE
            invariant
                self.wf(),
                other.wf(),
                self.current_size == other.current_size,
                MAX_SIZE - self.current_size <= i <= MAX_SIZE,
                self.magnitude() == crate::digits::digits_value(self.digits@),
                other.magnitude() == crate::digits::digits_value(other.digits@),
                forall|j: int| 0 <= j < i ==> self.digits@[j] == other.digits@[j],
            decreases MAX_SIZE - i,
        {
            if self.digits[i] != other.digits[i] {
                proof {
                    if self.digits@[i as int] < other.digits@[i as int] {
                        lemma_value_first_difference(self.digits@, other.digits@, i as int);
                    } else {
                        lemma_value_first_difference(other.digits@, self.digits@, i as int);
                    }
                }
                return false;
            }
            i += 1;
        }
        assert(self.digits@ =~= other.digits@);
        true
    }

    /// Whether `self > other`.
    pub fn greater(self, other: Self) -> (r: bool)
        ensures
            r == (self@ > other@),
    {
        !self.less(other) && !self.equal(other)
    }
}

} // verus!
