//! The tagged value a machine word can hold: a field element, or a
//! relocatable memory address (segment index + offset).  The two variants
//! never compare equal and are never coerced into one another.

use crate::bignum::{dec_val, is_dec_seq, BigNat};
use vstd::prelude::*;
use vstd::string::*;

verus! {

/// How two values of one variant compare; values of different variants are
/// not ordered.
#[derive(Debug, Clone, Copy, PartialEq, Eq, Structural)]
pub enum ValueOrder {
    Less,
    Equal,
    Greater,
}

pub open spec fn nat_order(a: nat, b: nat) -> ValueOrder {
    if a < b {
        ValueOrder::Less
    } else if a == b {
        ValueOrder::Equal
    } else {
        ValueOrder::Greater
    }
}

/// Ordering of machine words: field elements by value, addresses by segment
/// then offset, nothing across variants.
pub open spec fn word_order(a: WordModel, b: WordModel) -> Option<ValueOrder> {
    match (a, b) {
        (WordModel::Int(x), WordModel::Int(y)) => Some(nat_order(x, y)),
        (WordModel::Address(s1, o1), WordModel::Address(s2, o2)) => Some(
            if s1 != s2 {
                nat_order(s1, s2)
            } else {
                nat_order(o1, o2)
            },
        ),
        _ => None,
    }
}

/// Mathematical value of a machine word.
pub enum WordModel {
    /// A field element, canonically reduced.
    Int(nat),
    /// A relocatable address: segment index and offset.
    Address(nat, nat),
}

/// A not-yet-resolved memory location: segment index and offset inside the
/// segment.  Resolution happens in the execution engine, outside this crate.
#[derive(Debug, PartialEq, Eq, Clone, Copy)]
pub struct Relocatable {
    pub segment_index: usize,
    pub offset: usize,
}

/// A machine word: either a raw field element or a relocatable address.
#[derive(Debug, PartialEq, Eq)]
pub enum MaybeRelocatable {
    Int(BigNat),
    RelocatableValue(Relocatable),
}

impl View for MaybeRelocatable {
    type V = WordModel;

    open spec fn view(&self) -> WordModel {
        match self {
            MaybeRelocatable::Int(b) => WordModel::Int(b.value()),
            MaybeRelocatable::RelocatableValue(r) => WordModel::Address(
                r.segment_index as nat,
                r.offset as nat,
            ),
        }
    }
}

impl MaybeRelocatable {
    pub open spec fn wf(&self) -> bool {
        match self {
            MaybeRelocatable::Int(b) => b.wf(),
            MaybeRelocatable::RelocatableValue(_) => true,
        }
    }

    /// Structural, variant-aware equality: a field element never equals a
    /// relocatable address.
    pub fn eq_value(&self, other: &MaybeRelocatable) -> (r: bool)
        requires
            self.wf(),
            other.wf(),
        ensures
            r == (self@ == other@),
    {
        match (self, other) {
            (MaybeRelocatable::Int(a), MaybeRelocatable::Int(b)) => a.eq_val(b),
            (
                MaybeRelocatable::RelocatableValue(a),
                MaybeRelocatable::RelocatableValue(b),
            ) => a.segment_index == b.segment_index && a.offset == b.offset,
            _ => false,
        }
    }

    /// Ordering defined only within a variant; cross-variant comparison is
    /// not ordered.
    pub fn compare_value(&self, other: &MaybeRelocatable) -> (r: Option<ValueOrder>)
        requires
            self.wf(),
            other.wf(),
        ensures
            r == word_order(self@, other@),
    {
        match (self, other) {
            (MaybeRelocatable::Int(a), MaybeRelocatable::Int(b)) => {
                if a.lt_val(b) {
                    Some(ValueOrder::Less)
                } else if a.eq_val(b) {
                    Some(ValueOrder::Equal)
                } else {
                    Some(ValueOrder::Greater)
                }
            },
            (
                MaybeRelocatable::RelocatableValue(a),
                MaybeRelocatable::RelocatableValue(b),
            ) => {
                if a.segment_index != b.segment_index {
                    if a.segment_index < b.segment_index {
                        Some(ValueOrder::Less)
                    } else {
                        Some(ValueOrder::Greater)
                    }
                } else if a.offset < b.offset {
                    Some(ValueOrder::Less)
                } else if a.offset == b.offset {
                    Some(ValueOrder::Equal)
                } else {
                    Some(ValueOrder::Greater)
                }
            },
            _ => None,
        }
    }

    /// Stable rendering for diagnostics: a field element as its decimal
    /// value, an address as `segment:offset`.
    pub fn describe(&self) -> (r: String)
        requires
            self.wf(),
        ensures
            match self@ {
                WordModel::Int(v) => is_dec_seq(r@) && dec_val(r@) == v,
                WordModel::Address(seg, off) => exists|s1: Seq<char>, s2: Seq<char>|
                    r@ == #[trigger] (s1 + ":"@ + s2) && is_dec_seq(s1) && dec_val(s1) == seg
                        && is_dec_seq(s2) && dec_val(s2) == off,
            },
    {
        match self {
            MaybeRelocatable::Int(b) => b.to_decimal_string(),
            MaybeRelocatable::RelocatableValue(rl) => {
                let mut s = BigNat::from_u64(rl.segment_index as u64).to_decimal_string();
                let off_s = BigNat::from_u64(rl.offset as u64).to_decimal_string();
                let ghost s1 = s@;
                let ghost s2 = off_s@;
                s.append(":");
                s.append(off_s.as_str());
                proof {
                    assert(s@ =~= s1 + ":"@ + s2);
                    assert(s@ == s1 + ":"@ + s2 && is_dec_seq(s1) && dec_val(s1)
                        == rl.segment_index as nat && is_dec_seq(s2) && dec_val(s2)
                        == rl.offset as nat);
                }
                s
            },
        }
    }
}

impl From<BigNat> for MaybeRelocatable {
    fn from(b: BigNat) -> (r: MaybeRelocatable) {
        MaybeRelocatable::Int(b)
    }
}

impl vstd::std_specs::convert::FromSpecImpl<BigNat> for MaybeRelocatable {
    open spec fn obeys_from_spec() -> bool {
        true
    }

    open spec fn from_spec(b: BigNat) -> MaybeRelocatable {
        MaybeRelocatable::Int(b)
    }
}

} // verus!
