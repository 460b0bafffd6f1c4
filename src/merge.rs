//! Merge operators: how a queued operand folds onto a stored value.
use vstd::prelude::*;
use crate::bytes::extend_bytes;

verus! {

/// A merge operator: folds a queued operand into the value stored under a key.
///
/// All three are associative, so a chain of operands may be collapsed in any
/// grouping, at read time or during compaction. `BytesXor` can fail: a merge
/// it cannot perform makes the key's value unresolvable, which reads report
/// as `Corruption`.
#[derive(Clone, Copy, Debug, PartialEq, Eq, Structural)]
pub enum MergeOperator {
    /// The operand is appended to the existing value.
    Concat,
    /// The operand is appended after a delimiter byte; with no existing value
    /// the operand alone becomes the value.
    Append(u8),
    /// The operand is XORed into the existing value byte by byte; operands of
    /// another length than the existing value cannot be merged.
    BytesXor,
}

/// Byte-wise XOR of two byte strings of the same length.
pub open spec fn xor_bytes(a: Seq<u8>, b: Seq<u8>) -> Seq<u8> {
    Seq::new(a.len(), |i: int| a[i] ^ b[i])
}

/// The value that results from merging `operand` onto `existing`, or `None`
/// where the operator cannot merge them.
pub open spec fn merged(m: MergeOperator, existing: Option<Seq<u8>>, operand: Seq<u8>) -> Option<Seq<u8>> {
    match existing {
        None => Some(operand),
        Some(e) => match m {
            MergeOperator::Concat => Some(e + operand),
            MergeOperator::Append(d) => Some(e + seq![d] + operand),
            MergeOperator::BytesXor => if e.len() == operand.len() {
                Some(xor_bytes(e, operand))
            } else {
                None
            },
        },
    }
}

impl MergeOperator {
    /// Merges one operand onto an existing value (or onto nothing); `None`
    /// where the operator cannot merge them.
    pub fn full_merge(&self, existing: Option<&[u8]>, operand: &[u8]) -> (r: Option<Vec<u8>>)
        ensures
            match r {
                Some(v) => merged(*self, match existing { Some(e) => Some(e@), None => None }, operand@) == Some(v@),
                None => merged(*self, match existing { Some(e) => Some(e@), None => None }, operand@).is_none(),
            },
    {
        let mut r: Vec<u8> = Vec::new();
        match existing {
            None => {
                extend_bytes(&mut r, operand);
                assert(r@ =~= operand@);
                Some(r)
            },
            Some(e) => match self {
                MergeOperator::Concat => {
                    extend_bytes(&mut r, e);
                    extend_bytes(&mut r, operand);
                    assert(r@ =~= e@ + operand@);
                    Some(r)
                },
                MergeOperator::Append(d) => {
                    extend_bytes(&mut r, e);
                    r.push(*d);
                    extend_bytes(&mut r, operand);
                    assert(r@ =~= e@ + seq![*d] + operand@);
                    Some(r)
                },
                MergeOperator::BytesXor => {
                    if e.len() != operand.len() {
                        return None;
                    }
                    let mut i: usize = 0;
                    while i < e.len()
                        invariant
                            i <= e@.len(),
                            e@.len() == operand@.len(),
                            r@ =~= xor_bytes(e@, operand@).subrange(0, i as int),
                        decreases e@.len() - i,
                    {
                        r.push(e[i] ^ operand[i]);
                        i = i + 1;
                    }
                    assert(r@ =~= xor_bytes(e@, operand@));
                    Some(r)
                },
            },
        }
    }
}

/// A merge operator configured for one column family.
#[derive(Clone, Copy, Debug, PartialEq, Eq, Structural)]
pub struct FamilyMerge {
    pub cf: u32,
    pub op: MergeOperator,
}

/// The merge operator of each column family: the one its options name, or
/// the database's where they name none.
pub struct MergeTable {
    pub default: Option<MergeOperator>,
    pub families: Vec<FamilyMerge>,
}

/// The operator of `cf` among `entries` (the newest entry for it wins), or
/// `dflt` where none names it.
pub open spec fn operator_of(entries: Seq<FamilyMerge>, cf: u32, dflt: Option<MergeOperator>) -> Option<MergeOperator>
    decreases entries.len(),
{
    if entries.len() == 0 {
        dflt
    } else if entries.last().cf == cf {
        Some(entries.last().op)
    } else {
        operator_of(entries.drop_last(), cf, dflt)
    }
}

impl MergeTable {
    /// The merge operator that resolves the operands of column family `cf`.
    pub open spec fn op_for(&self, cf: u32) -> Option<MergeOperator> {
        operator_of(self.families@, cf, self.default)
    }

    /// Looks up the merge operator of a column family.
    pub fn get(&self, cf: u32) -> (r: Option<MergeOperator>)
        ensures
            r == self.op_for(cf),
    {
        let mut i: usize = self.families.len();
        assert(self.families@.subrange(0, i as int) =~= self.families@);
        while i > 0
            invariant
                i <= self.families@.len(),
                self.op_for(cf) == operator_of(self.families@.subrange(0, i as int), cf, self.default),
            decreases i,
        {
            proof {
                let sub = self.families@.subrange(0, i as int);
                assert(sub.last() == self.families@[i - 1]);
                assert(sub.drop_last() =~= self.families@.subrange(0, i - 1));
            }
            if self.families[i - 1].cf == cf {
                return Some(self.families[i - 1].op);
            }
            i = i - 1;
        }
        self.default
    }
}

} // verus!
