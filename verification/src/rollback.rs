use crate::field_id::FieldId;
use vstd::prelude::*;

verus! {

/// The exact semantic inverse of one applied `FinalizeOperation`, captured
/// at apply time together with whatever prior state (previous key and
/// value, previous leaf index, or a full mapping snapshot) restoring the
/// store requires. A block's rollback operations must be applied in strict
/// reverse order relative to its forward journal.
#[derive(Debug, PartialEq, Eq)]
pub enum RollbackOperation {
    /// Deletes the mapping an `InitializeMapping` created, (`mapping ID`).
    RemoveMapping(FieldId),
    /// Deletes the leaf an `InsertKeyValue` appended, (`mapping ID`, the
    /// `index` assigned at insert).
    RemoveKeyValue(FieldId, u64),
    /// Restores the pair an `UpdateKeyValue` overwrote, (`mapping ID`,
    /// `index`, prior `key ID`, prior `value ID`).
    UpdateKeyValue(FieldId, u64, FieldId, FieldId),
    /// Re-seats the pair a `RemoveKeyValue` deleted at its prior position,
    /// (`mapping ID`, `index`, prior `key ID`, prior `value ID`).
    InsertKeyValue(FieldId, u64, FieldId, FieldId),
    /// Re-creates the mapping a `RemoveMapping` deleted, with its full
    /// prior leaf snapshot in order, (`mapping ID`, leaves).
    RestoreMapping(FieldId, Vec<(FieldId, FieldId)>),
}

/// The mathematical value of a rollback operation: indices as plain
/// integers and the snapshot as a sequence.
#[verifier::ext_equal]
pub enum RollbackVal {
    RemoveMapping(FieldId),
    RemoveKeyValue(FieldId, int),
    UpdateKeyValue(FieldId, int, FieldId, FieldId),
    InsertKeyValue(FieldId, int, FieldId, FieldId),
    RestoreMapping(FieldId, Seq<(FieldId, FieldId)>),
}

impl View for RollbackOperation {
    type V = RollbackVal;

    open spec fn view(&self) -> RollbackVal {
        match self {
            RollbackOperation::RemoveMapping(m) => RollbackVal::RemoveMapping(*m),
            RollbackOperation::RemoveKeyValue(m, i) => RollbackVal::RemoveKeyValue(*m, *i as int),
            RollbackOperation::UpdateKeyValue(m, i, k, v) => RollbackVal::UpdateKeyValue(
                *m,
                *i as int,
                *k,
                *v,
            ),
            RollbackOperation::InsertKeyValue(m, i, k, v) => RollbackVal::InsertKeyValue(
                *m,
                *i as int,
                *k,
                *v,
            ),
            RollbackOperation::RestoreMapping(m, leaves) => RollbackVal::RestoreMapping(
                *m,
                leaves@,
            ),
        }
    }
}

/// The mathematical values of a vector of rollback operations, in order.
pub open spec fn rollback_views(s: Seq<RollbackOperation>) -> Seq<RollbackVal> {
    Seq::new(s.len(), |i: int| s[i]@)
}

impl RollbackOperation {
    /// The mapping this operation addresses.
    pub open spec fn spec_mapping_id(&self) -> FieldId {
        match *self {
            RollbackOperation::RemoveMapping(mapping_id) => mapping_id,
            RollbackOperation::RemoveKeyValue(mapping_id, _) => mapping_id,
            RollbackOperation::UpdateKeyValue(mapping_id, _, _, _) => mapping_id,
            RollbackOperation::InsertKeyValue(mapping_id, _, _, _) => mapping_id,
            RollbackOperation::RestoreMapping(mapping_id, _) => mapping_id,
        }
    }

    /// Returns the mapping ID of the rollback operation, without decoding
    /// the full payload; the ledger groups operations per mapping by it.
    pub fn mapping_id(&self) -> (r: FieldId)
        ensures
            r == self.spec_mapping_id(),
    {
        match self {
            RollbackOperation::RemoveMapping(mapping_id) => *mapping_id,
            RollbackOperation::RemoveKeyValue(mapping_id, _) => *mapping_id,
            RollbackOperation::UpdateKeyValue(mapping_id, _, _, _) => *mapping_id,
            RollbackOperation::InsertKeyValue(mapping_id, _, _, _) => *mapping_id,
            RollbackOperation::RestoreMapping(mapping_id, _) => *mapping_id,
        }
    }
}

} // verus!
