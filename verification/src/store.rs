use crate::errors::StateError;
use crate::field_id::FieldId;
use crate::finalize::FinalizeOperation;
use crate::rollback::{rollback_views, RollbackOperation, RollbackVal};
use vstd::pervasive::VecAdditionalExecFns;
use vstd::prelude::*;

verus! {

/// The mathematical state of the mapping store: the name of each existing
/// mapping to its ordered sequence of (key ID, value ID) leaves. A leaf's
/// position in the sequence is its index; removal compacts the indices
/// that follow (and re-seating at the same index restores them), so the
/// same policy governs the forward journal and its rollback.
pub type StoreModel = Map<FieldId, Seq<(FieldId, FieldId)>>;

/// Whether some leaf of `leaves` carries the key `key`.
pub open spec fn has_key(leaves: Seq<(FieldId, FieldId)>, key: FieldId) -> bool {
    exists|i: int| 0 <= i < leaves.len() && leaves[i].0 == key
}

/// What applying one journal entry to the store does: the new store state
/// and the exact inverse of the step, or the exact reason the entry is
/// refused. A refused entry changes nothing.
pub open spec fn apply_op(s: StoreModel, op: FinalizeOperation) -> Result<
    (StoreModel, RollbackVal),
    StateError,
> {
    match op {
        FinalizeOperation::InitializeMapping(m) => if s.contains_key(m) {
            Err(StateError::AlreadyExists)
        } else {
            Ok((s.insert(m, Seq::empty()), RollbackVal::RemoveMapping(m)))
        },
        FinalizeOperation::InsertKeyValue(m, k, v) => if !s.contains_key(m) {
            Err(StateError::NotFound)
        } else if has_key(s[m], k) {
            Err(StateError::AlreadyExists)
        } else {
            Ok(
                (
                    s.insert(m, s[m].push((k, v))),
                    RollbackVal::RemoveKeyValue(m, s[m].len() as int),
                ),
            )
        },
        FinalizeOperation::UpdateKeyValue(m, i, k, v) => if !s.contains_key(m) {
            Err(StateError::NotFound)
        } else if i as int >= s[m].len() {
            Err(StateError::OutOfRange)
        } else {
            Ok(
                (
                    s.insert(m, s[m].update(i as int, (k, v))),
                    RollbackVal::UpdateKeyValue(m, i as int, s[m][i as int].0, s[m][i as int].1),
                ),
            )
        },
        FinalizeOperation::RemoveKeyValue(m, i) => if !s.contains_key(m) {
            Err(StateError::NotFound)
        } else if i as int >= s[m].len() {
            Err(StateError::OutOfRange)
        } else {
            Ok(
                (
                    s.insert(m, s[m].remove(i as int)),
                    RollbackVal::InsertKeyValue(m, i as int, s[m][i as int].0, s[m][i as int].1),
                ),
            )
        },
        FinalizeOperation::RemoveMapping(m) => if !s.contains_key(m) {
            Err(StateError::NotFound)
        } else {
            Ok((s.remove(m), RollbackVal::RestoreMapping(m, s[m])))
        },
    }
}

/// What applying one rollback entry to the store does: the restored store
/// state, or the exact reason the entry is refused. A refused entry
/// changes nothing.
pub open spec fn apply_rollback(s: StoreModel, rb: RollbackVal) -> Result<StoreModel, StateError> {
    match rb {
        RollbackVal::RemoveMapping(m) => if !s.contains_key(m) {
            Err(StateError::NotFound)
        } else {
            Ok(s.remove(m))
        },
        RollbackVal::RemoveKeyValue(m, i) => if !s.contains_key(m) {
            Err(StateError::NotFound)
        } else if i < 0 || i >= s[m].len() {
            Err(StateError::OutOfRange)
        } else {
            Ok(s.insert(m, s[m].remove(i)))
        },
        RollbackVal::UpdateKeyValue(m, i, k, v) => if !s.contains_key(m) {
            Err(StateError::NotFound)
        } else if i < 0 || i >= s[m].len() {
            Err(StateError::OutOfRange)
        } else {
            Ok(s.insert(m, s[m].update(i, (k, v))))
        },
        RollbackVal::InsertKeyValue(m, i, k, v) => if !s.contains_key(m) {
            Err(StateError::NotFound)
        } else if i < 0 || i > s[m].len() {
            Err(StateError::OutOfRange)
        } else {
            Ok(s.insert(m, s[m].insert(i, (k, v))))
        },
        RollbackVal::RestoreMapping(m, leaves) => if s.contains_key(m) {
            Err(StateError::AlreadyExists)
        } else {
            Ok(s.insert(m, leaves))
        },
    }
}

/// What applying a whole journal does: the entries in order, each against
/// the state the one before it left, with the inverses collected in the
/// journal's order; or the error of the first refused entry.
pub open spec fn apply_ops(s: StoreModel, ops: Seq<FinalizeOperation>) -> Result<
    (StoreModel, Seq<RollbackVal>),
    StateError,
>
    decreases ops.len(),
{
    if ops.len() == 0 {
        Ok((s, Seq::empty()))
    } else {
        match apply_op(s, ops[0]) {
            Err(e) => Err(e),
            Ok((s2, rb)) => match apply_ops(s2, ops.drop_first()) {
                Err(e) => Err(e),
                Ok((s3, rbs)) => Ok((s3, seq![rb] + rbs)),
            },
        }
    }
}

/// What applying a journal's inverses does: strict reverse order (last
/// inverse first), each against the state the one before it left.
pub open spec fn rollback_ops(s: StoreModel, rbs: Seq<RollbackVal>) -> Result<
    StoreModel,
    StateError,
>
    decreases rbs.len(),
{
    if rbs.len() == 0 {
        Ok(s)
    } else {
        match apply_rollback(s, rbs.last()) {
            Err(e) => Err(e),
            Ok(s2) => rollback_ops(s2, rbs.drop_last()),
        }
    }
}

/// One step inverts exactly: applying a journal entry and then the inverse
/// it produced restores the precise prior store state.
pub proof fn lemma_apply_then_rollback(s: StoreModel, op: FinalizeOperation)
    requires
        apply_op(s, op) is Ok,
    ensures
        ({
            let (s2, rb) = apply_op(s, op)->Ok_0;
            apply_rollback(s2, rb) == Ok::<StoreModel, StateError>(s)
        }),
{
    let (s2, rb) = apply_op(s, op)->Ok_0;
    match op {
        FinalizeOperation::InitializeMapping(m) => {
            assert(s2.remove(m) =~= s);
        },
        FinalizeOperation::InsertKeyValue(m, k, v) => {
            assert(s2[m].remove(s[m].len() as int) =~= s[m]);
            assert(s2.insert(m, s[m]) =~= s);
        },
        FinalizeOperation::UpdateKeyValue(m, i, k, v) => {
            assert(s2[m].update(i as int, (s[m][i as int].0, s[m][i as int].1)) =~= s[m]);
            assert(s2.insert(m, s[m]) =~= s);
        },
        FinalizeOperation::RemoveKeyValue(m, i) => {
            assert(s2[m].insert(i as int, (s[m][i as int].0, s[m][i as int].1)) =~= s[m]);
            assert(s2.insert(m, s[m]) =~= s);
        },
        FinalizeOperation::RemoveMapping(m) => {
            assert(s2.insert(m, s[m]) =~= s);
        },
    }
}

/// Splitting a rollback sequence: the later part runs first, and the
/// earlier part runs against whatever state it leaves.
proof fn lemma_rollback_ops_concat(s: StoreModel, pre: Seq<RollbackVal>, post: Seq<RollbackVal>)
    ensures
        rollback_ops(s, pre + post) == match rollback_ops(s, post) {
            Ok(u) => rollback_ops(u, pre),
            Err(e) => Err::<StoreModel, StateError>(e),
        },
    decreases post.len(),
{
    if post.len() == 0 {
        assert(pre + post =~= pre);
    } else {
        let whole = pre + post;
        assert(whole.last() == post.last());
        assert(whole.drop_last() =~= pre + post.drop_last());
        match apply_rollback(s, post.last()) {
            Err(_) => {},
            Ok(s2) => {
                lemma_rollback_ops_concat(s2, pre, post.drop_last());
            },
        }
    }
}

/// Rollback identity: a successfully applied journal, undone by its
/// collected inverses in strict reverse order, restores the exact prior
/// store state — the same mappings, leaves and index layout.
pub proof fn lemma_journal_rollback(s: StoreModel, ops: Seq<FinalizeOperation>)
    requires
        apply_ops(s, ops) is Ok,
    ensures
        ({
            let (s_end, rbs) = apply_ops(s, ops)->Ok_0;
            rollback_ops(s_end, rbs) == Ok::<StoreModel, StateError>(s)
        }),
    decreases ops.len(),
{
    if ops.len() == 0 {
    } else {
        let (s2, rb) = apply_op(s, ops[0])->Ok_0;
        let (s_end, rbs) = apply_ops(s2, ops.drop_first())->Ok_0;
        lemma_journal_rollback(s2, ops.drop_first());
        lemma_rollback_ops_concat(s_end, seq![rb], rbs);
        lemma_apply_then_rollback(s, ops[0]);
        assert(seq![rb].drop_last() =~= Seq::<RollbackVal>::empty());
        assert(seq![rb].last() == rb);
        assert(apply_ops(s, ops)->Ok_0.0 == s_end);
        assert(apply_ops(s, ops)->Ok_0.1 == seq![rb] + rbs);
        assert(rollback_ops(s_end, rbs) == Ok::<StoreModel, StateError>(s2));
        assert(apply_rollback(s2, rb) == Ok::<StoreModel, StateError>(s));
        assert(rollback_ops(s, Seq::<RollbackVal>::empty()) == Ok::<StoreModel, StateError>(s));
        assert(rollback_ops(s2, seq![rb]) == Ok::<StoreModel, StateError>(s));
        assert(rollback_ops(s_end, seq![rb] + rbs) == Ok::<StoreModel, StateError>(s));
    }
}

/// Insert/remove symmetry: removing a freshly inserted leaf at the index
/// the insert assigned leaves the mapping exactly as it stood before the
/// insert.
pub proof fn lemma_insert_remove_symmetry(
    s: StoreModel,
    m: FieldId,
    k: FieldId,
    v: FieldId,
    i: u64,
)
    requires
        apply_op(s, FinalizeOperation::InsertKeyValue(m, k, v)) is Ok,
        i as int == s[m].len(),
    ensures
        ({
            let (s2, rb) = apply_op(s, FinalizeOperation::InsertKeyValue(m, k, v))->Ok_0;
            &&& rb == RollbackVal::RemoveKeyValue(m, i as int)
            &&& apply_op(s2, FinalizeOperation::RemoveKeyValue(m, i)) is Ok
            &&& apply_op(s2, FinalizeOperation::RemoveKeyValue(m, i))->Ok_0.0 == s
        }),
{
    let (s2, rb) = apply_op(s, FinalizeOperation::InsertKeyValue(m, k, v))->Ok_0;
    assert(s2[m].remove(i as int) =~= s[m]);
    assert(s2.insert(m, s[m]) =~= s);
}

/// Duplicate guard, mappings: initializing the same mapping twice in
/// sequence fails the second time because the mapping already exists.
pub proof fn lemma_initialize_twice(s: StoreModel, m: FieldId)
    requires
        apply_op(s, FinalizeOperation::InitializeMapping(m)) is Ok,
    ensures
        apply_op(
            apply_op(s, FinalizeOperation::InitializeMapping(m))->Ok_0.0,
            FinalizeOperation::InitializeMapping(m),
        ) == Err::<(StoreModel, RollbackVal), StateError>(StateError::AlreadyExists),
{
}

/// Duplicate guard, keys: inserting a key twice in sequence fails the
/// second time because the key is already present, whatever value comes
/// with it.
pub proof fn lemma_insert_duplicate_key(
    s: StoreModel,
    m: FieldId,
    k: FieldId,
    v: FieldId,
    v2: FieldId,
)
    requires
        apply_op(s, FinalizeOperation::InsertKeyValue(m, k, v)) is Ok,
    ensures
        apply_op(
            apply_op(s, FinalizeOperation::InsertKeyValue(m, k, v))->Ok_0.0,
            FinalizeOperation::InsertKeyValue(m, k, v2),
        ) == Err::<(StoreModel, RollbackVal), StateError>(StateError::AlreadyExists),
{
    let s2 = apply_op(s, FinalizeOperation::InsertKeyValue(m, k, v))->Ok_0.0;
    assert(s2[m][s[m].len() as int].0 == k);
    assert(has_key(s2[m], k));
}

/// The model of a mapping vector: each entry's name to its leaves; a
/// later entry with the same name would win, but a well-formed store never
/// holds two entries with one name.
spec fn store_model(s: Seq<(FieldId, Vec<(FieldId, FieldId)>)>) -> StoreModel
    decreases s.len(),
{
    if s.len() == 0 {
        Map::empty()
    } else {
        store_model(s.drop_last()).insert(s.last().0, s.last().1@)
    }
}

/// A name is in the model exactly when some entry carries it.
proof fn lemma_store_model_contains(s: Seq<(FieldId, Vec<(FieldId, FieldId)>)>, m: FieldId)
    ensures
        store_model(s).contains_key(m) <==> exists|i: int| 0 <= i < s.len() && s[i].0 == m,
    decreases s.len(),
{
    if s.len() > 0 {
        lemma_store_model_contains(s.drop_last(), m);
        let d = s.drop_last();
        if s.last().0 == m {
            assert(s[s.len() - 1].0 == m);
        } else {
            if store_model(s).contains_key(m) {
                let i = choose|i: int| 0 <= i < d.len() && d[i].0 == m;
                assert(s[i].0 == m);
            }
            if exists|i: int| 0 <= i < s.len() && s[i].0 == m {
                let i = choose|i: int| 0 <= i < s.len() && s[i].0 == m;
                assert(d[i].0 == m);
            }
        }
    }
}

/// An entry whose name no later entry repeats gives the model's value for
/// that name.
proof fn lemma_store_model_value(s: Seq<(FieldId, Vec<(FieldId, FieldId)>)>, i: int)
    requires
        0 <= i < s.len(),
        forall|j: int| i < j < s.len() ==> (#[trigger] s[j]).0 != s[i].0,
    ensures
        store_model(s).contains_key(s[i].0),
        store_model(s)[s[i].0] == s[i].1@,
    decreases s.len(),
{
    if i == s.len() - 1 {
    } else {
        let d = s.drop_last();
        lemma_store_model_value(d, i);
        assert(s.last().0 != s[i].0);
    }
}

/// Appending a fresh entry inserts its name into the model.
proof fn lemma_store_model_push(
    s: Seq<(FieldId, Vec<(FieldId, FieldId)>)>,
    entry: (FieldId, Vec<(FieldId, FieldId)>),
)
    ensures
        store_model(s.push(entry)) == store_model(s).insert(entry.0, entry.1@),
{
    assert(s.push(entry).drop_last() =~= s);
    assert(s.push(entry).last() == entry);
}

/// Replacing the entry that governs a name replaces the model's value for
/// that name.
proof fn lemma_store_model_update(
    s: Seq<(FieldId, Vec<(FieldId, FieldId)>)>,
    i: int,
    entry: (FieldId, Vec<(FieldId, FieldId)>),
)
    requires
        0 <= i < s.len(),
        entry.0 == s[i].0,
        forall|j: int| i < j < s.len() ==> (#[trigger] s[j]).0 != s[i].0,
    ensures
        store_model(s.update(i, entry)) == store_model(s).insert(entry.0, entry.1@),
    decreases s.len(),
{
    let t = s.update(i, entry);
    if i == s.len() - 1 {
        assert(t.drop_last() =~= s.drop_last());
        assert(t.last() == entry);
        assert(store_model(s.drop_last()).insert(entry.0, entry.1@) =~= store_model(s).insert(
            entry.0,
            entry.1@,
        ));
    } else {
        let d = s.drop_last();
        assert(t.drop_last() =~= d.update(i, entry));
        assert(t.last() == s.last());
        assert(d[i] == s[i]);
        lemma_store_model_update(d, i, entry);
        assert(s.last().0 != entry.0);
        assert(store_model(d).insert(entry.0, entry.1@).insert(s.last().0, s.last().1@)
            =~= store_model(d).insert(s.last().0, s.last().1@).insert(entry.0, entry.1@));
    }
}

/// Removing the entry of a name no other entry repeats removes that name
/// from the model.
proof fn lemma_store_model_remove_at(s: Seq<(FieldId, Vec<(FieldId, FieldId)>)>, i: int)
    requires
        0 <= i < s.len(),
        forall|a: int, b: int|
            0 <= a < b < s.len() ==> (#[trigger] s[a]).0 != (#[trigger] s[b]).0,
    ensures
        store_model(s.remove(i)) == store_model(s).remove(s[i].0),
    decreases s.len(),
{
    let t = s.remove(i);
    let m = s[i].0;
    if i == s.len() - 1 {
        assert(t =~= s.drop_last());
        lemma_store_model_contains(s.drop_last(), m);
        assert(forall|j: int|
            0 <= j < s.drop_last().len() ==> (#[trigger] s.drop_last()[j]).0 != m);
        assert(!store_model(s.drop_last()).contains_key(m));
        assert(store_model(s).remove(m) =~= store_model(s.drop_last()));
    } else {
        let d = s.drop_last();
        assert(t.drop_last() =~= d.remove(i));
        assert(t.last() == s.last());
        assert(d[i] == s[i]);
        lemma_store_model_remove_at(d, i);
        assert(s.last().0 != m);
        assert(store_model(d).remove(m).insert(s.last().0, s.last().1@) =~= store_model(d).insert(
            s.last().0,
            s.last().1@,
        ).remove(m));
    }
}

/// Splitting a journal: the earlier part runs first, the later part runs
/// against whatever state it leaves, and the inverses concatenate in
/// journal order.
proof fn lemma_apply_ops_concat(
    s: StoreModel,
    a: Seq<FinalizeOperation>,
    b: Seq<FinalizeOperation>,
)
    ensures
        apply_ops(s, a + b) == match apply_ops(s, a) {
            Ok(p) => match apply_ops(p.0, b) {
                Ok(q) => Ok::<(StoreModel, Seq<RollbackVal>), StateError>((q.0, p.1 + q.1)),
                Err(e) => Err::<(StoreModel, Seq<RollbackVal>), StateError>(e),
            },
            Err(e) => Err::<(StoreModel, Seq<RollbackVal>), StateError>(e),
        },
    decreases a.len(),
{
    if a.len() == 0 {
        assert(a + b =~= b);
        match apply_ops(s, b) {
            Ok(q) => {
                assert(Seq::<RollbackVal>::empty() + q.1 =~= q.1);
            },
            Err(_) => {},
        }
    } else {
        assert((a + b)[0] == a[0]);
        match apply_op(s, a[0]) {
            Err(_) => {},
            Ok((s2, rb)) => {
                assert((a + b).drop_first() =~= a.drop_first() + b);
                lemma_apply_ops_concat(s2, a.drop_first(), b);
                match apply_ops(s2, a.drop_first()) {
                    Err(_) => {},
                    Ok((s3, ra)) => {
                        match apply_ops(s3, b) {
                            Err(_) => {},
                            Ok((s4, rb2)) => {
                                assert(seq![rb] + (ra + rb2) =~= (seq![rb] + ra) + rb2);
                            },
                        }
                    },
                }
            },
        }
    }
}

/// Whether some leaf of `leaves` carries the key `key`, by linear scan.
fn leaf_has_key(leaves: &Vec<(FieldId, FieldId)>, key: FieldId) -> (r: bool)
    ensures
        r == has_key(leaves@, key),
{
    let mut i: usize = 0;
    while i < leaves.len()
        invariant
            i <= leaves@.len(),
            forall|j: int| 0 <= j < i ==> (#[trigger] leaves@[j]).0 != key,
        decreases leaves@.len() - i,
    {
        if leaves[i].0.value == key.value {
            assert(leaves@[i as int].0 == key);
            return true;
        }
        i = i + 1;
    }
    false
}

/// The authenticated key-value table the journal mutates: a collection of
/// named mappings, each an ordered vector of (key ID, value ID) leaves. A
/// leaf's position in its vector is its index; removing a leaf compacts
/// the indices that follow it, and the rollback path re-seats a removed
/// leaf at its prior index, so both directions follow one policy.
pub struct MappingStore {
    mappings: Vec<(FieldId, Vec<(FieldId, FieldId)>)>,
}

impl View for MappingStore {
    type V = StoreModel;

    closed spec fn view(&self) -> StoreModel {
        store_model(self.mappings@)
    }
}

impl MappingStore {
    /// Well-formedness: no two mappings carry the same name.
    pub closed spec fn wf(&self) -> bool {
        forall|a: int, b: int|
            0 <= a < b < self.mappings@.len() ==> (#[trigger] self.mappings@[a]).0 != (
            #[trigger] self.mappings@[b]).0
    }

    /// An empty store, holding no mappings.
    pub fn new() -> (r: MappingStore)
        ensures
            r.wf(),
            r@ == StoreModel::empty(),
    {
        MappingStore { mappings: Vec::new() }
    }

    /// Whether the store holds a mapping of this name.
    pub fn contains_mapping(&self, m: FieldId) -> (r: bool)
        requires
            self.wf(),
        ensures
            r == self@.contains_key(m),
    {
        self.position_of(m).is_some()
    }

    /// Where the mapping named `m` stands in the vector, if anywhere.
    #[verifier::loop_isolation(false)]
    fn position_of(&self, m: FieldId) -> (r: Option<usize>)
        requires
            self.wf(),
        ensures
            match r {
                Option::Some(i) => ({
                    &&& i < self.mappings@.len()
                    &&& self.mappings@[i as int].0 == m
                    &&& self@.contains_key(m)
                    &&& self@[m] == self.mappings@[i as int].1@
                }),
                Option::None => !self@.contains_key(m),
            },
    {
        let mut i: usize = 0;
        while i < self.mappings.len()
            invariant
                i <= self.mappings@.len(),
                forall|j: int| 0 <= j < i ==> (#[trigger] self.mappings@[j]).0 != m,
            decreases self.mappings@.len() - i,
        {
            if self.mappings[i].0.value == m.value {
                proof {
                    assert(self.mappings@[i as int].0 == m);
                    assert(forall|j: int|
                        (i as int) < j < self.mappings@.len() ==> (#[trigger] self.mappings@[j]).0
                            != self.mappings@[i as int].0);
                    lemma_store_model_value(self.mappings@, i as int);
                }
                return Option::Some(i);
            }
            i = i + 1;
        }
        proof {
            lemma_store_model_contains(self.mappings@, m);
        }
        Option::None
    }

    /// The leaves of the mapping named `m`, in index order, if the store
    /// holds such a mapping.
    pub fn leaves_of(&self, m: FieldId) -> (r: Option<Vec<(FieldId, FieldId)>>)
        requires
            self.wf(),
        ensures
            match r {
                Option::Some(leaves) => self@.contains_key(m) && leaves@ == self@[m],
                Option::None => !self@.contains_key(m),
            },
    {
        match self.position_of(m) {
            Option::Some(j) => {
                let leaves = vstd::slice::slice_to_vec(self.mappings[j].1.as_slice());
                proof {
                    assert(leaves@ =~= self@[m]);
                }
                Option::Some(leaves)
            },
            Option::None => Option::None,
        }
    }

    /// Applies one journal entry against the store and returns the exact
    /// inverse that undoes it, precisely as [`apply_op`] describes; a
    /// refused entry leaves the store untouched and reports why.
    pub fn apply(&mut self, op: &FinalizeOperation) -> (r: Result<RollbackOperation, StateError>)
        requires
            old(self).wf(),
        ensures
            final(self).wf(),
            match r {
                Ok(rb) => apply_op(old(self)@, *op) == Ok::<(StoreModel, RollbackVal), StateError>(
                    (final(self)@, rb@),
                ),
                Err(e) => ({
                    &&& apply_op(old(self)@, *op) == Err::<(StoreModel, RollbackVal), StateError>(
                        e,
                    )
                    &&& *final(self) == *old(self)
                }),
            },
    {
        match op {
            FinalizeOperation::InitializeMapping(m) => {
                let m = *m;
                match self.position_of(m) {
                    Option::Some(_) => Err(StateError::AlreadyExists),
                    Option::None => {
                        let ghost olds = self.mappings@;
                        proof {
                            lemma_store_model_contains(olds, m);
                        }
                        self.mappings.push((m, Vec::new()));
                        proof {
                            let e = self.mappings@.last();
                            assert(self.mappings@ == olds.push(e));
                            lemma_store_model_push(olds, e);
                            assert(e.1@ =~= Seq::<(FieldId, FieldId)>::empty());
                            assert(forall|j: int|
                                0 <= j < olds.len() ==> (#[trigger] olds[j]).0 != m);
                            assert(forall|a: int, b: int|
                                0 <= a < b < self.mappings@.len() ==> (
                                #[trigger] self.mappings@[a]).0 != (
                                #[trigger] self.mappings@[b]).0);
                        }
                        Ok(RollbackOperation::RemoveMapping(m))
                    },
                }
            },
            FinalizeOperation::InsertKeyValue(m, k, v) => {
                let m = *m;
                let k = *k;
                let v = *v;
                match self.position_of(m) {
                    Option::None => Err(StateError::NotFound),
                    Option::Some(j) => {
                        if leaf_has_key(&self.mappings[j].1, k) {
                            Err(StateError::AlreadyExists)
                        } else {
                            let ghost olds = self.mappings@;
                            let index: u64 = self.mappings[j].1.len() as u64;
                            let mut entry = self.mappings.remove(j);
                            entry.1.push((k, v));
                            let ghost ge = entry;
                            self.mappings.insert(j, entry);
                            proof {
                                assert(self.mappings@ =~= olds.update(j as int, ge));
                                assert(forall|x: int|
                                    (j as int) < x < olds.len() ==> (#[trigger] olds[x]).0
                                        != olds[j as int].0);
                                lemma_store_model_update(olds, j as int, ge);
                                assert(ge.1@ =~= old(self)@[m].push((k, v)));
                                assert(self@ =~= old(self)@.insert(m, old(self)@[m].push((k, v))));
                                assert(forall|x: int|
                                    0 <= x < self.mappings@.len() ==> (
                                    #[trigger] self.mappings@[x]).0 == olds[x].0);
                                assert(forall|a: int, b: int|
                                    0 <= a < b < self.mappings@.len() ==> (
                                    #[trigger] self.mappings@[a]).0 != (
                                    #[trigger] self.mappings@[b]).0);
                            }
                            Ok(RollbackOperation::RemoveKeyValue(m, index))
                        }
                    },
                }
            },
            FinalizeOperation::UpdateKeyValue(m, i, k, v) => {
                let m = *m;
                let i = *i;
                let k = *k;
                let v = *v;
                match self.position_of(m) {
                    Option::None => Err(StateError::NotFound),
                    Option::Some(j) => {
                        if i >= self.mappings[j].1.len() as u64 {
                            Err(StateError::OutOfRange)
                        } else {
                            let ghost olds = self.mappings@;
                            let iu = i as usize;
                            let mut entry = self.mappings.remove(j);
                            let prior = entry.1[iu];
                            entry.1.set(iu, (k, v));
                            let ghost ge = entry;
                            self.mappings.insert(j, entry);
                            proof {
                                assert(self.mappings@ =~= olds.update(j as int, ge));
                                assert(forall|x: int|
                                    (j as int) < x < olds.len() ==> (#[trigger] olds[x]).0
                                        != olds[j as int].0);
                                lemma_store_model_update(olds, j as int, ge);
                                assert(ge.1@ =~= old(self)@[m].update(i as int, (k, v)));
                                assert(self@ =~= old(self)@.insert(
                                    m,
                                    old(self)@[m].update(i as int, (k, v)),
                                ));
                                assert(forall|x: int|
                                    0 <= x < self.mappings@.len() ==> (
                                    #[trigger] self.mappings@[x]).0 == olds[x].0);
                                assert(forall|a: int, b: int|
                                    0 <= a < b < self.mappings@.len() ==> (
                                    #[trigger] self.mappings@[a]).0 != (
                                    #[trigger] self.mappings@[b]).0);
                            }
                            Ok(RollbackOperation::UpdateKeyValue(m, i, prior.0, prior.1))
                        }
                    },
                }
            },
            FinalizeOperation::RemoveKeyValue(m, i) => {
                let m = *m;
                let i = *i;
                match self.position_of(m) {
                    Option::None => Err(StateError::NotFound),
                    Option::Some(j) => {
                        if i >= self.mappings[j].1.len() as u64 {
                            Err(StateError::OutOfRange)
                        } else {
                            let ghost olds = self.mappings@;
                            let iu = i as usize;
                            let mut entry = self.mappings.remove(j);
                            let prior = entry.1.remove(iu);
                            let ghost ge = entry;
                            self.mappings.insert(j, entry);
                            proof {
                                assert(self.mappings@ =~= olds.update(j as int, ge));
                                assert(forall|x: int|
                                    (j as int) < x < olds.len() ==> (#[trigger] olds[x]).0
                                        != olds[j as int].0);
                                lemma_store_model_update(olds, j as int, ge);
                                assert(ge.1@ =~= old(self)@[m].remove(i as int));
                                assert(self@ =~= old(self)@.insert(
                                    m,
                                    old(self)@[m].remove(i as int),
                                ));
                                assert(forall|x: int|
                                    0 <= x < self.mappings@.len() ==> (
                                    #[trigger] self.mappings@[x]).0 == olds[x].0);
                                assert(forall|a: int, b: int|
                                    0 <= a < b < self.mappings@.len() ==> (
                                    #[trigger] self.mappings@[a]).0 != (
                                    #[trigger] self.mappings@[b]).0);
                            }
                            Ok(RollbackOperation::InsertKeyValue(m, i, prior.0, prior.1))
                        }
                    },
                }
            },
            FinalizeOperation::RemoveMapping(m) => {
                let m = *m;
                match self.position_of(m) {
                    Option::None => Err(StateError::NotFound),
                    Option::Some(j) => {
                        let ghost olds = self.mappings@;
                        let entry = self.mappings.remove(j);
                        proof {
                            lemma_store_model_remove_at(olds, j as int);
                            assert(self@ =~= old(self)@.remove(m));
                            assert(forall|a: int, b: int|
                                0 <= a < b < self.mappings@.len() ==> (
                                #[trigger] self.mappings@[a]).0 != (
                                #[trigger] self.mappings@[b]).0);
                        }
                        Ok(RollbackOperation::RestoreMapping(m, entry.1))
                    },
                }
            },
        }
    }

    /// Applies one rollback entry against the store, precisely as
    /// [`apply_rollback`] describes; a refused entry leaves the store
    /// untouched and reports why.
    pub fn rollback(&mut self, rb: &RollbackOperation) -> (r: Result<(), StateError>)
        requires
            old(self).wf(),
        ensures
            final(self).wf(),
            match r {
                Ok(_) => apply_rollback(old(self)@, rb@) == Ok::<StoreModel, StateError>(
                    final(self)@,
                ),
                Err(e) => ({
                    &&& apply_rollback(old(self)@, rb@) == Err::<StoreModel, StateError>(e)
                    &&& *final(self) == *old(self)
                }),
            },
    {
        match rb {
            RollbackOperation::RemoveMapping(m) => {
                let m = *m;
                match self.position_of(m) {
                    Option::None => Err(StateError::NotFound),
                    Option::Some(j) => {
                        let ghost olds = self.mappings@;
                        let entry = self.mappings.remove(j);
                        proof {
                            lemma_store_model_remove_at(olds, j as int);
                            assert(self@ =~= old(self)@.remove(m));
                            assert(forall|a: int, b: int|
                                0 <= a < b < self.mappings@.len() ==> (
                                #[trigger] self.mappings@[a]).0 != (
                                #[trigger] self.mappings@[b]).0);
                        }
                        Ok(())
                    },
                }
            },
            RollbackOperation::RemoveKeyValue(m, i) => {
                let m = *m;
                let i = *i;
                match self.position_of(m) {
                    Option::None => Err(StateError::NotFound),
                    Option::Some(j) => {
                        if i >= self.mappings[j].1.len() as u64 {
                            Err(StateError::OutOfRange)
                        } else {
                            let ghost olds = self.mappings@;
                            let iu = i as usize;
                            let mut entry = self.mappings.remove(j);
                            entry.1.remove(iu);
                            let ghost ge = entry;
                            self.mappings.insert(j, entry);
                            proof {
                                assert(self.mappings@ =~= olds.update(j as int, ge));
                                assert(forall|x: int|
                                    (j as int) < x < olds.len() ==> (#[trigger] olds[x]).0
                                        != olds[j as int].0);
                                lemma_store_model_update(olds, j as int, ge);
                                assert(ge.1@ =~= old(self)@[m].remove(i as int));
                                assert(self@ =~= old(self)@.insert(
                                    m,
                                    old(self)@[m].remove(i as int),
                                ));
                                assert(forall|x: int|
                                    0 <= x < self.mappings@.len() ==> (
                                    #[trigger] self.mappings@[x]).0 == olds[x].0);
                                assert(forall|a: int, b: int|
                                    0 <= a < b < self.mappings@.len() ==> (
                                    #[trigger] self.mappings@[a]).0 != (
                                    #[trigger] self.mappings@[b]).0);
                            }
                            Ok(())
                        }
                    },
                }
            },
            RollbackOperation::UpdateKeyValue(m, i, k, v) => {
                let m = *m;
                let i = *i;
                let k = *k;
                let v = *v;
                match self.position_of(m) {
                    Option::None => Err(StateError::NotFound),
                    Option::Some(j) => {
                        if i >= self.mappings[j].1.len() as u64 {
                            Err(StateError::OutOfRange)
                        } else {
                            let ghost olds = self.mappings@;
                            let iu = i as usize;
                            let mut entry = self.mappings.remove(j);
                            entry.1.set(iu, (k, v));
                            let ghost ge = entry;
                            self.mappings.insert(j, entry);
                            proof {
                                assert(self.mappings@ =~= olds.update(j as int, ge));
                                assert(forall|x: int|
                                    (j as int) < x < olds.len() ==> (#[trigger] olds[x]).0
                                        != olds[j as int].0);
                                lemma_store_model_update(olds, j as int, ge);
                                assert(ge.1@ =~= old(self)@[m].update(i as int, (k, v)));
                                assert(self@ =~= old(self)@.insert(
                                    m,
                                    old(self)@[m].update(i as int, (k, v)),
                                ));
                                assert(forall|x: int|
                                    0 <= x < self.mappings@.len() ==> (
                                    #[trigger] self.mappings@[x]).0 == olds[x].0);
                                assert(forall|a: int, b: int|
                                    0 <= a < b < self.mappings@.len() ==> (
                                    #[trigger] self.mappings@[a]).0 != (
                                    #[trigger] self.mappings@[b]).0);
                            }
                            Ok(())
                        }
                    },
                }
            },
            RollbackOperation::InsertKeyValue(m, i, k, v) => {
                let m = *m;
                let i = *i;
                let k = *k;
                let v = *v;
                match self.position_of(m) {
                    Option::None => Err(StateError::NotFound),
                    Option::Some(j) => {
                        if i > self.mappings[j].1.len() as u64 {
                            Err(StateError::OutOfRange)
                        } else {
                            let ghost olds = self.mappings@;
                            let iu = i as usize;
                            let mut entry = self.mappings.remove(j);
                            entry.1.insert(iu, (k, v));
                            let ghost ge = entry;
                            self.mappings.insert(j, entry);
                            proof {
                                assert(self.mappings@ =~= olds.update(j as int, ge));
                                assert(forall|x: int|
                                    (j as int) < x < olds.len() ==> (#[trigger] olds[x]).0
                                        != olds[j as int].0);
                                lemma_store_model_update(olds, j as int, ge);
                                assert(ge.1@ =~= old(self)@[m].insert(i as int, (k, v)));
                                assert(self@ =~= old(self)@.insert(
                                    m,
                                    old(self)@[m].insert(i as int, (k, v)),
                                ));
                                assert(forall|x: int|
                                    0 <= x < self.mappings@.len() ==> (
                                    #[trigger] self.mappings@[x]).0 == olds[x].0);
                                assert(forall|a: int, b: int|
                                    0 <= a < b < self.mappings@.len() ==> (
                                    #[trigger] self.mappings@[a]).0 != (
                                    #[trigger] self.mappings@[b]).0);
                            }
                            Ok(())
                        }
                    },
                }
            },
            RollbackOperation::RestoreMapping(m, leaves) => {
                let m = *m;
                match self.position_of(m) {
                    Option::Some(_) => Err(StateError::AlreadyExists),
                    Option::None => {
                        let ghost olds = self.mappings@;
                        proof {
                            lemma_store_model_contains(olds, m);
                        }
                        let snapshot = vstd::slice::slice_to_vec(leaves.as_slice());
                        self.mappings.push((m, snapshot));
                        proof {
                            let e = self.mappings@.last();
                            assert(self.mappings@ == olds.push(e));
                            lemma_store_model_push(olds, e);
                            assert(e.1@ =~= leaves@);
                            assert(self@ =~= old(self)@.insert(m, leaves@));
                            assert(forall|j: int|
                                0 <= j < olds.len() ==> (#[trigger] olds[j]).0 != m);
                            assert(forall|a: int, b: int|
                                0 <= a < b < self.mappings@.len() ==> (
                                #[trigger] self.mappings@[a]).0 != (
                                #[trigger] self.mappings@[b]).0);
                        }
                        Ok(())
                    },
                }
            },
        }
    }

    /// Applies a whole journal in order, atomically for the block: on
    /// success the collected inverses come back in journal order; on the
    /// first refused entry, every entry already applied is undone in
    /// strict reverse order, the store stands exactly as before the call,
    /// and the refused entry's error comes back.
    #[verifier::loop_isolation(false)]
    pub fn apply_journal(&mut self, ops: &Vec<FinalizeOperation>) -> (r: Result<
        Vec<RollbackOperation>,
        StateError,
    >)
        requires
            old(self).wf(),
        ensures
            final(self).wf(),
            match r {
                Ok(rbs) => apply_ops(old(self)@, ops@) == Ok::<
                    (StoreModel, Seq<RollbackVal>),
                    StateError,
                >((final(self)@, rollback_views(rbs@))),
                Err(e) => ({
                    &&& apply_ops(old(self)@, ops@) == Err::<
                        (StoreModel, Seq<RollbackVal>),
                        StateError,
                    >(e)
                    &&& final(self)@ == old(self)@
                }),
            },
    {
        let ghost start = self@;
        let mut rbs: Vec<RollbackOperation> = Vec::new();
        let mut i: usize = 0;
        proof {
            assert(ops@.take(0) =~= Seq::<FinalizeOperation>::empty());
            assert(rollback_views(rbs@) =~= Seq::<RollbackVal>::empty());
        }
        while i < ops.len()
            invariant
                i <= ops@.len(),
                self.wf(),
                apply_ops(start, ops@.take(i as int)) == Ok::<
                    (StoreModel, Seq<RollbackVal>),
                    StateError,
                >((self@, rollback_views(rbs@))),
            decreases ops@.len() - i,
        {
            let ghost pre = self@;
            let ghost prerbs = rbs@;
            let op = ops[i];
            let step = self.apply(&op);
            match step {
                Ok(rb) => {
                    proof {
                        assert(ops@.take(i as int + 1) =~= ops@.take(i as int) + seq![
                            ops@[i as int],
                        ]);
                        lemma_apply_ops_concat(start, ops@.take(i as int), seq![ops@[i as int]]);
                        assert(seq![ops@[i as int]][0] == ops@[i as int]);
                        assert(seq![ops@[i as int]].drop_first()
                            =~= Seq::<FinalizeOperation>::empty());
                        assert(apply_ops(self@, Seq::<FinalizeOperation>::empty()) == Ok::<
                            (StoreModel, Seq<RollbackVal>),
                            StateError,
                        >((self@, Seq::<RollbackVal>::empty())));
                        assert(seq![rb@] + Seq::<RollbackVal>::empty() =~= seq![rb@]);
                        assert(apply_ops(pre, seq![ops@[i as int]]) == Ok::<
                            (StoreModel, Seq<RollbackVal>),
                            StateError,
                        >((self@, seq![rb@])));
                    }
                    rbs.push(rb);
                    proof {
                        assert(rollback_views(rbs@) =~= rollback_views(prerbs) + seq![rb@]);
                    }
                    i = i + 1;
                },
                Err(e) => {
                    proof {
                        assert(ops@ =~= ops@.take(i as int) + ops@.skip(i as int));
                        lemma_apply_ops_concat(start, ops@.take(i as int), ops@.skip(i as int));
                        assert(ops@.skip(i as int)[0] == ops@[i as int]);
                        assert(apply_op(pre, ops@[i as int]) == Err::<
                            (StoreModel, RollbackVal),
                            StateError,
                        >(e));
                        assert(apply_ops(start, ops@) == Err::<
                            (StoreModel, Seq<RollbackVal>),
                            StateError,
                        >(e));
                        lemma_journal_rollback(start, ops@.take(i as int));
                    }
                    while rbs.len() > 0
                        invariant
                            self.wf(),
                            rollback_ops(self@, rollback_views(rbs@)) == Ok::<
                                StoreModel,
                                StateError,
                            >(start),
                        decreases rbs@.len(),
                    {
                        let ghost prerbs2 = rbs@;
                        let rb = match rbs.pop() {
                            Option::Some(x) => x,
                            Option::None => {
                                proof {
                                    assert(false);
                                }
                                return Err(e);
                            },
                        };
                        proof {
                            assert(rollback_views(prerbs2).last() == rb@);
                            assert(rollback_views(rbs@) =~= rollback_views(prerbs2).drop_last());
                        }
                        match self.rollback(&rb) {
                            Ok(_) => {},
                            Err(_) => {
                                proof {
                                    assert(false);
                                }
                            },
                        }
                    }
                    proof {
                        assert(rollback_views(rbs@) =~= Seq::<RollbackVal>::empty());
                    }
                    return Err(e);
                },
            }
        }
        proof {
            assert(ops@.take(ops@.len() as int) =~= ops@);
        }
        Ok(rbs)
    }

    /// Undoes a block's collected inverses in strict reverse order (last
    /// inverse first), exactly as [`rollback_ops`] describes.
    #[verifier::loop_isolation(false)]
    pub fn rollback_journal(&mut self, rbs: &Vec<RollbackOperation>) -> (r: Result<
        (),
        StateError,
    >)
        requires
            old(self).wf(),
        ensures
            final(self).wf(),
            match r {
                Ok(_) => rollback_ops(old(self)@, rollback_views(rbs@)) == Ok::<
                    StoreModel,
                    StateError,
                >(final(self)@),
                Err(e) => rollback_ops(old(self)@, rollback_views(rbs@)) == Err::<
                    StoreModel,
                    StateError,
                >(e),
            },
    {
        let ghost start = self@;
        let ghost views = rollback_views(rbs@);
        let mut j: usize = rbs.len();
        proof {
            assert(views.take(rbs@.len() as int) =~= views);
        }
        while j > 0
            invariant
                j <= rbs@.len(),
                self.wf(),
                rollback_ops(start, views) == rollback_ops(self@, views.take(j as int)),
            decreases j,
        {
            let rb = &rbs[j - 1];
            proof {
                assert(views.take(j as int).last() == views[j as int - 1]);
                assert(views[j as int - 1] == rb@);
                assert(views.take(j as int).drop_last() =~= views.take(j as int - 1));
            }
            match self.rollback(rb) {
                Ok(_) => {},
                Err(e) => {
                    return Err(e);
                },
            }
            j = j - 1;
        }
        proof {
            assert(views.take(0) =~= Seq::<RollbackVal>::empty());
        }
        Ok(())
    }
}

} // verus!
