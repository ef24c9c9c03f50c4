use crate::access::{Access, AccessVal};
use crate::errors::StateError;
use crate::identifier::Identifier;
use vstd::prelude::*;

verus! {

/// A structured on-chain value: an opaque literal leaf, a struct of named
/// members, or a list of elements. Each child is exclusively owned by its
/// parent, so a tree has no cycles.
#[derive(Debug, PartialEq, Eq)]
pub enum Plaintext {
    /// An opaque leaf value; never traversed further.
    Literal(u64),
    /// Named members in a fixed order; keys are unique.
    Struct(Vec<(Identifier, Plaintext)>),
    /// An ordered sequence of elements; indices are 0-based.
    List(Vec<Plaintext>),
}

/// The mathematical value of a structured value: the same tree over
/// sequences, with member names as their bytes.
#[verifier::ext_equal]
pub enum PlainValue {
    Literal(u64),
    Struct(Seq<(Seq<u8>, PlainValue)>),
    List(Seq<PlainValue>),
}

/// The mathematical value of a plaintext tree.
pub open spec fn value_of(p: Plaintext) -> PlainValue
    decreases p,
{
    match p {
        Plaintext::Literal(value) => PlainValue::Literal(value),
        Plaintext::Struct(members) => PlainValue::Struct(values_of_members(members@)),
        Plaintext::List(items) => PlainValue::List(values_of_items(items@)),
    }
}

/// The mathematical values of a struct's members, in order.
pub open spec fn values_of_members(s: Seq<(Identifier, Plaintext)>) -> Seq<(Seq<u8>, PlainValue)>
    decreases s,
{
    if s.len() == 0 {
        Seq::empty()
    } else {
        values_of_members(s.drop_last()).push((s.last().0@, value_of(s.last().1)))
    }
}

/// The mathematical values of a list's elements, in order.
pub open spec fn values_of_items(s: Seq<Plaintext>) -> Seq<PlainValue>
    decreases s,
{
    if s.len() == 0 {
        Seq::empty()
    } else {
        values_of_items(s.drop_last()).push(value_of(s.last()))
    }
}

/// The member values stand at the same positions as the members.
pub proof fn lemma_values_of_members_index(s: Seq<(Identifier, Plaintext)>)
    ensures
        values_of_members(s).len() == s.len(),
        forall|i: int|
            0 <= i < s.len() ==> #[trigger] values_of_members(s)[i] == (
                s[i].0@,
                value_of(s[i].1),
            ),
    decreases s.len(),
{
    if s.len() > 0 {
        lemma_values_of_members_index(s.drop_last());
    }
}

/// The element values stand at the same positions as the elements.
pub proof fn lemma_values_of_items_index(s: Seq<Plaintext>)
    ensures
        values_of_items(s).len() == s.len(),
        forall|i: int|
            0 <= i < s.len() ==> #[trigger] values_of_items(s)[i] == value_of(s[i]),
    decreases s.len(),
{
    if s.len() > 0 {
        lemma_values_of_items_index(s.drop_last());
    }
}

impl View for Plaintext {
    type V = PlainValue;

    open spec fn view(&self) -> PlainValue {
        value_of(*self)
    }
}

/// The mathematical values of a path's segments, in order.
pub open spec fn path_views(s: Seq<Access>) -> Seq<AccessVal> {
    Seq::new(s.len(), |i: int| s[i]@)
}

/// Looks a member up by exact byte equality of its name; the first match
/// governs (member keys are unique in a well-formed struct).
pub open spec fn lookup_member(
    members: Seq<(Seq<u8>, PlainValue)>,
    name: Seq<u8>,
) -> Option<PlainValue>
    decreases members.len(),
{
    if members.len() == 0 {
        Option::None
    } else if members[0].0 == name {
        Option::Some(members[0].1)
    } else {
        lookup_member(members.drop_first(), name)
    }
}

/// One step of path resolution: what a single segment selects out of the
/// current value, or the exact reason the selection fails. A member access
/// suits only a struct and an index access only a list; a missing member
/// or an index beyond the list fails as absent.
pub open spec fn step_of(current: PlainValue, access: AccessVal) -> Result<PlainValue, StateError> {
    match (current, access) {
        (PlainValue::Struct(members), AccessVal::Member(name)) => match lookup_member(
            members,
            name,
        ) {
            Option::Some(child) => Ok(child),
            Option::None => Err(StateError::NotFound),
        },
        (PlainValue::List(items), AccessVal::Index(index)) => if (index as int) < items.len() {
            Ok(items[index as int])
        } else {
            Err(StateError::NotFound)
        },
        _ => Err(StateError::InvalidAccess),
    }
}

/// Resolution of a non-empty path against a container: each non-terminal
/// segment must select a further container (a literal there is a type
/// mismatch); the terminal segment's selection, of any kind, is the result.
pub open spec fn resolve(current: PlainValue, path: Seq<AccessVal>) -> Result<
    PlainValue,
    StateError,
>
    recommends
        path.len() >= 1,
    decreases path.len(),
{
    match step_of(current, path[0]) {
        Err(e) => Err(e),
        Ok(child) => if path.len() <= 1 {
            Ok(child)
        } else if child is Literal {
            Err(StateError::TypeMismatch)
        } else {
            resolve(child, path.drop_first())
        },
    }
}

/// What `find` returns: an empty path is malformed, a literal root is not
/// a container, and otherwise the path resolves step by step.
pub open spec fn find_value(root: PlainValue, path: Seq<AccessVal>) -> Result<
    PlainValue,
    StateError,
> {
    if path.len() == 0 {
        Err(StateError::MalformedPath)
    } else if root is Literal {
        Err(StateError::NotAContainer)
    } else {
        resolve(root, path)
    }
}

/// Looks a member up in a struct's member vector by exact name equality,
/// mirroring [`lookup_member`] over the members' values.
fn get_member<'a>(members: &'a Vec<(Identifier, Plaintext)>, name: &Identifier) -> (r: Option<
    &'a Plaintext,
>)
    ensures
        match r {
            Option::Some(child) => lookup_member(values_of_members(members@), name@)
                == Option::Some(child@),
            Option::None => lookup_member(values_of_members(members@), name@) is None,
        },
{
    proof {
        lemma_values_of_members_index(members@);
    }
    let ghost vm = values_of_members(members@);
    proof {
        assert(vm.skip(0) =~= vm);
    }
    let mut i: usize = 0;
    while i < members.len()
        invariant
            i <= members@.len(),
            vm == values_of_members(members@),
            vm.len() == members@.len(),
            forall|j: int|
                0 <= j < members@.len() ==> #[trigger] vm[j] == (
                    members@[j].0@,
                    value_of(members@[j].1),
                ),
            lookup_member(vm, name@) == lookup_member(vm.skip(i as int), name@),
        decreases members@.len() - i,
    {
        let entry = &members[i];
        if entry.0.eq_name(name) {
            proof {
                assert(vm.skip(i as int)[0] == vm[i as int]);
            }
            return Option::Some(&entry.1);
        }
        proof {
            assert(vm.skip(i as int)[0] == vm[i as int]);
            assert(vm.skip(i as int).drop_first() =~= vm.skip(i as int + 1));
        }
        i = i + 1;
    }
    proof {
        assert(vm.skip(i as int).len() == 0);
    }
    Option::None
}

impl Plaintext {
    /// Resolves `path` against this value and returns an owned, independent
    /// copy of the sub-value it selects, exactly as [`find_value`]
    /// describes: an empty path is malformed; a literal root is not a
    /// container; every non-terminal segment must select a further
    /// container by the matching access kind; the terminal segment's
    /// selection, of any variant, is the result.
    pub fn find(&self, path: &[Access]) -> (r: Result<Plaintext, StateError>)
        ensures
            match r {
                Ok(out) => find_value(self@, path_views(path@)) == Ok::<PlainValue, StateError>(
                    out@,
                ),
                Err(e) => find_value(self@, path_views(path@)) == Err::<PlainValue, StateError>(e),
            },
    {
        let path_len = path.len();
        if path_len == 0 {
            return Err(StateError::MalformedPath);
        }
        if let Plaintext::Literal(_) = self {
            return Err(StateError::NotAContainer);
        }
        let ghost pv = path_views(path@);
        proof {
            assert(pv.skip(0) =~= pv);
        }
        let mut current: &Plaintext = self;
        let mut i: usize = 0;
        loop
            invariant
                path_len == path@.len(),
                0 <= i < path@.len(),
                pv == path_views(path@),
                pv.len() == path@.len(),
                !(current@ is Literal),
                find_value(self@, pv) == resolve(current@, pv.skip(i as int)),
            decreases path@.len() - i,
        {
            let access = &path[i];
            proof {
                assert(pv.skip(i as int)[0] == pv[i as int]);
            }
            let child: &Plaintext = match (current, access) {
                (Plaintext::Struct(members), Access::Member(identifier)) => {
                    proof {
                        lemma_values_of_members_index(members@);
                    }
                    match get_member(members, identifier) {
                        Option::Some(child) => child,
                        Option::None => {
                            return Err(StateError::NotFound);
                        },
                    }
                },
                (Plaintext::List(items), Access::Index(index)) => {
                    proof {
                        lemma_values_of_items_index(items@);
                    }
                    if (*index as usize) < items.len() {
                        &items[*index as usize]
                    } else {
                        return Err(StateError::NotFound);
                    }
                },
                _ => {
                    return Err(StateError::InvalidAccess);
                },
            };
            proof {
                assert(step_of(current@, pv[i as int]) == Ok::<PlainValue, StateError>(child@));
            }
            if i == path_len - 1 {
                return Ok(child.duplicate());
            }
            if let Plaintext::Literal(_) = child {
                return Err(StateError::TypeMismatch);
            }
            proof {
                assert(pv.skip(i as int).drop_first() =~= pv.skip(i as int + 1));
            }
            current = child;
            i = i + 1;
        }
    }
}

/// A literal has no members or elements: a lookup rooted at one fails as
/// "not a container", whatever non-empty path is offered.
pub proof fn lemma_find_literal_root(value: u64, path: Seq<AccessVal>)
    requires
        path.len() > 0,
    ensures
        find_value(PlainValue::Literal(value), path) == Err::<PlainValue, StateError>(
            StateError::NotAContainer,
        ),
{
}

/// An empty path selects nothing: a lookup with one fails as malformed,
/// whatever the root.
pub proof fn lemma_find_empty_path(root: PlainValue)
    ensures
        find_value(root, Seq::empty()) == Err::<PlainValue, StateError>(StateError::MalformedPath),
{
}

impl Plaintext {
    /// Returns an owned, independent copy of this value, sharing nothing
    /// with the original tree.
    #[verifier::loop_isolation(false)]
    pub fn duplicate(&self) -> (r: Plaintext)
        ensures
            r@ == self@,
        decreases *self,
    {
        match self {
            Plaintext::Literal(value) => Plaintext::Literal(*value),
            Plaintext::Struct(members) => {
                let ghost whole = *self;
                let mut out: Vec<(Identifier, Plaintext)> = Vec::new();
                let mut i: usize = 0;
                while i < members.len()
                    invariant
                        whole == Plaintext::Struct(*members),
                        i <= members@.len(),
                        out@.len() == i,
                        forall|j: int|
                            0 <= j < i ==> (#[trigger] out@[j]).0@ == members@[j].0@
                                && out@[j].1@ == members@[j].1@,
                    decreases members@.len() - i,
                {
                    let entry = &members[i];
                    proof {
                        assert(decreases_to!(whole => whole->Struct_0));
                        assert(decreases_to!(*members => members@));
                        assert(decreases_to!(members@ => members@[i as int]));
                        assert(decreases_to!(members@[i as int] => members@[i as int].1));
                        assert(entry.1 == members@[i as int].1);
                        assert(decreases_to!(*self => entry.1));
                    }
                    out.push((entry.0.duplicate(), entry.1.duplicate()));
                    i = i + 1;
                }
                proof {
                    lemma_values_of_members_index(out@);
                    lemma_values_of_members_index(members@);
                    assert(values_of_members(out@) =~~= values_of_members(members@));
                }
                Plaintext::Struct(out)
            },
            Plaintext::List(items) => {
                let ghost whole = *self;
                let mut out: Vec<Plaintext> = Vec::new();
                let mut i: usize = 0;
                while i < items.len()
                    invariant
                        whole == Plaintext::List(*items),
                        i <= items@.len(),
                        out@.len() == i,
                        forall|j: int| 0 <= j < i ==> (#[trigger] out@[j])@ == items@[j]@,
                    decreases items@.len() - i,
                {
                    let entry = &items[i];
                    proof {
                        assert(decreases_to!(whole => whole->List_0));
                        assert(decreases_to!(*items => items@));
                        assert(decreases_to!(items@ => items@[i as int]));
                        assert(decreases_to!(*self => *entry));
                    }
                    out.push(entry.duplicate());
                    i = i + 1;
                }
                proof {
                    lemma_values_of_items_index(out@);
                    lemma_values_of_items_index(items@);
                    assert(values_of_items(out@) =~~= values_of_items(items@));
                }
                Plaintext::List(out)
            },
        }
    }
}

} // verus!
