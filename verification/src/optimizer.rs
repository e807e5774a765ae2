use vstd::prelude::*;
use crate::builtins::{BuiltinFunction, BuiltinOperation};
use crate::node::{ConditionBranch, ResolvedNode};
use crate::value::{HeavyValue, LightValue, Value};
use crate::virmac::{value_model, ValueModel};

verus! {

/// What the last station of a branch's condition says for certain: a
/// boolean literal decides the branch, anything else leaves it open.
pub open spec fn decided(branch: ConditionBranch<ResolvedNode>) -> Option<bool> {
    match branch.condition@.last() {
        ResolvedNode::Literal(LightValue::Boolean(value)) => Some(value),
        _ => None,
    }
}

/// The branches that can still run, in order, and whether one of them is
/// always taken: a branch decided false is dropped, a branch decided true
/// is kept and ends the list, an open branch is kept.
pub open spec fn pruned(branches: Seq<ConditionBranch<ResolvedNode>>) -> (Seq<ConditionBranch<ResolvedNode>>, bool)
    decreases branches.len(),
{
    if branches.len() == 0 {
        (Seq::empty(), false)
    } else {
        match decided(branches[0]) {
            Some(true) => (seq![branches[0]], true),
            Some(false) => pruned(branches.drop_first()),
            None => {
                let (rest, always) = pruned(branches.drop_first());
                (seq![branches[0]] + rest, always)
            },
        }
    }
}

/// Every condition that is read ends in a station: the conditions up to
/// and including the first one decided true.
pub open spec fn conditions_read(branches: Seq<ConditionBranch<ResolvedNode>>) -> bool
    decreases branches.len(),
{
    branches.len() > 0 ==> {
        &&& branches[0].condition@.len() > 0
        &&& decided(branches[0]) != Some(true) ==> conditions_read(branches.drop_first())
    }
}

/// Pruning a condition twice prunes nothing more: the branches left are
/// left again, and a branch that is always taken is found again.
pub proof fn law_pruning_is_idempotent(branches: Seq<ConditionBranch<ResolvedNode>>)
    ensures
        pruned(pruned(branches).0) == pruned(branches),
    decreases branches.len(),
{
    if branches.len() > 0 {
        let rest = branches.drop_first();
        law_pruning_is_idempotent(rest);
        match decided(branches[0]) {
            Some(true) => {
                assert(seq![branches[0]].drop_first() =~= Seq::<ConditionBranch<ResolvedNode>>::empty());
            },
            Some(false) => {},
            None => {
                let kept = seq![branches[0]] + pruned(rest).0;
                assert(kept[0] == branches[0]);
                assert(kept.drop_first() =~= pruned(rest).0);
            },
        }
    }
}

/// Whether a branch is decided by a boolean literal, and which way.
fn decided_by_literal(branch: &ConditionBranch<ResolvedNode>) -> (decision: Option<bool>)
    requires
        branch.condition@.len() > 0,
    ensures
        decision == decided(*branch),
{
    match &branch.condition[branch.condition.len() - 1] {
        ResolvedNode::Literal(LightValue::Boolean(value)) => Some(*value),
        _ => None,
    }
}

/// Drops the branches of a condition that can never run: those decided
/// false by a literal and those after one decided true. Where a branch is
/// always taken, the final branch is dropped too. Every condition that is
/// read must end in a station.
pub fn prune_branches(branches: Vec<ConditionBranch<ResolvedNode>>, final_branch: Vec<ResolvedNode>) -> (pruned_condition: (
    Vec<ConditionBranch<ResolvedNode>>,
    Vec<ResolvedNode>,
))
    requires
        conditions_read(branches@),
    ensures
        pruned_condition.0@ == pruned(branches@).0,
        pruned_condition.1@ == (if pruned(branches@).1 { Seq::<ResolvedNode>::empty() } else { final_branch@ }),
{
    let ghost all = branches@;
    let mut rest = branches;
    let mut kept: Vec<ConditionBranch<ResolvedNode>> = Vec::new();
    let mut always = false;
    let ghost mut k: int = 0;
    proof {
        assert(all.subrange(0, all.len() as int) =~= all);
        assert(Seq::<ConditionBranch<ResolvedNode>>::empty() + pruned(all).0 =~= pruned(all).0);
    }
    while rest.len() > 0 && !always
        invariant
            0 <= k <= all.len(),
            rest@ == all.subrange(k, all.len() as int),
            !always ==> conditions_read(rest@),
            !always ==> pruned(all) == (kept@ + pruned(rest@).0, pruned(rest@).1),
            always ==> pruned(all) == (kept@, true),
        decreases rest.len(),
    {
        let ghost left = rest@;
        let branch = rest.remove(0);
        proof {
            assert(branch == all[k]);
            assert(rest@ =~= left.drop_first());
            assert(rest@ =~= all.subrange(k + 1, all.len() as int));
            k = k + 1;
        }
        let ghost before = kept@;
        match decided_by_literal(&branch) {
            Some(true) => {
                kept.push(branch);
                always = true;
            },
            Some(false) => {},
            None => {
                kept.push(branch);
                proof {
                    assert(before + (seq![left[0]] + pruned(rest@).0) =~= kept@ + pruned(rest@).0);
                }
            },
        }
    }
    proof {
        if !always {
            assert(rest@.len() == 0);
            assert(kept@ + Seq::<ConditionBranch<ResolvedNode>>::empty() =~= kept@);
        }
    }
    if always {
        (kept, Vec::new())
    } else {
        (kept, final_branch)
    }
}

/// The operation of a builtin whose calls fold at compile time once all
/// their arguments are literals: the arithmetic, comparison and casting
/// builtins; `None` for printing and the collection builtins.
pub fn foldable(function: BuiltinFunction) -> (operation: Option<BuiltinOperation>)
    ensures
        operation == match function {
            BuiltinFunction::Math(op) | BuiltinFunction::Compare(op) | BuiltinFunction::Casting(op) => Some(op),
            _ => None,
        },
{
    match function {
        BuiltinFunction::Math(op) | BuiltinFunction::Compare(op) | BuiltinFunction::Casting(op) => Some(op),
        _ => None,
    }
}

/// The value of a node that a builtin can be folded on: a float, an integer
/// or a string literal.
pub open spec fn literal_of(node: ResolvedNode) -> Option<ValueModel> {
    match node {
        ResolvedNode::Literal(LightValue::Float(bits)) => Some(ValueModel::Float(bits)),
        ResolvedNode::Literal(LightValue::Integer(integer)) => Some(ValueModel::Integer(integer)),
        ResolvedNode::HeavyLiteral(HeavyValue::String(text)) => Some(ValueModel::String(text@)),
        _ => None,
    }
}

/// The values of a builtin call's arguments, in order, where every argument
/// is a literal it can be folded on; `None` where one is not.
pub fn literal_arguments(arguments: &Vec<ResolvedNode>) -> (values: Option<Vec<Value>>)
    ensures
        values is Some <==> forall|i: int| 0 <= i < arguments@.len() ==> (#[trigger] literal_of(arguments@[i])) is Some,
        values matches Some(found) ==> found@.len() == arguments@.len() && forall|i: int|
            0 <= i < arguments@.len() ==> Some(value_model(#[trigger] found@[i])) == literal_of(arguments@[i]),
{
    let mut values: Vec<Value> = Vec::new();
    let mut i: usize = 0;
    while i < arguments.len()
        invariant
            i <= arguments@.len(),
            values@.len() == i,
            forall|k: int| 0 <= k < i ==> Some(value_model(#[trigger] values@[k])) == literal_of(arguments@[k]),
        decreases arguments@.len() - i,
    {
        let value = match &arguments[i] {
            ResolvedNode::Literal(LightValue::Float(bits)) => Value::Float(*bits),
            ResolvedNode::Literal(LightValue::Integer(integer)) => Value::Integer(*integer),
            ResolvedNode::HeavyLiteral(HeavyValue::String(text)) => Value::String(text.clone()),
            _ => {
                assert(literal_of(arguments@[i as int]) is None);
                return None;
            },
        };
        values.push(value);
        i += 1;
    }
    assert forall|k: int| 0 <= k < arguments@.len() implies (#[trigger] literal_of(arguments@[k])) is Some by {
        assert(Some(value_model(values@[k])) == literal_of(arguments@[k]));
    }
    Some(values)
}

/// The literal node a folded value becomes: a boolean, float or integer
/// literal, or a string as a heavy literal; nil and arrays have none.
pub fn folded_literal(value: Value) -> (node: Option<ResolvedNode>)
    ensures
        match value {
            Value::Boolean(b) => node == Some(ResolvedNode::Literal(LightValue::Boolean(b))),
            Value::Float(bits) => node == Some(ResolvedNode::Literal(LightValue::Float(bits))),
            Value::Integer(integer) => node == Some(ResolvedNode::Literal(LightValue::Integer(integer))),
            Value::String(text) => node == Some(ResolvedNode::HeavyLiteral(HeavyValue::String(text))),
            _ => node is None,
        },
{
    match value {
        Value::Boolean(b) => Some(ResolvedNode::Literal(LightValue::Boolean(b))),
        Value::Float(bits) => Some(ResolvedNode::Literal(LightValue::Float(bits))),
        Value::Integer(integer) => Some(ResolvedNode::Literal(LightValue::Integer(integer))),
        Value::String(text) => Some(ResolvedNode::HeavyLiteral(HeavyValue::String(text))),
        _ => None,
    }
}

/// Whether every condition that is read ends in a station, as pruning
/// needs.
pub fn conditions_are_read(branches: &Vec<ConditionBranch<ResolvedNode>>) -> (read: bool)
    ensures
        read == conditions_read(branches@),
{
    let mut i: usize = 0;
    proof {
        assert(branches@.subrange(0, branches@.len() as int) =~= branches@);
    }
    while i < branches.len()
        invariant
            i <= branches@.len(),
            conditions_read(branches@) == conditions_read(branches@.subrange(i as int, branches@.len() as int)),
        decreases branches@.len() - i,
    {
        let ghost rest = branches@.subrange(i as int, branches@.len() as int);
        proof {
            assert(rest[0] == branches@[i as int]);
            assert(rest.drop_first() =~= branches@.subrange(i + 1, branches@.len() as int));
        }
        if branches[i].condition.len() == 0 {
            return false;
        }
        if let Some(true) = decided_by_literal(&branches[i]) {
            return true;
        }
        i += 1;
    }
    proof {
        assert(branches@.subrange(i as int, branches@.len() as int).len() == 0);
    }
    true
}

} // verus!
