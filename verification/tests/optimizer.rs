use flowscript::node::{ConditionBranch, ResolvedNode};
use flowscript::builtins::{BuiltinFunction, BuiltinOperation};
use flowscript::optimizer::{conditions_are_read, foldable, folded_literal, literal_arguments, prune_branches};
use flowscript::value::{HeavyValue, Value};
use flowscript::value::LightValue;

fn branch(condition: ResolvedNode, marker: i64) -> ConditionBranch<ResolvedNode> {
    ConditionBranch { condition: vec![condition], body: vec![ResolvedNode::Literal(LightValue::Integer(marker))] }
}

fn boolean(value: bool) -> ResolvedNode {
    ResolvedNode::Literal(LightValue::Boolean(value))
}

fn marker_of(branch: &ConditionBranch<ResolvedNode>) -> i64 {
    match branch.body[0] {
        ResolvedNode::Literal(LightValue::Integer(marker)) => marker,
        _ => panic!("no marker"),
    }
}

#[test]
fn drops_false_branches_and_those_after_a_true_one() {
    let branches = vec![
        branch(boolean(false), 1),
        branch(ResolvedNode::Variable(0, 0), 2),
        branch(boolean(true), 3),
        branch(ResolvedNode::Variable(0, 1), 4),
    ];
    let final_branch = vec![ResolvedNode::Literal(LightValue::Integer(5))];
    let (kept, final_branch) = prune_branches(branches, final_branch);
    assert_eq!(kept.iter().map(marker_of).collect::<Vec<_>>(), vec![2, 3]);
    assert!(final_branch.is_empty());
}

#[test]
fn keeps_the_final_branch_when_no_branch_is_always_taken() {
    let branches = vec![branch(boolean(false), 1), branch(ResolvedNode::Variable(0, 0), 2)];
    let final_branch = vec![ResolvedNode::Literal(LightValue::Integer(5))];
    let (kept, final_branch) = prune_branches(branches, final_branch);
    assert_eq!(kept.iter().map(marker_of).collect::<Vec<_>>(), vec![2]);
    assert_eq!(final_branch.len(), 1);
}

#[test]
fn a_condition_after_one_always_taken_is_not_read() {
    let branches = vec![
        branch(boolean(true), 1),
        ConditionBranch { condition: Vec::new(), body: vec![ResolvedNode::Literal(LightValue::Integer(2))] },
    ];
    let (kept, final_branch) = prune_branches(branches, vec![ResolvedNode::Literal(LightValue::Integer(3))]);
    assert_eq!(kept.iter().map(marker_of).collect::<Vec<_>>(), vec![1]);
    assert!(final_branch.is_empty());
}

#[test]
fn pruning_twice_prunes_nothing_more() {
    let branches = vec![
        branch(boolean(false), 1),
        branch(ResolvedNode::Variable(0, 0), 2),
        branch(boolean(true), 3),
        branch(boolean(false), 4),
    ];
    let final_branch = vec![ResolvedNode::Literal(LightValue::Integer(5))];
    let (once, once_final) = prune_branches(branches, final_branch);
    let once_markers: Vec<i64> = once.iter().map(marker_of).collect();
    let once_final_len = once_final.len();
    let (twice, twice_final) = prune_branches(once, once_final);
    assert_eq!(twice.iter().map(marker_of).collect::<Vec<_>>(), once_markers);
    assert_eq!(twice_final.len(), once_final_len);
}

#[test]
fn literal_arguments_are_read_in_order() {
    let arguments = vec![
        ResolvedNode::Literal(LightValue::Integer(2)),
        ResolvedNode::HeavyLiteral(HeavyValue::String("ab".to_string())),
        ResolvedNode::Literal(LightValue::Float(7)),
    ];
    let values = literal_arguments(&arguments).expect("all are literals");
    assert_eq!(values.len(), 3);
    assert!(matches!(values[0], Value::Integer(2)));
    assert!(matches!(&values[1], Value::String(text) if text == "ab"));
    assert!(matches!(values[2], Value::Float(7)));
}

#[test]
fn a_variable_or_a_boolean_argument_stops_folding() {
    let with_variable = vec![ResolvedNode::Literal(LightValue::Integer(2)), ResolvedNode::Variable(0, 0)];
    assert!(literal_arguments(&with_variable).is_none());
    let with_boolean = vec![boolean(true)];
    assert!(literal_arguments(&with_boolean).is_none());
}

#[test]
fn folded_values_become_literals() {
    assert!(matches!(folded_literal(Value::Boolean(false)), Some(ResolvedNode::Literal(LightValue::Boolean(false)))));
    assert!(matches!(folded_literal(Value::Integer(-3)), Some(ResolvedNode::Literal(LightValue::Integer(-3)))));
    assert!(matches!(
        folded_literal(Value::String("x".to_string())),
        Some(ResolvedNode::HeavyLiteral(HeavyValue::String(text))) if text == "x"
    ));
    assert!(folded_literal(Value::Nil).is_none());
    assert!(folded_literal(Value::Array(Vec::new())).is_none());
}

#[test]
fn an_empty_condition_is_refused_only_where_it_is_read() {
    let empty = || ConditionBranch { condition: Vec::new(), body: Vec::new() };
    assert!(!conditions_are_read(&vec![branch(boolean(false), 1), empty()]));
    assert!(conditions_are_read(&vec![branch(boolean(true), 1), empty()]));
    assert!(conditions_are_read(&vec![branch(ResolvedNode::Variable(0, 0), 1)]));
}

#[test]
fn only_arithmetic_comparison_and_casting_builtins_fold() {
    assert_eq!(foldable(BuiltinFunction::Math(BuiltinOperation::Add)), Some(BuiltinOperation::Add));
    assert_eq!(foldable(BuiltinFunction::Compare(BuiltinOperation::LowerThan)), Some(BuiltinOperation::LowerThan));
    assert_eq!(foldable(BuiltinFunction::Casting(BuiltinOperation::ToString)), Some(BuiltinOperation::ToString));
    assert_eq!(foldable(BuiltinFunction::IO(BuiltinOperation::Print)), None);
    assert_eq!(foldable(BuiltinFunction::Collection(BuiltinOperation::Push)), None);
}
