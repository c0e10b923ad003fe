use vertexrs::fusion::{AccessMode, ClosureShape, FailureModeKind, NodeFailureOverride, NodeItemMeta};
use vertexrs::macro_plan::{
    check_pipeline_outputs, first_occurrences, nested_outcome, node_deps, node_form,
    node_panic_action, plan_fused_chain, DepBinding, NestedAction, NodeDefError, NodeForm,
    NodePanicAction, PipelineDefError, StepInput, statement_kind, StatementKind,
};

fn s(v: &[&str]) -> Vec<String> {
    v.iter().map(|x| x.to_string()).collect()
}

fn shape(mode: AccessMode, typed: &[bool], bool_return: bool) -> Option<ClosureShape> {
    Some(ClosureShape { mode, bool_return, typed_args: typed.to_vec() })
}

fn row(name: &str, recv: &str) -> NodeItemMeta {
    NodeItemMeta {
        name: name.to_string(),
        receiver_ident: Some(recv.to_string()),
        call: shape(AccessMode::Row, &[false], false),
        failure_override: NodeFailureOverride::Propagate,
        pure: true,
    }
}

#[test]
fn first_occurrences_dedups_and_excludes() {
    let names = s(&["x", "tax", "x", "rate", "tax", "b"]);
    assert_eq!(first_occurrences(&names, &s(&["x", "b"])), s(&["tax", "rate"]));
    assert!(first_occurrences(&[], &[]).is_empty());
}

#[test]
fn node_deps_receiver_first_then_body_names() {
    // total = price.row(|x| x + tax + x * rate + total)
    let deps = node_deps("price", &s(&["x", "tax", "x", "rate", "total"]), &s(&["x"]), "total");
    assert_eq!(deps, s(&["price", "tax", "rate"]));
    // col mode leaves the receiver out of the body names
    let deps = node_deps("price", &s(&["c", "price", "limit"]), &s(&["c", "price"]), "capped");
    assert_eq!(deps, s(&["price", "limit"]));
}

#[test]
fn node_form_cases() {
    assert_eq!(node_form(&None, true), Err(NodeDefError::NotRowOrColCall));
    assert_eq!(
        node_form(&shape(AccessMode::Row, &[false], false), false),
        Err(NodeDefError::ReceiverNotName)
    );
    assert_eq!(
        node_form(&shape(AccessMode::Row, &[false], true), true),
        Ok(NodeForm::ColumnRow { bool_return: true })
    );
    assert_eq!(node_form(&shape(AccessMode::Row, &[true, true], false), true), Ok(NodeForm::FrameRow));
    assert_eq!(
        node_form(&shape(AccessMode::Row, &[false, true], false), true),
        Err(NodeDefError::UntypedArgument)
    );
    assert_eq!(node_form(&shape(AccessMode::Col, &[false], false), true), Ok(NodeForm::ColumnCol));
    assert_eq!(node_form(&shape(AccessMode::Col, &[true], false), true), Ok(NodeForm::FrameCol));
    assert_eq!(
        node_form(&shape(AccessMode::Col, &[true, true], false), true),
        Err(NodeDefError::FrameColArgCount)
    );
}

#[test]
fn plan_fused_chain_feeds_and_binds_steps() {
    // b = price.row(|x| x * 2.0); c = b.row(|x| x + b + tax); d = c.row(|y| y * d2 + c)
    let chain = vec![row("b", "price"), row("c", "b"), row("d", "c")];
    let bodies = vec![s(&["x"]), s(&["x", "b", "tax"]), s(&["y", "d2", "c", "b"])];
    let args = s(&["x", "x", "y"]);
    let steps = plan_fused_chain(&chain, &bodies, &args);
    assert_eq!(steps.len(), 3);
    assert_eq!(steps[0].input, StepInput::Receiver);
    assert_eq!(steps[0].primary_dep, "price");
    assert!(steps[0].deps.is_empty());
    assert_eq!(steps[1].input, StepInput::Previous);
    assert_eq!(steps[1].primary_dep, "b");
    assert_eq!(
        steps[1].deps,
        vec![("b".to_string(), DepBinding::ChainValue(0)), ("tax".to_string(), DepBinding::External)]
    );
    assert_eq!(steps[2].primary_dep, "c");
    assert_eq!(
        steps[2].deps,
        vec![
            ("d2".to_string(), DepBinding::External),
            ("c".to_string(), DepBinding::ChainValue(1)),
            ("b".to_string(), DepBinding::ChainValue(0)),
        ]
    );
}

#[test]
fn plan_fused_chain_later_node_name_is_external() {
    // the first step names the second node, which is computed after it
    let chain = vec![row("b", "price"), row("c", "b")];
    let bodies = vec![s(&["x", "c"]), s(&["x"])];
    let steps = plan_fused_chain(&chain, &bodies, &s(&["x", "x"]));
    assert_eq!(steps[0].deps, vec![("c".to_string(), DepBinding::External)]);
}

#[test]
fn pipeline_output_checks() {
    assert_eq!(check_pipeline_outputs(&[2]), Ok(2));
    assert_eq!(check_pipeline_outputs(&[]), Err(PipelineDefError::MissingOutput));
    assert_eq!(check_pipeline_outputs(&[0]), Err(PipelineDefError::MissingOutput));
    assert_eq!(check_pipeline_outputs(&[1, 1]), Err(PipelineDefError::MultipleOutputs));
    assert_eq!(check_pipeline_outputs(&[0, 3]), Err(PipelineDefError::MultipleOutputs));
}

#[test]
fn nested_pipeline_outcomes() {
    for m in [FailureModeKind::Soft, FailureModeKind::Hard, FailureModeKind::Isolate] {
        assert_eq!(nested_outcome(m, false), NestedAction::UseOutput);
    }
    assert_eq!(nested_outcome(FailureModeKind::Hard, true), NestedAction::ReturnError);
    assert_eq!(nested_outcome(FailureModeKind::Soft, true), NestedAction::WarnAndUseEmpty);
    assert_eq!(nested_outcome(FailureModeKind::Isolate, true), NestedAction::IsolateAndUseEmpty);
}

#[test]
fn node_panic_actions() {
    assert_eq!(node_panic_action(NodeFailureOverride::Propagate), NodePanicAction::Propagate);
    assert_eq!(node_panic_action(NodeFailureOverride::Soft), NodePanicAction::WarnAndFillMissing);
    assert_eq!(node_panic_action(NodeFailureOverride::Hard), NodePanicAction::ReturnError);
}

#[test]
fn statement_kind_reads_each_keyword() {
    assert_eq!(statement_kind("source"), Some(StatementKind::Source));
    assert_eq!(statement_kind("node"), Some(StatementKind::Node));
    assert_eq!(statement_kind("output"), Some(StatementKind::Output));
    assert_eq!(statement_kind("pipeline"), Some(StatementKind::Pipeline));
    assert_eq!(statement_kind("sub"), Some(StatementKind::Sub));
    assert_eq!(statement_kind("settings"), None);
    assert_eq!(statement_kind("Source"), None);
}
