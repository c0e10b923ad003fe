//! The decisions behind node and pipeline definitions: which form a node definition
//! takes, which names it depends on, how a fused chain feeds and binds each step, and
//! how a pipeline's outputs and failures are handled.
//!
//! Each function works on plain names and flags read from a definition's syntax.

use crate::fusion::{links, row_fusable, AccessMode, ClosureShape, FailureModeKind, NodeFailureOverride, NodeItemMeta};
use vstd::prelude::*;

verus! {

// ── Names ─────────────────────────────────────────────────────────────────────

/// A list of names read as character sequences.
pub open spec fn names_view(s: Seq<String>) -> Seq<Seq<char>> {
    s.map_values(|x: String| x@)
}

/// The names of `names` that are not in `excluded`, each kept at its first occurrence,
/// in order.
pub open spec fn fresh_names(names: Seq<Seq<char>>, excluded: Seq<Seq<char>>) -> Seq<Seq<char>>
    decreases names.len(),
{
    if names.len() == 0 {
        Seq::empty()
    } else {
        let prev = fresh_names(names.drop_last(), excluded);
        let x = names.last();
        if excluded.contains(x) || prev.contains(x) {
            prev
        } else {
            prev.push(x)
        }
    }
}

/// Whether `x` is one of `v`.
fn contains_name(v: &[String], x: &String) -> (r: bool)
    ensures
        r == names_view(v@).contains(x@),
{
    let mut i: usize = 0;
    while i < v.len()
        invariant
            0 <= i <= v@.len(),
            forall|k: int| 0 <= k < i ==> v@[k]@ != x@,
        decreases v@.len() - i,
    {
        if v[i] == *x {
            assert(names_view(v@)[i as int] == x@);
            return true;
        }
        i = i + 1;
    }
    proof {
        if names_view(v@).contains(x@) {
            let k = choose|k: int| 0 <= k < names_view(v@).len() && names_view(v@)[k] == x@;
            assert(v@[k]@ == x@);
        }
    }
    false
}

/// The names of `names` that are not in `excluded`, each once, in order of first
/// occurrence.
pub fn first_occurrences(names: &[String], excluded: &[String]) -> (out: Vec<String>)
    ensures
        names_view(out@) == fresh_names(names_view(names@), names_view(excluded@)),
{
    let mut out: Vec<String> = Vec::new();
    let mut i: usize = 0;
    while i < names.len()
        invariant
            0 <= i <= names@.len(),
            names_view(out@) == fresh_names(names_view(names@.take(i as int)), names_view(excluded@)),
        decreases names@.len() - i,
    {
        let x = &names[i];
        proof {
            assert(names_view(names@.take(i + 1)).drop_last() =~= names_view(names@.take(i as int)));
            assert(names_view(names@.take(i + 1)).last() == x@);
        }
        if !contains_name(excluded, x) && !contains_name(out.as_slice(), x) {
            let ghost before = out@;
            out.push(x.clone());
            proof {
                assert(names_view(out@) =~= names_view(before).push(x@));
            }
        }
        i = i + 1;
    }
    proof {
        assert(names@.take(i as int) =~= names@);
    }
    out
}

// ── Node definitions ──────────────────────────────────────────────────────────

/// The form of a node definition `name = receiver.row(|..| ..)` / `.col(|..| ..)`.
#[derive(Debug, Clone, Copy, PartialEq, Eq, Structural)]
pub enum NodeForm {
    /// Row access to one column; a `bool` return makes a boolean node.
    ColumnRow { bool_return: bool },
    /// Row access to named frame columns, one per typed argument.
    FrameRow,
    /// Column access to one column.
    ColumnCol,
    /// Column access to the frame column named by the one typed argument.
    FrameCol,
}

/// Why a node definition is refused.
#[derive(Debug, Clone, Copy, PartialEq, Eq, Structural)]
pub enum NodeDefError {
    /// The expression is not `receiver.row(closure)` or `receiver.col(closure)`.
    NotRowOrColCall,
    /// The receiver is not a plain name.
    ReceiverNotName,
    /// Row access with some typed arguments has an untyped one.
    UntypedArgument,
    /// Column access with typed arguments has more than one argument.
    FrameColArgCount,
}

/// Some argument carries a type annotation.
pub open spec fn any_typed(typed: Seq<bool>) -> bool {
    exists|i: int| 0 <= i < typed.len() && typed[i]
}

/// Every argument carries a type annotation.
pub open spec fn all_typed(typed: Seq<bool>) -> bool {
    forall|i: int| 0 <= i < typed.len() ==> typed[i]
}

/// The form of a node definition, or why it is refused.
pub open spec fn node_form_spec(call: Option<ClosureShape>, receiver_is_name: bool) -> Result<NodeForm, NodeDefError> {
    match call {
        None => Err(NodeDefError::NotRowOrColCall),
        Some(c) => if !receiver_is_name {
            Err(NodeDefError::ReceiverNotName)
        } else if c.mode == AccessMode::Row {
            if any_typed(c.typed_args@) {
                if all_typed(c.typed_args@) {
                    Ok(NodeForm::FrameRow)
                } else {
                    Err(NodeDefError::UntypedArgument)
                }
            } else {
                Ok(NodeForm::ColumnRow { bool_return: c.bool_return })
            }
        } else if any_typed(c.typed_args@) {
            if c.typed_args@.len() == 1 {
                Ok(NodeForm::FrameCol)
            } else {
                Err(NodeDefError::FrameColArgCount)
            }
        } else {
            Ok(NodeForm::ColumnCol)
        },
    }
}

/// Decides the form of a node definition from its defining call (absent when the
/// expression is no `row`/`col` call with one closure) and whether its receiver is a
/// plain name.
pub fn node_form(call: &Option<ClosureShape>, receiver_is_name: bool) -> (r: Result<NodeForm, NodeDefError>)
    ensures
        r == node_form_spec(*call, receiver_is_name),
{
    match call {
        None => Err(NodeDefError::NotRowOrColCall),
        Some(c) => {
            if !receiver_is_name {
                return Err(NodeDefError::ReceiverNotName);
            }
            let mut any = false;
            let mut all = true;
            let mut i: usize = 0;
            while i < c.typed_args.len()
                invariant
                    0 <= i <= c.typed_args@.len(),
                    any == exists|k: int| 0 <= k < i && c.typed_args@[k],
                    all == forall|k: int| 0 <= k < i ==> c.typed_args@[k],
                decreases c.typed_args@.len() - i,
            {
                if c.typed_args[i] {
                    any = true;
                } else {
                    all = false;
                }
                i = i + 1;
            }
            match c.mode {
                AccessMode::Row => {
                    if any {
                        if all {
                            Ok(NodeForm::FrameRow)
                        } else {
                            Err(NodeDefError::UntypedArgument)
                        }
                    } else {
                        Ok(NodeForm::ColumnRow { bool_return: c.bool_return })
                    }
                },
                AccessMode::Col => {
                    if any {
                        if c.typed_args.len() == 1 {
                            Ok(NodeForm::FrameCol)
                        } else {
                            Err(NodeDefError::FrameColArgCount)
                        }
                    } else {
                        Ok(NodeForm::ColumnCol)
                    }
                },
            }
        },
    }
}

/// Law: a definition that is no `row`/`col` call is refused as such, and one whose
/// receiver is no plain name is refused for that.
pub proof fn law_node_form_refusals(c: ClosureShape)
    ensures
        node_form_spec(None, true) == Err::<NodeForm, NodeDefError>(NodeDefError::NotRowOrColCall),
        node_form_spec(None, false) == Err::<NodeForm, NodeDefError>(NodeDefError::NotRowOrColCall),
        node_form_spec(Some(c), false) == Err::<NodeForm, NodeDefError>(NodeDefError::ReceiverNotName),
{
}

/// Law: in row mode on a named receiver, a closure with no typed argument reads one
/// column (boolean when it returns `bool`); a closure with at least one argument, all
/// typed, reads frame columns, whatever the number of arguments; a closure that mixes
/// typed and untyped arguments is refused.
pub proof fn law_node_form_row(c: ClosureShape)
    requires
        c.mode == AccessMode::Row,
    ensures
        (forall|i: int| 0 <= i < c.typed_args@.len() ==> !c.typed_args@[i]) ==> node_form_spec(Some(c), true)
            == Ok::<NodeForm, NodeDefError>(NodeForm::ColumnRow { bool_return: c.bool_return }),
        (c.typed_args@.len() >= 1 && forall|i: int| 0 <= i < c.typed_args@.len() ==> c.typed_args@[i])
            ==> node_form_spec(Some(c), true) == Ok::<NodeForm, NodeDefError>(NodeForm::FrameRow),
        (exists|i: int, j: int|
            0 <= i < c.typed_args@.len() && 0 <= j < c.typed_args@.len() && c.typed_args@[i]
                && !c.typed_args@[j]) ==> node_form_spec(Some(c), true) == Err::<NodeForm, NodeDefError>(
            NodeDefError::UntypedArgument,
        ),
{
    if c.typed_args@.len() >= 1 && forall|i: int| 0 <= i < c.typed_args@.len() ==> c.typed_args@[i] {
        assert(c.typed_args@[0]);
    }
}

/// Law: in column mode on a named receiver, a closure with no typed argument reads one
/// column; a closure whose one argument is typed reads that frame column; a closure
/// with a typed argument among two or more is refused.
pub proof fn law_node_form_col(c: ClosureShape)
    requires
        c.mode == AccessMode::Col,
    ensures
        (forall|i: int| 0 <= i < c.typed_args@.len() ==> !c.typed_args@[i]) ==> node_form_spec(Some(c), true)
            == Ok::<NodeForm, NodeDefError>(NodeForm::ColumnCol),
        c.typed_args@ == seq![true] ==> node_form_spec(Some(c), true) == Ok::<NodeForm, NodeDefError>(
            NodeForm::FrameCol,
        ),
        (c.typed_args@.len() >= 2 && exists|i: int| 0 <= i < c.typed_args@.len() && c.typed_args@[i])
            ==> node_form_spec(Some(c), true) == Err::<NodeForm, NodeDefError>(NodeDefError::FrameColArgCount),
{
    if c.typed_args@ == seq![true] {
        assert(c.typed_args@[0]);
    }
}

/// Law: the nodes that may take part in a fused chain are exactly the pure nodes
/// without a failure sigil whose definition takes the single-column row form without a
/// `bool` return and whose closure has exactly one argument.
pub proof fn law_fusable_is_plain_column_row(m: NodeItemMeta)
    ensures
        row_fusable(m) == (m.pure && m.failure_override == NodeFailureOverride::Propagate
            && m.call is Some && node_form_spec(m.call, true) == Ok::<NodeForm, NodeDefError>(
            NodeForm::ColumnRow { bool_return: false },
        ) && m.call->Some_0.typed_args@.len() == 1),
{
    if m.call is Some {
        let c = m.call->Some_0;
        if c.typed_args@.len() == 1 {
            if !c.typed_args@[0] {
                assert(!any_typed(c.typed_args@));
            } else {
                assert(any_typed(c.typed_args@));
            }
        }
    }
}

/// The dependency list of a node that reads one column: the receiver first, then every
/// other bare name of the closure body once, in order of first occurrence, leaving out
/// the `excluded` names (the closure's arguments) and the node's own name.
pub fn node_deps(receiver: &str, body_names: &[String], excluded: &[String], node_name: &str) -> (deps: Vec<String>)
    ensures
        names_view(deps@) == seq![receiver@] + fresh_names(
            names_view(body_names@),
            names_view(excluded@).push(node_name@),
        ),
{
    let mut ex: Vec<String> = Vec::new();
    let mut i: usize = 0;
    while i < excluded.len()
        invariant
            0 <= i <= excluded@.len(),
            ex@ == excluded@.take(i as int),
        decreases excluded@.len() - i,
    {
        ex.push(excluded[i].clone());
        i = i + 1;
        proof {
            assert(ex@ =~= excluded@.take(i as int));
        }
    }
    let own = node_name.to_owned();
    ex.push(own);
    proof {
        assert(excluded@.take(excluded@.len() as int) =~= excluded@);
        assert(ex@ == excluded@.push(own));
        assert(names_view(ex@) =~= names_view(excluded@).push(node_name@));
    }
    let extra = first_occurrences(body_names, ex.as_slice());
    let mut deps: Vec<String> = Vec::new();
    let first = receiver.to_owned();
    deps.push(first);
    let mut k: usize = 0;
    while k < extra.len()
        invariant
            0 <= k <= extra@.len(),
            first@ == receiver@,
            deps@ == seq![first] + extra@.take(k as int),
        decreases extra@.len() - k,
    {
        deps.push(extra[k].clone());
        k = k + 1;
        proof {
            assert(deps@ =~= seq![first] + extra@.take(k as int));
        }
    }
    proof {
        assert(extra@.take(extra@.len() as int) =~= extra@);
        assert(names_view(deps@) =~= seq![receiver@] + names_view(extra@));
    }
    deps
}

// ── Fused chains ──────────────────────────────────────────────────────────────

/// Where a step of a fused loop reads its primary input.
#[derive(Debug, Clone, Copy, PartialEq, Eq, Structural)]
pub enum StepInput {
    /// The receiver column of the chain's first node, at the loop index.
    Receiver,
    /// The value the previous step computed in the same iteration.
    Previous,
}

/// How a further name of a step's body is bound inside the fused loop.
#[derive(Debug, Clone, Copy, PartialEq, Eq, Structural)]
pub enum DepBinding {
    /// The value computed by step `j` of the chain in the same iteration.
    ChainValue(usize),
    /// The named column outside the chain, at the loop index.
    External,
}

/// One step of a fused loop.
#[derive(Debug, Clone, PartialEq, Eq)]
pub struct FusedStep {
    /// Where the closure argument comes from.
    pub input: StepInput,
    /// The name of the node that the step reads from (the receiver or the previous node).
    pub primary_dep: String,
    /// The further names of the body, once each in order, with their bindings.
    pub deps: Vec<(String, DepBinding)>,
}

/// The position of the last node of `chain` named `d`, if any.
pub open spec fn last_named(chain: Seq<NodeItemMeta>, d: Seq<char>) -> Option<int>
    decreases chain.len(),
{
    if chain.len() == 0 {
        None
    } else if chain.last().name@ == d {
        Some(chain.len() - 1)
    } else {
        last_named(chain.drop_last(), d)
    }
}

/// A position found by [`last_named`] lies in the chain.
proof fn lemma_last_named_bounds(chain: Seq<NodeItemMeta>, d: Seq<char>)
    ensures
        last_named(chain, d) matches Some(j) ==> 0 <= j < chain.len() && chain[j].name@ == d,
    decreases chain.len(),
{
    if chain.len() > 0 && chain.last().name@ != d {
        lemma_last_named_bounds(chain.drop_last(), d);
    }
}

/// The binding of a name in step `i`: the value of the last chain node of that name when
/// it precedes step `i`, the external column otherwise.
pub open spec fn binding_of(chain: Seq<NodeItemMeta>, i: int, d: Seq<char>) -> DepBinding {
    match last_named(chain, d) {
        Some(j) => if j < i {
            DepBinding::ChainValue(j as usize)
        } else {
            DepBinding::External
        },
        None => DepBinding::External,
    }
}

/// `step` is step `i` of the fused loop of `chain`.
pub open spec fn fused_step_spec(
    chain: Seq<NodeItemMeta>,
    body_names: Seq<Seq<char>>,
    arg: Seq<char>,
    i: int,
    step: FusedStep,
) -> bool {
    let names = fresh_names(body_names, seq![arg, chain[i].name@]);
    &&& step.input == if i == 0 {
        StepInput::Receiver
    } else {
        StepInput::Previous
    }
    &&& step.primary_dep@ == if i == 0 {
        chain[0].receiver_ident.unwrap()@
    } else {
        chain[i - 1].name@
    }
    &&& step.deps@.len() == names.len()
    &&& forall|k: int|
        0 <= k < names.len() ==> (#[trigger] step.deps@[k]).0@ == names[k] && step.deps@[k].1 == binding_of(
            chain,
            i,
            names[k],
        )
}

/// The position of the last node of `chain` named `d`.
fn find_last_named(chain: &[NodeItemMeta], d: &String) -> (r: Option<usize>)
    ensures
        match last_named(chain@, d@) {
            Some(j) => r == Some(j as usize),
            None => r is None,
        },
        r matches Some(j) ==> j < chain@.len(),
{
    let mut i: usize = chain.len();
    proof {
        assert(chain@.take(chain@.len() as int) =~= chain@);
    }
    while i > 0
        invariant
            0 <= i <= chain@.len(),
            last_named(chain@, d@) == last_named(chain@.take(i as int), d@),
        decreases i,
    {
        proof {
            assert(chain@.take(i as int).drop_last() =~= chain@.take(i - 1));
            assert(chain@.take(i as int).last() == chain@[i - 1]);
        }
        if chain[i - 1].name == *d {
            return Some(i - 1);
        }
        i = i - 1;
    }
    proof {
        assert(chain@.take(0) =~= Seq::<NodeItemMeta>::empty());
    }
    None
}

/// Plans the single loop that computes a fused chain: step 0 reads the chain's receiver
/// column, every later step reads the value of the step before, and each further body
/// name is bound to the value of an earlier step of that name or else to the external
/// column. `body_names[i]` lists the bare names of step `i`'s closure body in order of
/// appearance; `args[i]` is its closure argument.
pub fn plan_fused_chain(chain: &[NodeItemMeta], body_names: &[Vec<String>], args: &[String]) -> (steps: Vec<FusedStep>)
    requires
        chain@.len() >= 2,
        body_names@.len() == chain@.len(),
        args@.len() == chain@.len(),
        chain@[0].receiver_ident is Some,
        forall|i: int| 0 <= i < chain@.len() ==> row_fusable(#[trigger] chain@[i]),
        forall|i: int| 1 <= i < chain@.len() ==> links(chain@[i - 1], #[trigger] chain@[i]),
    ensures
        steps@.len() == chain@.len(),
        forall|i: int|
            0 <= i < chain@.len() ==> fused_step_spec(
                chain@,
                names_view(body_names@[i]@),
                args@[i]@,
                i,
                #[trigger] steps@[i],
            ),
{
    let mut steps: Vec<FusedStep> = Vec::new();
    let n = chain.len();
    let mut i: usize = 0;
    while i < chain.len()
        invariant
            0 <= i <= chain@.len(),
            n == chain@.len(),
            body_names@.len() == chain@.len(),
            args@.len() == chain@.len(),
            chain@[0].receiver_ident is Some,
            steps@.len() == i,
            forall|k: int|
                0 <= k < i ==> fused_step_spec(chain@, names_view(body_names@[k]@), args@[k]@, k, #[trigger] steps@[k]),
        decreases chain@.len() - i,
    {
        let mut ex: Vec<String> = Vec::new();
        ex.push(args[i].clone());
        ex.push(chain[i].name.clone());
        proof {
            assert(names_view(ex@) =~= seq![args@[i as int]@, chain@[i as int].name@]);
        }
        let names = first_occurrences(body_names[i].as_slice(), ex.as_slice());
        let ghost want = fresh_names(names_view(body_names@[i as int]@), seq![args@[i as int]@, chain@[i as int].name@]);
        let mut deps: Vec<(String, DepBinding)> = Vec::new();
        let mut k: usize = 0;
        while k < names.len()
            invariant
                0 <= k <= names@.len(),
                n == chain@.len(),
                names_view(names@) == want,
                deps@.len() == k,
                forall|m: int|
                    0 <= m < k ==> (#[trigger] deps@[m]).0@ == want[m] && deps@[m].1 == binding_of(
                        chain@,
                        i as int,
                        want[m],
                    ),
            decreases names@.len() - k,
        {
            let d = &names[k];
            proof {
                assert(names_view(names@)[k as int] == d@);
            }
            let found = find_last_named(chain, d);
            proof {
                lemma_last_named_bounds(chain@, d@);
            }
            let binding = match found {
                Some(j) => {
                    proof {
                        assert(last_named(chain@, d@) is Some);
                        let jj = last_named(chain@, d@).unwrap();
                        assert(found == Some(jj as usize));
                        assert(0 <= jj < chain@.len());
                        assert(j as int == jj);
                    }
                    if j < i {
                        DepBinding::ChainValue(j)
                    } else {
                        DepBinding::External
                    }
                },
                None => DepBinding::External,
            };
            proof {
                assert(binding == binding_of(chain@, i as int, d@));
                assert(want[k as int] == d@);
            }
            let ghost old_deps = deps@;
            let dc = d.clone();
            deps.push((dc, binding));
            proof {
                assert forall|m: int| 0 <= m < k + 1 implies (#[trigger] deps@[m]).0@ == want[m] && deps@[m].1 == binding_of(
                    chain@,
                    i as int,
                    want[m],
                ) by {
                    if m < k {
                        assert(deps@[m] == old_deps[m]);
                    } else {
                        assert(deps@[m] == (dc, binding));
                    }
                }
            }
            k = k + 1;
        }
        let (input, primary_dep) = if i == 0 {
            let r = match &chain[0].receiver_ident {
                Some(r) => r.clone(),
                None => String::new(),
            };
            (StepInput::Receiver, r)
        } else {
            (StepInput::Previous, chain[i - 1].name.clone())
        };
        let step = FusedStep { input, primary_dep, deps };
        let ghost before = steps@;
        steps.push(step);
        proof {
            assert(steps@[i as int] == step);
            assert forall|m: int| 0 <= m < i + 1 implies fused_step_spec(
                chain@,
                names_view(body_names@[m]@),
                args@[m]@,
                m,
                #[trigger] steps@[m],
            ) by {
                if m < i {
                    assert(steps@[m] == before[m]);
                }
            }
        }
        i = i + 1;
    }
    steps
}

// ── Pipeline definitions ──────────────────────────────────────────────────────

/// The statements a pipeline definition is made of, each named by its macro keyword.
#[derive(Debug, Clone, Copy, PartialEq, Eq, Structural)]
pub enum StatementKind {
    /// `source!(name: Type, ...)`: the pipeline's inputs.
    Source,
    /// `node!(...)`: a derived node.
    Node,
    /// `output!(name, ...)`: the exposed nodes.
    Output,
    /// `pipeline!(name { ... })`: a nested inline pipeline.
    Pipeline,
    /// `sub!(expr => name: Type, ...)`: an external sub-pipeline.
    Sub,
}

/// The statement that a macro keyword of a pipeline definition introduces; `None` for a
/// keyword that is none of `source`, `node`, `output`, `pipeline` and `sub`.
pub fn statement_kind(keyword: &str) -> (r: Option<StatementKind>)
    ensures
        r == if keyword@ == "source"@ {
            Some(StatementKind::Source)
        } else if keyword@ == "node"@ {
            Some(StatementKind::Node)
        } else if keyword@ == "output"@ {
            Some(StatementKind::Output)
        } else if keyword@ == "pipeline"@ {
            Some(StatementKind::Pipeline)
        } else if keyword@ == "sub"@ {
            Some(StatementKind::Sub)
        } else {
            None
        },
{
    let k = keyword.to_owned();
    if k == "source".to_owned() {
        Some(StatementKind::Source)
    } else if k == "node".to_owned() {
        Some(StatementKind::Node)
    } else if k == "output".to_owned() {
        Some(StatementKind::Output)
    } else if k == "pipeline".to_owned() {
        Some(StatementKind::Pipeline)
    } else if k == "sub".to_owned() {
        Some(StatementKind::Sub)
    } else {
        None
    }
}


/// Why a pipeline definition is refused.
#[derive(Debug, Clone, Copy, PartialEq, Eq, Structural)]
pub enum PipelineDefError {
    /// More than one `output!(..)` declaration.
    MultipleOutputs,
    /// No `output!(..)` declaration, or one without a column.
    MissingOutput,
}

/// Checks the `output!(..)` declarations of a pipeline, given the number of columns each
/// names in order: a second declaration is refused, as is a missing or empty one;
/// otherwise the number of output columns is returned.
pub fn check_pipeline_outputs(output_counts: &[usize]) -> (r: Result<usize, PipelineDefError>)
    ensures
        r == if output_counts@.len() > 1 {
            Err(PipelineDefError::MultipleOutputs)
        } else if output_counts@.len() == 0 || output_counts@[0] == 0 {
            Err(PipelineDefError::MissingOutput)
        } else {
            Ok(output_counts@[0])
        },
{
    if output_counts.len() > 1 {
        Err(PipelineDefError::MultipleOutputs)
    } else if output_counts.len() == 0 || output_counts[0] == 0 {
        Err(PipelineDefError::MissingOutput)
    } else {
        Ok(output_counts[0])
    }
}

/// What a pipeline does after computing a nested pipeline.
#[derive(Debug, Clone, Copy, PartialEq, Eq, Structural)]
pub enum NestedAction {
    /// Take the nested pipeline's output frame.
    UseOutput,
    /// Stop and return the nested pipeline's error.
    ReturnError,
    /// Keep a warning and continue with an empty frame.
    WarnAndUseEmpty,
    /// Record the error among the isolated errors and continue with an empty frame.
    IsolateAndUseEmpty,
}

/// The handling of a nested pipeline's outcome under its failure mode: a success gives
/// its output; a failure stops the parent (`Hard`), is kept as a warning (`Soft`) or is
/// recorded apart (`Isolate`), the last two continuing with an empty frame.
pub fn nested_outcome(mode: FailureModeKind, failed: bool) -> (a: NestedAction)
    ensures
        a == if !failed {
            NestedAction::UseOutput
        } else {
            match mode {
                FailureModeKind::Hard => NestedAction::ReturnError,
                FailureModeKind::Soft => NestedAction::WarnAndUseEmpty,
                FailureModeKind::Isolate => NestedAction::IsolateAndUseEmpty,
            }
        },
{
    if !failed {
        NestedAction::UseOutput
    } else {
        match mode {
            FailureModeKind::Hard => NestedAction::ReturnError,
            FailureModeKind::Soft => NestedAction::WarnAndUseEmpty,
            FailureModeKind::Isolate => NestedAction::IsolateAndUseEmpty,
        }
    }
}

/// What a pipeline does when the kernel of a single node panics.
#[derive(Debug, Clone, Copy, PartialEq, Eq, Structural)]
pub enum NodePanicAction {
    /// Let the panic propagate.
    Propagate,
    /// Keep a warning and continue with a node whose values are all missing.
    WarnAndFillMissing,
    /// Stop and return a kernel-panic error.
    ReturnError,
}

/// The handling of a panicking node kernel under the node's failure override.
pub fn node_panic_action(o: NodeFailureOverride) -> (a: NodePanicAction)
    ensures
        a == match o {
            NodeFailureOverride::Propagate => NodePanicAction::Propagate,
            NodeFailureOverride::Soft => NodePanicAction::WarnAndFillMissing,
            NodeFailureOverride::Hard => NodePanicAction::ReturnError,
        },
{
    match o {
        NodeFailureOverride::Propagate => NodePanicAction::Propagate,
        NodeFailureOverride::Soft => NodePanicAction::WarnAndFillMissing,
        NodeFailureOverride::Hard => NodePanicAction::ReturnError,
    }
}

} // verus!
