use crate::analyzer::{diagnostics_for, views, Context, Report, Rule};
use crate::diagnostic::text_bytes;
use crate::module::{node_span, Module, Node};
use crate::scopes::{lemma_current_in_tree, resolve, scopes_of, state_after};
use vstd::prelude::*;

verus! {

/// Flags a reference to a name that no enclosing scope declares.
#[derive(Clone, Copy, Debug)]
pub struct NoUndef;

/// Flags a declaration that hides a binding of an enclosing scope.
#[derive(Clone, Copy, Debug)]
pub struct NoShadow;

/// The findings of `NoUndef` among the first `k` nodes: each reference whose
/// name resolves nowhere from the scope it stands in.
pub open spec fn undef_reports(nodes: Seq<Node>, k: int) -> Seq<Report>
    decreases k,
{
    if k <= 0 || k > nodes.len() {
        Seq::empty()
    } else {
        undef_reports(nodes, k - 1) + match nodes[k - 1] {
            Node::Reference { name, span } => if resolve(
                scopes_of(nodes),
                state_after(nodes, k).current as int,
                name@,
            ) is None {
                seq![Report { span, code: "no-undef"@, message: "reference to an undeclared name"@ }]
            } else {
                Seq::empty()
            },
            _ => Seq::empty(),
        }
    }
}

/// The findings of `NoShadow` among the first `k` nodes: each declaration
/// whose name also resolves from the parent of the scope it stands in.
pub open spec fn shadow_reports(nodes: Seq<Node>, k: int) -> Seq<Report>
    decreases k,
{
    if k <= 0 || k > nodes.len() {
        Seq::empty()
    } else {
        shadow_reports(nodes, k - 1) + match nodes[k - 1] {
            Node::Declare { name, span, .. } => match scopes_of(nodes).parents[state_after(
                nodes,
                k,
            ).current as int] {
                Some(p) => if resolve(scopes_of(nodes), p as int, name@) is Some {
                    seq![
                        Report {
                            span,
                            code: "no-shadow"@,
                            message: "declaration shadows a binding of an enclosing scope"@,
                        },
                    ]
                } else {
                    Seq::empty()
                },
                None => Seq::empty(),
            },
            _ => Seq::empty(),
        }
    }
}

impl Rule for NoUndef {
    open spec fn rule_code(&self) -> Seq<char> {
        "no-undef"@
    }

    open spec fn reports(&self, module: &Module) -> Seq<Report> {
        undef_reports(module.body@, module.body@.len() as int)
    }

    fn code(&self) -> (r: &'static str) {
        "no-undef"
    }

    fn check_module(&self, context: &mut Context, module: &Module) {
        let ghost start = *context;
        let ghost t = context.text@;
        let ghost nodes = module.body@;
        let scopes = context.root_scope.node_scopes(module);
        let mut k: usize = 0;
        assert(views(context.diagnostics@) =~= views(start.diagnostics@) + diagnostics_for(
            t,
            undef_reports(nodes, 0),
        ));
        while k < module.body.len()
            invariant
                nodes == module.body@,
                k <= nodes.len(),
                scopes@.len() == nodes.len(),
                forall|i: int|
                    0 <= i < scopes@.len() ==> #[trigger] scopes@[i] == state_after(nodes, i + 1).current,
                context.wf(),
                context.same_run(&start),
                t == start.text@,
                start.root_scope@ == scopes_of(nodes),
                module.spans_within(text_bytes(t)),
                views(context.diagnostics@) == views(start.diagnostics@) + diagnostics_for(
                    t,
                    undef_reports(nodes, k as int),
                ),
            decreases nodes.len() - k,
        {
            proof {
                lemma_current_in_tree(nodes, k + 1);
            }
            match &module.body[k] {
                Node::Reference { name, span } => {
                    if context.root_scope.lookup(scopes[k], name).is_none() {
                        assert(node_span(module.body@[k as int]) == Some(*span));
                        assert(span.lo <= text_bytes(t));
                        context.add_diagnostic(*span, "no-undef", "reference to an undeclared name");
                    }
                },
                _ => {},
            }
            k = k + 1;
            assert(views(context.diagnostics@) =~= views(start.diagnostics@) + diagnostics_for(
                t,
                undef_reports(nodes, k as int),
            ));
        }
    }
}

impl Rule for NoShadow {
    open spec fn rule_code(&self) -> Seq<char> {
        "no-shadow"@
    }

    open spec fn reports(&self, module: &Module) -> Seq<Report> {
        shadow_reports(module.body@, module.body@.len() as int)
    }

    fn code(&self) -> (r: &'static str) {
        "no-shadow"
    }

    fn check_module(&self, context: &mut Context, module: &Module) {
        let ghost start = *context;
        let ghost t = context.text@;
        let ghost nodes = module.body@;
        let scopes = context.root_scope.node_scopes(module);
        let mut k: usize = 0;
        assert(views(context.diagnostics@) =~= views(start.diagnostics@) + diagnostics_for(
            t,
            shadow_reports(nodes, 0),
        ));
        while k < module.body.len()
            invariant
                nodes == module.body@,
                k <= nodes.len(),
                scopes@.len() == nodes.len(),
                forall|i: int|
                    0 <= i < scopes@.len() ==> #[trigger] scopes@[i] == state_after(nodes, i + 1).current,
                context.wf(),
                context.same_run(&start),
                t == start.text@,
                start.root_scope@ == scopes_of(nodes),
                module.spans_within(text_bytes(t)),
                views(context.diagnostics@) == views(start.diagnostics@) + diagnostics_for(
                    t,
                    shadow_reports(nodes, k as int),
                ),
            decreases nodes.len() - k,
        {
            proof {
                lemma_current_in_tree(nodes, k + 1);
            }
            match &module.body[k] {
                Node::Declare { name, span, .. } => {
                    match context.root_scope.parents[scopes[k]] {
                        Some(p) => {
                            if context.root_scope.lookup(p, name).is_some() {
                                assert(node_span(module.body@[k as int]) == Some(*span));
                                assert(span.lo <= text_bytes(t));
                                context.add_diagnostic(
                                    *span,
                                    "no-shadow",
                                    "declaration shadows a binding of an enclosing scope",
                                );
                            }
                        },
                        None => {},
                    }
                },
                _ => {},
            }
            k = k + 1;
            assert(views(context.diagnostics@) =~= views(start.diagnostics@) + diagnostics_for(
                t,
                shadow_reports(nodes, k as int),
            ));
        }
    }
}

} // verus!
