use crate::analyzer::{byte_length, diagnostics_for, views, Context, Report, Rule};
use crate::diagnostic::{chars_of, text_bytes, text_fits};
use crate::scopes::{scopes_of, ScopeTree};
use crate::module::{node_span, Callee, Module, Node};
use vstd::prelude::*;
use vstd::string::StringExecFns;

verus! {

/// Flags every call of `Deno.run`.
#[derive(Clone, Copy, Debug)]
pub struct BanDenoRun;

/// The code of this rule's diagnostics.
pub open spec fn deno_run_code() -> Seq<char> {
    "no-deno-run"@
}

/// The message of this rule's diagnostics.
pub open spec fn deno_run_message() -> Seq<char> {
    "`Deno` call as function is not allowed"@
}

/// `n` is a call whose callee is the member `run` of the identifier `Deno`.
pub open spec fn is_deno_run_call(n: Node) -> bool {
    match n {
        Node::Call { callee: Callee::Member { object: Some(o), property: Some(p) }, .. } => o@
            == "Deno"@ && p@ == "run"@,
        _ => false,
    }
}

/// One finding per call of `Deno.run` among `nodes`, at the call, in order.
pub open spec fn deno_run_reports(nodes: Seq<Node>) -> Seq<Report>
    decreases nodes.len(),
{
    if nodes.len() == 0 {
        Seq::empty()
    } else {
        deno_run_reports(nodes.drop_last()) + if is_deno_run_call(nodes.last()) {
            seq![
                Report {
                    span: node_span(nodes.last())->0,
                    code: deno_run_code(),
                    message: deno_run_message(),
                },
            ]
        } else {
            Seq::empty()
        }
    }
}

impl BanDenoRun {
    pub fn new() -> (r: BanDenoRun) {
        BanDenoRun
    }

    /// Whether `callee` is `Deno.run`.
    fn is_deno_run(&self, callee: &Callee) -> (r: bool)
        ensures
            r == (callee matches Callee::Member { object: Some(o), property: Some(p) } && o@
                == "Deno"@ && p@ == "run"@),
    {
        match callee {
            Callee::Member { object: Some(o), property: Some(p) } => {
                let deno = String::from_str("Deno");
                let run = String::from_str("run");
                *o == deno && *p == run
            },
            _ => false,
        }
    }
}

impl Rule for BanDenoRun {
    open spec fn rule_code(&self) -> Seq<char> {
        deno_run_code()
    }

    open spec fn reports(&self, module: &Module) -> Seq<Report> {
        deno_run_reports(module.body@)
    }

    fn code(&self) -> (r: &'static str) {
        "no-deno-run"
    }

    fn check_module(&self, context: &mut Context, module: &Module) {
        let ghost start = *context;
        let ghost t = context.text@;
        let mut k: usize = 0;
        assert(views(context.diagnostics@) =~= views(start.diagnostics@) + diagnostics_for(
            t,
            deno_run_reports(module.body@.take(0)),
        ));
        while k < module.body.len()
            invariant
                k <= module.body@.len(),
                context.wf(),
                context.same_run(&start),
                t == start.text@,
                start.root_scope@ == scopes_of(module.body@),
                module.spans_within(text_bytes(t)),
                views(context.diagnostics@) == views(start.diagnostics@) + diagnostics_for(
                    t,
                    deno_run_reports(module.body@.take(k as int)),
                ),
            decreases module.body@.len() - k,
        {
            let ghost before = views(context.diagnostics@);
            assert(module.body@.take(k + 1).drop_last() =~= module.body@.take(k as int));
            assert(module.body@.take(k + 1).last() == module.body@[k as int]);
            match &module.body[k] {
                Node::Call { callee, span } => {
                    if self.is_deno_run(callee) {
                        assert(node_span(module.body@[k as int]) == Some(*span));
                        assert(span.lo <= text_bytes(t));
                        context.add_diagnostic(
                            *span,
                            "no-deno-run",
                            "`Deno` call as function is not allowed",
                        );
                    }
                },
                _ => {},
            }
            k = k + 1;
            assert(views(context.diagnostics@) =~= views(start.diagnostics@) + diagnostics_for(
                t,
                deno_run_reports(module.body@.take(k as int)),
            ));
        }
        assert(module.body@.take(k as int) =~= module.body@);
    }
}

/// Analyses `module`, parsed from `source`, with `rule` alone, and tells
/// whether that succeeds with no diagnostic.
pub fn assert_ok(rule: Box<dyn Rule>, source: &str, module: Module) -> (r: bool)
    ensures
        r == (text_fits(source@) && module.spans_within(text_bytes(source@))
            && rule.reports(&module).len() == 0),
{
    let text = chars_of(source);
    match byte_length(&text) {
        None => false,
        Some(n) => {
            if !module.check_spans_within(n) {
                return false;
            }
            let root_scope = ScopeTree::from_module(&module);
            let mut context = Context::new(String::from_str("asd"), String::from_str(source), root_scope);
            rule.check_module(&mut context, &module);
            assert(views(context.diagnostics@).len() == context.diagnostics@.len());
            context.diagnostics.len() == 0
        },
    }
}

} // verus!
