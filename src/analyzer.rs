use crate::diagnostic::{
    byte_offset, chars_of, diagnostic_at, diagnostic_in, text_bytes, text_fits, width_of,
    Diagnostic, DiagnosticView, Span,
};
use crate::module::Module;
use crate::scopes::{scopes_of, ScopeTree};
use vstd::prelude::*;

verus! {

/// A finding as a rule reports it: where, under which code, and what it says.
pub struct Report {
    pub span: Span,
    pub code: Seq<char>,
    pub message: Seq<char>,
}

/// The views of a sequence of diagnostics.
pub open spec fn views(ds: Seq<Diagnostic>) -> Seq<DiagnosticView> {
    ds.map_values(|d: Diagnostic| d@)
}

/// The diagnostics that `reports` give in the text `t`, in order.
pub open spec fn diagnostics_for(t: Seq<char>, reports: Seq<Report>) -> Seq<DiagnosticView> {
    reports.map_values(|r: Report| diagnostic_at(t, r.span.lo as nat, r.code, r.message))
}

/// The state shared by the rules of one analysis run.
pub struct Context {
    pub file_name: String,
    pub source: String,
    pub text: Vec<char>,
    pub diagnostics: Vec<Diagnostic>,
    pub root_scope: ScopeTree,
}

impl Context {
    /// `text` holds the characters of `source`, whose byte length fits, and
    /// the scope tree is well formed.
    pub open spec fn wf(&self) -> bool {
        &&& self.text@ == self.source@
        &&& text_fits(self.text@)
        &&& self.root_scope@.wf()
    }

    /// `self` and `other` belong to the same run: only the diagnostics differ.
    pub open spec fn same_run(&self, other: &Context) -> bool {
        &&& self.file_name == other.file_name
        &&& self.source == other.source
        &&& self.text == other.text
        &&& self.root_scope == other.root_scope
    }

    /// A context for one run over `source`, with no diagnostics yet.
    pub fn new(file_name: String, source: String, root_scope: ScopeTree) -> (r: Context)
        requires
            text_fits(source@),
            root_scope@.wf(),
        ensures
            r.wf(),
            r.file_name == file_name,
            r.source == source,
            r.root_scope == root_scope,
            r.diagnostics@.len() == 0,
    {
        let text = chars_of(source.as_str());
        Context { file_name, source, text, diagnostics: Vec::new(), root_scope }
    }

    /// The diagnostic for a finding at `span`: see `diagnostic_at`.
    pub fn create_diagnostic(&self, span: Span, code: &str, message: &str) -> (r: Diagnostic)
        requires
            self.wf(),
            span.lo <= text_bytes(self.text@),
        ensures
            r@ == diagnostic_at(self.text@, span.lo as nat, code@, message@),
    {
        diagnostic_in(self.source.as_str(), &self.text, span, code, message)
    }

    /// Appends the diagnostic for a finding at `span`.
    pub fn add_diagnostic(&mut self, span: Span, code: &str, message: &str)
        requires
            old(self).wf(),
            span.lo <= text_bytes(old(self).text@),
        ensures
            final(self).wf(),
            final(self).same_run(old(self)),
            views(final(self).diagnostics@) == views(old(self).diagnostics@).push(
                diagnostic_at(old(self).text@, span.lo as nat, code@, message@),
            ),
    {
        let diagnostic = self.create_diagnostic(span, code, message);
        self.diagnostics.push(diagnostic);
        assert(views(self.diagnostics@) =~= views(old(self).diagnostics@).push(
            diagnostic_at(old(self).text@, span.lo as nat, code@, message@),
        ));
    }
}

/// A check run over a module; it reports its findings into the context.
pub trait Rule {
    /// The rule's stable code.
    spec fn rule_code(&self) -> Seq<char>;

    /// The findings of this rule on `module`, in the order it reports them.
    spec fn reports(&self, module: &Module) -> Seq<Report>;

    fn code(&self) -> (r: &'static str)
        ensures
            r@ == self.rule_code(),
    ;

    /// Appends to the context the diagnostics of this rule's findings.
    fn check_module(&self, context: &mut Context, module: &Module)
        requires
            old(context).wf(),
            old(context).root_scope@ == scopes_of(module.body@),
            module.spans_within(text_bytes(old(context).text@)),
        ensures
            final(context).wf(),
            final(context).same_run(old(context)),
            views(final(context).diagnostics@) == views(old(context).diagnostics@)
                + diagnostics_for(old(context).text@, self.reports(module)),
    ;
}

/// The findings of `rules` run one after the other on `module`.
pub open spec fn all_reports(rules: Seq<Box<dyn Rule>>, module: &Module) -> Seq<Report>
    decreases rules.len(),
{
    if rules.len() == 0 {
        Seq::empty()
    } else {
        all_reports(rules.drop_last(), module) + rules.last().reports(module)
    }
}

/// The dialect the parser reads.
#[derive(Clone, Copy, Debug, PartialEq, Eq, Structural)]
pub struct Syntax {
    pub typescript: bool,
    pub jsx: bool,
}

/// The messages of a parser that rejected the source.
#[derive(Debug)]
pub struct ParseError {
    pub diagnostics: Vec<String>,
}

/// Why a module could not be analysed.
#[derive(Debug)]
pub enum AnalyzeError {
    /// The parser rejected the source.
    Parse(ParseError),
    /// The module does not belong to the source: a span starts past its end.
    SpanOutOfRange,
}

/// Runs a list of rules over parsed modules.
pub struct Analyzer {
    pub syntax: Syntax,
    pub rules: Vec<Box<dyn Rule>>,
}

/// Byte length of `text`, where it fits.
pub(crate) fn byte_length(text: &Vec<char>) -> (r: Option<usize>)
    ensures
        r matches Some(n) ==> n == text_bytes(text@) && text_fits(text@),
        r is None ==> !text_fits(text@),
{
    let mut n: usize = 0;
    let mut i: usize = 0;
    while i < text.len()
        invariant
            i <= text@.len(),
            n == byte_offset(text@, i as int),
            n <= isize::MAX,
        decreases text@.len() - i,
    {
        let c = text[i];
        let w = width_of(c);
        if w > isize::MAX as usize - n {
            proof {
                crate::diagnostic::lemma_byte_offset_monotonic(text@, i + 1, text@.len() as int);
            }
            return None;
        }
        n = n + w;
        i = i + 1;
    }
    Some(n)
}

impl Analyzer {
    pub fn new(syntax: Syntax, rules: Vec<Box<dyn Rule>>) -> (r: Analyzer)
        ensures
            r.syntax == syntax,
            r.rules == rules,
    {
        Analyzer { syntax, rules }
    }

    /// The diagnostics of a finished run, in the order they were reported.
    pub fn filter_diagnostics(&self, context: Context) -> (r: Vec<Diagnostic>)
        ensures
            r == context.diagnostics,
    {
        context.diagnostics
    }

    /// Resolves the scopes of `module`, runs every rule once, in order, on one
    /// shared context, and returns all their diagnostics in report order.
    pub fn check_module(&self, file_name: String, source: String, module: Module) -> (r: Vec<
        Diagnostic,
    >)
        requires
            text_fits(source@),
            module.spans_within(text_bytes(source@)),
        ensures
            views(r@) == diagnostics_for(source@, all_reports(self.rules@, &module)),
    {
        let root_scope = ScopeTree::from_module(&module);
        let mut context = Context::new(file_name, source, root_scope);
        let ghost start = context;
        let mut k: usize = 0;
        assert(views(context.diagnostics@) =~= diagnostics_for(
            source@,
            all_reports(self.rules@.take(0), &module),
        ));
        while k < self.rules.len()
            invariant
                k <= self.rules@.len(),
                context.wf(),
                context.same_run(&start),
                start.text@ == source@,
                start.root_scope@ == scopes_of(module.body@),
                module.spans_within(text_bytes(source@)),
                views(context.diagnostics@) == diagnostics_for(
                    source@,
                    all_reports(self.rules@.take(k as int), &module),
                ),
            decreases self.rules@.len() - k,
        {
            let rule = &self.rules[k];
            rule.check_module(&mut context, &module);
            k = k + 1;
            assert(self.rules@.take(k as int).drop_last() =~= self.rules@.take(k - 1));
            assert(diagnostics_for(source@, all_reports(self.rules@.take(k as int), &module))
                =~= diagnostics_for(source@, all_reports(self.rules@.take(k - 1), &module))
                + diagnostics_for(source@, self.rules@[k - 1].reports(&module)));
        }
        assert(self.rules@.take(k as int) =~= self.rules@);
        self.filter_diagnostics(context)
    }

    /// Analyses one file from what the parser made of it: a parse failure is
    /// handed back; a module is checked with every rule.
    pub fn analyze(
        &mut self,
        file_name: String,
        source_code: String,
        parsed: Result<Module, ParseError>,
    ) -> (r: Result<Vec<Diagnostic>, AnalyzeError>)
        ensures
            *final(self) == *old(self),
            match parsed {
                Err(e) => r matches Err(AnalyzeError::Parse(f)) && f == e,
                Ok(m) => if text_fits(source_code@) && m.spans_within(text_bytes(source_code@)) {
                    r matches Ok(ds) && views(ds@) == diagnostics_for(
                        source_code@,
                        all_reports(old(self).rules@, &m),
                    )
                } else {
                    r matches Err(AnalyzeError::SpanOutOfRange)
                },
            },
    {
        match parsed {
            Err(e) => Err(AnalyzeError::Parse(e)),
            Ok(module) => {
                let text = chars_of(source_code.as_str());
                match byte_length(&text) {
                    None => Err(AnalyzeError::SpanOutOfRange),
                    Some(n) => {
                        if module.check_spans_within(n) {
                            Ok(self.check_module(file_name, source_code, module))
                        } else {
                            Err(AnalyzeError::SpanOutOfRange)
                        }
                    },
                }
            },
        }
    }
}

/// Analysis is deterministic: two runs of the same rules over the same module
/// and text give the same diagnostics, in the same order.
pub proof fn lemma_deterministic(
    rules: Seq<Box<dyn Rule>>,
    module: &Module,
    t: Seq<char>,
    first: Seq<DiagnosticView>,
    second: Seq<DiagnosticView>,
)
    requires
        first == diagnostics_for(t, all_reports(rules, module)),
        second == diagnostics_for(t, all_reports(rules, module)),
    ensures
        first == second,
{
}

/// Rules do not interfere: running the rules of `a` and then those of `b`
/// gives exactly the diagnostics of `a` alone followed by those of `b` alone;
/// none is suppressed or repeated.
pub proof fn lemma_rules_isolated(
    a: Seq<Box<dyn Rule>>,
    b: Seq<Box<dyn Rule>>,
    module: &Module,
    t: Seq<char>,
)
    ensures
        all_reports(a + b, module) == all_reports(a, module) + all_reports(b, module),
        diagnostics_for(t, all_reports(a + b, module)) == diagnostics_for(t, all_reports(a, module))
            + diagnostics_for(t, all_reports(b, module)),
    decreases b.len(),
{
    if b.len() == 0 {
        assert(a + b =~= a);
        assert(all_reports(a, module) + all_reports(b, module) =~= all_reports(a, module));
    } else {
        assert((a + b).drop_last() =~= a + b.drop_last());
        assert((a + b).last() == b.last());
        lemma_rules_isolated(a, b.drop_last(), module, t);
        assert(all_reports(a + b, module) =~= all_reports(a, module) + all_reports(b, module));
    }
    assert(diagnostics_for(t, all_reports(a + b, module)) =~= diagnostics_for(
        t,
        all_reports(a, module),
    ) + diagnostics_for(t, all_reports(b, module)));
}

} // verus!
