use lint_engine::analyzer::{AnalyzeError, Analyzer, Context, ParseError, Rule, Syntax};
use lint_engine::ban_deno_run::{assert_ok, BanDenoRun};
use lint_engine::diagnostic::{Diagnostic, Span};
use lint_engine::module::{Callee, Module, Node, ScopeKind};
use lint_engine::scopes::ScopeTree;

const SOURCE: &str = r#"
      Deno.run();
      Deno.smthElse();
      Deno.run();
    "#;

fn member_call(object: &str, property: &str, lo: usize, hi: usize) -> Node {
    Node::Call {
        callee: Callee::Member {
            object: Some(object.to_string()),
            property: Some(property.to_string()),
        },
        span: Span { lo, hi },
    }
}

fn source_module() -> Module {
    Module {
        span: Span { lo: 0, hi: SOURCE.len() },
        body: vec![
            member_call("Deno", "run", 7, 17),
            member_call("Deno", "smthElse", 25, 40),
            member_call("Deno", "run", 48, 58),
        ],
    }
}

fn analyze_with(rules: Vec<Box<dyn Rule>>, source: &str, module: Module) -> Vec<Diagnostic> {
    let mut analyzer = Analyzer::new(Syntax { typescript: true, jsx: false }, rules);
    analyzer
        .analyze("asd".to_string(), source.to_string(), Ok(module))
        .unwrap()
}

#[test]
fn ban_deno_run() {
    assert!(!assert_ok(Box::new(BanDenoRun), SOURCE, source_module()));
    let diagnostics = analyze_with(vec![Box::new(BanDenoRun)], SOURCE, source_module());
    assert_eq!(diagnostics.len(), 2);
    assert_eq!(diagnostics[0].location.line, 2);
    assert_eq!(diagnostics[0].location.col, 7);
    assert_eq!(diagnostics[1].location.line, 4);
    assert_eq!(diagnostics[1].location.col, 7);
    for d in &diagnostics {
        assert_eq!(d.code, "no-deno-run");
        assert_eq!(d.message, "`Deno` call as function is not allowed");
        assert_eq!(d.line_src, "      Deno.run();");
        assert_eq!(d.snippet_length, 11);
    }
}

#[test]
fn other_members_of_deno_pass() {
    let source = "Deno.smthElse();\nfoo.run();\nrun();";
    let module = Module {
        span: Span { lo: 0, hi: source.len() },
        body: vec![
            member_call("Deno", "smthElse", 0, 15),
            member_call("foo", "run", 17, 26),
            Node::Call { callee: Callee::Other, span: Span { lo: 28, hi: 33 } },
            Node::Call {
                callee: Callee::Member { object: None, property: Some("run".to_string()) },
                span: Span { lo: 28, hi: 33 },
            },
        ],
    };
    assert!(assert_ok(Box::new(BanDenoRun), source, module));
}

#[test]
fn rule_code_is_stable() {
    assert_eq!(BanDenoRun.code(), "no-deno-run");
}

#[test]
fn parse_failure_is_handed_back() {
    let mut analyzer = Analyzer::new(Syntax { typescript: true, jsx: false }, vec![Box::new(BanDenoRun)]);
    let error = ParseError { diagnostics: vec!["Unexpected token `)`".to_string()] };
    match analyzer.analyze("bad.ts".to_string(), "let = );".to_string(), Err(error)) {
        Err(AnalyzeError::Parse(e)) => assert_eq!(e.diagnostics, vec!["Unexpected token `)`".to_string()]),
        other => panic!("expected a parse failure, got {:?}", other),
    }
}

#[test]
fn empty_source_gives_no_diagnostics() {
    let module = Module { span: Span { lo: 0, hi: 0 }, body: vec![] };
    let diagnostics = analyze_with(vec![Box::new(BanDenoRun)], "", module);
    assert!(diagnostics.is_empty());
    let module = Module { span: Span { lo: 0, hi: 0 }, body: vec![] };
    assert!(assert_ok(Box::new(BanDenoRun), "", module));
}

#[test]
fn span_past_the_end_is_refused() {
    let mut analyzer = Analyzer::new(Syntax { typescript: true, jsx: false }, vec![Box::new(BanDenoRun)]);
    let module = Module { span: Span { lo: 0, hi: 4 }, body: vec![member_call("Deno", "run", 5, 15)] };
    match analyzer.analyze("a.ts".to_string(), "Deno".to_string(), Ok(module)) {
        Err(AnalyzeError::SpanOutOfRange) => {}
        other => panic!("expected a span error, got {:?}", other),
    }
}

#[test]
fn multi_byte_characters_count_once_in_the_column() {
    let source = "const é = Deno.run();\nx";
    let module = Module { span: Span { lo: 0, hi: source.len() }, body: vec![member_call("Deno", "run", 11, 21)] };
    let diagnostics = analyze_with(vec![Box::new(BanDenoRun)], source, module);
    assert_eq!(diagnostics.len(), 1);
    assert_eq!(diagnostics[0].location.line, 1);
    assert_eq!(diagnostics[0].location.col, 11);
    assert_eq!(diagnostics[0].line_src, "const é = Deno.run();");
    assert_eq!(diagnostics[0].snippet_length, 11);
}

#[test]
fn diagnostic_on_last_line_runs_to_end_of_file() {
    let source = "a\nbc Deno.run()";
    let context = Context::new("f.ts".to_string(), source.to_string(), ScopeTree::from_module(&Module {
        span: Span { lo: 0, hi: 0 },
        body: vec![],
    }));
    let d = context.create_diagnostic(Span { lo: 5, hi: 15 }, "c", "m");
    assert_eq!(d.location.line, 2);
    assert_eq!(d.location.col, 4);
    assert_eq!(d.line_src, "bc Deno.run()");
    assert_eq!(d.snippet_length, 10);
    assert_eq!(d.code, "c");
    assert_eq!(d.message, "m");
}

#[test]
fn offset_on_line_feed_belongs_to_its_line() {
    let source = "ab\ncd\n";
    let mut context = Context::new("f.ts".to_string(), source.to_string(), ScopeTree::from_module(&Module {
        span: Span { lo: 0, hi: 0 },
        body: vec![],
    }));
    context.add_diagnostic(Span { lo: 2, hi: 3 }, "c", "m");
    context.add_diagnostic(Span { lo: 6, hi: 6 }, "c", "m");
    assert_eq!(context.diagnostics.len(), 2);
    let d = &context.diagnostics[0];
    assert_eq!((d.location.line, d.location.col), (1, 3));
    assert_eq!(d.line_src, "ab");
    assert_eq!(d.snippet_length, 0);
    let d = &context.diagnostics[1];
    assert_eq!((d.location.line, d.location.col), (3, 1));
    assert_eq!(d.line_src, "");
    assert_eq!(d.snippet_length, 0);
}

#[test]
fn analysis_is_deterministic() {
    let first = analyze_with(vec![Box::new(BanDenoRun)], SOURCE, source_module());
    let second = analyze_with(vec![Box::new(BanDenoRun)], SOURCE, source_module());
    assert_eq!(first.len(), second.len());
    for (a, b) in first.iter().zip(second.iter()) {
        assert_eq!(a.location, b.location);
        assert_eq!(a.code, b.code);
        assert_eq!(a.message, b.message);
        assert_eq!(a.line_src, b.line_src);
        assert_eq!(a.snippet_length, b.snippet_length);
    }
}

#[test]
fn rules_run_together_give_the_union() {
    let alone = analyze_with(vec![Box::new(BanDenoRun)], SOURCE, source_module());
    let together = analyze_with(vec![Box::new(BanDenoRun), Box::new(BanDenoRun)], SOURCE, source_module());
    assert_eq!(together.len(), 2 * alone.len());
    for (k, d) in together.iter().enumerate() {
        let a = &alone[k % alone.len()];
        assert_eq!(d.location, a.location);
        assert_eq!(d.code, a.code);
    }
    let nested = Module {
        span: Span { lo: 0, hi: SOURCE.len() },
        body: vec![Node::Enter { kind: ScopeKind::Block, span: Span { lo: 0, hi: 5 } }, Node::Exit],
    };
    assert!(analyze_with(vec![Box::new(BanDenoRun)], SOURCE, nested).is_empty());
}
