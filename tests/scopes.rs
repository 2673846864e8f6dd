use lint_engine::analyzer::{Analyzer, Rule, Syntax};
use lint_engine::scope_rules::{NoShadow, NoUndef};
use lint_engine::diagnostic::Span;
use lint_engine::module::{BindingKind, Module, Node, ScopeKind};
use lint_engine::scopes::ScopeTree;

fn span(lo: usize, hi: usize) -> Span {
    Span { lo, hi }
}

fn declare(name: &str, kind: BindingKind, lo: usize) -> Node {
    Node::Declare { name: name.to_string(), kind, span: span(lo, lo + name.len()) }
}

fn enter(kind: ScopeKind, lo: usize, hi: usize) -> Node {
    Node::Enter { kind, span: span(lo, hi) }
}

const SHADOW_SOURCE: &str = "function f(x) { let x = 1; return x; }";

fn shadow_module() -> Module {
    Module {
        span: span(0, SHADOW_SOURCE.len()),
        body: vec![
            declare("f", BindingKind::Function, 9),
            enter(ScopeKind::Function, 0, 38),
            declare("x", BindingKind::Parameter, 11),
            enter(ScopeKind::Block, 14, 38),
            declare("x", BindingKind::Variable, 20),
            Node::Reference { name: "x".to_string(), span: span(34, 35) },
            Node::Exit,
            Node::Exit,
        ],
    }
}

const SIBLING_SOURCE: &str = "function a() { let v = 1; }\nfunction b() { return v; }";

fn sibling_module() -> Module {
    Module {
        span: span(0, SIBLING_SOURCE.len()),
        body: vec![
            declare("a", BindingKind::Function, 9),
            enter(ScopeKind::Function, 0, 27),
            enter(ScopeKind::Block, 13, 27),
            declare("v", BindingKind::Variable, 19),
            Node::Exit,
            Node::Exit,
            declare("b", BindingKind::Function, 37),
            enter(ScopeKind::Function, 28, 54),
            enter(ScopeKind::Block, 41, 54),
            Node::Reference { name: "v".to_string(), span: span(50, 51) },
            Node::Exit,
            Node::Exit,
        ],
    }
}

#[test]
fn scope_tree_mirrors_nesting() {
    let tree = ScopeTree::from_module(&sibling_module());
    assert_eq!(tree.kinds, vec![ScopeKind::Module, ScopeKind::Function, ScopeKind::Block, ScopeKind::Function, ScopeKind::Block]);
    assert_eq!(tree.parents, vec![None, Some(0), Some(1), Some(0), Some(3)]);
    assert_eq!(tree.children(0), vec![1, 3]);
    assert_eq!(tree.children(1), vec![2]);
    assert_eq!(tree.children(4), Vec::<usize>::new());
    assert_eq!(tree.lookup(0, &"a".to_string()), Some(0));
    assert_eq!(tree.lookup(4, &"b".to_string()), Some(0));
    assert_eq!(tree.lookup(2, &"v".to_string()), Some(2));
    assert_eq!(tree.lookup(4, &"v".to_string()), None);
    assert_eq!(tree.lookup(9, &"a".to_string()), None);
}

#[test]
fn inner_declaration_shadows_outer() {
    let tree = ScopeTree::from_module(&shadow_module());
    let x = "x".to_string();
    assert_eq!(tree.lookup(2, &x), Some(2));
    assert_eq!(tree.lookup(1, &x), Some(1));
    assert_eq!(tree.lookup(0, &x), None);
    let inner = tree.lookup_binding(2, &x).unwrap();
    assert_eq!(inner.kind, BindingKind::Variable);
    assert_eq!(inner.span, span(20, 21));
    let outer = tree.lookup_binding(1, &x).unwrap();
    assert_eq!(outer.kind, BindingKind::Parameter);
}

#[test]
fn sibling_scope_sees_outer_binding() {
    let module = Module {
        span: span(0, 40),
        body: vec![
            declare("y", BindingKind::Variable, 4),
            enter(ScopeKind::Block, 10, 20),
            declare("y", BindingKind::Variable, 12),
            Node::Exit,
            enter(ScopeKind::Block, 21, 30),
            Node::Exit,
        ],
    };
    let tree = ScopeTree::from_module(&module);
    let y = "y".to_string();
    assert_eq!(tree.lookup(1, &y), Some(1));
    assert_eq!(tree.lookup(2, &y), Some(0));
    assert_eq!(tree.lookup_binding(2, &y).unwrap().span, span(4, 5));
}

#[test]
fn redeclaration_in_one_scope_keeps_the_latest() {
    let module = Module {
        span: span(0, 30),
        body: vec![
            declare("z", BindingKind::Variable, 4),
            declare("z", BindingKind::Function, 20),
        ],
    };
    let tree = ScopeTree::from_module(&module);
    let info = tree.declared_in(0, &"z".to_string()).unwrap();
    assert_eq!(info.kind, BindingKind::Function);
    assert_eq!(info.span, span(20, 21));
    assert_eq!(tree.declared_in(1, &"z".to_string()), None);
}

#[test]
fn shadowing_rule_flags_inner_declaration() {
    let mut analyzer = Analyzer::new(Syntax { typescript: false, jsx: false }, vec![Box::new(NoShadow)]);
    let diagnostics = analyzer
        .analyze("f.js".to_string(), SHADOW_SOURCE.to_string(), Ok(shadow_module()))
        .unwrap();
    assert_eq!(diagnostics.len(), 1);
    assert_eq!(diagnostics[0].location.line, 1);
    assert_eq!(diagnostics[0].location.col, 21);
    assert_eq!(diagnostics[0].code, "no-shadow");
    assert_eq!(diagnostics[0].snippet_length, 18);
}

#[test]
fn undeclared_reference_in_sibling_function() {
    let mut analyzer = Analyzer::new(Syntax { typescript: false, jsx: false }, vec![Box::new(NoUndef)]);
    let diagnostics = analyzer
        .analyze("f.js".to_string(), SIBLING_SOURCE.to_string(), Ok(sibling_module()))
        .unwrap();
    assert_eq!(diagnostics.len(), 1);
    assert_eq!(diagnostics[0].location.line, 2);
    assert_eq!(diagnostics[0].location.col, 23);
    assert_eq!(diagnostics[0].line_src, "function b() { return v; }");
}

const MIXED_SOURCE: &str = "function f(x) { let x = 1; return q; }";

fn mixed_module() -> Module {
    Module {
        span: span(0, MIXED_SOURCE.len()),
        body: vec![
            declare("f", BindingKind::Function, 9),
            enter(ScopeKind::Function, 0, 38),
            declare("x", BindingKind::Parameter, 11),
            enter(ScopeKind::Block, 14, 38),
            declare("x", BindingKind::Variable, 20),
            Node::Reference { name: "q".to_string(), span: span(34, 35) },
            Node::Exit,
            Node::Exit,
        ],
    }
}

fn run(rules: Vec<Box<dyn Rule>>) -> Vec<(usize, usize, String)> {
    let mut analyzer = Analyzer::new(Syntax { typescript: false, jsx: false }, rules);
    analyzer
        .analyze("f.js".to_string(), MIXED_SOURCE.to_string(), Ok(mixed_module()))
        .unwrap()
        .into_iter()
        .map(|d| (d.location.line, d.location.col, d.code))
        .collect()
}

#[test]
fn two_rules_together_give_both_findings() {
    let shadow = run(vec![Box::new(NoShadow)]);
    let undef = run(vec![Box::new(NoUndef)]);
    assert_eq!(shadow, vec![(1, 21, "no-shadow".to_string())]);
    assert_eq!(undef, vec![(1, 35, "no-undef".to_string())]);
    let both = run(vec![Box::new(NoShadow), Box::new(NoUndef)]);
    let mut expected = shadow.clone();
    expected.extend(undef.clone());
    assert_eq!(both, expected);
    let reversed = run(vec![Box::new(NoUndef), Box::new(NoShadow)]);
    let mut expected = undef;
    expected.extend(shadow);
    assert_eq!(reversed, expected);
}

#[test]
fn each_node_knows_its_scope() {
    let module = sibling_module();
    let tree = ScopeTree::from_module(&module);
    assert_eq!(tree.node_scopes(&module), vec![0, 1, 2, 2, 1, 0, 0, 3, 4, 4, 3, 0]);
}

#[test]
fn scope_rule_codes() {
    assert_eq!(NoShadow.code(), "no-shadow");
    assert_eq!(NoUndef.code(), "no-undef");
}
