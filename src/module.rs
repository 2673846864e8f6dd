use crate::diagnostic::Span;
use vstd::prelude::*;

verus! {

/// A region of the source that introduces bindings.
#[derive(Clone, Copy, Debug, PartialEq, Eq, Structural)]
pub enum ScopeKind {
    Module,
    Function,
    Block,
}

/// What declared a binding.
#[derive(Clone, Copy, Debug, PartialEq, Eq, Structural)]
pub enum BindingKind {
    Variable,
    Function,
    Parameter,
    Import,
}

/// The callee of a call expression.
#[derive(Debug)]
pub enum Callee {
    /// `object.property(...)`: each side is its identifier's name, or `None`
    /// where that side is not a plain identifier (`super`, a computed key, ...).
    Member { object: Option<String>, property: Option<String> },
    /// Any other callee.
    Other,
}

/// One node of a module's syntax tree, as met in a pre-order walk.
///
/// A node that opens a binding region is `Enter`; the nodes inside that region
/// follow it, and `Exit` closes it.
#[derive(Debug)]
pub enum Node {
    Enter { kind: ScopeKind, span: Span },
    Exit,
    Declare { name: String, kind: BindingKind, span: Span },
    Reference { name: String, span: Span },
    Call { callee: Callee, span: Span },
}

/// A parsed module: its span and its syntax tree walked in pre-order.
#[derive(Debug)]
pub struct Module {
    pub span: Span,
    pub body: Vec<Node>,
}

/// The span of a node, where it has one.
pub open spec fn node_span(n: Node) -> Option<Span> {
    match n {
        Node::Enter { span, .. } => Some(span),
        Node::Exit => None,
        Node::Declare { span, .. } => Some(span),
        Node::Reference { span, .. } => Some(span),
        Node::Call { span, .. } => Some(span),
    }
}

impl Module {
    /// Every span of the module starts at or before byte `limit`.
    pub open spec fn spans_within(&self, limit: nat) -> bool {
        &&& self.span.lo <= limit
        &&& forall|k: int|
            0 <= k < self.body@.len() ==> match #[trigger] node_span(self.body@[k]) {
                Some(s) => s.lo <= limit,
                None => true,
            }
    }

    /// Whether every span of the module starts at or before byte `limit`.
    pub fn check_spans_within(&self, limit: usize) -> (r: bool)
        ensures
            r == self.spans_within(limit as nat),
    {
        if self.span.lo > limit {
            return false;
        }
        let mut k: usize = 0;
        while k < self.body.len()
            invariant
                k <= self.body@.len(),
                self.span.lo <= limit,
                forall|j: int|
                    0 <= j < k ==> match #[trigger] node_span(self.body@[j]) {
                        Some(s) => s.lo <= limit,
                        None => true,
                    },
            decreases self.body@.len() - k,
        {
            let lo = match &self.body[k] {
                Node::Enter { span, .. } => span.lo,
                Node::Exit => 0,
                Node::Declare { span, .. } => span.lo,
                Node::Reference { span, .. } => span.lo,
                Node::Call { span, .. } => span.lo,
            };
            if lo > limit {
                assert(match node_span(self.body@[k as int]) {
                    Some(s) => s.lo > limit,
                    None => false,
                });
                return false;
            }
            k = k + 1;
        }
        true
    }
}

} // verus!
