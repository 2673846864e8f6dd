//! A lint engine core: scope resolution over a module's syntax tree, a rule
//! runner, and diagnostics located precisely in the source text.

pub mod analyzer;
pub mod ban_deno_run;
pub mod diagnostic;
pub mod module;
pub mod scope_rules;
pub mod scopes;
