//! The parts of the `rhai` scripting engine that the library uses.

use vstd::prelude::*;

use rhai::{Engine, ParseError, AST};

verus! {

#[verifier::external_type_specification]
#[verifier::external_body]
pub struct ExEngine(Engine);

#[verifier::external_type_specification]
#[verifier::external_body]
pub struct ExAst(AST);

#[verifier::external_type_specification]
#[verifier::external_body]
pub struct ExParseError(ParseError);

/// Calls `rhai::Engine::compile`, which parses a script into an `AST` under the
/// engine's settings, or reports a `ParseError`. The contract states nothing of which
/// texts parse or of the tree that comes back: both rest on the grammar and on the
/// engine's options.
#[verifier::external_body]
pub(crate) fn compile(engine: &Engine, script: &str) -> (r: Result<AST, ParseError>) {
    engine.compile(script)
}

} // verus!
