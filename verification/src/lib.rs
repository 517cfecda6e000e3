use vstd::prelude::*;

/// The syntax tree.
pub mod ast;
/// The lowering of a syntax tree to a module of typed instructions.
pub mod codegen;
/// Syntax errors: where they are, what they say, how they are drawn.
pub mod diagnostic;
/// The grammar of the language, as functions from text to trees.
pub mod grammar;
/// The module that lowering builds: functions, blocks, instructions.
pub mod ir;
/// A lexer that works line by line.
pub mod lexer;
/// The parser: the executable reading of the grammar.
pub mod parser;
/// The laws that tie the written form to the grammar: what is written is
/// read back.
pub mod round_trip;
/// Cutting comments, strings, numbers and truth values from the start of a text.
pub mod scanner;
/// A reader for a single node: a truth value, or a return of one.
pub mod single;
/// The names bound during lowering.
pub mod symbols;
/// The order of the steps from a module to a native artifact.
pub mod toolchain;
/// The written form of a syntax tree.
pub mod unparse;

use crate::codegen::{codegen, compile, LowerError};
use crate::diagnostic::{located, SyntaxError};
use crate::grammar::{expand_tabs, program};
use crate::ir::Module;
use crate::parser::parse;

verus! {

/// Why a text did not compile.
#[derive(Debug, PartialEq, Eq)]
pub enum BuildError {
    /// The text is no program.
    Syntax(SyntaxError),
    /// The program could not be lowered.
    Lowering(LowerError),
}

/// Compiles a text: reads it as a program and lowers the program to a
/// module. The first error of either step is the outcome; no part of a
/// module comes with it.
pub fn build(contents: String) -> (r: Result<Module, BuildError>)
    requires
        expand_tabs(contents@).len() + 1 < usize::MAX,
    ensures
        match program(expand_tabs(contents@)) {
            Err(stop) => r matches Err(BuildError::Syntax(e)) && e@ == located(
                expand_tabs(contents@),
                stop,
            ) && e.wf(),
            Ok(tree) => match compile(tree) {
                Err(fault) => r matches Err(BuildError::Lowering(e)) && e@ == fault,
                Ok(functions) => r matches Ok(module) && module@ == functions,
            },
        },
{
    match parse(contents) {
        Err(e) => Err(BuildError::Syntax(e)),
        Ok(nodes) => match codegen(nodes) {
            Err(e) => Err(BuildError::Lowering(e)),
            Ok(module) => Ok(module),
        },
    }
}

} // verus!
