//! A compiler for a small register-level language: a lexer, a parser that
//! builds a tree of scopes, and a code generator that writes assembly text
//! into four sections.

pub mod combinator;
pub mod stream;
pub mod tokenizer;
pub mod parser;
pub mod compiler;

use vstd::prelude::*;
use crate::compiler::{generate, GenError, Program};
use crate::parser::{parse_tokens, ParseError, Parser};
use crate::tokenizer::{fault_agrees, lex, tokenize, LexFault};

verus! {

/// The first fatal condition met while compiling one input.
#[derive(Debug)]
pub enum CompileError {
    Lexical(LexFault),
    Parse(ParseError),
    Generation(GenError),
}

/// Compiles one input whole: lexes it, parses the tokens and generates the
/// four sections. `label` names the input in a lexical diagnostic.
pub fn compile_source(input: &Vec<u8>, label: &Vec<u8>) -> (r: Result<Program, CompileError>)
    ensures
        match lex(input@).fault {
            Some(f) => r matches Err(CompileError::Lexical(x)) && fault_agrees(
                Some(x),
                Some(f),
                input@,
                label@,
            ),
            None => match parse_tokens(lex(input@).tokens) {
                Err((kind, at)) => r matches Err(CompileError::Parse(e)) && e.kind == kind && e.at
                    == at,
                Ok(root) => match generate(root) {
                    Ok(out) => r matches Ok(p) && p.sections() == out,
                    Err(x) => r matches Err(CompileError::Generation(y)) && y == x,
                },
            },
        },
{
    let (tokens, fault) = tokenize(input, label);
    match fault {
        Some(f) => {
            return Err(CompileError::Lexical(f));
        },
        None => {},
    }
    let parser = match Parser::new(&tokens) {
        Ok(p) => p,
        Err(e) => {
            return Err(CompileError::Parse(e));
        },
    };
    let mut program = Program::new();
    match program.compile(&parser.scope_stack) {
        Ok(()) => Ok(program),
        Err(e) => Err(CompileError::Generation(e)),
    }
}

} // verus!
