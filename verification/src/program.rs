//! A program: source text, its language, and the compiled bytecode.
//!
//! Compilation is a one-time, one-directional transformation; the
//! bytecode is only filled in by a successful `compile` and is left
//! untouched by a failing one.

use crate::bf;
use crate::bf::CompileError;
use crate::bf::compile_bf_spec;
use crate::tape::Tape;
use vstd::prelude::*;

verus! {

/// The source languages a program can name.  Only the tape language
/// has a working front end; the list-structured language's parser is
/// an incomplete stub, and a raw program carries bytes injected
/// directly.
#[derive(Debug, Clone, Copy, PartialEq, Eq, Structural)]
pub enum Lang {
    Raw,
    Bf,
    Lisp,
}

/// A program's source code and compiled bytecode.
#[derive(Debug)]
pub struct Program {
    pub lang: Lang,
    pub sourcecode: String,
    pub bytecode: Tape<u8>,
}

impl Program {
    pub fn new(lang: Lang, sourcecode: &str) -> (p: Program)
        ensures
            p.lang == lang,
            p.sourcecode@ == sourcecode@,
            p.bytecode@.data == Seq::<u8>::empty(),
            p.bytecode@.cursor == 0,
    {
        Program { lang, sourcecode: String::from_str(sourcecode), bytecode: Tape::new(Vec::new()) }
    }

    /// Append one raw byte to the bytecode, bypassing the compiler.
    pub fn debug_inject_byte(&mut self, b: i8)
        ensures
            final(self).lang == old(self).lang,
            final(self).sourcecode == old(self).sourcecode,
            final(self).bytecode@.data == old(self).bytecode@.data.push(b as u8),
            final(self).bytecode@.cursor == old(self).bytecode@.cursor,
    {
        self.bytecode.push(b as u8);
    }

    /// Compile the source text.  On success the bytecode is replaced
    /// by the compiler's output; on failure it is left as it was.
    pub fn compile(&mut self) -> (r: Result<(), CompileError>)
        ensures
            final(self).lang == old(self).lang,
            final(self).sourcecode == old(self).sourcecode,
            old(self).lang matches Lang::Bf ==> match compile_bf_spec(old(self).sourcecode@) {
                Ok(c) => r == Ok::<(), CompileError>(()) && final(self).bytecode@.data == c
                    && final(self).bytecode@.cursor == 0,
                Err(e) => r == Err::<(), CompileError>(e) && final(self).bytecode == old(
                    self,
                ).bytecode,
            },
            !(old(self).lang matches Lang::Bf) ==> r == Err::<(), CompileError>(
                CompileError::UnsupportedLanguage,
            ) && final(self).bytecode == old(self).bytecode,
    {
        match self.lang {
            Lang::Bf => match bf::compile(self.sourcecode.as_str()) {
                Ok(t) => {
                    self.bytecode = t;
                    Ok(())
                },
                Err(e) => Err(e),
            },
            _ => Err(CompileError::UnsupportedLanguage),
        }
    }
}

} // verus!
