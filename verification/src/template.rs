//! A template: source code, compiled once when first needed.

use vstd::prelude::*;
use crate::compile::{compile, compile_post, compile_admits};
use crate::error::Result;
use crate::lexer::opening_kind;
use crate::parser::failed_compiling;
use crate::stmt::Stmt;

verus! {

/// Compiled HTML template.
pub struct Template {
    source: String,
    compiled: Option<Vec<Stmt>>,
}

impl Template {
    /// Statements kept are those compiled from the source.
    #[verifier::type_invariant]
    spec fn inv(self) -> bool {
        self.compiled matches Some(v) ==> compile_admits(self.source@, v@)
    }

    /// The source code.
    pub closed spec fn spec_source(&self) -> Seq<char> {
        self.source@
    }

    /// The statements, once compiled.
    pub closed spec fn spec_compiled(&self) -> Option<Seq<Stmt>> {
        match self.compiled {
            Some(v) => Some(v@),
            None => None,
        }
    }

    /// A template of `source`, not compiled yet.
    pub fn new(source: String) -> (r: Template)
        ensures
            r.spec_source() == source@,
            r.spec_compiled() is None,
    {
        Template { source, compiled: None }
    }

    /// A template of the text `source`.
    pub fn from_str(source: &str) -> (r: Template)
        ensures
            r.spec_source() == source@,
            r.spec_compiled() is None,
    {
        Template::new(source.to_owned())
    }

    /// Compiles the source, unless that was done already.
    pub fn compile(&mut self) -> (r: Result<()>)
        ensures
            final(self).spec_source() == old(self).spec_source(),
            old(self).spec_compiled() is Some ==> r is Ok && final(self).spec_compiled()
                == old(self).spec_compiled(),
            r is Ok ==> (final(self).spec_compiled() matches Some(v) && compile_admits(
                final(self).spec_source(),
                v,
            )),
            r matches Err(e) ==> failed_compiling(e) && final(self).spec_compiled() is None,
            old(self).spec_compiled() is None && old(self).spec_source().len() == 0 ==> r is Ok
                && final(self).spec_compiled() == Some(Seq::<Stmt>::empty()),
            old(self).spec_compiled() is None && opening_kind(old(self).spec_source()) is Some ==> (r is Ok
                ==> (final(self).spec_compiled() matches Some(v) && v.len() > 0)),
            old(self).spec_compiled() is None ==> compile_post(
                old(self).spec_source(),
                (match r {
                    Ok(_) => Ok(final(self).spec_compiled()->0),
                    Err(e) => Err(e),
                }),
            ),
    {
        proof {
            use_type_invariant(&*self);
        }
        if self.compiled.is_none() {
            let stmts = compile(self.source.as_str())?;
            self.compiled = Some(stmts);
        }
        proof {
            use_type_invariant(&*self);
        }
        Ok(())
    }

    /// The compiled statements, compiling first if need be.
    pub fn stmts(&mut self) -> (r: Result<&Vec<Stmt>>)
        ensures
            final(self).spec_source() == old(self).spec_source(),
            old(self).spec_compiled() is Some ==> final(self).spec_compiled() == old(
                self,
            ).spec_compiled(),
            r matches Ok(v) ==> final(self).spec_compiled() == Some(v@) && compile_admits(
                final(self).spec_source(),
                v@,
            ),
            r matches Err(e) ==> failed_compiling(e),
            old(self).spec_compiled() is Some ==> r is Ok,
            old(self).spec_compiled() is None ==> compile_post(
                old(self).spec_source(),
                (match r {
                    Ok(v) => Ok(v@),
                    Err(e) => Err(e),
                }),
            ),
    {
        self.compile()?;
        match &self.compiled {
            Some(v) => Ok(v),
            None => {
                proof {
                    assert(false);
                }
                Err(crate::error::error_of(crate::error::ErrorKind::ParseError, "not compiled"))
            },
        }
    }
}

} // verus!
