//! A parsed task file and the resolved task data derived from it.

use vstd::prelude::*;

use crate::ast::{AstNode, DepView, ItemView, TaskDefView};
use crate::error::FriggenError;
use crate::grammar::spec_parse;
use crate::parser::parse_friggenfile;

verus! {

/// A resolved task: what the table holds for each defined name.
#[derive(Debug, PartialEq)]
pub struct Task {
    pub name: Vec<u8>,
    pub docs: Option<Vec<Vec<u8>>>,
    pub deps: Vec<TaskDep>,
    pub hash_bang: Option<Vec<Vec<u8>>>,
    pub script: Vec<Vec<u8>>,
}

/// A dependency edge of a resolved task.
#[derive(Debug, PartialEq)]
pub struct TaskDep {
    pub name: Vec<u8>,
    pub run_always: bool,
}

impl View for TaskDep {
    type V = DepView;

    open spec fn view(&self) -> DepView {
        DepView { name: self.name@, run_always: self.run_always }
    }
}

impl View for Task {
    type V = TaskDefView;

    open spec fn view(&self) -> TaskDefView {
        TaskDefView {
            docs: self.docs.deep_view(),
            name: self.name@,
            deps: self.deps@.map_values(|d: TaskDep| d@),
            hash_bang: self.hash_bang.deep_view(),
            lines: self.script.deep_view(),
        }
    }
}

/// A successfully parsed task file.
#[derive(Debug, PartialEq)]
pub struct Friggenfile {
    ast: AstNode,
}

impl View for Friggenfile {
    type V = AstNode;

    closed spec fn view(&self) -> AstNode {
        self.ast
    }
}

impl Friggenfile {
    /// Parses a buffer into a task file, turning a parser rejection into
    /// [`FriggenError::FriggenfileSyntaxError`].
    pub fn from(buf: &Vec<u8>) -> (r: Result<Self, FriggenError>)
        ensures
            match r {
                Ok(ff) => ff@.wf_root() && spec_parse(buf@) == Ok::<
                    Seq<ItemView>,
                    crate::grammar::SyntaxErr,
                >(ff@.root_items()),
                Err(e) => {
                    &&& e matches FriggenError::FriggenfileSyntaxError(se)
                    &&& spec_parse(buf@) == Err::<Seq<ItemView>, crate::grammar::SyntaxErr>(se)
                },
            },
    {
        match parse_friggenfile(buf) {
            Ok(ast) => Ok(Self { ast }),
            Err(e) => Err(FriggenError::FriggenfileSyntaxError(e)),
        }
    }

    /// The syntax tree of the file.
    pub fn ast(&self) -> (r: &AstNode)
        ensures
            *r == self@,
    {
        &self.ast
    }

    /// What the tree of a parsed file always satisfies.
    pub open spec fn wf(self) -> bool {
        self@.wf_root()
    }
}

} // verus!
