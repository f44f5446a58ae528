//! The abstract syntax tree of a task file, together with its mathematical
//! model: ghost item descriptions that the parser's contract and the later
//! phases speak about.

use vstd::prelude::*;

verus! {

/// A node of the parsed tree. The parser only ever produces a `Root` whose
/// children are `VarAssignment` and `TaskDef` nodes; the nested shape of each
/// child is pinned down by [`AstNode::wf_item`].
#[derive(Debug, PartialEq)]
pub enum AstNode {
    Root(Vec<AstNode>),
    TaskDef(AstTaskDef),
    TaskDocs(Vec<Vec<u8>>),
    TaskHeader(AstTaskHeader),
    TaskScript(AstTaskScript),
    TaskDepList(Vec<AstNode>),
    TaskDep(AstTaskDep),
    VarAssignment(AstVarAssignment),
    VarValue(Vec<u8>),
    CommandSubstitution(Vec<u8>),
}

#[derive(Debug, PartialEq)]
pub struct AstTaskDef {
    pub docs: Option<Box<AstNode>>,
    pub header: Box<AstNode>,
    pub script: Box<AstNode>,
}

#[derive(Debug, PartialEq)]
pub struct AstTaskHeader {
    pub name: Vec<u8>,
    pub deps: Vec<AstNode>,
}

#[derive(Debug, PartialEq)]
pub struct AstTaskDep {
    pub name: Vec<u8>,
    pub run_always: bool,
}

#[derive(Debug, PartialEq)]
pub struct AstTaskScript {
    pub hash_bang: Option<Vec<Vec<u8>>>,
    pub lines: Vec<Vec<u8>>,
}

#[derive(Debug, PartialEq)]
pub struct AstVarAssignment {
    pub name: Vec<u8>,
    pub value: Box<AstNode>,
}

/// The value of a variable assignment, as the model sees it: either a literal
/// or the verbatim text of a command substitution.
pub enum ValueView {
    Lit(Seq<u8>),
    Command(Seq<u8>),
}

/// One dependency edge: the referenced task's name and whether the edge forces
/// the task to run again even when already sequenced.
pub struct DepView {
    pub name: Seq<u8>,
    pub run_always: bool,
}

/// A task definition as the model sees it.
pub struct TaskDefView {
    pub docs: Option<Seq<Seq<u8>>>,
    pub name: Seq<u8>,
    pub deps: Seq<DepView>,
    pub hash_bang: Option<Seq<Seq<u8>>>,
    pub lines: Seq<Seq<u8>>,
}

/// A top-level item of a parsed file.
pub enum ItemView {
    Assign { name: Seq<u8>, value: ValueView },
    Task(TaskDefView),
}

impl AstNode {
    /// The header node of a well-formed task definition.
    pub fn as_task_header(&self) -> (r: &AstTaskHeader)
        requires
            self is TaskHeader,
        ensures
            *r == self->TaskHeader_0,
    {
        match self {
            AstNode::TaskHeader(h) => h,
            _ => vstd::pervasive::unreached(),
        }
    }

    /// The documentation lines of a well-formed docs node.
    pub fn as_task_docs(&self) -> (r: &Vec<Vec<u8>>)
        requires
            self is TaskDocs,
        ensures
            *r == self->TaskDocs_0,
    {
        match self {
            AstNode::TaskDocs(d) => d,
            _ => vstd::pervasive::unreached(),
        }
    }

    /// The script node of a well-formed task definition.
    pub fn as_task_script(&self) -> (r: &AstTaskScript)
        requires
            self is TaskScript,
        ensures
            *r == self->TaskScript_0,
    {
        match self {
            AstNode::TaskScript(s) => s,
            _ => vstd::pervasive::unreached(),
        }
    }

    /// The dependency data of a well-formed dependency node.
    pub fn as_task_dep(&self) -> (r: &AstTaskDep)
        requires
            self is TaskDep,
        ensures
            *r == self->TaskDep_0,
    {
        match self {
            AstNode::TaskDep(d) => d,
            _ => vstd::pervasive::unreached(),
        }
    }

    /// A value node holds either a literal or a command substitution.
    pub open spec fn wf_value(self) -> bool {
        self is VarValue || self is CommandSubstitution
    }

    /// A header node whose dependency children are all dependency nodes.
    pub open spec fn wf_header(self) -> bool {
        &&& self is TaskHeader
        &&& forall|i: int|
            0 <= i < self->TaskHeader_0.deps@.len() ==> #[trigger] self->TaskHeader_0.deps@[i]
                is TaskDep
    }

    /// A top-level child of the root: an assignment over a value node, or a
    /// task definition whose pieces are the expected node kinds.
    pub open spec fn wf_item(self) -> bool {
        match self {
            AstNode::VarAssignment(a) => (*a.value).wf_value(),
            AstNode::TaskDef(d) => {
                &&& (*d.header).wf_header()
                &&& *d.script is TaskScript
                &&& match d.docs {
                    Some(b) => *b is TaskDocs,
                    None => true,
                }
            },
            _ => false,
        }
    }

    /// What the parser returns: a root whose children are well-formed items.
    pub open spec fn wf_root(self) -> bool {
        &&& self is Root
        &&& forall|i: int| 0 <= i < self->Root_0@.len() ==> (#[trigger] self->Root_0@[i]).wf_item()
    }

    /// The model of a dependency node.
    pub open spec fn dep_view(self) -> DepView {
        DepView { name: self->TaskDep_0.name@, run_always: self->TaskDep_0.run_always }
    }

    /// The model of a value node.
    pub open spec fn value_view(self) -> ValueView {
        match self {
            AstNode::VarValue(v) => ValueView::Lit(v@),
            AstNode::CommandSubstitution(c) => ValueView::Command(c@),
            _ => arbitrary(),
        }
    }

    /// The model of a top-level item.
    pub open spec fn item_view(self) -> ItemView {
        match self {
            AstNode::VarAssignment(a) => ItemView::Assign {
                name: a.name@,
                value: (*a.value).value_view(),
            },
            AstNode::TaskDef(d) => ItemView::Task(d.task_def_view()),
            _ => arbitrary(),
        }
    }

    /// The models of all children of a root node.
    pub open spec fn root_items(self) -> Seq<ItemView> {
        self->Root_0@.map_values(|n: AstNode| n.item_view())
    }
}

impl AstTaskDef {
    /// The model of a well-formed task definition.
    pub open spec fn task_def_view(self) -> TaskDefView {
        TaskDefView {
            docs: match self.docs {
                Some(b) => Some((*b)->TaskDocs_0.deep_view()),
                None => None,
            },
            name: (*self.header)->TaskHeader_0.name@,
            deps: (*self.header)->TaskHeader_0.deps@.map_values(|n: AstNode| n.dep_view()),
            hash_bang: (*self.script)->TaskScript_0.hash_bang.deep_view(),
            lines: (*self.script)->TaskScript_0.lines.deep_view(),
        }
    }
}

} // verus!
