//! The variable resolver: walking the file's assignments in document order,
//! taking literal values verbatim and command-substitution values from the
//! captured output of their subshells, with trailing newlines stripped and
//! later assignments overwriting earlier ones.
//!
//! Running the subshells is input/output and happens outside the library:
//! [`extract_commands`] lists the command texts in order, and
//! [`build_var_map`] consumes one captured output per command.

use vstd::prelude::*;

use crate::ast::{AstNode, ItemView, ValueView};
use crate::scan::{bytes_eq, copy_bytes, copy_range, find_in, scan_find_in};

verus! {

broadcast use crate::scan::lemma_bytes_deep_view;

/// A trailing byte that command substitution strips.
pub open spec fn is_trailing_nl(c: u8) -> bool {
    c == 10 || c == 13
}

/// `s` without its maximal trailing run of carriage returns and line feeds.
pub open spec fn trim_end_nl(s: Seq<u8>) -> Seq<u8>
    decreases s.len(),
{
    if s.len() == 0 || !is_trailing_nl(s[s.len() - 1]) {
        s
    } else {
        trim_end_nl(s.drop_last())
    }
}

/// What the trimming does, stated by itself: the result is the prefix of
/// the input left after removing the maximal trailing run of carriage
/// returns and line feeds — so inner newlines survive and nothing else is
/// touched.
pub proof fn lemma_trim_exact(s: Seq<u8>)
    ensures
        ({
            let r = trim_end_nl(s);
            &&& r.len() <= s.len()
            &&& r == s.take(r.len() as int)
            &&& forall|k: int| r.len() <= k < s.len() ==> is_trailing_nl(#[trigger] s[k])
            &&& r.len() > 0 ==> !is_trailing_nl(r[r.len() - 1])
        }),
    decreases s.len(),
{
    if s.len() > 0 && is_trailing_nl(s[s.len() - 1]) {
        lemma_trim_exact(s.drop_last());
        let r = trim_end_nl(s);
        assert(r == trim_end_nl(s.drop_last()));
        assert(r.len() <= s.drop_last().len());
        assert(s.drop_last().take(r.len() as int) =~= s.take(r.len() as int));
        assert forall|k: int| r.len() <= k < s.len() implies is_trailing_nl(#[trigger] s[k]) by {
            if k < s.len() - 1 {
                assert(s.drop_last()[k] == s[k]);
            }
        }
    } else {
        assert(s.take(s.len() as int) =~= s);
    }
}

/// Strips every trailing carriage return and line feed, and nothing else:
/// inner newlines stay.
pub fn trim_command_output(out: Vec<u8>) -> (r: Vec<u8>)
    ensures
        r@ == trim_end_nl(out@),
{
    let mut e: usize = out.len();
    proof {
        assert(out@.take(out@.len() as int) =~= out@);
    }
    while e > 0 && (out[e - 1] == 10 || out[e - 1] == 13)
        invariant
            e <= out.len(),
            trim_end_nl(out@) == trim_end_nl(out@.take(e as int)),
        decreases e,
    {
        proof {
            assert(out@.take(e as int).drop_last() =~= out@.take(e - 1));
        }
        e = e - 1;
    }
    let r = crate::scan::copy_range(&out, 0, e);
    proof {
        assert(r@ =~= out@.take(e as int));
    }
    r
}

/// The command texts of the file's command-substitution assignments, in
/// document order.
pub open spec fn commands_of(items: Seq<ItemView>) -> Seq<Seq<u8>>
    decreases items.len(),
{
    if items.len() == 0 {
        Seq::empty()
    } else {
        let rest = commands_of(items.drop_first());
        match items[0] {
            ItemView::Assign { name, value } => match value {
                ValueView::Command(c) => seq![c] + rest,
                ValueView::Lit(_) => rest,
            },
            ItemView::Task(_) => rest,
        }
    }
}

/// The name/value pairs produced by the assignments, in document order; each
/// command substitution takes the next captured output, trimmed.
pub open spec fn spec_bindings(items: Seq<ItemView>, outputs: Seq<Seq<u8>>) -> Seq<
    (Seq<u8>, Seq<u8>),
>
    decreases items.len(),
{
    if items.len() == 0 {
        Seq::empty()
    } else {
        match items[0] {
            ItemView::Assign { name, value } => match value {
                ValueView::Lit(v) => seq![(name, v)] + spec_bindings(items.drop_first(), outputs),
                ValueView::Command(c) => seq![(name, trim_end_nl(outputs[0]))] + spec_bindings(
                    items.drop_first(),
                    outputs.drop_first(),
                ),
            },
            ItemView::Task(_) => spec_bindings(items.drop_first(), outputs),
        }
    }
}

/// Splits a NAME=VALUE argument from the command line at its first equals
/// sign; an argument without one names the empty value.
pub fn split_env_assignment(e: &Vec<u8>) -> (r: (Vec<u8>, Vec<u8>))
    ensures
        ({
            let p = find_in(e@, 0, e@.len() as int, 61);
            &&& r.0@ == e@.take(p)
            &&& r.1@ == (if p < e@.len() {
                e@.subrange(p + 1, e@.len() as int)
            } else {
                Seq::<u8>::empty()
            })
        }),
{
    let p = scan_find_in(e, 0, e.len(), 61);
    if p < e.len() {
        (copy_range(e, 0, p), copy_range(e, p + 1, e.len()))
    } else {
        let whole = copy_bytes(e);
        proof {
            assert(e@.take(p as int) =~= e@);
        }
        (whole, Vec::new())
    }
}

/// A file with no items binds no variables.
pub proof fn lemma_no_items_no_vars()
    ensures
        spec_bindings(Seq::empty(), Seq::empty()) == Seq::<(Seq<u8>, Seq<u8>)>::empty(),
{
}

/// The value of `name` under last-write-wins.
pub open spec fn lookup_binding(bs: Seq<(Seq<u8>, Seq<u8>)>, name: Seq<u8>) -> Option<Seq<u8>>
    decreases bs.len(),
{
    if bs.len() == 0 {
        None
    } else if bs.last().0 == name {
        Some(bs.last().1)
    } else {
        lookup_binding(bs.drop_last(), name)
    }
}

/// One resolved variable.
#[derive(Debug, PartialEq)]
pub struct VarBinding {
    pub name: Vec<u8>,
    pub value: Vec<u8>,
}

/// The resolved variables of a run, in assignment order; a later entry for
/// the same name overrides an earlier one.
#[derive(Debug, PartialEq)]
pub struct VarTable {
    entries: Vec<VarBinding>,
}

impl View for VarTable {
    type V = Seq<(Seq<u8>, Seq<u8>)>;

    closed spec fn view(&self) -> Seq<(Seq<u8>, Seq<u8>)> {
        self.entries@.map_values(|b: VarBinding| (b.name@, b.value@))
    }
}

impl VarTable {
    pub fn new() -> (r: Self)
        ensures
            r@.len() == 0,
    {
        Self { entries: Vec::new() }
    }

    /// The bindings in assignment order, for building a child environment;
    /// applying them in order gives each name its last value.
    pub fn entries(&self) -> (r: &Vec<VarBinding>)
        ensures
            r@.len() == self@.len(),
            forall|i: int|
                0 <= i < r@.len() ==> (#[trigger] r@[i]).name@ == self@[i].0 && r@[i].value@
                    == self@[i].1,
    {
        &self.entries
    }

    /// The value of `name`, with later assignments overriding earlier ones.
    pub fn get<'a>(&'a self, name: &Vec<u8>) -> (r: Option<&'a Vec<u8>>)
        ensures
            match r {
                Some(v) => lookup_binding(self@, name@) == Some(v@),
                None => lookup_binding(self@, name@) is None,
            },
    {
        let mut i: usize = self.entries.len();
        proof {
            assert(self@.take(i as int) =~= self@);
        }
        while i > 0
            invariant
                i <= self.entries.len(),
                lookup_binding(self@, name@) == lookup_binding(self@.take(i as int), name@),
            decreases i,
        {
            proof {
                assert(self@.take(i as int).last() == self@[i - 1]);
                assert(self@.take(i as int).drop_last() =~= self@.take(i - 1));
            }
            if bytes_eq(&self.entries[i - 1].name, name) {
                return Some(&self.entries[i - 1].value);
            }
            i = i - 1;
        }
        proof {
            assert(self@.take(0).len() == 0);
        }
        None
    }

    /// Appends one binding.
    fn push_binding(&mut self, name: Vec<u8>, value: Vec<u8>)
        ensures
            final(self)@ == old(self)@.push((name@, value@)),
    {
        let ghost prev = self@;
        self.entries.push(VarBinding { name, value });
        proof {
            assert(self@ =~= prev.push((name@, value@)));
        }
    }
}

/// Lists the command texts of the file's command substitutions, in document
/// order, for the caller to run.
#[verifier::loop_isolation(false)]
pub fn extract_commands(el: &AstNode) -> (r: Vec<Vec<u8>>)
    requires
        el.wf_root(),
    ensures
        r.deep_view() == commands_of(el.root_items()),
{
    let children: &Vec<AstNode> = match el {
        AstNode::Root(v) => v,
        _ => vstd::pervasive::unreached(),
    };
    let ghost ivs = el.root_items();
    let mut out: Vec<Vec<u8>> = Vec::new();
    proof {
        assert(ivs.skip(0) =~= ivs);
        assert(out.deep_view() =~= Seq::<Seq<u8>>::empty());
    }
    let mut i: usize = 0;
    while i < children.len()
        invariant
            i <= children.len(),
            commands_of(ivs) == out.deep_view() + commands_of(ivs.skip(i as int)),
        decreases children.len() - i,
    {
        proof {
            assert(el->Root_0@[i as int].wf_item());
            assert(ivs.skip(i as int)[0] == ivs[i as int]);
            assert(ivs.skip(i as int).drop_first() =~= ivs.skip(i + 1));
        }
        match &children[i] {
            AstNode::VarAssignment(a) => {
                match &*a.value {
                    AstNode::CommandSubstitution(c) => {
                        let cmd = copy_bytes(c);
                        let ghost prev = out.deep_view();
                        out.push(cmd);
                        proof {
                            assert(out.deep_view() =~= prev.push(c@));
                            assert(prev + (seq![c@] + commands_of(ivs.skip(i + 1))) =~= (prev
                                + seq![c@]) + commands_of(ivs.skip(i + 1)));
                        }
                    },
                    _ => {},
                }
            },
            _ => {},
        }
        i = i + 1;
    }
    proof {
        assert(commands_of(ivs.skip(i as int)) =~= Seq::<Seq<u8>>::empty());
        assert(out.deep_view() + Seq::<Seq<u8>>::empty() =~= out.deep_view());
    }
    out
}

/// Walks the file's items in order and fills the variable table: literals
/// verbatim, each command substitution as the trimmed captured output of its
/// subshell, later assignments overwriting earlier ones.
#[verifier::loop_isolation(false)]
pub fn build_var_map(el: &AstNode, outputs: &Vec<Vec<u8>>, vars: &mut VarTable)
    requires
        el.wf_root(),
        outputs.deep_view().len() == commands_of(el.root_items()).len(),
        old(vars)@.len() == 0,
    ensures
        final(vars)@ == spec_bindings(el.root_items(), outputs.deep_view()),
{
    let children: &Vec<AstNode> = match el {
        AstNode::Root(v) => v,
        _ => vstd::pervasive::unreached(),
    };
    let ghost ivs = el.root_items();
    let ghost odv = outputs.deep_view();
    let mut ci: usize = 0;
    proof {
        assert(ivs.skip(0) =~= ivs);
        assert(odv.skip(0) =~= odv);
        assert(vars@ =~= Seq::<(Seq<u8>, Seq<u8>)>::empty());
    }
    let mut i: usize = 0;
    while i < children.len()
        invariant
            i <= children.len(),
            ci <= outputs.len(),
            commands_of(ivs.skip(i as int)).len() == odv.len() - ci,
            spec_bindings(ivs, odv) == vars@ + spec_bindings(
                ivs.skip(i as int),
                odv.skip(ci as int),
            ),
        decreases children.len() - i,
    {
        proof {
            assert(el->Root_0@[i as int].wf_item());
            assert(ivs.skip(i as int)[0] == ivs[i as int]);
            assert(ivs.skip(i as int).drop_first() =~= ivs.skip(i + 1));
        }
        match &children[i] {
            AstNode::VarAssignment(a) => {
                let name = copy_bytes(&a.name);
                match &*a.value {
                    AstNode::VarValue(v) => {
                        let ghost prev = vars@;
                        let value = copy_bytes(v);
                        vars.push_binding(name, value);
                        proof {
                            assert(prev + (seq![(a.name@, v@)] + spec_bindings(
                                ivs.skip(i + 1),
                                odv.skip(ci as int),
                            )) =~= (prev + seq![(a.name@, v@)]) + spec_bindings(
                                ivs.skip(i + 1),
                                odv.skip(ci as int),
                            ));
                        }
                    },
                    AstNode::CommandSubstitution(c) => {
                        proof {
                            assert(odv.skip(ci as int)[0] == odv[ci as int]);
                            assert(odv.skip(ci as int).drop_first() =~= odv.skip(ci + 1));
                        }
                        let ghost prev = vars@;
                        let value = trim_command_output(copy_bytes(&outputs[ci]));
                        vars.push_binding(name, value);
                        ci = ci + 1;
                        proof {
                            let b = (a.name@, trim_end_nl(odv[ci - 1]));
                            assert(prev + (seq![b] + spec_bindings(
                                ivs.skip(i + 1),
                                odv.skip(ci as int),
                            )) =~= (prev + seq![b]) + spec_bindings(
                                ivs.skip(i + 1),
                                odv.skip(ci as int),
                            ));
                        }
                    },
                    _ => {
                        proof {
                            assert(false);
                        }
                    },
                }
            },
            _ => {},
        }
        i = i + 1;
    }
    proof {
        assert(spec_bindings(ivs.skip(i as int), odv.skip(ci as int)) =~= Seq::<
            (Seq<u8>, Seq<u8>),
        >::empty());
        assert(vars@ + Seq::<(Seq<u8>, Seq<u8>)>::empty() =~= vars@);
    }
}

} // verus!
