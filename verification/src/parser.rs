//! The executable parser. Every function here is proved to return exactly
//! what the grammar functions of [`crate::grammar`] describe.

use vstd::prelude::*;

use crate::ast::{AstNode, AstTaskDef, AstTaskDep, AstTaskHeader, AstTaskScript, AstVarAssignment};
use crate::grammar::{
    assign_line_at, blank_line_at, comment_line_at, docs_block_end, docs_content_start, docs_lines,
    docs_line_at, hash_bang_line, hash_bang_tokens, has_content, header_line_at, indent_of,
    lemma_docs_block_end, parse_assign_at, parse_deps_at, parse_items_from, parse_script_at,
    parse_task_at, parse_value_at, raw_script_lines, script_block_end, script_line_at, spec_parse,
    strip_indent, Expected, SyntaxErr,
};
use crate::scan::{
    copy_range, ident_byte, is_blank, is_ws, leading_ws, next_line, scan_find_in, scan_find_triple,
    scan_ident_end, scan_leading_ws, scan_line_end, scan_rtrim, scan_skip_line_ws, scan_token_end,
    tokens_from, triple_quote_at,
};

verus! {

broadcast use crate::scan::lemma_bytes_deep_view;

/// Position where the line after the one starting at `from` begins.
fn next_line_pos(buf: &Vec<u8>, from: usize) -> (r: usize)
    requires
        from <= buf.len(),
    ensures
        r == next_line(buf@, from as int),
        from <= r <= buf.len(),
{
    let e = scan_line_end(buf, from);
    if e >= buf.len() {
        buf.len()
    } else {
        e + 1
    }
}

/// Whether the whole of `line` is whitespace.
pub fn is_whitespace(line: &Vec<u8>) -> (r: bool)
    ensures
        r == is_blank(line@),
{
    let mut i: usize = 0;
    while i < line.len()
        invariant
            i <= line.len(),
            forall|k: int| 0 <= k < i ==> is_ws(line@[k]),
        decreases line.len() - i,
    {
        let c = line[i];
        if !(c == 32 || c == 9 || c == 13 || c == 10) {
            return false;
        }
        i = i + 1;
    }
    true
}

/// Count of leading whitespace bytes of `line`.
pub fn leading_whitespace(line: &Vec<u8>) -> (r: usize)
    ensures
        r == leading_ws(line@, 0),
{
    scan_leading_ws(line, 0)
}

/// The common indentation of a script body: the leading whitespace of its
/// first non-blank line, or zero when every line is blank.
pub fn find_indent(script: &Vec<Vec<u8>>) -> (r: usize)
    ensures
        r == indent_of(script.deep_view()),
{
    let ghost full = script.deep_view();
    proof {
        assert(full.skip(0) =~= full);
    }
    let mut i: usize = 0;
    while i < script.len()
        invariant
            i <= script.len(),
            full == script.deep_view(),
            indent_of(full) == indent_of(full.skip(i as int)),
        decreases script.len() - i,
    {
        let blank = is_whitespace(&script[i]);
        proof {
            assert(full.skip(i as int)[0] == full[i as int]);
            assert(full.skip(i as int).drop_first() =~= full.skip(i + 1));
        }
        if !blank {
            return leading_whitespace(&script[i]);
        }
        i = i + 1;
    }
    proof {
        assert(full.skip(i as int).len() == 0);
    }
    0
}

/// Strips the common indentation from every line of a script body: lines long
/// enough lose exactly that many leading bytes, shorter lines are unchanged.
pub fn process_script(script: &mut Vec<Vec<u8>>)
    ensures
        final(script).deep_view() == strip_indent(
            old(script).deep_view(),
            indent_of(old(script).deep_view()),
        ),
{
    let ghost full = script.deep_view();
    let indent = find_indent(script);
    let mut out: Vec<Vec<u8>> = Vec::new();
    let mut i: usize = 0;
    while i < script.len()
        invariant
            i <= script.len(),
            full == script.deep_view(),
            indent == indent_of(full),
            out.deep_view() =~= strip_indent(full, indent as int).take(i as int),
        decreases script.len() - i,
    {
        let line = &script[i];
        let stripped: Vec<u8> = if line.len() >= indent {
            copy_range(line, indent, line.len())
        } else {
            copy_range(line, 0, line.len())
        };
        proof {
            assert(stripped@ == (if full[i as int].len() >= indent as int {
                full[i as int].skip(indent as int)
            } else {
                full[i as int]
            }));
        }
        let ghost prev = out.deep_view();
        out.push(stripped);
        proof {
            let k = indent as int;
            assert(strip_indent(full, k)[i as int] == (if full[i as int].len() >= k {
                full[i as int].skip(k)
            } else {
                full[i as int]
            }));
            assert(out.deep_view() =~~= prev + seq![stripped@]);
            assert(out.deep_view() =~= strip_indent(full, k).take(i + 1));
        }
        i = i + 1;
    }
    proof {
        assert(strip_indent(full, indent as int).take(i as int) =~= strip_indent(
            full,
            indent as int,
        ));
    }
    *script = out;
}

/// Splits the rest of a hash-bang line into whitespace-separated tokens.
fn split_tokens(line: &Vec<u8>, from: usize) -> (r: Vec<Vec<u8>>)
    requires
        from <= line.len(),
    ensures
        r.deep_view() == tokens_from(line@, from as int),
{
    let mut out: Vec<Vec<u8>> = Vec::new();
    let mut i: usize = from;
    while i < line.len()
        invariant
            from <= i <= line.len(),
            tokens_from(line@, from as int) == out.deep_view() + tokens_from(line@, i as int),
        decreases line.len() - i,
    {
        let c = line[i];
        if c == 32 || c == 9 || c == 13 || c == 10 {
            i = i + 1;
        } else {
            let te = scan_token_end(line, i);
            let tok = copy_range(line, i, te);
            proof {
                crate::scan::lemma_token_end(line@, i as int);
                assert((out.deep_view() + seq![tok@]) + tokens_from(line@, te as int)
                    =~= out.deep_view() + (seq![tok@] + tokens_from(line@, te as int)));
            }
            let ghost prev = out.deep_view();
            out.push(tok);
            proof {
                assert(out.deep_view() =~~= prev + seq![tok@]);
            }
            i = te;
        }
    }
    proof {
        assert(out.deep_view() + tokens_from(line@, i as int) =~= out.deep_view());
    }
    out
}

/// Collects the run of documentation lines starting at `i`: their text (after
/// `##` and at most one space, keeping the terminator) and the position of
/// the first line after the run.
fn collect_docs(buf: &Vec<u8>, start: usize) -> (r: (Vec<Vec<u8>>, usize))
    requires
        start <= buf.len(),
    ensures
        r.0.deep_view() == docs_lines(buf@, start as int),
        r.1 == docs_block_end(buf@, start as int),
        start <= r.1 <= buf.len(),
{
    let mut out: Vec<Vec<u8>> = Vec::new();
    let mut i: usize = start;
    loop
        invariant
            start <= i <= buf.len(),
            docs_lines(buf@, start as int) == out.deep_view() + docs_lines(buf@, i as int),
            docs_block_end(buf@, start as int) == docs_block_end(buf@, i as int),
        decreases buf.len() - i,
    {
        let is_docs = buf.len() - i > 1 && buf[i] == 35 && buf[i + 1] == 35;
        proof {
            assert(is_docs == docs_line_at(buf@, i as int));
        }
        if !is_docs {
            proof {
                assert(out.deep_view() + docs_lines(buf@, i as int) =~= out.deep_view());
            }
            return (out, i);
        }
        let e = scan_line_end(buf, i);
        let nl = next_line_pos(buf, i);
        let cs: usize = if i + 2 < e && buf[i + 2] == 32 {
            i + 3
        } else {
            i + 2
        };
        proof {
            assert(cs as int == docs_content_start(buf@, i as int));
            assert(cs <= nl);
        }
        let text = copy_range(buf, cs, nl);
        let ghost prev = out.deep_view();
        out.push(text);
        proof {
            assert(out.deep_view() =~~= prev + seq![text@]);
            assert((prev + seq![text@]) + docs_lines(buf@, nl as int) =~= prev + (seq![text@]
                + docs_lines(buf@, nl as int)));
        }
        i = nl;
    }
}

/// Collects the raw lines of the script block starting at `h` and the
/// position of the first line after the block.
fn collect_script(buf: &Vec<u8>, h: usize) -> (r: (Vec<Vec<u8>>, usize))
    requires
        h <= buf.len(),
    ensures
        r.0.deep_view() == raw_script_lines(buf@, h as int),
        r.1 == script_block_end(buf@, h as int),
        h <= r.1 <= buf.len(),
{
    let mut out: Vec<Vec<u8>> = Vec::new();
    let mut i: usize = h;
    loop
        invariant
            h <= i <= buf.len(),
            raw_script_lines(buf@, h as int) == out.deep_view() + raw_script_lines(
                buf@,
                i as int,
            ),
            script_block_end(buf@, h as int) == script_block_end(buf@, i as int),
        decreases buf.len() - i,
    {
        let cont = i < buf.len() && (buf[i] == 10 || buf[i] == 32 || buf[i] == 9 || buf[i] == 13);
        proof {
            assert(cont == script_line_at(buf@, i as int));
        }
        if !cont {
            proof {
                assert(out.deep_view() + raw_script_lines(buf@, i as int) =~= out.deep_view());
            }
            return (out, i);
        }
        let nl = next_line_pos(buf, i);
        let line = copy_range(buf, i, nl);
        let ghost prev = out.deep_view();
        out.push(line);
        proof {
            assert(out.deep_view() =~~= prev + seq![line@]);
            assert((prev + seq![line@]) + raw_script_lines(buf@, nl as int) =~= prev + (seq![
                line@,
            ] + raw_script_lines(buf@, nl as int)));
        }
        i = nl;
    }
}



/// The models of the dependency nodes of a header.
pub open spec fn dep_views(deps: Seq<AstNode>) -> Seq<crate::ast::DepView> {
    deps.map_values(|n: AstNode| n.dep_view())
}

/// The models of the top-level item nodes collected so far.
pub open spec fn item_views(items: Seq<AstNode>) -> Seq<crate::ast::ItemView> {
    items.map_values(|n: AstNode| n.item_view())
}

/// Whether a task header starts at `i`.
fn is_header_line(buf: &Vec<u8>, i: usize) -> (r: bool)
    requires
        i <= buf.len(),
    ensures
        r == header_line_at(buf@, i as int),
{
    if i < buf.len() && ident_byte(buf[i]) {
        let k = scan_ident_end(buf, i);
        let m = scan_skip_line_ws(buf, k);
        m < buf.len() && buf[m] == 58
    } else {
        false
    }
}

/// Whether a variable assignment starts at `i`.
fn is_assign_line(buf: &Vec<u8>, i: usize) -> (r: bool)
    requires
        i <= buf.len(),
    ensures
        r == assign_line_at(buf@, i as int),
{
    if i < buf.len() && ident_byte(buf[i]) {
        let k = scan_ident_end(buf, i);
        let m = scan_skip_line_ws(buf, k);
        m < buf.len() && buf[m] == 61
    } else {
        false
    }
}

/// Parses the value of an assignment beginning at `v`.
fn parse_value(buf: &Vec<u8>, v: usize) -> (r: Result<(AstNode, usize), SyntaxErr>)
    requires
        v <= buf.len(),
    ensures
        match r {
            Ok((node, n)) => {
                &&& node.wf_value()
                &&& n <= buf.len()
                &&& parse_value_at(buf@, v as int) == Ok::<(crate::ast::ValueView, int), SyntaxErr>(
                    (node.value_view(), n as int),
                )
            },
            Err(e) => parse_value_at(buf@, v as int) == Err::<
                (crate::ast::ValueView, int),
                SyntaxErr,
            >(e),
        },
{
    let e = scan_line_end(buf, v);
    if v >= e {
        let n = next_line_pos(buf, v);
        let empty: Vec<u8> = Vec::new();
        return Ok((AstNode::VarValue(empty), n));
    }
    let c0 = buf[v];
    if c0 == 39 {
        let c = scan_find_in(buf, v + 1, e, 39);
        if c >= e {
            return Err(SyntaxErr { pos: v, expected: Expected::ClosingQuote });
        }
        let rest = scan_skip_line_ws(buf, c + 1);
        if rest < e {
            return Err(SyntaxErr { pos: rest, expected: Expected::LineEnd });
        }
        let content = copy_range(buf, v + 1, c);
        let n = next_line_pos(buf, v);
        return Ok((AstNode::VarValue(content), n));
    }
    let triple = buf.len() - v >= 3 && buf[v] == 34 && buf[v + 1] == 34 && buf[v + 2] == 34;
    proof {
        assert(triple == triple_quote_at(buf@, v as int));
    }
    if triple {
        let t = scan_find_triple(buf, v + 3);
        if buf.len() - t < 3 {
            return Err(SyntaxErr { pos: v, expected: Expected::ClosingQuote });
        }
        let e2 = scan_line_end(buf, t + 3);
        let rest = scan_skip_line_ws(buf, t + 3);
        if rest < e2 {
            return Err(SyntaxErr { pos: rest, expected: Expected::LineEnd });
        }
        let content = copy_range(buf, v + 3, t);
        let n = next_line_pos(buf, t + 3);
        return Ok((AstNode::VarValue(content), n));
    }
    if c0 == 34 {
        let c = scan_find_in(buf, v + 1, e, 34);
        if c >= e {
            return Err(SyntaxErr { pos: v, expected: Expected::ClosingQuote });
        }
        let rest = scan_skip_line_ws(buf, c + 1);
        if rest < e {
            return Err(SyntaxErr { pos: rest, expected: Expected::LineEnd });
        }
        let content = copy_range(buf, v + 1, c);
        let n = next_line_pos(buf, v);
        return Ok((AstNode::VarValue(content), n));
    }
    if c0 == 36 && v + 1 < e && buf[v + 1] == 40 {
        let w = scan_rtrim(buf, v + 2, e);
        if w > v + 2 && buf[w - 1] == 41 {
            let content = copy_range(buf, v + 2, w - 1);
            let n = next_line_pos(buf, v);
            return Ok((AstNode::CommandSubstitution(content), n));
        }
        return Err(SyntaxErr { pos: v, expected: Expected::ClosingParen });
    }
    let w = scan_rtrim(buf, v, e);
    let content = copy_range(buf, v, w);
    let n = next_line_pos(buf, v);
    Ok((AstNode::VarValue(content), n))
}

/// Parses a whole assignment item starting at `i`.
fn parse_assign(buf: &Vec<u8>, i: usize) -> (r: Result<(AstNode, usize), SyntaxErr>)
    requires
        i <= buf.len(),
        assign_line_at(buf@, i as int),
    ensures
        match r {
            Ok((node, n)) => {
                &&& node.wf_item()
                &&& i < n <= buf.len()
                &&& parse_assign_at(buf@, i as int) == Ok::<(crate::ast::ItemView, int), SyntaxErr>(
                    (node.item_view(), n as int),
                )
            },
            Err(e) => parse_assign_at(buf@, i as int) == Err::<
                (crate::ast::ItemView, int),
                SyntaxErr,
            >(e),
        },
{
    let k = scan_ident_end(buf, i);
    let name = copy_range(buf, i, k);
    let eqp = scan_skip_line_ws(buf, k);
    proof {
        assert(eqp as int == crate::grammar::after_ident(buf@, i as int));
    }
    let v = scan_skip_line_ws(buf, eqp + 1);
    match parse_value(buf, v) {
        Ok((vnode, n)) => {
            let node = AstNode::VarAssignment(
                AstVarAssignment { name, value: Box::new(vnode) },
            );
            proof {
                crate::grammar::lemma_parse_value_at(buf@, v as int);
            }
            Ok((node, n))
        },
        Err(e) => Err(e),
    }
}

/// Parses a dependency list from `start` (just after the opening
/// parenthesis).
fn parse_deps(buf: &Vec<u8>, start: usize) -> (r: Result<(Vec<AstNode>, usize), SyntaxErr>)
    requires
        start <= buf.len(),
    ensures
        match r {
            Ok((deps, q)) => {
                &&& q <= buf.len()
                &&& forall|j: int| 0 <= j < deps@.len() ==> (#[trigger] deps@[j]) is TaskDep
                &&& parse_deps_at(buf@, start as int) == Ok::<
                    (Seq<crate::ast::DepView>, int),
                    SyntaxErr,
                >((dep_views(deps@), q as int))
            },
            Err(e) => parse_deps_at(buf@, start as int) == Err::<
                (Seq<crate::ast::DepView>, int),
                SyntaxErr,
            >(e),
        },
{
    let mut deps: Vec<AstNode> = Vec::new();
    let mut cur: usize = start;
    proof {
        assert(dep_views(deps@) =~= Seq::<crate::ast::DepView>::empty());
    }
    loop
        invariant
            start <= cur <= buf.len(),
            forall|j: int| 0 <= j < deps@.len() ==> (#[trigger] deps@[j]) is TaskDep,
            parse_deps_at(buf@, start as int) == (match parse_deps_at(buf@, cur as int) {
                Ok((ds, q)) => Ok::<(Seq<crate::ast::DepView>, int), SyntaxErr>(
                    (dep_views(deps@) + ds, q),
                ),
                Err(e) => Err::<(Seq<crate::ast::DepView>, int), SyntaxErr>(e),
            }),
        decreases buf.len() - cur,
    {
        let q = scan_skip_line_ws(buf, cur);
        if q < buf.len() && buf[q] == 41 {
            proof {
                assert(dep_views(deps@) + Seq::<crate::ast::DepView>::empty() =~= dep_views(
                    deps@,
                ));
            }
            return Ok((deps, q + 1));
        }
        if q >= buf.len() || !ident_byte(buf[q]) {
            return Err(SyntaxErr { pos: q, expected: Expected::Dependency });
        }
        let k = scan_ident_end(buf, q);
        let ra = k < buf.len() && buf[k] == 33;
        let k2: usize = if ra {
            k + 1
        } else {
            k
        };
        let sep = scan_skip_line_ws(buf, k2);
        let sep2: usize = if sep < buf.len() && buf[sep] == 44 {
            sep + 1
        } else {
            sep
        };
        let name = copy_range(buf, q, k);
        let ghost prevdeps = deps@;
        let ghost d = crate::ast::DepView {
            name: buf@.subrange(q as int, k as int),
            run_always: ra,
        };
        deps.push(AstNode::TaskDep(AstTaskDep { name, run_always: ra }));
        proof {
            assert(dep_views(deps@) =~= dep_views(prevdeps) + seq![d]);
            match parse_deps_at(buf@, sep2 as int) {
                Ok(pr) => {
                    assert(dep_views(prevdeps) + (seq![d] + pr.0) =~= (dep_views(prevdeps)
                        + seq![d]) + pr.0);
                },
                Err(e) => {},
            }
        }
        cur = sep2;
    }
}

/// Parses the script block that starts at line position `h`.
fn parse_script(buf: &Vec<u8>, h: usize) -> (r: Result<
    (Option<Vec<Vec<u8>>>, Vec<Vec<u8>>, usize),
    SyntaxErr,
>)
    requires
        h <= buf.len(),
    ensures
        match r {
            Ok((hb, lines, n)) => {
                &&& h <= n <= buf.len()
                &&& parse_script_at(buf@, h as int) == Ok::<
                    (Option<Seq<Seq<u8>>>, Seq<Seq<u8>>, int),
                    SyntaxErr,
                >((hb.deep_view(), lines.deep_view(), n as int))
            },
            Err(e) => parse_script_at(buf@, h as int) == Err::<
                (Option<Seq<Seq<u8>>>, Seq<Seq<u8>>, int),
                SyntaxErr,
            >(e),
        },
{
    let (mut raws, end) = collect_script(buf, h);
    let ghost rdv = raws.deep_view();
    let mut found = false;
    let mut j: usize = 0;
    while j < raws.len()
        invariant
            j <= raws.len(),
            rdv == raws.deep_view(),
            found == exists|k: int| 0 <= k < j && !is_blank(rdv[k]),
        decreases raws.len() - j,
    {
        if !is_whitespace(&raws[j]) {
            proof {
                assert(!is_blank(rdv[j as int]));
            }
            found = true;
        }
        j = j + 1;
    }
    proof {
        assert(found == has_content(rdv));
    }
    if !found {
        return Err(SyntaxErr { pos: h, expected: Expected::Script });
    }
    proof {
        assert(rdv.len() > 0);
    }
    let a = scan_leading_ws(&raws[0], 0);
    let hb_line = raws[0].len() - a > 1 && raws[0][a] == 35 && raws[0][a + 1] == 33;
    proof {
        assert(hb_line == hash_bang_line(rdv[0]));
    }
    if hb_line {
        let toks = split_tokens(&raws[0], a + 2);
        proof {
            assert(toks.deep_view() == hash_bang_tokens(rdv[0]));
        }
        let _ = raws.remove(0);
        proof {
            assert(raws.deep_view() =~= rdv.drop_first());
        }
        let ghost bodydv = raws.deep_view();
        process_script(&mut raws);
        proof {
            assert(raws.deep_view() == strip_indent(bodydv, indent_of(bodydv)));
        }
        return Ok((Some(toks), raws, end));
    }
    process_script(&mut raws);
    Ok((None, raws, end))
}

/// Parses a whole task definition whose header starts at `i`, attaching the
/// already-collected documentation lines.
fn parse_task(buf: &Vec<u8>, i: usize, docs: Option<Vec<Vec<u8>>>) -> (r: Result<
    (AstNode, usize),
    SyntaxErr,
>)
    requires
        i <= buf.len(),
        header_line_at(buf@, i as int),
    ensures
        match r {
            Ok((node, n)) => {
                &&& node.wf_item()
                &&& i < n <= buf.len()
                &&& parse_task_at(buf@, i as int, docs.deep_view()) == Ok::<
                    (crate::ast::ItemView, int),
                    SyntaxErr,
                >((node.item_view(), n as int))
            },
            Err(e) => parse_task_at(buf@, i as int, docs.deep_view()) == Err::<
                (crate::ast::ItemView, int),
                SyntaxErr,
            >(e),
        },
{
    let ghost gdocs = docs.deep_view();
    let k = scan_ident_end(buf, i);
    let name = copy_range(buf, i, k);
    let colon = scan_skip_line_ws(buf, k);
    proof {
        assert(colon as int == crate::grammar::after_ident(buf@, i as int));
    }
    let p = scan_skip_line_ws(buf, colon + 1);
    let has_parens = p < buf.len() && buf[p] == 40;
    let (deps, q): (Vec<AstNode>, usize) = if has_parens {
        match parse_deps(buf, p + 1) {
            Ok(dq) => dq,
            Err(e) => {
                return Err(e);
            },
        }
    } else {
        (Vec::new(), p)
    };
    proof {
        if !has_parens {
            assert(dep_views(deps@) =~= Seq::<crate::ast::DepView>::empty());
        }
    }
    let r_pos = scan_skip_line_ws(buf, q);
    if r_pos < buf.len() && buf[r_pos] != 10 {
        return Err(SyntaxErr { pos: r_pos, expected: Expected::LineEnd });
    }
    let h = next_line_pos(buf, r_pos);
    match parse_script(buf, h) {
        Err(e) => Err(e),
        Ok((hb, lines, n)) => {
            proof {
                if r_pos == buf.len() {
                    assert(raw_script_lines(buf@, h as int) =~= Seq::<Seq<u8>>::empty());
                }
            }
            let ghost gdeps = deps@;
            let ghost ghb = hb.deep_view();
            let ghost glines = lines.deep_view();
            let docs_node: Option<Box<AstNode>> = match docs {
                Some(d) => Some(Box::new(AstNode::TaskDocs(d))),
                None => None,
            };
            let node = AstNode::TaskDef(
                AstTaskDef {
                    docs: docs_node,
                    header: Box::new(AstNode::TaskHeader(AstTaskHeader { name, deps })),
                    script: Box::new(AstNode::TaskScript(AstTaskScript { hash_bang: hb, lines })),
                },
            );
            proof {
                assert(gdeps.map_values(|nn: AstNode| nn.dep_view()) =~= dep_views(gdeps));
                assert(node.wf_item());
                assert(node.item_view() == crate::ast::ItemView::Task(
                    crate::ast::TaskDefView {
                        docs: gdocs,
                        name: buf@.subrange(i as int, k as int),
                        deps: dep_views(gdeps),
                        hash_bang: ghb,
                        lines: glines,
                    },
                ));
                let s = buf@;
                assert(parse_task_at(s, i as int, gdocs) == Ok::<
                    (crate::ast::ItemView, int),
                    SyntaxErr,
                >((node.item_view(), n as int)));
                // the returned position lies past the header line
                assert(k > i);
                if has_parens {
                    crate::grammar::lemma_parse_deps_at(s, p as int + 1);
                }
                assert(q > i);
                assert(i < n);
            }
            Ok((node, n))
        },
    }
}

/// Parses a whole task file into its syntax tree, or reports the first
/// syntax error. The returned tree is exactly what [`spec_parse`] assigns to
/// the input bytes.
#[verifier::rlimit(100)]
pub fn parse_friggenfile(buf: &Vec<u8>) -> (r: Result<AstNode, SyntaxErr>)
    ensures
        match r {
            Ok(root) => root.wf_root() && spec_parse(buf@) == Ok::<
                Seq<crate::ast::ItemView>,
                SyntaxErr,
            >(root.root_items()),
            Err(e) => spec_parse(buf@) == Err::<Seq<crate::ast::ItemView>, SyntaxErr>(e),
        },
{
    let mut items: Vec<AstNode> = Vec::new();
    let mut cur: usize = 0;
    proof {
        assert(item_views(items@) =~= Seq::<crate::ast::ItemView>::empty());
    }
    loop
        invariant
            cur <= buf.len(),
            forall|j: int| 0 <= j < items@.len() ==> (#[trigger] items@[j]).wf_item(),
            parse_items_from(buf@, 0) == (match parse_items_from(buf@, cur as int) {
                Ok(rest) => Ok::<Seq<crate::ast::ItemView>, SyntaxErr>(item_views(items@) + rest),
                Err(e) => Err::<Seq<crate::ast::ItemView>, SyntaxErr>(e),
            }),
        decreases buf.len() - cur,
    {
        if cur >= buf.len() {
            proof {
                assert(item_views(items@) + Seq::<crate::ast::ItemView>::empty() =~= item_views(
                    items@,
                ));
            }
            let root = AstNode::Root(items);
            proof {
                assert(root.root_items() =~= item_views(root->Root_0@));
            }
            return Ok(root);
        }
        let sw = scan_skip_line_ws(buf, cur);
        let le = scan_line_end(buf, cur);
        if sw == le {
            proof {
                assert(blank_line_at(buf@, cur as int));
                assert(parse_items_from(buf@, cur as int) == parse_items_from(
                    buf@,
                    next_line(buf@, cur as int),
                ));
            }
            cur = next_line_pos(buf, cur);
            continue;
        }
        proof {
            assert(!blank_line_at(buf@, cur as int));
        }
        let is_docs = buf.len() - cur > 1 && buf[cur] == 35 && buf[cur + 1] == 35;
        proof {
            assert(is_docs == docs_line_at(buf@, cur as int));
        }
        if is_docs {
            let (docs_vec, jpos) = collect_docs(buf, cur);
            proof {
                lemma_docs_block_end(buf@, cur as int);
            }
            if is_header_line(buf, jpos) {
                match parse_task(buf, jpos, Some(docs_vec)) {
                    Ok((node, n)) => {
                        let ghost previtems = items@;
                        let ghost iv = node.item_view();
                        items.push(node);
                        proof {
                            assert(item_views(items@) =~= item_views(previtems) + seq![iv]);
                            match parse_items_from(buf@, n as int) {
                                Ok(rest) => {
                                    assert(item_views(previtems) + (seq![iv] + rest)
                                        =~= (item_views(previtems) + seq![iv]) + rest);
                                },
                                Err(e) => {},
                            }
                        }
                        cur = n;
                    },
                    Err(e) => {
                        return Err(e);
                    },
                }
            } else {
                cur = jpos;
            }
            continue;
        }
        if buf[cur] == 35 {
            proof {
                assert(comment_line_at(buf@, cur as int));
                assert(parse_items_from(buf@, cur as int) == parse_items_from(
                    buf@,
                    next_line(buf@, cur as int),
                ));
            }
            cur = next_line_pos(buf, cur);
            continue;
        }
        if is_header_line(buf, cur) {
            match parse_task(buf, cur, None) {
                Ok((node, n)) => {
                    let ghost previtems = items@;
                    let ghost iv = node.item_view();
                    items.push(node);
                    proof {
                        assert(item_views(items@) =~= item_views(previtems) + seq![iv]);
                        match parse_items_from(buf@, n as int) {
                            Ok(rest) => {
                                assert(item_views(previtems) + (seq![iv] + rest) =~= (item_views(
                                    previtems,
                                ) + seq![iv]) + rest);
                            },
                            Err(e) => {},
                        }
                    }
                    cur = n;
                },
                Err(e) => {
                    return Err(e);
                },
            }
            continue;
        }
        if is_assign_line(buf, cur) {
            match parse_assign(buf, cur) {
                Ok((node, n)) => {
                    let ghost previtems = items@;
                    let ghost iv = node.item_view();
                    items.push(node);
                    proof {
                        assert(item_views(items@) =~= item_views(previtems) + seq![iv]);
                        match parse_items_from(buf@, n as int) {
                            Ok(rest) => {
                                assert(item_views(previtems) + (seq![iv] + rest) =~= (item_views(
                                    previtems,
                                ) + seq![iv]) + rest);
                            },
                            Err(e) => {},
                        }
                    }
                    cur = n;
                },
                Err(e) => {
                    return Err(e);
                },
            }
            continue;
        }
        if cur < buf.len() && ident_byte(buf[cur]) {
            let k = scan_ident_end(buf, cur);
            let m = scan_skip_line_ws(buf, k);
            return Err(SyntaxErr { pos: m, expected: Expected::Definition });
        }
        return Err(SyntaxErr { pos: cur, expected: Expected::Item });
    }
}

} // verus!
