//! The task-file grammar, written as total specification functions over the
//! raw byte sequence. These functions are the single definition of what a
//! source file means; the executable parser is proved to return exactly what
//! they describe.
//!
//! A file is a sequence of lines. A line is blank, a comment (`#`), a
//! documentation line (`##`, attached to a task header that follows with no
//! blank line in between), a variable assignment (`name = value`), or a task
//! header (`name:` with an optional parenthesised dependency list) followed by
//! a script block of indented lines.

use vstd::prelude::*;

use crate::ast::{DepView, ItemView, TaskDefView, ValueView};
use crate::scan::{
    find_in, find_triple, ident_end, is_blank, is_ident_byte, is_line_ws, leading_ws,
    lemma_ident_end, lemma_line_end, lemma_next_line, lemma_skip_line_ws, line_end, next_line,
    rtrim, skip_line_ws, tokens_from, triple_quote_at,
};

verus! {

/// What the parser was looking for when it rejected the input.
#[derive(Debug, Clone, Copy, PartialEq, Eq, Structural)]
pub enum Expected {
    /// A top-level item: an assignment, a task definition, or a comment.
    Item,
    /// `=` or `:` after an identifier.
    Definition,
    /// The closing quote of a quoted value.
    ClosingQuote,
    /// The closing parenthesis of a command substitution.
    ClosingParen,
    /// A dependency name or the closing parenthesis of a dependency list.
    Dependency,
    /// The end of the line.
    LineEnd,
    /// At least one indented script line after a task header.
    Script,
}

/// A structured syntax error: the byte position of the offending input and
/// the construct that was expected there.
#[derive(Debug, Clone, Copy, PartialEq, Eq, Structural)]
pub struct SyntaxErr {
    pub pos: usize,
    pub expected: Expected,
}

/// The line starting at `i` holds only whitespace.
pub open spec fn blank_line_at(s: Seq<u8>, i: int) -> bool {
    skip_line_ws(s, i) == line_end(s, i)
}

/// The line starting at `i` is a comment.
pub open spec fn comment_line_at(s: Seq<u8>, i: int) -> bool {
    i < s.len() && s[i] == 35
}

/// The line starting at `i` is a documentation line (`##`).
pub open spec fn docs_line_at(s: Seq<u8>, i: int) -> bool {
    i + 1 < s.len() && s[i] == 35 && s[i + 1] == 35
}

/// Where the text of a documentation line begins: after `##` and at most one
/// following space.
pub open spec fn docs_content_start(s: Seq<u8>, i: int) -> int {
    if i + 2 < line_end(s, i) && s[i + 2] == 32 {
        i + 3
    } else {
        i + 2
    }
}

/// Position of the first line after the run of documentation lines at `i`.
pub open spec fn docs_block_end(s: Seq<u8>, i: int) -> int
    decreases s.len() - i,
    via docs_block_end_decreases
{
    if !docs_line_at(s, i) {
        i
    } else {
        docs_block_end(s, next_line(s, i))
    }
}

#[via_fn]
proof fn docs_block_end_decreases(s: Seq<u8>, i: int) {
    if docs_line_at(s, i) {
        lemma_next_line(s, i);
    }
}

/// The text of the run of documentation lines at `i`, one entry per line,
/// each keeping its line terminator.
pub open spec fn docs_lines(s: Seq<u8>, i: int) -> Seq<Seq<u8>>
    decreases s.len() - i,
    via docs_lines_decreases
{
    if !docs_line_at(s, i) {
        Seq::empty()
    } else {
        seq![s.subrange(docs_content_start(s, i), next_line(s, i))] + docs_lines(
            s,
            next_line(s, i),
        )
    }
}

#[via_fn]
proof fn docs_lines_decreases(s: Seq<u8>, i: int) {
    if docs_line_at(s, i) {
        lemma_next_line(s, i);
    }
}

/// An identifier starts at `i`.
pub open spec fn ident_start_at(s: Seq<u8>, i: int) -> bool {
    i < s.len() && is_ident_byte(s[i])
}

/// Position of the first byte after the identifier at `i` and any in-line
/// whitespace that follows it.
pub open spec fn after_ident(s: Seq<u8>, i: int) -> int {
    skip_line_ws(s, ident_end(s, i))
}

/// The line starting at `i` is a task header: an identifier then `:`.
pub open spec fn header_line_at(s: Seq<u8>, i: int) -> bool {
    ident_start_at(s, i) && after_ident(s, i) < s.len() && s[after_ident(s, i)] == 58
}

/// The line starting at `i` is a variable assignment: an identifier then `=`.
pub open spec fn assign_line_at(s: Seq<u8>, i: int) -> bool {
    ident_start_at(s, i) && after_ident(s, i) < s.len() && s[after_ident(s, i)] == 61
}

/// The value of an assignment, beginning at `v` (the first non-whitespace
/// position after `=`). An empty rest of line is the empty literal; quoted
/// forms strip their quotes (the triple-quoted form may span lines); `$(...)`
/// captures the command text verbatim; anything else is a plain literal with
/// trailing whitespace trimmed. Returns the value and the position of the
/// line that follows it.
pub open spec fn parse_value_at(s: Seq<u8>, v: int) -> Result<(ValueView, int), SyntaxErr> {
    let e = line_end(s, v);
    if v >= e {
        Ok((ValueView::Lit(Seq::empty()), next_line(s, v)))
    } else if s[v] == 39 {
        let c = find_in(s, v + 1, e, 39);
        if c >= e {
            Err(SyntaxErr { pos: v as usize, expected: Expected::ClosingQuote })
        } else if skip_line_ws(s, c + 1) < e {
            Err(SyntaxErr { pos: skip_line_ws(s, c + 1) as usize, expected: Expected::LineEnd })
        } else {
            Ok((ValueView::Lit(s.subrange(v + 1, c)), next_line(s, v)))
        }
    } else if triple_quote_at(s, v) {
        let t = find_triple(s, v + 3);
        if t + 3 > s.len() {
            Err(SyntaxErr { pos: v as usize, expected: Expected::ClosingQuote })
        } else if skip_line_ws(s, t + 3) < line_end(s, t + 3) {
            Err(SyntaxErr { pos: skip_line_ws(s, t + 3) as usize, expected: Expected::LineEnd })
        } else {
            Ok((ValueView::Lit(s.subrange(v + 3, t)), next_line(s, t + 3)))
        }
    } else if s[v] == 34 {
        let c = find_in(s, v + 1, e, 34);
        if c >= e {
            Err(SyntaxErr { pos: v as usize, expected: Expected::ClosingQuote })
        } else if skip_line_ws(s, c + 1) < e {
            Err(SyntaxErr { pos: skip_line_ws(s, c + 1) as usize, expected: Expected::LineEnd })
        } else {
            Ok((ValueView::Lit(s.subrange(v + 1, c)), next_line(s, v)))
        }
    } else if s[v] == 36 && v + 1 < e && s[v + 1] == 40 {
        let w = rtrim(s, v + 2, e);
        if w > v + 2 && s[w - 1] == 41 {
            Ok((ValueView::Command(s.subrange(v + 2, w - 1)), next_line(s, v)))
        } else {
            Err(SyntaxErr { pos: v as usize, expected: Expected::ClosingParen })
        }
    } else {
        Ok((ValueView::Lit(s.subrange(v, rtrim(s, v, e))), next_line(s, v)))
    }
}

/// A whole assignment item starting at `i` (which satisfies
/// [`assign_line_at`]).
pub open spec fn parse_assign_at(s: Seq<u8>, i: int) -> Result<(ItemView, int), SyntaxErr> {
    let name = s.subrange(i, ident_end(s, i));
    let v = skip_line_ws(s, after_ident(s, i) + 1);
    match parse_value_at(s, v) {
        Ok((value, n)) => Ok((ItemView::Assign { name, value }, n)),
        Err(e) => Err(e),
    }
}

/// The dependency list from position `p` (just after the opening
/// parenthesis): names optionally suffixed `!`, separated by whitespace
/// and/or single commas, closed by `)`. Returns the dependencies and the
/// position just after the closing parenthesis.
pub open spec fn parse_deps_at(s: Seq<u8>, p: int) -> Result<(Seq<DepView>, int), SyntaxErr>
    decreases s.len() - p,
    via parse_deps_at_decreases
{
    let q = skip_line_ws(s, p);
    if q < s.len() && s[q] == 41 {
        Ok((Seq::empty(), q + 1))
    } else if q < s.len() && is_ident_byte(s[q]) {
        let k = ident_end(s, q);
        let ra = k < s.len() && s[k] == 33;
        let k2: int = if ra {
            k + 1
        } else {
            k
        };
        let sep = skip_line_ws(s, k2);
        let sep2: int = if sep < s.len() && s[sep] == 44 {
            sep + 1
        } else {
            sep
        };
        match parse_deps_at(s, sep2) {
            Ok((ds, q2)) => Ok(
                (seq![DepView { name: s.subrange(q, k), run_always: ra }] + ds, q2),
            ),
            Err(e) => Err(e),
        }
    } else {
        Err(SyntaxErr { pos: q as usize, expected: Expected::Dependency })
    }
}

#[via_fn]
proof fn parse_deps_at_decreases(s: Seq<u8>, p: int) {
    if p <= s.len() {
        lemma_skip_line_ws(s, p);
        let q = skip_line_ws(s, p);
        if q < s.len() && !(s[q] == 41) && is_ident_byte(s[q]) {
            lemma_ident_end(s, q);
            let k = ident_end(s, q);
            let k2: int = if k < s.len() && s[k] == 33 {
                k + 1
            } else {
                k
            };
            lemma_skip_line_ws(s, k2);
        }
    }
}

/// A line belongs to the script block that follows a task header when it is
/// blank or starts with whitespace.
pub open spec fn script_line_at(s: Seq<u8>, p: int) -> bool {
    p < s.len() && (s[p] == 10 || is_line_ws(s[p]))
}

/// Position of the first line after the script block starting at `p`.
pub open spec fn script_block_end(s: Seq<u8>, p: int) -> int
    decreases s.len() - p,
    via script_block_end_decreases
{
    if !script_line_at(s, p) {
        p
    } else {
        script_block_end(s, next_line(s, p))
    }
}

#[via_fn]
proof fn script_block_end_decreases(s: Seq<u8>, p: int) {
    if script_line_at(s, p) {
        lemma_next_line(s, p);
    }
}

/// The raw lines of the script block starting at `p`, each keeping its line
/// terminator.
pub open spec fn raw_script_lines(s: Seq<u8>, p: int) -> Seq<Seq<u8>>
    decreases s.len() - p,
    via raw_script_lines_decreases
{
    if !script_line_at(s, p) {
        Seq::empty()
    } else {
        seq![s.subrange(p, next_line(s, p))] + raw_script_lines(s, next_line(s, p))
    }
}

#[via_fn]
proof fn raw_script_lines_decreases(s: Seq<u8>, p: int) {
    if script_line_at(s, p) {
        lemma_next_line(s, p);
    }
}

/// A script line that is a hash-bang directive: optional leading whitespace,
/// then `#!`.
pub open spec fn hash_bang_line(l: Seq<u8>) -> bool {
    let a = leading_ws(l, 0);
    a + 1 < l.len() && l[a] == 35 && l[a + 1] == 33
}

/// The whitespace-separated tokens after the `#!` of a hash-bang line.
pub open spec fn hash_bang_tokens(l: Seq<u8>) -> Seq<Seq<u8>> {
    tokens_from(l, leading_ws(l, 0) + 2)
}

/// The common indentation of a script body: the leading whitespace of its
/// first non-blank line, or zero if every line is blank.
pub open spec fn indent_of(lines: Seq<Seq<u8>>) -> int
    decreases lines.len(),
{
    if lines.len() == 0 {
        0
    } else if is_blank(lines[0]) {
        indent_of(lines.drop_first())
    } else {
        leading_ws(lines[0], 0)
    }
}

/// Removes `k` leading bytes from every line long enough to hold them;
/// shorter lines are kept as they are.
pub open spec fn strip_indent(lines: Seq<Seq<u8>>, k: int) -> Seq<Seq<u8>> {
    lines.map_values(
        |l: Seq<u8>|
            if l.len() >= k {
                l.skip(k)
            } else {
                l
            },
    )
}

/// Indentation stripping, stated by itself: with the block's common
/// indentation `k` — the leading whitespace of its first non-blank line —
/// every line long enough loses exactly its first `k` bytes, so relative
/// indentation between lines and each line's terminator are untouched;
/// shorter lines are kept whole.
pub proof fn lemma_indentation_stripping(lines: Seq<Seq<u8>>, i: int)
    requires
        0 <= i < lines.len(),
    ensures
        ({
            let k = indent_of(lines);
            &&& lines[i].len() >= k ==> strip_indent(lines, k)[i] == lines[i].skip(k)
            &&& lines[i].len() < k ==> strip_indent(lines, k)[i] == lines[i]
        }),
{
}

/// At least one line of the block has non-whitespace content.
pub open spec fn has_content(lines: Seq<Seq<u8>>) -> bool {
    exists|i: int| 0 <= i < lines.len() && !is_blank(lines[i])
}

/// The script block starting at line position `h`: its optional hash-bang
/// directive (taken from the first line and excluded from the body), the body
/// lines with common indentation stripped, and the position after the block.
/// A block with no non-blank line is rejected.
pub open spec fn parse_script_at(s: Seq<u8>, h: int) -> Result<
    (Option<Seq<Seq<u8>>>, Seq<Seq<u8>>, int),
    SyntaxErr,
> {
    let raws = raw_script_lines(s, h);
    if !has_content(raws) {
        Err(SyntaxErr { pos: h as usize, expected: Expected::Script })
    } else {
        let body: Seq<Seq<u8>> = if hash_bang_line(raws[0]) {
            raws.drop_first()
        } else {
            raws
        };
        let hb: Option<Seq<Seq<u8>>> = if hash_bang_line(raws[0]) {
            Some(hash_bang_tokens(raws[0]))
        } else {
            None
        };
        Ok((hb, strip_indent(body, indent_of(body)), script_block_end(s, h)))
    }
}

/// A whole task definition starting at the header line `i` (which satisfies
/// [`header_line_at`]), with documentation lines already collected by the
/// caller. Returns the item and the position after its script block.
pub open spec fn parse_task_at(s: Seq<u8>, i: int, docs: Option<Seq<Seq<u8>>>) -> Result<
    (ItemView, int),
    SyntaxErr,
> {
    let name = s.subrange(i, ident_end(s, i));
    let p = skip_line_ws(s, after_ident(s, i) + 1);
    let deps_r: Result<(Seq<DepView>, int), SyntaxErr> = if p < s.len() && s[p] == 40 {
        parse_deps_at(s, p + 1)
    } else {
        Ok((Seq::empty(), p))
    };
    match deps_r {
        Ok((deps, q)) => {
            let r = skip_line_ws(s, q);
            if r < s.len() && s[r] != 10 {
                Err(SyntaxErr { pos: r as usize, expected: Expected::LineEnd })
            } else {
                match parse_script_at(s, next_line(s, r)) {
                    Ok((hb, lines, n)) => Ok(
                        (
                            ItemView::Task(
                                TaskDefView { docs, name, deps, hash_bang: hb, lines },
                            ),
                            n,
                        ),
                    ),
                    Err(e) => Err(e),
                }
            }
        },
        Err(e) => Err(e),
    }
}

/// The items of the file from position `i` (a line start) on.
pub open spec fn parse_items_from(s: Seq<u8>, i: int) -> Result<Seq<ItemView>, SyntaxErr>
    decreases s.len() - i,
    via parse_items_from_decreases
{
    if i < 0 || i >= s.len() {
        Ok(Seq::empty())
    } else if blank_line_at(s, i) {
        parse_items_from(s, next_line(s, i))
    } else if docs_line_at(s, i) {
        let j = docs_block_end(s, i);
        if header_line_at(s, j) {
            match parse_task_at(s, j, Some(docs_lines(s, i))) {
                Ok((item, n)) => match parse_items_from(s, n) {
                    Ok(rest) => Ok(seq![item] + rest),
                    Err(e) => Err(e),
                },
                Err(e) => Err(e),
            }
        } else {
            parse_items_from(s, j)
        }
    } else if comment_line_at(s, i) {
        parse_items_from(s, next_line(s, i))
    } else if header_line_at(s, i) {
        match parse_task_at(s, i, None) {
            Ok((item, n)) => match parse_items_from(s, n) {
                Ok(rest) => Ok(seq![item] + rest),
                Err(e) => Err(e),
            },
            Err(e) => Err(e),
        }
    } else if assign_line_at(s, i) {
        match parse_assign_at(s, i) {
            Ok((item, n)) => match parse_items_from(s, n) {
                Ok(rest) => Ok(seq![item] + rest),
                Err(e) => Err(e),
            },
            Err(e) => Err(e),
        }
    } else if ident_start_at(s, i) {
        Err(SyntaxErr { pos: after_ident(s, i) as usize, expected: Expected::Definition })
    } else {
        Err(SyntaxErr { pos: i as usize, expected: Expected::Item })
    }
}

#[via_fn]
proof fn parse_items_from_decreases(s: Seq<u8>, i: int) {
    if 0 <= i && i < s.len() {
        lemma_next_line(s, i);
        if docs_line_at(s, i) {
            lemma_docs_block_end(s, i);
            let j = docs_block_end(s, i);
            if header_line_at(s, j) {
                lemma_parse_task_at(s, j, Some(docs_lines(s, i)));
            }
        }
        if header_line_at(s, i) {
            lemma_parse_task_at(s, i, None);
        }
        if assign_line_at(s, i) {
            lemma_parse_assign_at(s, i);
        }
    }
}

/// What a source file means: its items, or the syntax error that rejects it.
pub open spec fn spec_parse(s: Seq<u8>) -> Result<Seq<ItemView>, SyntaxErr> {
    parse_items_from(s, 0)
}

/// Every line from `i` on is blank or a comment (documentation lines that
/// end up attached to no header are comments too).
pub open spec fn trivial_lines_from(s: Seq<u8>, i: int) -> bool
    decreases s.len() - i,
    via trivial_lines_from_decreases
{
    if i < 0 || i >= s.len() {
        true
    } else {
        (blank_line_at(s, i) || comment_line_at(s, i)) && trivial_lines_from(s, next_line(s, i))
    }
}

#[via_fn]
proof fn trivial_lines_from_decreases(s: Seq<u8>, i: int) {
    if 0 <= i && i < s.len() {
        lemma_next_line(s, i);
    }
}

proof fn lemma_trivial_docs(s: Seq<u8>, i: int)
    requires
        0 <= i <= s.len(),
        trivial_lines_from(s, i),
        docs_line_at(s, i),
    ensures
        trivial_lines_from(s, docs_block_end(s, i)),
        i < docs_block_end(s, i) <= s.len(),
    decreases s.len() - i,
{
    lemma_next_line(s, i);
    lemma_docs_block_end(s, i);
    let n = next_line(s, i);
    assert(trivial_lines_from(s, n));
    if docs_line_at(s, n) {
        lemma_trivial_docs(s, n);
    } else {
        assert(docs_block_end(s, n) == n);
    }
    assert(docs_block_end(s, i) == docs_block_end(s, n));
}

/// A file whose every line is blank or a comment parses to no items at all:
/// no task definitions and no variable assignments. An empty file is the
/// simplest such file.
pub proof fn lemma_trivial_lines_parse_empty(s: Seq<u8>, i: int)
    requires
        0 <= i <= s.len(),
        trivial_lines_from(s, i),
    ensures
        parse_items_from(s, i) == Ok::<Seq<ItemView>, SyntaxErr>(Seq::empty()),
    decreases s.len() - i,
{
    if i < s.len() {
        lemma_next_line(s, i);
        if blank_line_at(s, i) {
            lemma_trivial_lines_parse_empty(s, next_line(s, i));
        } else if docs_line_at(s, i) {
            lemma_trivial_docs(s, i);
            let j = docs_block_end(s, i);
            if j < s.len() {
                if blank_line_at(s, j) {
                    lemma_skip_line_ws(s, j);
                    lemma_line_end(s, j);
                    if is_ident_byte(s[j]) {
                        assert(skip_line_ws(s, j) == j);
                        assert(s[j] == 10);
                    }
                } else {
                    assert(comment_line_at(s, j));
                }
                assert(!ident_start_at(s, j));
            }
            assert(!header_line_at(s, j));
            lemma_trivial_lines_parse_empty(s, j);
        } else {
            lemma_trivial_lines_parse_empty(s, next_line(s, i));
        }
    }
}

/// The whole-file form: a source of blank and comment lines only parses to
/// the empty item list, so it yields an empty task table and an empty
/// variable table.
pub proof fn lemma_trivial_source_empty(s: Seq<u8>)
    requires
        trivial_lines_from(s, 0),
    ensures
        spec_parse(s) == Ok::<Seq<ItemView>, SyntaxErr>(Seq::empty()),
{
    lemma_trivial_lines_parse_empty(s, 0);
}

// --- bounds of the grammar functions, used for termination and by the
// executable parser's proofs ---

pub proof fn lemma_docs_block_end(s: Seq<u8>, i: int)
    requires
        0 <= i <= s.len(),
    ensures
        i <= docs_block_end(s, i) <= s.len(),
        docs_line_at(s, i) ==> i < docs_block_end(s, i),
    decreases s.len() - i,
{
    if docs_line_at(s, i) {
        lemma_next_line(s, i);
        lemma_docs_block_end(s, next_line(s, i));
    }
}

pub proof fn lemma_script_block_end(s: Seq<u8>, p: int)
    requires
        0 <= p <= s.len(),
    ensures
        p <= script_block_end(s, p) <= s.len(),
    decreases s.len() - p,
{
    if script_line_at(s, p) {
        lemma_next_line(s, p);
        lemma_script_block_end(s, next_line(s, p));
    }
}

pub proof fn lemma_parse_value_at(s: Seq<u8>, v: int)
    requires
        0 <= v <= s.len(),
    ensures
        parse_value_at(s, v) matches Ok((value, n)) ==> (v < n <= s.len() || (v == n && n
            == s.len())),
{
    lemma_line_end(s, v);
    let e = line_end(s, v);
    if v >= e {
        lemma_next_line_ub(s, v);
    } else {
        // v < e <= s.len(), so the line has content and next_line advances
        if s[v] == 39 || (!triple_quote_at(s, v) && s[v] == 34) {
            lemma_next_line(s, v);
        } else if triple_quote_at(s, v) {
            lemma_find_triple_bounds(s, v + 3);
            let t = find_triple(s, v + 3);
            if t + 3 <= s.len() {
                lemma_line_end(s, t + 3);
                lemma_next_line_ub(s, t + 3);
            }
        } else {
            lemma_next_line(s, v);
        }
    }
}

/// `next_line` never runs past the buffer and never moves backwards from a
/// valid position.
pub proof fn lemma_next_line_ub(s: Seq<u8>, i: int)
    requires
        0 <= i <= s.len(),
    ensures
        i <= next_line(s, i) <= s.len(),
{
    lemma_line_end(s, i);
}

pub proof fn lemma_find_triple_bounds(s: Seq<u8>, i: int)
    requires
        0 <= i <= s.len(),
    ensures
        i <= find_triple(s, i) <= s.len(),
    decreases s.len() - i,
{
    if i + 3 <= s.len() && !triple_quote_at(s, i) {
        lemma_find_triple_bounds(s, i + 1);
    }
}

pub proof fn lemma_parse_assign_at(s: Seq<u8>, i: int)
    requires
        0 <= i <= s.len(),
        assign_line_at(s, i),
    ensures
        parse_assign_at(s, i) matches Ok((item, n)) ==> i < n <= s.len(),
{
    lemma_ident_end(s, i);
    lemma_skip_line_ws(s, ident_end(s, i));
    let eq = after_ident(s, i);
    lemma_skip_line_ws(s, eq + 1);
    let v = skip_line_ws(s, eq + 1);
    lemma_parse_value_at(s, v);
    // v >= eq + 1 > i, and any Ok position n satisfies n >= v or n == s.len()
    assert(v > i);
}

pub proof fn lemma_parse_deps_at(s: Seq<u8>, p: int)
    requires
        0 <= p <= s.len(),
    ensures
        parse_deps_at(s, p) matches Ok((ds, q)) ==> p < q <= s.len(),
    decreases s.len() - p,
{
    lemma_skip_line_ws(s, p);
    let q = skip_line_ws(s, p);
    if q < s.len() && s[q] == 41 {
    } else if q < s.len() && is_ident_byte(s[q]) {
        lemma_ident_end(s, q);
        let k = ident_end(s, q);
        let ra = k < s.len() && s[k] == 33;
        let k2: int = if ra {
            k + 1
        } else {
            k
        };
        lemma_skip_line_ws(s, k2);
        let sep = skip_line_ws(s, k2);
        let sep2: int = if sep < s.len() && s[sep] == 44 {
            sep + 1
        } else {
            sep
        };
        lemma_parse_deps_at(s, sep2);
    }
}

pub proof fn lemma_parse_task_at(s: Seq<u8>, i: int, docs: Option<Seq<Seq<u8>>>)
    requires
        0 <= i <= s.len(),
        header_line_at(s, i),
    ensures
        parse_task_at(s, i, docs) matches Ok((item, n)) ==> i < n <= s.len(),
{
    lemma_ident_end(s, i);
    lemma_skip_line_ws(s, ident_end(s, i));
    let colon = after_ident(s, i);
    lemma_skip_line_ws(s, colon + 1);
    let p = skip_line_ws(s, colon + 1);
    if p < s.len() && s[p] == 40 {
        lemma_parse_deps_at(s, p + 1);
    }
    let deps_r: Result<(Seq<DepView>, int), SyntaxErr> = if p < s.len() && s[p] == 40 {
        parse_deps_at(s, p + 1)
    } else {
        Ok((Seq::empty(), p))
    };
    if let Ok((deps, q)) = deps_r {
        lemma_skip_line_ws(s, q);
        let r = skip_line_ws(s, q);
        if !(r < s.len() && s[r] != 10) {
            lemma_next_line_ub(s, r);
            let h = next_line(s, r);
            lemma_script_block_end(s, h);
            if h == r {
                // only possible when r == s.len(); then the script block is
                // empty and the task is rejected, so there is no Ok case
                assert(raw_script_lines(s, h) =~= Seq::<Seq<u8>>::empty());
            }
        }
    }
}

} // verus!
