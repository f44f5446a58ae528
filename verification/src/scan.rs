//! Byte-level scanning primitives shared by the parser: character classes,
//! line-end and whitespace scanning, and small verified utilities on byte
//! vectors.

use vstd::prelude::*;

verus! {

/// Whitespace that can occur inside a line (never terminates one).
pub open spec fn is_line_ws(c: u8) -> bool {
    c == 32 || c == 9 || c == 13
}

/// Whitespace including the line terminator.
pub open spec fn is_ws(c: u8) -> bool {
    is_line_ws(c) || c == 10
}

/// Bytes allowed in task and variable identifiers.
pub open spec fn is_ident_byte(c: u8) -> bool {
    (97 <= c && c <= 122) || (65 <= c && c <= 90) || (48 <= c && c <= 57) || c == 95 || c == 45
}

/// Position of the newline that ends the line starting at `i`, or the end of
/// the buffer if the last line is unterminated.
pub open spec fn line_end(s: Seq<u8>, i: int) -> int
    decreases s.len() - i,
{
    if i >= s.len() {
        s.len() as int
    } else if s[i] == 10 {
        i
    } else {
        line_end(s, i + 1)
    }
}

pub proof fn lemma_line_end(s: Seq<u8>, i: int)
    requires
        i <= s.len(),
    ensures
        i <= line_end(s, i) <= s.len(),
        line_end(s, i) < s.len() ==> s[line_end(s, i)] == 10,
        forall|k: int| i <= k < line_end(s, i) ==> s[k] != 10,
    decreases s.len() - i,
{
    if i < s.len() && s[i] != 10 {
        lemma_line_end(s, i + 1);
    }
}

/// First position at or after the end of the line starting at `i` that begins
/// the next line.
pub open spec fn next_line(s: Seq<u8>, i: int) -> int {
    if line_end(s, i) >= s.len() {
        s.len() as int
    } else {
        line_end(s, i) + 1
    }
}

pub proof fn lemma_next_line(s: Seq<u8>, i: int)
    requires
        i < s.len(),
    ensures
        i < next_line(s, i) <= s.len(),
{
    lemma_line_end(s, i);
}

/// First position at or after `i` holding a byte that is not in-line
/// whitespace (or the end of the buffer).
pub open spec fn skip_line_ws(s: Seq<u8>, i: int) -> int
    decreases s.len() - i,
{
    if i >= s.len() {
        s.len() as int
    } else if is_line_ws(s[i]) {
        skip_line_ws(s, i + 1)
    } else {
        i
    }
}

pub proof fn lemma_skip_line_ws(s: Seq<u8>, i: int)
    requires
        i <= s.len(),
    ensures
        i <= skip_line_ws(s, i) <= s.len(),
        skip_line_ws(s, i) < s.len() ==> !is_line_ws(s[skip_line_ws(s, i)]),
        forall|k: int| i <= k < skip_line_ws(s, i) ==> is_line_ws(s[k]),
    decreases s.len() - i,
{
    if i < s.len() && is_line_ws(s[i]) {
        lemma_skip_line_ws(s, i + 1);
    }
}

/// End of the identifier starting at `i`.
pub open spec fn ident_end(s: Seq<u8>, i: int) -> int
    decreases s.len() - i,
{
    if i >= s.len() {
        s.len() as int
    } else if is_ident_byte(s[i]) {
        ident_end(s, i + 1)
    } else {
        i
    }
}

pub proof fn lemma_ident_end(s: Seq<u8>, i: int)
    requires
        i <= s.len(),
    ensures
        i <= ident_end(s, i) <= s.len(),
        ident_end(s, i) < s.len() ==> !is_ident_byte(s[ident_end(s, i)]),
        forall|k: int| i <= k < ident_end(s, i) ==> is_ident_byte(s[k]),
        i < s.len() && is_ident_byte(s[i]) ==> ident_end(s, i) > i,
    decreases s.len() - i,
{
    if i < s.len() && is_ident_byte(s[i]) {
        lemma_ident_end(s, i + 1);
    }
}

/// First occurrence of byte `c` in `[i, e)`, or `e` if there is none.
pub open spec fn find_in(s: Seq<u8>, i: int, e: int, c: u8) -> int
    decreases e - i,
{
    if i >= e {
        e
    } else if s[i] == c {
        i
    } else {
        find_in(s, i + 1, e, c)
    }
}

pub proof fn lemma_find_in(s: Seq<u8>, i: int, e: int, c: u8)
    requires
        0 <= i <= e <= s.len(),
    ensures
        i <= find_in(s, i, e, c) <= e,
        find_in(s, i, e, c) < e ==> s[find_in(s, i, e, c)] == c,
        forall|k: int| i <= k < find_in(s, i, e, c) ==> s[k] != c,
    decreases e - i,
{
    if i < e && s[i] != c {
        lemma_find_in(s, i + 1, e, c);
    }
}

/// Whether three double-quote bytes stand at position `i`.
pub open spec fn triple_quote_at(s: Seq<u8>, i: int) -> bool {
    i + 3 <= s.len() && s[i] == 34 && s[i + 1] == 34 && s[i + 2] == 34
}

/// First position at or after `i` where a triple quote starts, or the length
/// of the buffer if there is none.
pub open spec fn find_triple(s: Seq<u8>, i: int) -> int
    decreases s.len() - i,
{
    if i + 3 > s.len() {
        s.len() as int
    } else if triple_quote_at(s, i) {
        i
    } else {
        find_triple(s, i + 1)
    }
}

pub proof fn lemma_find_triple(s: Seq<u8>, i: int)
    requires
        0 <= i <= s.len(),
    ensures
        i <= find_triple(s, i) <= s.len(),
        find_triple(s, i) + 3 <= s.len() ==> triple_quote_at(s, find_triple(s, i)),
        find_triple(s, i) + 3 > s.len() ==> find_triple(s, i) == s.len(),
        forall|k: int| i <= k < find_triple(s, i) ==> !triple_quote_at(s, k),
    decreases s.len() - i,
{
    if i + 3 <= s.len() && !triple_quote_at(s, i) {
        lemma_find_triple(s, i + 1);
    }
}

/// Position after the last byte of `[i, e)` that is not in-line whitespace;
/// trailing whitespace of the range lies at and after the result.
pub open spec fn rtrim(s: Seq<u8>, i: int, e: int) -> int
    decreases e - i,
{
    if e <= i {
        i
    } else if is_line_ws(s[e - 1]) {
        rtrim(s, i, e - 1)
    } else {
        e
    }
}

pub proof fn lemma_rtrim(s: Seq<u8>, i: int, e: int)
    requires
        0 <= i <= e <= s.len(),
    ensures
        i <= rtrim(s, i, e) <= e,
        rtrim(s, i, e) > i ==> !is_line_ws(s[rtrim(s, i, e) - 1]),
        forall|k: int| rtrim(s, i, e) <= k < e ==> is_line_ws(s[k]),
    decreases e - i,
{
    if e > i && is_line_ws(s[e - 1]) {
        lemma_rtrim(s, i, e - 1);
    }
}

/// A line (or any byte sequence) made only of whitespace.
pub open spec fn is_blank(l: Seq<u8>) -> bool {
    forall|k: int| 0 <= k < l.len() ==> is_ws(l[k])
}

/// Count of leading whitespace bytes of `l`.
pub open spec fn leading_ws(l: Seq<u8>, i: int) -> int
    decreases l.len() - i,
{
    if i >= l.len() {
        l.len() as int
    } else if is_ws(l[i]) {
        leading_ws(l, i + 1)
    } else {
        i
    }
}

pub proof fn lemma_leading_ws(l: Seq<u8>, i: int)
    requires
        0 <= i <= l.len(),
    ensures
        i <= leading_ws(l, i) <= l.len(),
        leading_ws(l, i) < l.len() ==> !is_ws(l[leading_ws(l, i)]),
        forall|k: int| i <= k < leading_ws(l, i) ==> is_ws(l[k]),
    decreases l.len() - i,
{
    if i < l.len() && is_ws(l[i]) {
        lemma_leading_ws(l, i + 1);
    }
}

/// End of the whitespace-free token starting at `i`.
pub open spec fn token_end(l: Seq<u8>, i: int) -> int
    decreases l.len() - i,
{
    if i >= l.len() {
        l.len() as int
    } else if is_ws(l[i]) {
        i
    } else {
        token_end(l, i + 1)
    }
}

pub proof fn lemma_token_end(l: Seq<u8>, i: int)
    requires
        i <= l.len(),
    ensures
        i <= token_end(l, i) <= l.len(),
        token_end(l, i) < l.len() ==> is_ws(l[token_end(l, i)]),
        forall|k: int| i <= k < token_end(l, i) ==> !is_ws(l[k]),
        i < l.len() && !is_ws(l[i]) ==> token_end(l, i) > i,
    decreases l.len() - i,
{
    if i < l.len() && !is_ws(l[i]) {
        lemma_token_end(l, i + 1);
    }
}

/// The whitespace-separated tokens of `l` from position `i` on.
pub open spec fn tokens_from(l: Seq<u8>, i: int) -> Seq<Seq<u8>>
    decreases l.len() - i,
    via tokens_from_decreases
{
    if i < 0 || i >= l.len() {
        Seq::empty()
    } else if is_ws(l[i]) {
        tokens_from(l, i + 1)
    } else {
        seq![l.subrange(i, token_end(l, i))] + tokens_from(l, token_end(l, i))
    }
}

#[via_fn]
proof fn tokens_from_decreases(l: Seq<u8>, i: int) {
    if 0 <= i && i < l.len() && !is_ws(l[i]) {
        lemma_token_end(l, i);
    }
}

// --- executable counterparts ---

/// Finds the end of the line that starts at `from`.
pub fn scan_line_end(buf: &Vec<u8>, from: usize) -> (r: usize)
    requires
        from <= buf.len(),
    ensures
        r == line_end(buf@, from as int),
        from <= r <= buf.len(),
        r < buf.len() ==> buf@[r as int] == 10,
        forall|k: int| from <= k < r ==> buf@[k] != 10,
{
    proof {
        lemma_line_end(buf@, from as int);
    }
    let mut i: usize = from;
    while i < buf.len() && buf[i] != 10
        invariant
            from <= i <= buf.len(),
            line_end(buf@, from as int) == line_end(buf@, i as int),
        decreases buf.len() - i,
    {
        i = i + 1;
    }
    i
}

/// Skips in-line whitespace starting at `from`.
pub fn scan_skip_line_ws(buf: &Vec<u8>, from: usize) -> (r: usize)
    requires
        from <= buf.len(),
    ensures
        r == skip_line_ws(buf@, from as int),
        from <= r <= buf.len(),
        r < buf.len() ==> !is_line_ws(buf@[r as int]),
        forall|k: int| from <= k < r ==> is_line_ws(buf@[k]),
{
    proof {
        lemma_skip_line_ws(buf@, from as int);
    }
    let mut i: usize = from;
    while i < buf.len() && (buf[i] == 32 || buf[i] == 9 || buf[i] == 13)
        invariant
            from <= i <= buf.len(),
            skip_line_ws(buf@, from as int) == skip_line_ws(buf@, i as int),
        decreases buf.len() - i,
    {
        i = i + 1;
    }
    i
}

/// Whether `c` may appear in an identifier.
pub fn ident_byte(c: u8) -> (r: bool)
    ensures
        r == is_ident_byte(c),
{
    (97 <= c && c <= 122) || (65 <= c && c <= 90) || (48 <= c && c <= 57) || c == 95 || c == 45
}

/// Finds the end of the identifier that starts at `from`.
pub fn scan_ident_end(buf: &Vec<u8>, from: usize) -> (r: usize)
    requires
        from <= buf.len(),
    ensures
        r == ident_end(buf@, from as int),
        from <= r <= buf.len(),
        from < buf.len() && is_ident_byte(buf@[from as int]) ==> r > from,
{
    proof {
        lemma_ident_end(buf@, from as int);
    }
    let mut i: usize = from;
    while i < buf.len() && ident_byte(buf[i])
        invariant
            from <= i <= buf.len(),
            ident_end(buf@, from as int) == ident_end(buf@, i as int),
        decreases buf.len() - i,
    {
        i = i + 1;
    }
    i
}

/// Finds the first occurrence of `c` in `[from, to)`, or `to` if none.
pub fn scan_find_in(buf: &Vec<u8>, from: usize, to: usize, c: u8) -> (r: usize)
    requires
        from <= to <= buf.len(),
    ensures
        r == find_in(buf@, from as int, to as int, c),
        from <= r <= to,
        r < to ==> buf@[r as int] == c,
{
    proof {
        lemma_find_in(buf@, from as int, to as int, c);
    }
    let mut i: usize = from;
    while i < to && buf[i] != c
        invariant
            from <= i <= to <= buf.len(),
            find_in(buf@, from as int, to as int, c) == find_in(buf@, i as int, to as int, c),
        decreases to - i,
    {
        i = i + 1;
    }
    i
}

/// Finds the first triple quote at or after `from`.
pub fn scan_find_triple(buf: &Vec<u8>, from: usize) -> (r: usize)
    requires
        from <= buf.len(),
    ensures
        r == find_triple(buf@, from as int),
        from <= r <= buf.len(),
{
    proof {
        lemma_find_triple(buf@, from as int);
    }
    let mut i: usize = from;
    loop
        invariant
            from <= i <= buf.len(),
            find_triple(buf@, from as int) == find_triple(buf@, i as int),
        decreases buf.len() - i,
    {
        if buf.len() < 3 || i > buf.len() - 3 {
            assert(i + 3 > buf@.len());
            return buf.len();
        }
        if buf[i] == 34 && buf[i + 1] == 34 && buf[i + 2] == 34 {
            return i;
        }
        i = i + 1;
    }
}

/// Trims trailing in-line whitespace from the range `[from, to)`.
pub fn scan_rtrim(buf: &Vec<u8>, from: usize, to: usize) -> (r: usize)
    requires
        from <= to <= buf.len(),
    ensures
        r == rtrim(buf@, from as int, to as int),
        from <= r <= to,
{
    proof {
        lemma_rtrim(buf@, from as int, to as int);
    }
    let mut e: usize = to;
    while e > from && (buf[e - 1] == 32 || buf[e - 1] == 9 || buf[e - 1] == 13)
        invariant
            from <= e <= to <= buf.len(),
            rtrim(buf@, from as int, to as int) == rtrim(buf@, from as int, e as int),
        decreases e,
    {
        e = e - 1;
    }
    e
}

/// Finds the end of the whitespace-free token that starts at `from`.
pub fn scan_token_end(buf: &Vec<u8>, from: usize) -> (r: usize)
    requires
        from <= buf.len(),
    ensures
        r == token_end(buf@, from as int),
        from <= r <= buf.len(),
{
    proof {
        lemma_token_end(buf@, from as int);
    }
    let mut i: usize = from;
    while i < buf.len() && !(buf[i] == 32 || buf[i] == 9 || buf[i] == 13 || buf[i] == 10)
        invariant
            from <= i <= buf.len(),
            token_end(buf@, from as int) == token_end(buf@, i as int),
        decreases buf.len() - i,
    {
        i = i + 1;
    }
    i
}

/// Counts the leading whitespace bytes of `buf` from `from` on.
pub fn scan_leading_ws(buf: &Vec<u8>, from: usize) -> (r: usize)
    requires
        from <= buf.len(),
    ensures
        r == leading_ws(buf@, from as int),
        from <= r <= buf.len(),
{
    proof {
        lemma_leading_ws(buf@, from as int);
    }
    let mut i: usize = from;
    while i < buf.len() && (buf[i] == 32 || buf[i] == 9 || buf[i] == 13 || buf[i] == 10)
        invariant
            from <= i <= buf.len(),
            leading_ws(buf@, from as int) == leading_ws(buf@, i as int),
        decreases buf.len() - i,
    {
        i = i + 1;
    }
    i
}

/// Copies the bytes of `[from, to)` into a fresh vector.
pub fn copy_range(buf: &Vec<u8>, from: usize, to: usize) -> (r: Vec<u8>)
    requires
        from <= to <= buf.len(),
    ensures
        r@ == buf@.subrange(from as int, to as int),
{
    let mut out: Vec<u8> = Vec::new();
    let mut i: usize = from;
    while i < to
        invariant
            from <= i <= to <= buf.len(),
            out@ == buf@.subrange(from as int, i as int),
        decreases to - i,
    {
        out.push(buf[i]);
        proof {
            assert(buf@.subrange(from as int, i + 1 as int) =~= buf@.subrange(
                from as int,
                i as int,
            ).push(buf@[i as int]));
        }
        i = i + 1;
    }
    out
}

/// A byte vector's deep view is its plain view.
pub broadcast proof fn lemma_bytes_deep_view(v: Vec<u8>)
    ensures
        #[trigger] v.deep_view() == v@,
{
    assert(v.deep_view() =~= v@);
}

/// Copies a whole byte vector.
pub fn copy_bytes(v: &Vec<u8>) -> (r: Vec<u8>)
    ensures
        r@ == v@,
{
    let r = copy_range(v, 0, v.len());
    proof {
        assert(r@ =~= v@);
    }
    r
}

/// Copies a list of byte lines.
#[verifier::loop_isolation(false)]
pub fn copy_lines(v: &Vec<Vec<u8>>) -> (r: Vec<Vec<u8>>)
    ensures
        r.deep_view() == v.deep_view(),
{
    let mut out: Vec<Vec<u8>> = Vec::new();
    let mut i: usize = 0;
    while i < v.len()
        invariant
            i <= v.len(),
            out.deep_view() =~= v.deep_view().take(i as int),
        decreases v.len() - i,
    {
        let line = copy_range(&v[i], 0, v[i].len());
        let ghost prev = out.deep_view();
        out.push(line);
        proof {
            lemma_bytes_deep_view(line);
            lemma_bytes_deep_view(v@[i as int]);
            assert(line@ =~= v@[i as int]@);
            assert(out.deep_view() =~~= prev + seq![line@]);
            assert(prev + seq![line@] =~= v.deep_view().take(i + 1));
        }
        i = i + 1;
    }
    proof {
        assert(v.deep_view().take(i as int) =~= v.deep_view());
    }
    out
}

/// Byte-for-byte equality of two vectors.
pub fn bytes_eq(a: &Vec<u8>, b: &Vec<u8>) -> (r: bool)
    ensures
        r == (a@ == b@),
{
    if a.len() != b.len() {
        return false;
    }
    let mut i: usize = 0;
    while i < a.len()
        invariant
            i <= a.len(),
            a.len() == b.len(),
            forall|k: int| 0 <= k < i ==> a@[k] == b@[k],
        decreases a.len() - i,
    {
        if a[i] != b[i] {
            return false;
        }
        i = i + 1;
    }
    proof {
        assert(a@ =~= b@);
    }
    true
}

} // verus!
