//! The comment-aware line classifier and the per-file line counter.
use vstd::prelude::*;

use crate::registry::CommentType;
use crate::text::{
    char_views, chars_of, chars_of_each, find_from, find_token, is_space, lemma_blank_trims_empty,
    lemma_skip_ws_bounds, matches_at, skip_whitespace, skip_ws, slice_chars, starts_with_at, trim,
    trim_bounds, views,
};

verus! {

/// After skipping whitespace from `pos`, the text of `s` starts with one of
/// the line-comment `prefixes`.
pub open spec fn comment_at(s: Seq<char>, pos: int, prefixes: Seq<Seq<char>>) -> bool {
    exists|k: int| 0 <= k < prefixes.len() && starts_with_at(s, skip_ws(s, pos), #[trigger] prefixes[k])
}

/// The scan of the trimmed line `t` from `pos` on, given whether a block
/// comment is open and whether code was already seen. Returns whether code
/// was seen on the line, and whether a block comment is open at its end.
pub open spec fn scan(
    t: Seq<char>,
    pos: int,
    inside: bool,
    code: bool,
    open: Seq<char>,
    close: Seq<char>,
    prefixes: Seq<Seq<char>>,
) -> (bool, bool)
    decreases t.len() - pos,
    when open.len() > 0 && close.len() > 0
{
    if pos >= t.len() {
        (code, inside)
    } else if !inside && starts_with_at(t, pos, open) {
        scan(t, pos + open.len(), true, code, open, close, prefixes)
    } else if starts_with_at(t, pos, close) {
        scan(t, pos + close.len(), false, code, open, close, prefixes)
    } else if inside {
        scan(t, pos + 1, true, code, open, close, prefixes)
    } else if comment_at(t, pos, prefixes) {
        (code, false)
    } else {
        scan(t, pos + 1, false, true, open, close, prefixes)
    }
}

/// Block-comment reading of the trimmed line `t` with delimiters `open` and
/// `close`: whether code is present, and whether a block is open afterwards.
pub open spec fn block_scan(
    t: Seq<char>,
    inside: bool,
    open: Seq<char>,
    close: Seq<char>,
    prefixes: Seq<Seq<char>>,
) -> (bool, bool) {
    if inside {
        match find_from(t, 0, close) {
            None => (false, true),
            Some(i) => scan(t, i + close.len(), false, false, open, close, prefixes),
        }
    } else {
        scan(t, 0, false, false, open, close, prefixes)
    }
}

/// Whether `line` is entirely comment as far as block comments go, and the
/// block state after it. A language without block comments never has one.
pub open spec fn block_comment(line: Seq<char>, inside: bool, ct: CommentType) -> (bool, bool) {
    match ct.block {
        None => (false, inside),
        Some(b) => {
            let (code, now_inside) = block_scan(trim(line), inside, b.open@, b.close@, ct.prefixes());
            (!code, now_inside)
        },
    }
}

/// Whether `line` counts as code, and the block state after it.
pub open spec fn line_of_code(line: Seq<char>, inside: bool, ct: CommentType) -> (bool, bool) {
    if trim(line).len() == 0 {
        (false, inside)
    } else if (!inside || ct.block is None) && comment_at(line, 0, ct.prefixes()) {
        (false, inside)
    } else {
        let (comment, now_inside) = block_comment(line, inside, ct);
        (!comment, now_inside)
    }
}

/// Number of code lines among `lines`, read in order from outside any block
/// comment, and the block state after the last of them.
pub open spec fn code_state(lines: Seq<Seq<char>>, ct: CommentType) -> (nat, bool)
    decreases lines.len(),
{
    if lines.len() == 0 {
        (0, false)
    } else {
        let (n, inside) = code_state(lines.drop_last(), ct);
        let (code, now_inside) = line_of_code(lines.last(), inside, ct);
        (if code {
            n + 1
        } else {
            n
        }, now_inside)
    }
}

/// Number of lines of code in a file made of `lines`.
pub open spec fn code_lines(lines: Seq<Seq<char>>, ct: CommentType) -> nat {
    code_state(lines, ct).0
}

/// Whether a line comment starts at the first non-whitespace character of `s`
/// at or after `pos`.
fn comment_starts(s: &Vec<char>, pos: usize, prefixes: &Vec<Vec<char>>) -> (r: bool)
    requires
        pos <= s@.len(),
    ensures
        r == comment_at(s@, pos as int, char_views(prefixes@)),
{
    let from = skip_whitespace(s, pos);
    let mut k: usize = 0;
    while k < prefixes.len()
        invariant
            k <= prefixes@.len(),
            from as int == skip_ws(s@, pos as int),
            forall|m: int|
                0 <= m < k ==> !starts_with_at(s@, from as int, #[trigger] char_views(prefixes@)[m]),
        decreases prefixes@.len() - k,
    {
        if matches_at(s, from, &prefixes[k]) {
            assert(starts_with_at(s@, from as int, char_views(prefixes@)[k as int]));
            return true;
        }
        k += 1;
    }
    false
}

/// Whether `line`, once leading whitespace is skipped, starts with one of the
/// line-comment prefixes.
pub fn is_single_line_comment(line: &str, line_comment: &[String]) -> (r: bool)
    ensures
        r == comment_at(line@, 0, views(line_comment@)),
{
    let s = chars_of(line);
    let prefixes = chars_of_each(line_comment);
    comment_starts(&s, 0, &prefixes)
}

/// Scans the trimmed line `t` from `start`, outside any block comment, for
/// code; leaves in `inside` whether a block comment is open at the end.
fn scan_line(
    t: &Vec<char>,
    start: usize,
    open: &Vec<char>,
    close: &Vec<char>,
    prefixes: &Vec<Vec<char>>,
    inside: &mut bool,
) -> (code: bool)
    requires
        start <= t@.len(),
        open@.len() > 0,
        close@.len() > 0,
    ensures
        (code, *final(inside)) == scan(
            t@,
            start as int,
            false,
            false,
            open@,
            close@,
            char_views(prefixes@),
        ),
{
    let ghost goal = scan(t@, start as int, false, false, open@, close@, char_views(prefixes@));
    let mut pos: usize = start;
    let mut code_present = false;
    let mut in_block = false;
    let mut stop = false;
    while pos < t.len() && !stop
        invariant
            pos <= t@.len(),
            open@.len() > 0,
            close@.len() > 0,
            stop ==> (code_present, in_block) == goal,
            !stop ==> scan(t@, pos as int, in_block, code_present, open@, close@, char_views(prefixes@))
                == goal,
        decreases t@.len() - pos + if stop {
            0int
        } else {
            1int
        },
    {
        if !in_block && matches_at(t, pos, open) {
            pos += open.len();
            in_block = true;
        } else if matches_at(t, pos, close) {
            pos += close.len();
            in_block = false;
        } else if in_block {
            pos += 1;
        } else if comment_starts(t, pos, prefixes) {
            stop = true;
        } else {
            code_present = true;
            pos += 1;
        }
    }
    *inside = in_block;
    code_present
}

/// A language's comment tokens as character vectors; the block delimiters
/// are empty when the language has no block comments.
struct Tokens {
    prefixes: Vec<Vec<char>>,
    open: Vec<char>,
    close: Vec<char>,
}

impl Tokens {
    spec fn of(&self, ct: CommentType) -> bool {
        &&& char_views(self.prefixes@) == ct.prefixes()
        &&& ct.block matches Some(b) ==> self.open@ == b.open@ && self.close@ == b.close@
    }

    fn new(ct: &CommentType) -> (r: Tokens)
        ensures
            r.of(*ct),
    {
        let prefixes = chars_of_each(ct.line.as_slice());
        match &ct.block {
            Some(b) => Tokens { prefixes, open: chars_of(b.open.as_str()), close: chars_of(b.close.as_str()) },
            None => Tokens { prefixes, open: Vec::new(), close: Vec::new() },
        }
    }
}

/// Where `find_from` finds `p`, `p` occurs.
proof fn lemma_find_from_matches(s: Seq<char>, i: int, p: Seq<char>)
    ensures
        find_from(s, i, p) matches Some(j) ==> i <= j && starts_with_at(s, j, p),
    decreases s.len() + 1 - i,
{
    if !(i < 0 || i + p.len() > s.len()) && !starts_with_at(s, i, p) {
        lemma_find_from_matches(s, i + 1, p);
    }
}

/// `block_comment` on the characters `s` of a line.
fn block_comment_in(s: &Vec<char>, inside: &mut bool, ct: &CommentType, tk: &Tokens) -> (r: bool)
    requires
        ct.block_ok(),
        tk.of(*ct),
    ensures
        (r, *final(inside)) == block_comment(s@, *old(inside), *ct),
{
    if ct.block.is_none() {
        return false;
    }
    let (a, b) = trim_bounds(s);
    let t = slice_chars(s, a, b);
    let mut start: usize = 0;
    if *inside {
        match find_token(&t, 0, &tk.close) {
            Some(idx) => {
                proof {
                    lemma_find_from_matches(t@, 0, tk.close@);
                }
                start = idx + tk.close.len();
            },
            None => return true,
        }
    }
    let code = scan_line(&t, start, &tk.open, &tk.close, &tk.prefixes, inside);
    !code
}

/// `line_of_code` on the characters `s` of a line.
fn line_of_code_in(s: &Vec<char>, inside: &mut bool, ct: &CommentType, tk: &Tokens) -> (r: bool)
    requires
        ct.block_ok(),
        tk.of(*ct),
    ensures
        (r, *final(inside)) == line_of_code(s@, *old(inside), *ct),
{
    let (a, b) = trim_bounds(s);
    if a == b {
        return false;
    }
    if (!*inside || ct.block.is_none()) && comment_starts(s, 0, &tk.prefixes) {
        return false;
    }
    !block_comment_in(s, inside, ct, tk)
}

/// Whether `line` is entirely comment as far as block comments go (always
/// `false` for a language without them). `is_inside_block` says whether a
/// block comment is open before the line and is updated to whether one is
/// open after it.
pub fn is_block_comment(line: &str, is_inside_block: &mut bool, comment_type: &CommentType) -> (r:
    bool)
    requires
        comment_type.block_ok(),
    ensures
        (r, *final(is_inside_block)) == block_comment(line@, *old(is_inside_block), *comment_type),
{
    let s = chars_of(line);
    let tk = Tokens::new(comment_type);
    block_comment_in(&s, is_inside_block, comment_type, &tk)
}

/// Whether `line` counts as a line of code. `is_inside_block` says whether a
/// block comment is open before the line and is updated to whether one is
/// open after it.
pub fn is_line_of_code(line: &str, is_inside_block: &mut bool, comment_type: &CommentType) -> (r:
    bool)
    requires
        comment_type.block_ok(),
    ensures
        (r, *final(is_inside_block)) == line_of_code(line@, *old(is_inside_block), *comment_type),
        trim(line@).len() == 0 ==> !r,
{
    let s = chars_of(line);
    let tk = Tokens::new(comment_type);
    line_of_code_in(&s, is_inside_block, comment_type, &tk)
}

/// Number of lines of code among the lines of a file, read in order.
pub fn count_lines(lines: &Vec<String>, comments: &CommentType) -> (r: u64)
    requires
        comments.block_ok(),
    ensures
        r == code_lines(views(lines@), *comments),
{
    let ghost all = views(lines@);
    let tk = Tokens::new(comments);
    let mut count: usize = 0;
    let mut inside = false;
    let mut i: usize = 0;
    while i < lines.len()
        invariant
            i <= lines@.len(),
            comments.block_ok(),
            tk.of(*comments),
            all == views(lines@),
            count <= i,
            (count as nat, inside) == code_state(all.take(i as int), *comments),
        decreases lines@.len() - i,
    {
        assert(all.take(i + 1).drop_last() =~= all.take(i as int));
        let s = chars_of(lines[i].as_str());
        if line_of_code_in(&s, &mut inside, comments, &tk) {
            count += 1;
        }
        i += 1;
    }
    assert(all.take(lines@.len() as int) =~= all);
    count as u64
}

/// The lines of a file hold one block comment, delimited by `open` and
/// `close`, and nothing else: the first line starts with `open`, the last
/// ends with the first `close` after it, and no line between holds `close`.
pub open spec fn sole_block_comment(lines: Seq<Seq<char>>, open: Seq<char>, close: Seq<char>) -> bool {
    let n = lines.len();
    let first = trim(lines[0]);
    let last = trim(lines[n - 1]);
    &&& n >= 1
    &&& starts_with_at(first, 0, open)
    &&& if n == 1 {
        find_from(first, open.len() as int, close) == Some(first.len() - close.len())
    } else {
        &&& find_from(first, open.len() as int, close) is None
        &&& forall|k: int| 0 < k < n - 1 ==> find_from(#[trigger] trim(lines[k]), 0, close) is None
        &&& find_from(last, 0, close) == Some(last.len() - close.len())
    }
}

/// Inside a block comment, a scan that meets no closing delimiter sees no
/// more code and ends inside the block.
proof fn lemma_scan_no_close(
    t: Seq<char>,
    pos: int,
    code: bool,
    open: Seq<char>,
    close: Seq<char>,
    prefixes: Seq<Seq<char>>,
)
    requires
        open.len() > 0,
        close.len() > 0,
        0 <= pos,
        find_from(t, pos, close) is None,
    ensures
        scan(t, pos, true, code, open, close, prefixes) == (code, true),
    decreases t.len() - pos,
{
    if pos < t.len() {
        assert(!starts_with_at(t, pos, close));
        lemma_scan_no_close(t, pos + 1, code, open, close, prefixes);
    }
}

/// Inside a block comment, a scan whose first closing delimiter ends the line
/// sees no more code and ends outside any block.
proof fn lemma_scan_to_close(
    t: Seq<char>,
    pos: int,
    code: bool,
    open: Seq<char>,
    close: Seq<char>,
    prefixes: Seq<Seq<char>>,
)
    requires
        open.len() > 0,
        close.len() > 0,
        0 <= pos,
        find_from(t, pos, close) == Some(t.len() - close.len()),
    ensures
        scan(t, pos, true, code, open, close, prefixes) == (code, false),
    decreases t.len() - pos,
{
    if pos < t.len() {
        if pos != t.len() - close.len() {
            assert(!starts_with_at(t, pos, close));
            lemma_scan_to_close(t, pos + 1, code, open, close, prefixes);
        } else {
            assert(scan(t, t.len() as int, false, code, open, close, prefixes) == (code, false));
        }
    }
}

/// The lines before the last of a file that holds one block comment and
/// nothing else: no code, and the block still open.
proof fn lemma_comment_prefix(lines: Seq<Seq<char>>, ct: CommentType, m: int)
    requires
        ct.block_ok(),
        2 <= lines.len(),
        1 <= m <= lines.len() - 1,
        !comment_at(lines[0], 0, ct.prefixes()),
        ct.block matches Some(b) && sole_block_comment(lines, b.open@, b.close@),
    ensures
        code_state(lines.take(m), ct) == (0nat, true),
    decreases m,
{
    let b = ct.block->Some_0;
    if m == 1 {
        assert(lines.take(1).drop_last() =~= Seq::<Seq<char>>::empty());
        assert(lines.take(1).last() == lines[0]);
        assert(code_state(lines.take(1).drop_last(), ct) == (0nat, false));
        lemma_unterminated_block_line(lines[0], ct);
    } else {
        assert(lines.take(m).last() == lines[m - 1]);
        lemma_comment_prefix(lines, ct, m - 1);
        assert(lines.take(m).drop_last() =~= lines.take(m - 1));
        assert(find_from(trim(lines[m - 1]), 0, b.close@) is None);
        lemma_line_inside_open_block(lines[m - 1], ct);
    }
}

/// In a language without block comments, a line made of whitespace, then a
/// line-comment prefix, then anything, is not code, whatever the block state
/// that comes in, and that state is left as it was.
pub proof fn lemma_prefixed_line_not_code(
    ct: CommentType,
    inside: bool,
    ws: Seq<char>,
    k: int,
    rest: Seq<char>,
)
    requires
        ct.well_formed(),
        ct.block is None,
        0 <= k < ct.prefixes().len(),
        forall|i: int| 0 <= i < ws.len() ==> is_space(#[trigger] ws[i]),
        ct.prefixes()[k].len() > 0 ==> !is_space(ct.prefixes()[k][0]),
    ensures
        line_of_code(ws + ct.prefixes()[k] + rest, inside, ct) == (false, inside),
{
    let p = ct.prefixes()[k];
    let line = ws + p + rest;
    lemma_skip_ws_bounds(line, 0);
    let j = skip_ws(line, 0);
    if p.len() > 0 {
        assert forall|i: int| 0 <= i < ws.len() implies is_space(#[trigger] line[i]) by {
            assert(line[i] == ws[i]);
        }
        assert(line[ws.len() as int] == p[0]);
        assert(j == ws.len());
        assert(line.subrange(j, j + p.len()) =~= p);
    } else {
        assert(line.subrange(j, j) =~= p);
    }
    assert(starts_with_at(line, j, ct.prefixes()[k]));
    assert(comment_at(line, 0, ct.prefixes()));
}

/// A line made only of whitespace is not code, and leaves the block state as
/// it was.
pub proof fn lemma_blank_line_not_code(line: Seq<char>, inside: bool, ct: CommentType)
    requires
        forall|i: int| 0 <= i < line.len() ==> is_space(#[trigger] line[i]),
    ensures
        line_of_code(line, inside, ct) == (false, inside),
{
    lemma_blank_trims_empty(line);
}

/// While a block comment is open, a line in which its closing delimiter does
/// not occur is not code, and the block stays open.
pub proof fn lemma_line_inside_open_block(line: Seq<char>, ct: CommentType)
    requires
        ct.block_ok(),
        ct.block matches Some(b) && find_from(trim(line), 0, b.close@) is None,
    ensures
        line_of_code(line, true, ct) == (false, true),
{
}

/// A line that opens a block comment and does not close it is not code, and
/// leaves the block open.
pub proof fn lemma_unterminated_block_line(line: Seq<char>, ct: CommentType)
    requires
        ct.block_ok(),
        !comment_at(line, 0, ct.prefixes()),
        ct.block matches Some(b) && starts_with_at(trim(line), 0, b.open@) && find_from(
            trim(line),
            b.open@.len() as int,
            b.close@,
        ) is None,
    ensures
        line_of_code(line, false, ct) == (false, true),
{
    let b = ct.block->Some_0;
    lemma_scan_no_close(trim(line), b.open@.len() as int, false, b.open@, b.close@, ct.prefixes());
}

/// A file that holds one block comment and nothing else has no line of code,
/// however many lines the comment spans. (Its first line must not read as a
/// line comment, which happens when the opening delimiter starts with a
/// line-comment prefix.)
pub proof fn lemma_block_comment_file_has_no_code(lines: Seq<Seq<char>>, ct: CommentType)
    requires
        ct.block_ok(),
        lines.len() >= 1,
        !comment_at(lines[0], 0, ct.prefixes()),
        ct.block matches Some(b) && sole_block_comment(lines, b.open@, b.close@),
    ensures
        code_lines(lines, ct) == 0,
{
    let b = ct.block->Some_0;
    let (open, close, prefixes) = (b.open@, b.close@, ct.prefixes());
    let n = lines.len();
    assert(lines.take(1).drop_last() =~= Seq::<Seq<char>>::empty());
    assert(code_state(lines.take(1).drop_last(), ct) == (0nat, false));
    if n == 1 {
        let t = trim(lines[0]);
        lemma_scan_to_close(t, open.len() as int, false, open, close, prefixes);
        assert(lines.take(1) =~= lines);
    } else {
        lemma_comment_prefix(lines, ct, n - 1);
        assert(lines.drop_last() =~= lines.take(n - 1));
        let t = trim(lines[n - 1]);
        assert(scan(t, t.len() as int, false, false, open, close, prefixes) == (false, false));
    }
}

} // verus!
