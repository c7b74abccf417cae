//! Language-dispatched heuristic chunker. A file's text is split into named
//! chunks with 1-based inclusive line spans: code files by declaration-line
//! patterns with a brace-depth block scan, markdown by headings, anything
//! else as one whole-file chunk. Malformed input never fails; unrecognized
//! lines are simply skipped.

use crate::graph::{NodeType, node_type_str};
use crate::text::{after_first, after_last, before_char, chars_of, contains_seq, eq_chars, join_lines, join_range, lines_of, slice_range, split_lines, starts_with, starts_with_spec, string_of, take_after_first, take_after_last, take_before_char, trim, trim_spec, u64_to_chars, dec_digits};
use vstd::prelude::*;

verus! {

/// A named piece of a file, with 1-based inclusive line numbers.
#[derive(Debug)]
pub struct Chunk {
    pub name: String,
    pub node_type: NodeType,
    pub content: String,
    pub start_line: usize,
    pub end_line: usize,
    pub summary: String,
}

impl Clone for Chunk {
    fn clone(&self) -> (r: Self)
        ensures
            r == *self,
    {
        Chunk {
            name: self.name.clone(),
            node_type: self.node_type,
            content: self.content.clone(),
            start_line: self.start_line,
            end_line: self.end_line,
            summary: self.summary.clone(),
        }
    }
}

/// The mathematical image of a chunk.
pub ghost struct ChunkView {
    pub name: Seq<char>,
    pub node_type: NodeType,
    pub content: Seq<char>,
    pub start_line: int,
    pub end_line: int,
    pub summary: Seq<char>,
}

pub open spec fn chunk_view(c: Chunk) -> ChunkView {
    ChunkView {
        name: c.name@,
        node_type: c.node_type,
        content: c.content@,
        start_line: c.start_line as int,
        end_line: c.end_line as int,
        summary: c.summary@,
    }
}

pub open spec fn views_of(cs: Seq<Chunk>) -> Seq<ChunkView> {
    cs.map_values(|c: Chunk| chunk_view(c))
}

// ---------------------------------------------------------------------------
// Brace-depth block scan
// ---------------------------------------------------------------------------

/// Number of opening braces in a line.
pub open spec fn opens_in(s: Seq<char>) -> nat
    decreases s.len(),
{
    if s.len() == 0 {
        0
    } else {
        (if s[0] == '{' {
            1nat
        } else {
            0nat
        }) + opens_in(s.subrange(1, s.len() as int))
    }
}

/// Number of closing braces in a line.
pub open spec fn closes_in(s: Seq<char>) -> nat
    decreases s.len(),
{
    if s.len() == 0 {
        0
    } else {
        (if s[0] == '}' {
            1nat
        } else {
            0nat
        }) + closes_in(s.subrange(1, s.len() as int))
    }
}

/// Sum of the lengths of the first `i` lines.
pub open spec fn sum_upto(lines: Seq<Seq<char>>, i: int) -> int
    decreases i,
{
    if i <= 0 {
        0
    } else {
        sum_upto(lines, i - 1) + lines[i - 1].len()
    }
}

pub proof fn lemma_sum_upto_monotone(lines: Seq<Seq<char>>, i: int, j: int)
    requires
        0 <= i <= j,
    ensures
        sum_upto(lines, i) <= sum_upto(lines, j),
    decreases j - i,
{
    if i < j {
        lemma_sum_upto_monotone(lines, i, j - 1);
    }
}

pub proof fn lemma_sum_upto_nonneg(lines: Seq<Seq<char>>, i: int)
    ensures
        sum_upto(lines, i) >= 0,
    decreases i,
{
    if i > 0 {
        lemma_sum_upto_nonneg(lines, i - 1);
    }
}

pub proof fn lemma_sum_upto_cons(x: Seq<char>, ls: Seq<Seq<char>>, n: int)
    requires
        0 <= n <= ls.len(),
    ensures
        sum_upto(seq![x] + ls, n + 1) == x.len() + sum_upto(ls, n),
    decreases n,
{
    if n > 0 {
        lemma_sum_upto_cons(x, ls, n - 1);
        assert((seq![x] + ls)[n] == ls[n - 1]);
        assert(sum_upto(seq![x] + ls, n + 1) == sum_upto(seq![x] + ls, n) + ls[n - 1].len());
        assert(sum_upto(ls, n) == sum_upto(ls, n - 1) + ls[n - 1].len());
    } else {
        assert((seq![x] + ls)[0] == x);
        assert(sum_upto(seq![x] + ls, 1) == sum_upto(seq![x] + ls, 0) + x.len());
    }
}

/// The lines of a text are never longer, all together, than the text.
pub proof fn lemma_lines_of_sum(s: Seq<char>)
    ensures
        sum_upto(lines_of(s), lines_of(s).len() as int) <= s.len(),
    decreases s.len(),
{
    crate::text::lemma_line_run(s);
    if s.len() > 0 {
        let k = crate::text::line_run(s);
        if k == s.len() {
            assert(lines_of(s) == seq![crate::text::strip_cr(s)]);
            assert(sum_upto(lines_of(s), 1) == sum_upto(lines_of(s), 0) + lines_of(s)[0].len());
        } else {
            let rest = s.subrange(k as int + 1, s.len() as int);
            lemma_lines_of_sum(rest);
            let x = crate::text::strip_cr(s.subrange(0, k as int));
            assert(lines_of(s) == seq![x] + lines_of(rest));
            lemma_sum_upto_cons(x, lines_of(rest), lines_of(rest).len() as int);
        }
    }
}

/// Net brace balance of one line.
pub open spec fn delta_of(line: Seq<char>) -> int {
    opens_in(line) - closes_in(line)
}

/// Brace depth after processing lines `start..=i`.
pub open spec fn depth_through(lines: Seq<Seq<char>>, start: int, i: int) -> int
    decreases i + 1 - start when i + 1 >= start
{
    if i < start {
        0
    } else {
        depth_through(lines, start, i - 1) + delta_of(lines[i])
    }
}

/// Whether any opening brace occurs in lines `start..=i`.
pub open spec fn opened_by(lines: Seq<Seq<char>>, start: int, i: int) -> bool {
    exists|j: int| start <= j <= i && opens_in(#[trigger] lines[j]) > 0
}

/// The line at which a block that starts at `start` ends: an opening brace
/// has been seen and the depth is back at or below zero.
pub open spec fn end_cond(lines: Seq<Seq<char>>, start: int, i: int) -> bool {
    start <= i < lines.len() && opened_by(lines, start, i) && depth_through(lines, start, i) <= 0
}

pub open spec fn has_block_end(lines: Seq<Seq<char>>, start: int) -> bool {
    exists|i: int| end_cond(lines, start, i)
}

/// When no line closes the block: the next line, clamped to the last line.
pub open spec fn block_end_fallback(lines: Seq<Seq<char>>, start: int) -> int {
    if start + 1 <= lines.len() - 1 {
        start + 1
    } else {
        lines.len() - 1
    }
}

pub open spec fn is_block_end(lines: Seq<Seq<char>>, start: int, r: int) -> bool {
    if has_block_end(lines, start) {
        end_cond(lines, start, r) && forall|j: int| start <= j < r ==> !end_cond(lines, start, j)
    } else {
        r == block_end_fallback(lines, start)
    }
}

fn brace_counts(line: &Vec<char>) -> (r: (usize, usize))
    ensures
        r.0 == opens_in(line@),
        r.1 == closes_in(line@),
{
    let mut o: usize = 0;
    let mut c: usize = 0;
    let mut i: usize = 0;
    let n = line.len();
    proof {
        assert(line@.subrange(0, n as int) =~= line@);
    }
    while i < n
        invariant
            n == line@.len(),
            i <= n,
            o <= i,
            c <= i,
            opens_in(line@) == o + opens_in(line@.subrange(i as int, n as int)),
            closes_in(line@) == c + closes_in(line@.subrange(i as int, n as int)),
        decreases n - i,
    {
        let ghost tail = line@.subrange(i as int, n as int);
        proof {
            assert(tail[0] == line@[i as int]);
            assert(tail.subrange(1, tail.len() as int) =~= line@.subrange(i + 1, n as int));
        }
        if line[i] == '{' {
            o = o + 1;
        } else if line[i] == '}' {
            c = c + 1;
        }
        i = i + 1;
    }
    proof {
        assert(line@.subrange(n as int, n as int) =~= Seq::<char>::empty());
    }
    (o, c)
}

/// Finds the line where the block opened at `start` closes: the first line
/// after which an opening brace has been seen and the depth is back at or
/// below zero. Without one, falls back to the following line.
pub fn find_block_end(lines: &Vec<Vec<char>>, start: usize) -> (r: usize)
    requires
        start < lines@.len(),
        sum_upto(lines.deep_view(), lines.deep_view().len() as int) <= 0xffff_ffff_ffff_ffff,
    ensures
        r < lines@.len(),
        is_block_end(lines.deep_view(), start as int, r as int),
{
    let ghost ls = lines.deep_view();
    let n = lines.len();
    let mut depth: i128 = 0;
    let mut found: bool = false;
    let mut i: usize = start;
    proof {
        lemma_sum_upto_nonneg(ls, start as int);
    }
    while i < n
        invariant
            ls == lines.deep_view(),
            n == ls.len(),
            start <= i <= n,
            start < n,
            sum_upto(ls, n as int) <= 0xffff_ffff_ffff_ffff,
            depth == depth_through(ls, start as int, i - 1),
            -sum_upto(ls, i as int) <= depth <= sum_upto(ls, i as int),
            found == opened_by(ls, start as int, i - 1),
            forall|j: int| start <= j < i ==> !end_cond(ls, start as int, j),
        decreases n - i,
    {
        let (o, c) = brace_counts(&lines[i]);
        proof {
            assert(lines@[i as int]@ == ls[i as int]);
            lemma_sum_upto_monotone(ls, i + 1, n as int);
            lemma_sum_upto_nonneg(ls, i as int);
            assert(o <= ls[i as int].len() && c <= ls[i as int].len()) by {
                lemma_counts_le(ls[i as int]);
            }
            assert(sum_upto(ls, i + 1) == sum_upto(ls, i as int) + ls[i as int].len());
        }
        depth = depth + (o as i128) - (c as i128);
        if o > 0 {
            found = true;
        }
        proof {
            assert(depth == depth_through(ls, start as int, i as int));
            assert(found == opened_by(ls, start as int, i as int)) by {
                if opens_in(ls[i as int]) > 0 {
                    assert(start <= i <= i && opens_in(ls[i as int]) > 0);
                }
                if opened_by(ls, start as int, i as int) && opens_in(ls[i as int]) == 0 {
                    let w = choose|j: int|
                        start <= j <= i && opens_in(#[trigger] ls[j]) > 0;
                    assert(start <= w <= i - 1 && opens_in(ls[w]) > 0);
                }
            }
        }
        if found && depth <= 0 {
            proof {
                assert(end_cond(ls, start as int, i as int));
            }
            return i;
        }
        i = i + 1;
    }
    proof {
        assert(forall|j: int| !end_cond(ls, start as int, j));
        assert(!has_block_end(ls, start as int));
    }
    if start + 1 <= n - 1 {
        start + 1
    } else {
        n - 1
    }
}

proof fn lemma_counts_le(s: Seq<char>)
    ensures
        opens_in(s) <= s.len(),
        closes_in(s) <= s.len(),
    decreases s.len(),
{
    if s.len() > 0 {
        lemma_counts_le(s.subrange(1, s.len() as int));
    }
}

// ---------------------------------------------------------------------------
// Name extraction
// ---------------------------------------------------------------------------

/// Name of a function declaration: the text between `fn ` and the first
/// parenthesis or angle bracket, trimmed; none when empty.
pub open spec fn extract_fn_name_spec(line: Seq<char>) -> Option<Seq<char>> {
    match after_first(line, "fn "@) {
        None => None,
        Some(a) => {
            let nm = trim_spec(before_char(before_char(a, '('), '<'));
            if nm.len() == 0 {
                None
            } else {
                Some(nm)
            }
        },
    }
}

pub fn extract_fn_name(line: &Vec<char>) -> (r: Option<Vec<char>>)
    ensures
        match r {
            Some(x) => extract_fn_name_spec(line@) == Some(x@),
            None => extract_fn_name_spec(line@) is None,
        },
{
    match take_after_first(line, &chars_of("fn ")) {
        None => None,
        Some(a) => {
            let nm = trim(&take_before_char(&take_before_char(&a, '('), '<'));
            if nm.len() == 0 {
                None
            } else {
                Some(nm)
            }
        },
    }
}

/// Name after a keyword such as `struct`: the text between `<keyword> ` and
/// the first brace, angle bracket or parenthesis, trimmed.
pub open spec fn extract_after_keyword_spec(line: Seq<char>, kw_sp: Seq<char>) -> Option<
    Seq<char>,
> {
    match after_first(line, kw_sp) {
        None => None,
        Some(a) => {
            let nm = trim_spec(before_char(before_char(before_char(a, '{'), '<'), '('));
            if nm.len() == 0 {
                None
            } else {
                Some(nm)
            }
        },
    }
}

pub fn extract_after_keyword(line: &Vec<char>, kw_sp: &Vec<char>) -> (r: Option<Vec<char>>)
    ensures
        match r {
            Some(x) => extract_after_keyword_spec(line@, kw_sp@) == Some(x@),
            None => extract_after_keyword_spec(line@, kw_sp@) is None,
        },
{
    match take_after_first(line, kw_sp) {
        None => None,
        Some(a) => {
            let nm = trim(
                &take_before_char(&take_before_char(&take_before_char(&a, '{'), '<'), '('),
            );
            if nm.len() == 0 {
                None
            } else {
                Some(nm)
            }
        },
    }
}

/// Name of an `impl` block: what follows `impl `, up to the first brace;
/// after the last `for ` if one occurs; up to the first angle bracket;
/// trimmed.
pub open spec fn extract_impl_name_spec(line: Seq<char>) -> Option<Seq<char>> {
    if !starts_with_spec(line, "impl "@) {
        None
    } else {
        let a = line.subrange(5, line.len() as int);
        let nm = trim_spec(before_char(after_last(before_char(a, '{'), "for "@), '<'));
        if nm.len() == 0 {
            None
        } else {
            Some(nm)
        }
    }
}

pub fn extract_impl_name(line: &Vec<char>) -> (r: Option<Vec<char>>)
    ensures
        match r {
            Some(x) => extract_impl_name_spec(line@) == Some(x@),
            None => extract_impl_name_spec(line@) is None,
        },
{
    if !starts_with(line, &chars_of("impl ")) {
        return None;
    }
    proof {
        reveal_strlit("impl ");
        reveal_strlit("for ");
    }
    let a = slice_range(line, 5, line.len());
    let nm = trim(
        &take_before_char(&take_after_last(&take_before_char(&a, '{'), &chars_of("for ")), '<'),
    );
    if nm.len() == 0 {
        None
    } else {
        Some(nm)
    }
}

// ---------------------------------------------------------------------------
// Rust items
// ---------------------------------------------------------------------------

/// What a trimmed source line declares, if anything.
pub open spec fn rust_item_spec(t: Seq<char>) -> Option<(Seq<char>, NodeType)> {
    if starts_with_spec(t, "pub fn "@) || starts_with_spec(t, "fn "@) || starts_with_spec(
        t,
        "pub async fn "@,
    ) || starts_with_spec(t, "async fn "@) {
        match extract_fn_name_spec(t) {
            Some(nm) => Some((nm, NodeType::Function)),
            None => None,
        }
    } else if starts_with_spec(t, "pub struct "@) || starts_with_spec(t, "struct "@) {
        match extract_after_keyword_spec(t, "struct "@) {
            Some(nm) => Some((nm, NodeType::Struct)),
            None => None,
        }
    } else if starts_with_spec(t, "pub enum "@) || starts_with_spec(t, "enum "@) {
        match extract_after_keyword_spec(t, "enum "@) {
            Some(nm) => Some((nm, NodeType::Enum)),
            None => None,
        }
    } else if starts_with_spec(t, "impl "@) {
        match extract_impl_name_spec(t) {
            Some(nm) => Some((nm, NodeType::Impl)),
            None => None,
        }
    } else if starts_with_spec(t, "pub trait "@) || starts_with_spec(t, "trait "@) {
        match extract_after_keyword_spec(t, "trait "@) {
            Some(nm) => Some((nm, NodeType::Trait)),
            None => None,
        }
    } else {
        None
    }
}

pub fn rust_item_of(t: &Vec<char>) -> (r: Option<(Vec<char>, NodeType)>)
    ensures
        match r {
            Some(x) => rust_item_spec(t@) == Some((x.0@, x.1)),
            None => rust_item_spec(t@) is None,
        },
{
    if starts_with(t, &chars_of("pub fn ")) || starts_with(t, &chars_of("fn ")) || starts_with(
        t,
        &chars_of("pub async fn "),
    ) || starts_with(t, &chars_of("async fn ")) {
        match extract_fn_name(t) {
            Some(nm) => Some((nm, NodeType::Function)),
            None => None,
        }
    } else if starts_with(t, &chars_of("pub struct ")) || starts_with(t, &chars_of("struct ")) {
        match extract_after_keyword(t, &chars_of("struct ")) {
            Some(nm) => Some((nm, NodeType::Struct)),
            None => None,
        }
    } else if starts_with(t, &chars_of("pub enum ")) || starts_with(t, &chars_of("enum ")) {
        match extract_after_keyword(t, &chars_of("enum ")) {
            Some(nm) => Some((nm, NodeType::Enum)),
            None => None,
        }
    } else if starts_with(t, &chars_of("impl ")) {
        match extract_impl_name(t) {
            Some(nm) => Some((nm, NodeType::Impl)),
            None => None,
        }
    } else if starts_with(t, &chars_of("pub trait ")) || starts_with(t, &chars_of("trait ")) {
        match extract_after_keyword(t, &chars_of("trait ")) {
            Some(nm) => Some((nm, NodeType::Trait)),
            None => None,
        }
    } else {
        None
    }
}

// ---------------------------------------------------------------------------
// Summaries
// ---------------------------------------------------------------------------

/// `<type>: <first line trimmed>` when that line is at most eighty
/// characters, else `<type>: <name>`.
pub open spec fn summary_spec(name: Seq<char>, t: NodeType, first_line: Seq<char>) -> Seq<char> {
    let clean = trim_spec(first_line);
    if clean.len() > 80 {
        node_type_str(t) + ": "@ + name
    } else {
        node_type_str(t) + ": "@ + clean
    }
}

pub fn build_summary(name: &Vec<char>, t: NodeType, first_line: &Vec<char>) -> (r: Vec<char>)
    ensures
        r@ == summary_spec(name@, t, first_line@),
{
    let clean = trim(first_line);
    let mut r = chars_of(t.as_str());
    crate::text::append_chars(&mut r, &chars_of(": "));
    if clean.len() > 80 {
        crate::text::append_chars(&mut r, name);
    } else {
        crate::text::append_chars(&mut r, &clean);
    }
    r
}


// ---------------------------------------------------------------------------
// Block-end value
// ---------------------------------------------------------------------------

/// The line index the block scan settles on.
pub open spec fn block_end_val(lines: Seq<Seq<char>>, start: int) -> int {
    choose|r: int| is_block_end(lines, start, r)
}

pub proof fn lemma_block_end_unique(lines: Seq<Seq<char>>, start: int, a: int, b: int)
    requires
        is_block_end(lines, start, a),
        is_block_end(lines, start, b),
    ensures
        a == b,
{
    if has_block_end(lines, start) {
        if a < b {
            assert(!end_cond(lines, start, a));
        }
        if b < a {
            assert(!end_cond(lines, start, b));
        }
    }
}

pub proof fn lemma_block_end_val(lines: Seq<Seq<char>>, start: int, r: int)
    requires
        is_block_end(lines, start, r),
    ensures
        block_end_val(lines, start) == r,
{
    assert(is_block_end(lines, start, block_end_val(lines, start)));
    lemma_block_end_unique(lines, start, block_end_val(lines, start), r);
}

// ---------------------------------------------------------------------------
// Rust and TypeScript chunk sequences
// ---------------------------------------------------------------------------

/// The chunk a recognized declaration line yields: its block's lines joined,
/// 1-based line span, and the summary rule.
pub open spec fn code_chunk_at(
    lines: Seq<Seq<char>>,
    i: int,
    nm: Seq<char>,
    ty: NodeType,
    summary: Seq<char>,
) -> ChunkView {
    let e = block_end_val(lines, i);
    ChunkView {
        name: nm,
        node_type: ty,
        content: join_lines(lines, i, e + 1),
        start_line: i + 1,
        end_line: e + 1,
        summary: summary,
    }
}

/// The chunks of a Rust file from line `i` on.
pub open spec fn chunk_rust_spec(lines: Seq<Seq<char>>, i: int) -> Seq<ChunkView>
    decreases lines.len() - i when 0 <= i <= lines.len()
{
    if i >= lines.len() {
        Seq::empty()
    } else {
        let rest = chunk_rust_spec(lines, i + 1);
        match rust_item_spec(trim_spec(lines[i])) {
            Some(item) => seq![
                code_chunk_at(lines, i, item.0, item.1, summary_spec(item.0, item.1, lines[i])),
            ] + rest,
            None => rest,
        }
    }
}

/// Chunks a Rust source text: one chunk per recognized declaration line.
pub fn chunk_rust(lines: &Vec<Vec<char>>) -> (r: Vec<Chunk>)
    requires
        sum_upto(lines.deep_view(), lines.deep_view().len() as int) <= 0xffff_ffff_ffff_ffff,
    ensures
        views_of(r@) == chunk_rust_spec(lines.deep_view(), 0),
{
    let ghost ls = lines.deep_view();
    let n = lines.len();
    let mut r: Vec<Chunk> = Vec::new();
    let mut i: usize = 0;
    proof {
        assert(views_of(r@) + chunk_rust_spec(ls, 0) =~~= chunk_rust_spec(ls, 0));
    }
    while i < n
        invariant
            ls == lines.deep_view(),
            n == ls.len(),
            i <= n,
            sum_upto(ls, ls.len() as int) <= 0xffff_ffff_ffff_ffff,
            chunk_rust_spec(ls, 0) == views_of(r@) + chunk_rust_spec(ls, i as int),
        decreases n - i,
    {
        let trimmed = trim(&lines[i]);
        proof {
            assert(lines@[i as int]@ == ls[i as int]);
        }
        match rust_item_of(&trimmed) {
            Some(item) => {
                let (nm, ty) = item;
                let end = find_block_end(lines, i);
                proof {
                    lemma_block_end_val(ls, i as int, end as int);
                }
                let content = join_range(lines, i, end + 1);
                let summary = build_summary(&nm, ty, &lines[i]);
                let ghost prev = views_of(r@);
                let c = Chunk {
                    name: string_of(&nm),
                    node_type: ty,
                    content: string_of(&content),
                    start_line: i + 1,
                    end_line: end + 1,
                    summary: string_of(&summary),
                };
                proof {
                    assert(chunk_view(c) == code_chunk_at(
                        ls,
                        i as int,
                        nm@,
                        ty,
                        summary_spec(nm@, ty, ls[i as int]),
                    ));
                }
                r.push(c);
                proof {
                    assert(views_of(r@) =~~= prev + seq![chunk_view(c)]);
                    assert(chunk_rust_spec(ls, 0) =~~= views_of(r@) + chunk_rust_spec(
                        ls,
                        i + 1,
                    ));
                }
            },
            None => {},
        }
        i = i + 1;
    }
    proof {
        assert(views_of(r@) =~~= chunk_rust_spec(ls, 0));
    }
    r
}

/// The start of a TypeScript function-like declaration.
pub open spec fn is_ts_fn_start_spec(t: Seq<char>) -> bool {
    (starts_with_spec(t, "export function "@) || starts_with_spec(t, "function "@)
        || starts_with_spec(t, "export const "@) || starts_with_spec(t, "const "@)) && (
    contains_seq(t, "=>"@) || contains_seq(t, "("@))
}

pub open spec fn is_ts_comp_start_spec(t: Seq<char>) -> bool {
    starts_with_spec(t, "export default function "@) || starts_with_spec(
        t,
        "export default class "@,
    )
}

pub fn is_ts_function_start(t: &Vec<char>) -> (r: bool)
    ensures
        r == is_ts_fn_start_spec(t@),
{
    (starts_with(t, &chars_of("export function ")) || starts_with(t, &chars_of("function "))
        || starts_with(t, &chars_of("export const ")) || starts_with(t, &chars_of("const ")))
        && (crate::text::contains_sub(t, &chars_of("=>")) || crate::text::contains_sub(
        t,
        &chars_of("("),
    ))
}

pub fn is_ts_component_start(t: &Vec<char>) -> (r: bool)
    ensures
        r == is_ts_comp_start_spec(t@),
{
    starts_with(t, &chars_of("export default function ")) || starts_with(
        t,
        &chars_of("export default class "),
    )
}

/// One keyword's try at a TypeScript name.
pub open spec fn ts_try_spec(t: Seq<char>, kw: Seq<char>) -> Option<Seq<char>> {
    match after_first(t, kw) {
        None => None,
        Some(a) => {
            let nm = trim_spec(
                before_char(before_char(before_char(before_char(a, '('), '='), ':'), '<'),
            );
            if nm.len() == 0 {
                None
            } else {
                Some(nm)
            }
        },
    }
}

/// The identifier after `function`, `const` or `class`, whichever yields a
/// name first.
pub open spec fn extract_ts_name_spec(t: Seq<char>) -> Option<Seq<char>> {
    match ts_try_spec(t, "function "@) {
        Some(nm) => Some(nm),
        None => match ts_try_spec(t, "const "@) {
            Some(nm) => Some(nm),
            None => ts_try_spec(t, "class "@),
        },
    }
}

fn ts_try(t: &Vec<char>, kw: &Vec<char>) -> (r: Option<Vec<char>>)
    ensures
        match r {
            Some(x) => ts_try_spec(t@, kw@) == Some(x@),
            None => ts_try_spec(t@, kw@) is None,
        },
{
    match take_after_first(t, kw) {
        None => None,
        Some(a) => {
            let nm = trim(
                &take_before_char(
                    &take_before_char(&take_before_char(&take_before_char(&a, '('), '='), ':'),
                    '<',
                ),
            );
            if nm.len() == 0 {
                None
            } else {
                Some(nm)
            }
        },
    }
}

pub fn extract_ts_name(t: &Vec<char>) -> (r: Option<Vec<char>>)
    ensures
        match r {
            Some(x) => extract_ts_name_spec(t@) == Some(x@),
            None => extract_ts_name_spec(t@) is None,
        },
{
    match ts_try(t, &chars_of("function ")) {
        Some(nm) => Some(nm),
        None => match ts_try(t, &chars_of("const ")) {
            Some(nm) => Some(nm),
            None => ts_try(t, &chars_of("class ")),
        },
    }
}

/// The name a TypeScript chunk gets: the extracted identifier, or
/// `anonymous_<line index>`.
pub open spec fn ts_name_at(t: Seq<char>, i: int) -> Seq<char> {
    match extract_ts_name_spec(t) {
        Some(nm) => nm,
        None => "anonymous_"@ + dec_digits(i as nat),
    }
}

/// The chunks of a TypeScript or JavaScript file from line `i` on.
pub open spec fn chunk_ts_spec(lines: Seq<Seq<char>>, i: int) -> Seq<ChunkView>
    decreases lines.len() - i when 0 <= i <= lines.len()
{
    if i >= lines.len() {
        Seq::empty()
    } else {
        let rest = chunk_ts_spec(lines, i + 1);
        let t = trim_spec(lines[i]);
        if is_ts_fn_start_spec(t) || is_ts_comp_start_spec(t) {
            let nm = ts_name_at(t, i);
            seq![
                code_chunk_at(
                    lines,
                    i,
                    nm,
                    NodeType::Function,
                    "TypeScript function: "@ + nm,
                ),
            ] + rest
        } else {
            rest
        }
    }
}

/// Chunks a TypeScript or JavaScript source text.
pub fn chunk_typescript(lines: &Vec<Vec<char>>) -> (r: Vec<Chunk>)
    requires
        sum_upto(lines.deep_view(), lines.deep_view().len() as int) <= 0xffff_ffff_ffff_ffff,
    ensures
        views_of(r@) == chunk_ts_spec(lines.deep_view(), 0),
{
    let ghost ls = lines.deep_view();
    let n = lines.len();
    let mut r: Vec<Chunk> = Vec::new();
    let mut i: usize = 0;
    proof {
        assert(views_of(r@) + chunk_ts_spec(ls, 0) =~~= chunk_ts_spec(ls, 0));
    }
    while i < n
        invariant
            ls == lines.deep_view(),
            n == ls.len(),
            i <= n,
            sum_upto(ls, ls.len() as int) <= 0xffff_ffff_ffff_ffff,
            chunk_ts_spec(ls, 0) == views_of(r@) + chunk_ts_spec(ls, i as int),
        decreases n - i,
    {
        let trimmed = trim(&lines[i]);
        proof {
            assert(lines@[i as int]@ == ls[i as int]);
        }
        if {
            let a = is_ts_function_start(&trimmed);
            let b = is_ts_component_start(&trimmed);
            a || b
        } {
            let nm = match extract_ts_name(&trimmed) {
                Some(x) => x,
                None => {
                    let mut anon = chars_of("anonymous_");
                    crate::text::append_chars(&mut anon, &u64_to_chars(i as u64));
                    anon
                },
            };
            proof {
                assert(nm@ == ts_name_at(trim_spec(ls[i as int]), i as int));
            }
            let end = find_block_end(lines, i);
            proof {
                lemma_block_end_val(ls, i as int, end as int);
            }
            let content = join_range(lines, i, end + 1);
            let mut summary = chars_of("TypeScript function: ");
            crate::text::append_chars(&mut summary, &nm);
            let ghost prev = views_of(r@);
            let c = Chunk {
                name: string_of(&nm),
                node_type: NodeType::Function,
                content: string_of(&content),
                start_line: i + 1,
                end_line: end + 1,
                summary: string_of(&summary),
            };
            r.push(c);
            proof {
                assert(views_of(r@) =~~= prev + seq![chunk_view(c)]);
                assert(chunk_ts_spec(ls, 0) =~~= views_of(r@) + chunk_ts_spec(ls, i + 1));
            }
        }
        i = i + 1;
    }
    proof {
        assert(views_of(r@) =~~= chunk_ts_spec(ls, 0));
    }
    r
}

// ---------------------------------------------------------------------------
// Markdown
// ---------------------------------------------------------------------------

pub open spec fn is_heading_spec(line: Seq<char>) -> bool {
    starts_with_spec(line, "## "@) || starts_with_spec(line, "# "@)
}

/// The line with its leading hash marks removed.
pub open spec fn drop_hashes(s: Seq<char>) -> Seq<char>
    decreases s.len(),
{
    if s.len() > 0 && s[0] == '#' {
        drop_hashes(s.subrange(1, s.len() as int))
    } else {
        s
    }
}

pub open spec fn heading_name_spec(line: Seq<char>) -> Seq<char> {
    trim_spec(drop_hashes(line))
}

pub fn heading_name(line: &Vec<char>) -> (r: Vec<char>)
    ensures
        r@ == heading_name_spec(line@),
{
    let n = line.len();
    let mut i: usize = 0;
    proof {
        assert(line@.subrange(0, n as int) =~= line@);
    }
    while i < n && line[i] == '#'
        invariant
            n == line@.len(),
            i <= n,
            drop_hashes(line@) == drop_hashes(line@.subrange(i as int, n as int)),
        decreases n - i,
    {
        proof {
            let tail = line@.subrange(i as int, n as int);
            assert(tail[0] == line@[i as int]);
            assert(tail.subrange(1, tail.len() as int) =~= line@.subrange(i + 1, n as int));
        }
        i = i + 1;
    }
    proof {
        let tail = line@.subrange(i as int, n as int);
        if i < n {
            assert(tail[0] == line@[i as int]);
        }
        assert(drop_hashes(tail) == tail);
    }
    trim(&slice_range(line, i, n))
}

/// One markdown section.
pub open spec fn md_chunk(
    lines: Seq<Seq<char>>,
    st: int,
    h: Seq<char>,
    end_excl: int,
) -> ChunkView {
    ChunkView {
        name: h,
        node_type: NodeType::Document,
        content: join_lines(lines, st, end_excl),
        start_line: st + 1,
        end_line: end_excl,
        summary: h,
    }
}

/// The markdown sections from line `i` on, with the currently open section
/// carried along.
pub open spec fn chunk_md_spec(
    lines: Seq<Seq<char>>,
    i: int,
    open_sec: Option<(int, Seq<char>)>,
) -> Seq<ChunkView>
    decreases lines.len() - i when 0 <= i <= lines.len()
{
    if i >= lines.len() {
        match open_sec {
            Some(sec) => seq![md_chunk(lines, sec.0, sec.1, lines.len() as int)],
            None => Seq::empty(),
        }
    } else if is_heading_spec(lines[i]) {
        let emitted: Seq<ChunkView> = match open_sec {
            Some(sec) => seq![md_chunk(lines, sec.0, sec.1, i)],
            None => Seq::empty(),
        };
        emitted + chunk_md_spec(lines, i + 1, Some((i, heading_name_spec(lines[i]))))
    } else {
        chunk_md_spec(lines, i + 1, open_sec)
    }
}

/// Chunks a markdown text: one chunk per heading-led section.
pub fn chunk_markdown(lines: &Vec<Vec<char>>) -> (r: Vec<Chunk>)
    ensures
        views_of(r@) == chunk_md_spec(lines.deep_view(), 0, None),
{
    let ghost ls = lines.deep_view();
    let n = lines.len();
    let mut r: Vec<Chunk> = Vec::new();
    let mut section: Option<(usize, Vec<char>)> = None;
    let mut i: usize = 0;
    proof {
        assert(views_of(r@) + chunk_md_spec(ls, 0, None) =~~= chunk_md_spec(ls, 0, None));
    }
    while i < n
        invariant
            ls == lines.deep_view(),
            n == ls.len(),
            i <= n,
            match section {
                Some(sec) => sec.0 < i && chunk_md_spec(ls, 0, None) == views_of(r@)
                    + chunk_md_spec(ls, i as int, Some((sec.0 as int, sec.1@))),
                None => chunk_md_spec(ls, 0, None) == views_of(r@) + chunk_md_spec(
                    ls,
                    i as int,
                    None,
                ),
            },
        decreases n - i,
    {
        proof {
            assert(lines@[i as int]@ == ls[i as int]);
        }
        let line = &lines[i];
        if {
            let h2 = starts_with(line, &chars_of("## "));
            let h1 = starts_with(line, &chars_of("# "));
            h2 || h1
        } {
            match section {
                Some(sec) => {
                    let (st, h) = sec;
                    let content = join_range(lines, st, i);
                    let ghost prev = views_of(r@);
                    let c = Chunk {
                        name: string_of(&h),
                        node_type: NodeType::Document,
                        content: string_of(&content),
                        start_line: st + 1,
                        end_line: i,
                        summary: string_of(&h),
                    };
                    r.push(c);
                    proof {
                        assert(chunk_view(c) == md_chunk(ls, st as int, h@, i as int));
                        assert(views_of(r@) =~~= prev + seq![chunk_view(c)]);
                    }
                },
                None => {},
            }
            let hname = heading_name(line);
            section = Some((i, hname));
            proof {
                assert(chunk_md_spec(ls, 0, None) =~~= views_of(r@) + chunk_md_spec(
                    ls,
                    i + 1,
                    Some((i as int, heading_name_spec(ls[i as int]))),
                ));
            }
        }
        i = i + 1;
    }
    match section {
        Some(sec) => {
            let (st, h) = sec;
            let content = join_range(lines, st, n);
            let ghost prev = views_of(r@);
            let c = Chunk {
                name: string_of(&h),
                node_type: NodeType::Document,
                content: string_of(&content),
                start_line: st + 1,
                end_line: n,
                summary: string_of(&h),
            };
            r.push(c);
            proof {
                assert(chunk_view(c) == md_chunk(ls, st as int, h@, n as int));
                assert(views_of(r@) =~~= prev + seq![chunk_view(c)]);
                assert(views_of(r@) =~~= chunk_md_spec(ls, 0, None));
            }
            r
        },
        None => {
            proof {
                assert(views_of(r@) =~~= chunk_md_spec(ls, 0, None));
            }
            r
        },
    }
}

// ---------------------------------------------------------------------------
// Whole-file chunk and dispatch
// ---------------------------------------------------------------------------

/// The final path component: what follows the last slash.
pub open spec fn basename_spec(path: Seq<char>) -> Seq<char> {
    after_last(path, "/"@)
}

/// Index of the last occurrence of `c`, or -1.
pub open spec fn last_char_index(s: Seq<char>, c: char) -> int
    decreases s.len(),
{
    if s.len() == 0 {
        -1
    } else {
        let rest = last_char_index(s.subrange(1, s.len() as int), c);
        if rest != -1 {
            rest + 1
        } else if s[0] == c {
            0
        } else {
            -1
        }
    }
}

pub proof fn lemma_last_char_index(s: Seq<char>, c: char)
    ensures
        last_char_index(s, c) == -1 ==> forall|j: int| 0 <= j < s.len() ==> s[j] != c,
        last_char_index(s, c) != -1 ==> {
            let i = last_char_index(s, c);
            0 <= i < s.len() && s[i] == c && forall|j: int| i < j < s.len() ==> s[j] != c
        },
    decreases s.len(),
{
    if s.len() > 0 {
        let t = s.subrange(1, s.len() as int);
        lemma_last_char_index(t, c);
        assert forall|j: int| 1 <= j < s.len() implies s[j] == t[j - 1] by {}
    }
}

/// The file extension the dispatch uses: what follows the last dot of the
/// base name, provided that dot is not its first character.
pub open spec fn ext_spec(path: Seq<char>) -> Seq<char> {
    let b = basename_spec(path);
    let d = last_char_index(b, '.');
    if d >= 1 {
        b.subrange(d + 1, b.len() as int)
    } else {
        Seq::empty()
    }
}

/// Base name and extension of a path.
fn split_path(path: &Vec<char>) -> (r: (Vec<char>, Vec<char>))
    ensures
        r.0@ == basename_spec(path@),
        r.1@ == ext_spec(path@),
{
    proof {
        reveal_strlit("/");
    }
    let b = take_after_last(path, &chars_of("/"));
    let n = b.len();
    let mut best: Option<usize> = None;
    let mut i: usize = 0;
    proof {
        lemma_last_char_index(b@, '.');
    }
    while i < n
        invariant
            n == b@.len(),
            i <= n,
            match best {
                Some(x) => 0 <= x < i && b@[x as int] == '.' && forall|j: int|
                    x < j < i ==> b@[j] != '.',
                None => forall|j: int| 0 <= j < i ==> b@[j] != '.',
            },
        decreases n - i,
    {
        if b[i] == '.' {
            best = Some(i);
        }
        i = i + 1;
    }
    proof {
        lemma_last_char_index(b@, '.');
        match best {
            Some(x) => {
                assert(last_char_index(b@, '.') == x) by {
                    if last_char_index(b@, '.') == -1 {
                        assert(b@[x as int] != '.');
                    } else {
                        let l = last_char_index(b@, '.');
                        if l < x {
                            assert(b@[x as int] != '.');
                        }
                        if x < l {
                            assert(b@[l] != '.');
                        }
                    }
                }
            },
            None => {
                if last_char_index(b@, '.') != -1 {
                    assert(b@[last_char_index(b@, '.')] == '.');
                }
            },
        }
    }
    match best {
        Some(x) => {
            if x >= 1 {
                let e = slice_range(&b, x + 1, n);
                (b, e)
            } else {
                let e: Vec<char> = Vec::new();
                proof {
                    assert(e@ =~= ext_spec(path@));
                }
                (b, e)
            }
        },
        None => {
            let e: Vec<char> = Vec::new();
            proof {
                assert(e@ =~= ext_spec(path@));
            }
            (b, e)
        },
    }
}

/// The extension of a path, as the dispatch sees it.
pub fn path_ext(path: &Vec<char>) -> (r: Vec<char>)
    ensures
        r@ == ext_spec(path@),
{
    let (_b, e) = split_path(path);
    e
}

/// The single whole-file chunk of a file with an unrecognized extension.
pub open spec fn whole_file_chunk_spec(path: Seq<char>, content: Seq<char>) -> ChunkView {
    let b = basename_spec(path);
    let nm = if b.len() == 0 {
        "unknown"@
    } else {
        b
    };
    ChunkView {
        name: nm,
        node_type: NodeType::File,
        content: content,
        start_line: 1,
        end_line: lines_of(content).len() as int,
        summary: "File: "@ + nm,
    }
}

/// The chunks of a file, dispatched on its extension.
pub open spec fn chunk_file_spec(path: Seq<char>, content: Seq<char>) -> Seq<ChunkView> {
    let ext = ext_spec(path);
    if ext == "rs"@ {
        chunk_rust_spec(lines_of(content), 0)
    } else if ext == "md"@ {
        chunk_md_spec(lines_of(content), 0, None)
    } else if ext == "tsx"@ || ext == "ts"@ || ext == "jsx"@ || ext == "js"@ {
        chunk_ts_spec(lines_of(content), 0)
    } else {
        seq![whole_file_chunk_spec(path, content)]
    }
}

/// Splits a file into chunks by its extension: Rust and TypeScript files by
/// declaration lines, markdown by headings, anything else whole. Never fails
/// on malformed input.
pub fn chunk_file(path: &str, content: &str) -> (r: Vec<Chunk>)
    ensures
        views_of(r@) == chunk_file_spec(path@, content@),
{
    let pathv = chars_of(path);
    let text = chars_of(content);
    let (base, ext) = split_path(&pathv);
    let lines = split_lines(&text);
    let tn = text.len();
    proof {
        assert(content@.len() == tn);
        lemma_lines_of_sum(content@);
        lemma_sum_upto_nonneg(lines.deep_view(), lines.deep_view().len() as int);
    }
    if eq_chars(&ext, &chars_of("rs")) {
        chunk_rust(&lines)
    } else if eq_chars(&ext, &chars_of("md")) {
        chunk_markdown(&lines)
    } else if eq_chars(&ext, &chars_of("tsx")) || eq_chars(&ext, &chars_of("ts")) || eq_chars(
        &ext,
        &chars_of("jsx"),
    ) || eq_chars(&ext, &chars_of("js")) {
        chunk_typescript(&lines)
    } else {
        let nm = if base.len() == 0 {
            chars_of("unknown")
        } else {
            let bn = base.len();
            slice_range(&base, 0, bn)
        };
        proof {
            assert(base@.subrange(0, base@.len() as int) =~= base@);
        }
        let mut summary = chars_of("File: ");
        crate::text::append_chars(&mut summary, &nm);
        let c = Chunk {
            name: string_of(&nm),
            node_type: NodeType::File,
            content: content.to_owned(),
            start_line: 1,
            end_line: lines.len(),
            summary: string_of(&summary),
        };
        let mut r: Vec<Chunk> = Vec::new();
        proof {
            assert(lines.deep_view().len() == lines@.len());
            assert(chunk_view(c) == whole_file_chunk_spec(path@, content@));
        }
        r.push(c);
        proof {
            assert(views_of(r@) =~~= seq![chunk_view(c)]);
        }
        r
    }
}

} // verus!
