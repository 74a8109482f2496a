//! The exchange format as a function on bytes.
//!
//! A description of a graph is a sequence of lines. A line that starts with
//! `%` is a comment. The first line that is no comment is the header: the
//! number of vertices and the number of edges. Each further line that is no
//! comment stands for one vertex, the first of them for vertex 1, and lists
//! the targets of the edges that leave that vertex. Numbers are written in
//! decimal digits, with `+` allowed in front, and are separated by blanks.

use vstd::prelude::*;

verus! {

/// The byte that ends a line.
pub const NEWLINE: u8 = 10;

/// The byte that starts a comment line.
pub const PERCENT: u8 = 37;

/// The sign that may stand in front of a number.
pub const PLUS: u8 = 43;

/// The digit zero.
pub const ZERO: u8 = 48;

/// Whether `b` is a blank: a space, a tab, a line feed, a vertical tab, a
/// form feed or a carriage return.
pub open spec fn is_space(b: u8) -> bool {
    b == 32 || (9 <= b && b <= 13)
}

/// Whether `b` is a decimal digit.
pub open spec fn is_digit(b: u8) -> bool {
    48 <= b && b <= 57
}

/// The number of bytes before the first line end of `s`, or its length.
pub open spec fn line_len(s: Seq<u8>) -> int
    decreases s.len(),
{
    if s.len() == 0 || s[0] == NEWLINE {
        0
    } else {
        1 + line_len(s.skip(1))
    }
}

/// The lines of `content`: the parts between line ends. A line end at the
/// very end starts no further line.
pub open spec fn lines_of(content: Seq<u8>) -> Seq<Seq<u8>>
    decreases content.len(),
{
    if content.len() == 0 {
        Seq::empty()
    } else {
        let n = line_len(content);
        if 0 <= n < content.len() {
            seq![content.take(n)] + lines_of(content.skip(n + 1))
        } else {
            seq![content]
        }
    }
}

/// The number of bytes before the first blank of `s`, or its length.
pub open spec fn word_len(s: Seq<u8>) -> int
    decreases s.len(),
{
    if s.len() == 0 || is_space(s[0]) {
        0
    } else {
        1 + word_len(s.skip(1))
    }
}

/// The words of `line`: the longest parts without a blank.
pub open spec fn words_of(line: Seq<u8>) -> Seq<Seq<u8>>
    decreases line.len(),
{
    if line.len() == 0 {
        Seq::empty()
    } else if is_space(line[0]) {
        words_of(line.skip(1))
    } else {
        let n = word_len(line);
        if 0 < n <= line.len() {
            seq![line.take(n)] + words_of(line.skip(n))
        } else {
            Seq::empty()
        }
    }
}

/// Whether every byte of `s` is a decimal digit.
pub open spec fn all_digits(s: Seq<u8>) -> bool {
    forall|i: int| 0 <= i < s.len() ==> is_digit(#[trigger] s[i])
}

/// The number that the decimal digits `digits` write.
pub open spec fn digits_value(digits: Seq<u8>) -> nat
    decreases digits.len(),
{
    if digits.len() == 0 {
        0
    } else {
        (digits_value(digits.drop_last()) * 10 + (digits.last() - ZERO)) as nat
    }
}

/// The digits of a word: the word without a `+` in front.
pub open spec fn digits_of(word: Seq<u8>) -> Seq<u8> {
    if word.len() > 0 && word[0] == PLUS {
        word.skip(1)
    } else {
        word
    }
}

/// The number that `word` writes, if it writes one: at least one decimal
/// digit, with `+` allowed in front.
pub open spec fn number_of(word: Seq<u8>) -> Option<nat> {
    let digits = digits_of(word);
    if digits.len() > 0 && all_digits(digits) {
        Some(digits_value(digits))
    } else {
        None
    }
}

/// The number that `word` writes, if it writes one that is at most `limit`.
pub open spec fn number_up_to(word: Seq<u8>, limit: nat) -> Option<nat> {
    match number_of(word) {
        Some(value) => if value <= limit {
            Some(value)
        } else {
            None
        },
        None => None,
    }
}

/// Whether `line` is a comment.
pub open spec fn is_comment(line: Seq<u8>) -> bool {
    line.len() > 0 && line[0] == PERCENT
}

/// The numbers of vertices and edges that the header `line` gives: its
/// first two words, where both write numbers that fit `usize`. Further
/// words are passed over.
pub open spec fn header_of(line: Seq<u8>) -> Option<(usize, usize)> {
    let words = words_of(line);
    if words.len() >= 2 {
        let limit = usize::MAX as nat;
        match (number_up_to(words[0], limit), number_up_to(words[1], limit)) {
            (Some(vertices), Some(edges)) => Some((vertices as usize, edges as usize)),
            _ => None,
        }
    } else {
        None
    }
}

/// The vertex identifiers that `words` write, where every word writes one.
pub open spec fn targets_of(words: Seq<Seq<u8>>) -> Option<Seq<u32>>
    decreases words.len(),
{
    if words.len() == 0 {
        Some(Seq::empty())
    } else {
        match (targets_of(words.drop_last()), number_up_to(words.last(), u32::MAX as nat)) {
            (Some(front), Some(last)) => Some(front.push(last as u32)),
            _ => None,
        }
    }
}

/// Makes the edge from `source` to a given target.
pub open spec fn edge_from(source: u32) -> spec_fn(u32) -> (u32, u32) {
    |target: u32| (source, target)
}

/// What has been read of a description: the header, once it has been met,
/// the vertex that the next line stands for, and the edges so far.
pub struct Reading {
    pub header: Option<(usize, usize)>,
    pub next: u32,
    pub edges: Seq<(u32, u32)>,
}

/// Nothing read yet.
pub open spec fn nothing_read() -> Reading {
    Reading { header: None, next: 0, edges: Seq::empty() }
}

/// What has been read once `line` is read as well, unless the line is
/// malformed: a header without two numbers, a word that writes no vertex
/// identifier, or a vertex line beyond the largest identifier.
pub open spec fn read_line(so_far: Reading, line: Seq<u8>) -> Option<Reading> {
    if is_comment(line) {
        Some(so_far)
    } else if so_far.header is None {
        match header_of(line) {
            Some(counts) => Some(Reading { header: Some(counts), next: 1, edges: so_far.edges }),
            None => None,
        }
    } else if so_far.next == u32::MAX {
        None
    } else {
        match targets_of(words_of(line)) {
            Some(targets) => Some(
                Reading {
                    header: so_far.header,
                    next: (so_far.next + 1) as u32,
                    edges: so_far.edges + targets.map_values(edge_from(so_far.next)),
                },
            ),
            None => None,
        }
    }
}

/// What has been read once each of `lines` is read, unless one of them is
/// malformed.
pub open spec fn read_lines(lines: Seq<Seq<u8>>) -> Option<Reading>
    decreases lines.len(),
{
    if lines.len() == 0 {
        Some(nothing_read())
    } else {
        match read_lines(lines.drop_last()) {
            Some(so_far) => read_line(so_far, lines.last()),
            None => None,
        }
    }
}

/// Whether the header agrees with what follows it: as many vertex lines and
/// as many edges as it gives.
pub open spec fn is_consistent(read: Reading) -> bool {
    match read.header {
        Some(counts) => read.next - 1 == counts.0 && read.edges.len() == counts.1,
        None => false,
    }
}

/// The graph that `content` describes: the numbers of its header and its
/// edges, unless a line is malformed, the header is missing or the header
/// does not agree with the lines after it.
pub open spec fn described(content: Seq<u8>) -> Option<Reading> {
    match read_lines(lines_of(content)) {
        Some(read) => if is_consistent(read) {
            Some(read)
        } else {
            None
        },
        None => None,
    }
}

/// The number of vertices that the header gave, or none before the header.
pub open spec fn vertices_read(read: Reading) -> nat {
    match read.header {
        Some(counts) => counts.0 as nat,
        None => 0,
    }
}

/// The identifiers of the vertices of a description with `count` vertices:
/// from 1 up to `count`.
pub open spec fn vertex_ids(count: nat) -> Seq<u32> {
    Seq::new(count, |i: int| (i + 1) as u32)
}

/// The views of the parts of a split.
pub open spec fn views(parts: Seq<&[u8]>) -> Seq<Seq<u8>> {
    parts.map_values(|part: &[u8]| part@)
}

/// Where no line end stands before place `n` of `s`, and one stands there
/// or `s` ends there, the first line of `s` has `n` bytes.
pub proof fn lemma_line_len(s: Seq<u8>, n: int)
    requires
        0 <= n <= s.len(),
        forall|k: int| 0 <= k < n ==> s[k] != NEWLINE,
        n == s.len() || s[n] == NEWLINE,
    ensures
        line_len(s) == n,
    decreases n,
{
    if n > 0 {
        lemma_line_len(s.skip(1), n - 1);
    }
}

/// Where no blank stands before place `n` of `s`, and one stands there or
/// `s` ends there, the first word of `s` has `n` bytes.
pub proof fn lemma_word_len(s: Seq<u8>, n: int)
    requires
        0 <= n <= s.len(),
        forall|k: int| 0 <= k < n ==> !is_space(s[k]),
        n == s.len() || is_space(s[n]),
    ensures
        word_len(s) == n,
    decreases n,
{
    if n > 0 {
        lemma_word_len(s.skip(1), n - 1);
    }
}

/// More digits write no smaller a number.
pub proof fn lemma_digits_grow(digits: Seq<u8>, n: int)
    requires
        all_digits(digits),
        0 <= n <= digits.len(),
    ensures
        digits_value(digits.take(n)) <= digits_value(digits),
    decreases digits.len() - n,
{
    if n < digits.len() {
        lemma_digits_grow(digits, n + 1);
        assert(digits.take(n + 1).drop_last() == digits.take(n));
        assert(is_digit(digits[n]));
    } else {
        assert(digits.take(n) == digits);
    }
}

} // verus!
