//! A reader for graph descriptions in the exchange format.

use crate::graph::hash_table::{HashTable, VertexId};
use crate::graph::model::{with_edges, with_vertices};
use crate::tools::metis_format::{
    all_digits, described, digits_of, digits_value, edge_from, header_of, is_comment, is_digit,
    is_space, lemma_digits_grow, lemma_line_len, lemma_word_len, lines_of, nothing_read,
    number_up_to, read_line, read_lines, targets_of, vertex_ids, vertices_read, views, words_of,
    NEWLINE, PERCENT, PLUS, ZERO,
};
use vstd::prelude::*;
use vstd::slice::slice_subrange;

verus! {

/// Why a description was refused.
#[derive(Debug, Clone, Copy, PartialEq, Eq)]
pub enum MetisError {
    /// A word that writes no number, a header without two numbers, or a
    /// header that does not agree with the lines after it.
    MalformedInput,
}

/// The lines of `content`.
pub fn split_lines(content: &[u8]) -> (lines: Vec<&[u8]>)
    ensures
        views(lines@) == lines_of(content@),
{
    let mut lines: Vec<&[u8]> = Vec::new();
    let mut start: usize = 0;
    let mut i: usize = 0;
    assert(content@.skip(0) == content@);
    assert(views(lines@) == Seq::<Seq<u8>>::empty());
    while i < content.len()
        invariant
            start <= i <= content.len(),
            forall|k: int| start <= k < i ==> content@[k] != NEWLINE,
            views(lines@) + lines_of(content@.skip(start as int)) == lines_of(content@),
        decreases content.len() - i,
    {
        if content[i] == NEWLINE {
            let line = slice_subrange(content, start, i);
            proof {
                let rest = content@.skip(start as int);
                lemma_line_len(rest, i - start);
                assert(rest.take(i - start) == line@);
                assert(rest.skip(i - start + 1) == content@.skip(i + 1));
                assert(views(lines@.push(line)) == views(lines@).push(line@));
                assert(views(lines@).push(line@) + lines_of(content@.skip(i + 1)) == views(lines@)
                    + (seq![line@] + lines_of(content@.skip(i + 1))));
            }
            lines.push(line);
            start = i + 1;
        }
        i += 1;
    }
    if start < content.len() {
        let line = slice_subrange(content, start, content.len());
        proof {
            let rest = content@.skip(start as int);
            lemma_line_len(rest, rest.len() as int);
            assert(rest == line@);
            assert(views(lines@.push(line)) == views(lines@).push(line@));
            assert(views(lines@).push(line@) == views(lines@) + seq![line@]);
        }
        lines.push(line);
    } else {
        assert(views(lines@) + Seq::<Seq<u8>>::empty() == views(lines@));
    }
    lines
}

/// Whether `b` is a blank.
pub fn is_blank(b: u8) -> (blank: bool)
    ensures
        blank == is_space(b),
{
    b == 32 || (9 <= b && b <= 13)
}

/// The words of `line`.
pub fn split_words(line: &[u8]) -> (words: Vec<&[u8]>)
    ensures
        views(words@) == words_of(line@),
{
    let mut words: Vec<&[u8]> = Vec::new();
    let mut i: usize = 0;
    assert(line@.skip(0) == line@);
    assert(views(words@) == Seq::<Seq<u8>>::empty());
    while i < line.len()
        invariant
            i <= line.len(),
            views(words@) + words_of(line@.skip(i as int)) == words_of(line@),
        decreases line.len() - i,
    {
        if is_blank(line[i]) {
            assert(line@.skip(i as int).skip(1) == line@.skip(i + 1));
            i += 1;
        } else {
            let start = i;
            while i < line.len() && !is_blank(line[i])
                invariant
                    start <= i <= line.len(),
                    start < line.len(),
                    !is_space(line@[start as int]),
                    forall|k: int| start <= k < i ==> !is_space(line@[k]),
                decreases line.len() - i,
            {
                i += 1;
            }
            let word = slice_subrange(line, start, i);
            proof {
                let rest = line@.skip(start as int);
                lemma_word_len(rest, i - start);
                assert(rest.take(i - start) == word@);
                assert(rest.skip(i - start) == line@.skip(i as int));
                assert(views(words@.push(word)) == views(words@).push(word@));
                assert(views(words@).push(word@) + words_of(line@.skip(i as int)) == views(words@)
                    + (seq![word@] + words_of(line@.skip(i as int))));
            }
            words.push(word);
        }
    }
    assert(views(words@) + Seq::<Seq<u8>>::empty() == views(words@));
    words
}

/// The number that `word` writes, if it writes one that is at most `limit`.
pub fn parse_number(word: &[u8], limit: u64) -> (number: Option<u64>)
    ensures
        match number_up_to(word@, limit as nat) {
            Some(value) => number == Some(value as u64),
            None => number is None,
        },
{
    let start: usize = if word.len() > 0 && word[0] == PLUS {
        1
    } else {
        0
    };
    let ghost digits = digits_of(word@);
    assert(digits == word@.skip(start as int));
    if start == word.len() {
        return None;
    }
    let mut value: u64 = 0;
    let mut i: usize = start;
    assert(digits.take(0) == Seq::<u8>::empty());
    while i < word.len()
        invariant
            start <= i <= word.len(),
            start < word.len(),
            digits == word@.skip(start as int),
            digits == digits_of(word@),
            all_digits(digits.take(i - start)),
            value == digits_value(digits.take(i - start)),
            value <= limit,
        decreases word.len() - i,
    {
        let b = word[i];
        assert(digits[i - start] == b);
        if b < ZERO || b > 57 {
            return None;
        }
        let digit = (b - ZERO) as u64;
        proof {
            assert(digits.take(i - start + 1).drop_last() == digits.take(i - start));
            assert(digits.take(i - start + 1).last() == b);
            assert forall|k: int| 0 <= k < i - start + 1 implies is_digit(
                #[trigger] digits.take(i - start + 1)[k],
            ) by {
                if k < i - start {
                    assert(digits.take(i - start)[k] == digits[k]);
                }
            }
        }
        if digit > limit || value > (limit - digit) / 10 {
            proof {
                if all_digits(digits) {
                    lemma_digits_grow(digits, i - start + 1);
                }
            }
            return None;
        }
        value = value * 10 + digit;
        i += 1;
    }
    assert(digits.take(i - start) == digits);
    Some(value)
}

/// A graph description as it is read: where it came from, its edges and the
/// numbers of its header.
pub struct Metis {
    pub filename: String,
    pub edges: Vec<(u32, u32)>,
    pub edge_count: usize,
    pub vertex_count: usize,
}

impl Metis {
    /// A reader for the description named `file`, with nothing read yet.
    pub fn new(file: &str) -> (reader: Self)
        ensures
            reader.filename@ == file@,
            reader.edges@ == Seq::<(u32, u32)>::empty(),
            reader.edge_count == 0,
            reader.vertex_count == 0,
    {
        Metis { filename: file.to_owned(), edges: Vec::new(), edge_count: 0, vertex_count: 0 }
    }

    /// Reads a whole description. On success the reader holds the numbers of
    /// the header, and the edges of the description behind the edges that it
    /// held. A malformed description is refused and changes nothing.
    pub fn parse(&mut self, content: &[u8]) -> (outcome: Result<(), MetisError>)
        ensures
            match described(content@) {
                Some(read) => {
                    &&& outcome is Ok
                    &&& read.header == Some((final(self).vertex_count, final(self).edge_count))
                    &&& final(self).edges@ == old(self).edges@ + read.edges
                    &&& final(self).filename == old(self).filename
                },
                None => outcome is Err && *final(self) == *old(self),
            },
    {
        let lines = split_lines(content);
        let mut scratch = Metis {
            filename: String::new(),
            edges: Vec::new(),
            edge_count: 0,
            vertex_count: 0,
        };
        let mut idx: u32 = 0;
        let mut i: usize = 0;
        let ghost mut read = nothing_read();
        assert(views(lines@).take(0) == Seq::<Seq<u8>>::empty());
        while i < lines.len()
            invariant
                i <= lines.len(),
                views(lines@) == lines_of(content@),
                read_lines(views(lines@).take(i as int)) == Some(read),
                read.next == idx,
                read.edges == scratch.edges@,
                idx == 0 <==> read.header is None,
                idx != 0 ==> read.header == Some((scratch.vertex_count, scratch.edge_count)),
            decreases lines.len() - i,
        {
            let line = lines[i];
            proof {
                assert(views(lines@).take(i + 1).drop_last() == views(lines@).take(i as int));
                assert(views(lines@).take(i + 1).last() == line@);
                if read_line(read, line@) is None {
                    lemma_read_lines_fails(views(lines@), i + 1);
                }
            }
            if idx != 0 {
                match scratch.parse_content_line(line, idx) {
                    Ok(next) => {
                        idx = next;
                    },
                    Err(error) => {
                        return Err(error);
                    },
                }
            } else if line.len() > 0 && line[0] == PERCENT {
            } else {
                match scratch.parse_header_line(line) {
                    Ok(()) => {
                        idx = 1;
                    },
                    Err(error) => {
                        return Err(error);
                    },
                }
            }
            proof {
                read = read_line(read, line@)->0;
            }
            i += 1;
        }
        assert(views(lines@).take(i as int) == views(lines@));
        if idx == 0 || (idx - 1) as usize != scratch.vertex_count || scratch.edges.len()
            != scratch.edge_count {
            return Err(MetisError::MalformedInput);
        }
        self.vertex_count = scratch.vertex_count;
        self.edge_count = scratch.edge_count;
        self.edges.append(&mut scratch.edges);
        Ok(())
    }

    /// Reads a line after the header, which stands for vertex `idx` unless
    /// it is a comment. Hands back the vertex that the next line stands
    /// for. The targets that the line lists become edges from `idx`, behind
    /// the edges that the reader held. A malformed line is refused and
    /// changes nothing.
    pub fn parse_content_line(&mut self, line: &[u8], idx: u32) -> (outcome: Result<
        u32,
        MetisError,
    >)
        ensures
            final(self).filename == old(self).filename,
            final(self).vertex_count == old(self).vertex_count,
            final(self).edge_count == old(self).edge_count,
            is_comment(line@) ==> outcome == Ok::<u32, MetisError>(idx) && final(self).edges
                == old(self).edges,
            !is_comment(line@) ==> match targets_of(words_of(line@)) {
                Some(targets) => if idx < u32::MAX {
                    &&& outcome == Ok::<u32, MetisError>((idx + 1) as u32)
                    &&& final(self).edges@ == old(self).edges@ + targets.map_values(
                        edge_from(idx),
                    )
                } else {
                    outcome is Err && final(self).edges == old(self).edges
                },
                None => outcome is Err && final(self).edges == old(self).edges,
            },
    {
        if line.len() > 0 && line[0] == PERCENT {
            return Ok(idx);
        }
        let words = split_words(line);
        let mut found: Vec<(u32, u32)> = Vec::new();
        let mut k: usize = 0;
        assert(views(words@).take(0) == Seq::<Seq<u8>>::empty());
        assert(Seq::<u32>::empty().map_values(edge_from(idx)) == Seq::<(u32, u32)>::empty());
        while k < words.len()
            invariant
                k <= words.len(),
                !is_comment(line@),
                views(words@) == words_of(line@),
                match targets_of(views(words@).take(k as int)) {
                    Some(targets) => found@ == targets.map_values(edge_from(idx)),
                    None => false,
                },
            decreases words.len() - k,
        {
            let ghost front = targets_of(views(words@).take(k as int))->0;
            proof {
                assert(views(words@).take(k + 1).drop_last() == views(words@).take(k as int));
                assert(views(words@).take(k + 1).last() == words@[k as int]@);
            }
            match parse_number(words[k], 0xFFFF_FFFF) {
                Some(target) => {
                    found.push((idx, target as u32));
                    assert(front.push(target as u32).map_values(edge_from(idx))
                        == front.map_values(edge_from(idx)).push((idx, target as u32)));
                },
                None => {
                    proof {
                        lemma_targets_fail(views(words@), k + 1);
                    }
                    return Err(MetisError::MalformedInput);
                },
            }
            k += 1;
        }
        assert(views(words@).take(k as int) == views(words@));
        if idx == u32::MAX {
            return Err(MetisError::MalformedInput);
        }
        self.edges.append(&mut found);
        Ok(idx + 1)
    }

    /// Reads the header: the numbers of vertices and of edges. A line that
    /// does not start with two numbers is refused and changes nothing.
    pub fn parse_header_line(&mut self, header: &[u8]) -> (outcome: Result<(), MetisError>)
        ensures
            final(self).filename == old(self).filename,
            final(self).edges == old(self).edges,
            match header_of(header@) {
                Some(counts) => {
                    &&& outcome is Ok
                    &&& final(self).vertex_count == counts.0
                    &&& final(self).edge_count == counts.1
                },
                None => outcome is Err && *final(self) == *old(self),
            },
    {
        let parts = split_words(header);
        if parts.len() < 2 {
            return Err(MetisError::MalformedInput);
        }
        assert(views(parts@)[0] == parts@[0]@);
        assert(views(parts@)[1] == parts@[1]@);
        let limit = usize::MAX as u64;
        match (parse_number(parts[0], limit), parse_number(parts[1], limit)) {
            (Some(vertices), Some(edges)) => {
                self.vertex_count = vertices as usize;
                self.edge_count = edges as usize;
                Ok(())
            },
            _ => Err(MetisError::MalformedInput),
        }
    }

    /// The edges read so far.
    pub fn edges(&self) -> (edges: &[(u32, u32)])
        ensures
            edges@ == self.edges@,
    {
        self.edges.as_slice()
    }

    /// The number of vertices that the header gave.
    pub fn vertices(&self) -> (count: usize)
        ensures
            count == self.vertex_count,
    {
        self.vertex_count
    }
}

/// The graph that `content`, the content of a file in the exchange format,
/// describes: the vertices from 1 up to the number that the header gives,
/// and the edges that the lines list. A malformed description is refused.
pub fn graph_from_file(content: &[u8]) -> (outcome: Result<HashTable, MetisError>)
    ensures
        match described(content@) {
            Some(read) => {
                &&& outcome is Ok
                &&& outcome->Ok_0.wf()
                &&& outcome->Ok_0@ == with_edges(
                    with_vertices(Map::empty(), vertex_ids(vertices_read(read))),
                    read.edges,
                )
            },
            None => outcome is Err,
        },
{
    let mut parser = Metis::new("");
    match parser.parse(content) {
        Ok(()) => {
            let ghost read = described(content@)->0;
            assert(parser.edges@ == read.edges);
            let count = parser.vertices();
            let mut ids: Vec<VertexId> = Vec::new();
            let mut id: u32 = 0;
            while (id as usize) < count
                invariant
                    count < u32::MAX,
                    id <= count,
                    ids@ == vertex_ids(id as nat),
                decreases count - id,
            {
                id += 1;
                ids.push(id);
                assert(ids@ == vertex_ids(id as nat));
            }
            Ok(HashTable::from_vertices_and_edges(ids.as_slice(), parser.edges()))
        },
        Err(error) => Err(error),
    }
}

/// Once some of the lines cannot be read, no more of them can.
pub proof fn lemma_read_lines_fails(lines: Seq<Seq<u8>>, n: int)
    requires
        0 <= n <= lines.len(),
        read_lines(lines.take(n)) is None,
    ensures
        read_lines(lines) is None,
    decreases lines.len() - n,
{
    if n < lines.len() {
        assert(lines.take(n + 1).drop_last() == lines.take(n));
        lemma_read_lines_fails(lines, n + 1);
    } else {
        assert(lines.take(n) == lines);
    }
}

/// Once some of the words write no vertex identifiers, no more of them do.
pub proof fn lemma_targets_fail(words: Seq<Seq<u8>>, n: int)
    requires
        0 <= n <= words.len(),
        targets_of(words.take(n)) is None,
    ensures
        targets_of(words) is None,
    decreases words.len() - n,
{
    if n < words.len() {
        assert(words.take(n + 1).drop_last() == words.take(n));
        lemma_targets_fail(words, n + 1);
    } else {
        assert(words.take(n) == words);
    }
}

} // verus!
