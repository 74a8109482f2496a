use feedback_arc_set::tools::metis::{
    graph_from_file, is_blank, parse_number, split_lines, split_words, Metis, MetisError,
};

/// A description of 512 vertices and 651 edges: vertex `v` lists `v + 1`,
/// and the first 140 vertices list one vertex more.
fn e_001(with_comments: bool) -> Vec<u8> {
    let mut text = String::new();
    if with_comments {
        text.push_str("% a graph on a ring\n");
    }
    text.push_str("512 651\n");
    for v in 1..=512u32 {
        if with_comments && v % 100 == 0 {
            text.push_str(&format!("% vertex {}\n", v));
        }
        if v < 512 {
            text.push_str(&format!("{}", v + 1));
        }
        if v <= 140 {
            text.push_str(&format!(" {}", (v * 7) % 512 + 1));
        }
        text.push('\n');
    }
    text.into_bytes()
}

/// The content that stands for the file of that name: the tests read no
/// file, each name stands for a description that is made here.
fn content_of(filename: &str) -> Vec<u8> {
    match filename {
        "test/resources/exact/e_001" => e_001(false),
        "test/resources/exact/e_001_with_comments" => e_001(true),
        _ => panic!("no content for {}", filename),
    }
}

fn can_parse_metis_file(path: &str, expected_vertex_count: usize, expected_edge_count: usize) {
    let mut e_001 = Metis::new(path);
    assert_eq!(e_001.parse(&content_of(path)), Ok(()));

    assert_eq!(e_001.vertex_count, expected_vertex_count);
    assert_eq!(e_001.edge_count, expected_edge_count);
    assert_eq!(e_001.edges.len(), e_001.edge_count);

    println!("{:?}", e_001.edges);
}

#[test]
fn can_parse_e_001() {
    can_parse_metis_file("test/resources/exact/e_001", 512, 651);
}

#[test]
fn can_parse_e_001_with_comments() {
    can_parse_metis_file("test/resources/exact/e_001_with_comments", 512, 651);
}

#[test]
fn comments_consume_no_vertex() {
    let mut plain = Metis::new("plain");
    plain.parse(&e_001(false)).unwrap();
    let mut commented = Metis::new("commented");
    commented.parse(&e_001(true)).unwrap();
    assert_eq!(plain.edges, commented.edges);
}

#[test]
fn parses_a_small_description() {
    let mut reader = Metis::new("small");
    assert_eq!(reader.filename, "small");
    let outcome = reader.parse(b"% three vertices\n3 4\n2 3\n% between\n\n1  +2\n");
    assert_eq!(outcome, Ok(()));
    assert_eq!(reader.vertices(), 3);
    assert_eq!(reader.edge_count, 4);
    assert_eq!(reader.edges(), &[(1, 2), (1, 3), (3, 1), (3, 2)]);
}

#[test]
fn last_line_needs_no_line_end() {
    let mut reader = Metis::new("open");
    assert_eq!(reader.parse(b"2 2\n2\n1"), Ok(()));
    assert_eq!(reader.edges(), &[(1, 2), (2, 1)]);
}

#[test]
fn carriage_returns_are_blanks() {
    let mut reader = Metis::new("dos");
    assert_eq!(reader.parse(b"2 1\r\n2\r\n\r\n"), Ok(()));
    assert_eq!(reader.edges(), &[(1, 2)]);
}

#[test]
fn header_may_hold_more_than_two_numbers() {
    let mut reader = Metis::new("wide");
    assert_eq!(reader.parse(b"1 0 0\n\n"), Ok(()));
    assert_eq!(reader.vertices(), 1);
}

#[test]
fn non_numeric_word_is_malformed() {
    let mut reader = Metis::new("bad");
    assert_eq!(
        reader.parse(b"2 2\n2\nx1\n"),
        Err(MetisError::MalformedInput)
    );
    assert_eq!(reader.vertices(), 0);
    assert!(reader.edges().is_empty());
    assert_eq!(
        Metis::new("bad").parse(b"2 1\n-2\n\n"),
        Err(MetisError::MalformedInput)
    );
    assert_eq!(
        Metis::new("bad").parse(b"2 1\n4294967296\n\n"),
        Err(MetisError::MalformedInput)
    );
    assert_eq!(
        Metis::new("bad").parse(b"two 1\n2\n\n"),
        Err(MetisError::MalformedInput)
    );
}

#[test]
fn inconsistent_header_is_malformed() {
    assert_eq!(
        Metis::new("edges").parse(b"2 3\n2\n1\n"),
        Err(MetisError::MalformedInput)
    );
    assert_eq!(
        Metis::new("vertices").parse(b"3 2\n2\n1\n"),
        Err(MetisError::MalformedInput)
    );
    assert_eq!(
        Metis::new("short header").parse(b"3\n"),
        Err(MetisError::MalformedInput)
    );
    assert_eq!(
        Metis::new("no header").parse(b""),
        Err(MetisError::MalformedInput)
    );
    assert_eq!(
        Metis::new("only comments").parse(b"% nothing\n"),
        Err(MetisError::MalformedInput)
    );
}

#[test]
fn header_line_sets_the_counts() {
    let mut reader = Metis::new("header");
    assert_eq!(reader.parse_header_line(b" 12\t34 "), Ok(()));
    assert_eq!(reader.vertex_count, 12);
    assert_eq!(reader.edge_count, 34);
    assert_eq!(
        reader.parse_header_line(b"12"),
        Err(MetisError::MalformedInput)
    );
    assert_eq!(reader.vertex_count, 12);
}

#[test]
fn content_line_lists_the_targets_of_one_vertex() {
    let mut reader = Metis::new("content");
    assert_eq!(reader.parse_content_line(b"4 5 6", 3), Ok(4));
    assert_eq!(reader.parse_content_line(b"% 7", 4), Ok(4));
    assert_eq!(reader.parse_content_line(b"", 4), Ok(5));
    assert_eq!(
        reader.parse_content_line(b"1 b", 5),
        Err(MetisError::MalformedInput)
    );
    assert_eq!(
        reader.parse_content_line(b"1", u32::MAX),
        Err(MetisError::MalformedInput)
    );
    assert_eq!(reader.edges(), &[(3, 4), (3, 5), (3, 6)]);
}

#[test]
fn splits_lines_and_words() {
    assert_eq!(
        split_lines(b"a b\n\ncd\n"),
        vec![&b"a b"[..], &b""[..], &b"cd"[..]]
    );
    assert_eq!(split_lines(b"x\ny"), vec![&b"x"[..], &b"y"[..]]);
    assert!(split_lines(b"").is_empty());
    assert_eq!(split_lines(b"\n"), vec![&b""[..]]);
    assert_eq!(
        split_words(b"  12\t3 \r"),
        vec![&b"12"[..], &b"3"[..]]
    );
    assert!(split_words(b" \t ").is_empty());
    assert!(is_blank(b' ') && is_blank(b'\t') && is_blank(b'\r') && is_blank(11) && is_blank(12));
    assert!(!is_blank(b'0') && !is_blank(b'%') && !is_blank(8) && !is_blank(14));
}

#[test]
fn numbers_are_decimal_with_an_optional_plus() {
    assert_eq!(parse_number(b"0", 10), Some(0));
    assert_eq!(parse_number(b"007", 10), Some(7));
    assert_eq!(parse_number(b"+10", 10), Some(10));
    assert_eq!(parse_number(b"11", 10), None);
    assert_eq!(parse_number(b"4294967295", 4294967295), Some(4294967295));
    assert_eq!(parse_number(b"4294967296", 4294967295), None);
    assert_eq!(parse_number(b"18446744073709551615", u64::MAX), Some(u64::MAX));
    assert_eq!(parse_number(b"18446744073709551616", u64::MAX), None);
    assert_eq!(parse_number(b"", 10), None);
    assert_eq!(parse_number(b"+", 10), None);
    assert_eq!(parse_number(b"++1", 10), None);
    assert_eq!(parse_number(b"1+", 10), None);
    assert_eq!(parse_number(b"-1", 10), None);
    assert_eq!(parse_number(b"1a", 10), None);
}

#[test]
fn graph_from_file_keeps_every_vertex_of_the_header() {
    let graph = graph_from_file(b"4 2\n3\n\n1\n\n").unwrap();
    assert_eq!(graph.vertices(), vec![1, 2, 3, 4]);
    assert_eq!(graph.all_edges(), vec![(1, 3), (3, 1)]);
    assert!(graph.is_cyclic());
    assert!(graph_from_file(b"4 2\n3\n").is_err());
}
