use path_stats::error::GraphError;
use path_stats::graph::Graph;
use path_stats::record::{parse_edge, HEADER_LINES};

#[test]
fn tab_separated_record() {
    assert_eq!(parse_edge(b"0\t1"), Ok((0, 1)));
    assert_eq!(parse_edge(b"262110\t262099"), Ok((262110, 262099)));
}

#[test]
fn space_separated_record() {
    assert_eq!(parse_edge(b"12 34"), Ok((12, 34)));
    assert_eq!(parse_edge(b"12   \t  34"), Ok((12, 34)));
}

#[test]
fn blanks_around_a_record_are_ignored() {
    assert_eq!(parse_edge(b"  7\t8  "), Ok((7, 8)));
    assert_eq!(parse_edge(b"7\t8\r"), Ok((7, 8)));
    assert_eq!(parse_edge(b"\t7 8\n"), Ok((7, 8)));
}

#[test]
fn fields_after_the_second_are_ignored() {
    assert_eq!(parse_edge(b"1\t2\t3"), Ok((1, 2)));
    assert_eq!(parse_edge(b"1 2 weight=0.5"), Ok((1, 2)));
}

#[test]
fn leading_zeros_and_plus_signs_are_accepted() {
    assert_eq!(parse_edge(b"007\t0"), Ok((7, 0)));
    assert_eq!(parse_edge(b"+3\t+4"), Ok((3, 4)));
    assert_eq!(parse_edge(b"00000000000000000000005 6"), Ok((5, 6)));
}

#[test]
fn largest_identifier_is_accepted() {
    assert_eq!(parse_edge(b"4294967295\t0"), Ok((u32::MAX, 0)));
    assert_eq!(parse_edge(b"0\t4294967295"), Ok((0, u32::MAX)));
}

#[test]
fn identifier_out_of_range_is_malformed() {
    assert_eq!(parse_edge(b"4294967296\t0"), Err(GraphError::MalformedRecord));
    assert_eq!(parse_edge(b"0\t99999999999999999999"), Err(GraphError::MalformedRecord));
}

#[test]
fn empty_record_is_malformed() {
    assert_eq!(parse_edge(b""), Err(GraphError::MalformedRecord));
    assert_eq!(parse_edge(b"   \t "), Err(GraphError::MalformedRecord));
}

#[test]
fn record_with_one_field_is_malformed() {
    assert_eq!(parse_edge(b"17"), Err(GraphError::MalformedRecord));
    assert_eq!(parse_edge(b"17\t"), Err(GraphError::MalformedRecord));
}

#[test]
fn field_that_is_no_number_is_malformed() {
    assert_eq!(parse_edge(b"a\t1"), Err(GraphError::MalformedRecord));
    assert_eq!(parse_edge(b"1\tb"), Err(GraphError::MalformedRecord));
    assert_eq!(parse_edge(b"1x\t2"), Err(GraphError::MalformedRecord));
    assert_eq!(parse_edge(b"1\t2x"), Err(GraphError::MalformedRecord));
    assert_eq!(parse_edge(b"# FromNodeId\tToNodeId"), Err(GraphError::MalformedRecord));
}

#[test]
fn negative_number_is_malformed() {
    assert_eq!(parse_edge(b"-1\t2"), Err(GraphError::MalformedRecord));
    assert_eq!(parse_edge(b"1\t-2"), Err(GraphError::MalformedRecord));
}

#[test]
fn sign_without_digits_is_malformed() {
    assert_eq!(parse_edge(b"+\t2"), Err(GraphError::MalformedRecord));
    assert_eq!(parse_edge(b"1\t+"), Err(GraphError::MalformedRecord));
    assert_eq!(parse_edge(b"++1\t2"), Err(GraphError::MalformedRecord));
}

#[test]
fn records_agree_with_the_standard_parser() {
    for text in ["0", "1", "42", "+42", "4294967295", "4294967296", "", "+", "-0", "1a", "0x10"] {
        let record = format!("{}\t5", text);
        let expected = text.parse::<u32>().map(|from| (from, 5)).map_err(|_| GraphError::MalformedRecord);
        assert_eq!(parse_edge(record.as_bytes()), expected);
    }
}

#[test]
fn edge_list_is_loaded_after_its_header() {
    let text = "# Directed graph\n# Amazon\n# Nodes: 4 Edges: 4\n# FromNodeId\tToNodeId\n0\t1\n0\t2\n1\t3\n2\t3\n";
    let mut graph = Graph::new();
    for line in text.lines().skip(HEADER_LINES) {
        let (from, to) = parse_edge(line.as_bytes()).unwrap();
        graph.add_edge(from, to);
    }
    assert_eq!(HEADER_LINES, 4);
    assert_eq!(graph.node_count(), 3);
    assert_eq!(graph.neighbors(0), &[1, 2]);
    assert_eq!(graph.max_shortest_path_length(0), 2);
}
