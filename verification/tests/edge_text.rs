use rustgraph::parse::{parse_edge_line, parse_edge_list, parse_number};
use rustgraph::traits::Graph;
use rustgraph::GraphError;
use rustgraph::SimpleGraph;

#[test]
fn text_of_the_five_vertex_graph() {
    let g = SimpleGraph::<u32>::from_edge_text("0 1\n1 2\n2 3\n0 3\n3 4\n").unwrap();
    assert_eq!(g.nv(), 5);
    assert_eq!(g.ne(), 5);
    assert_eq!(g.bfs(0).unwrap(), vec![0, 1, 2, 1, 2]);
}

#[test]
fn line_with_three_fields_is_malformed() {
    assert_eq!(parse_edge_line::<u32>("1 2 3").unwrap_err(), GraphError::MalformedLine);
    let r = SimpleGraph::<u32>::from_edge_text("0 1\n1 2 3\n2 3\n");
    assert_eq!(r.unwrap_err(), GraphError::MalformedLine);
    assert_eq!(parse_edge_list::<u32>("1 2 3").unwrap_err(), GraphError::MalformedLine);
}

#[test]
fn comment_lines_are_skipped() {
    let plain = parse_edge_list::<u32>("0 1\n1 2\n2 3\n").unwrap();
    let noted = parse_edge_list::<u32>("0 1\n# comment\n1 2\n   # 7 8 9\n2 3\n#\n").unwrap();
    assert_eq!(plain, vec![(0, 1), (1, 2), (2, 3)]);
    assert_eq!(noted, plain);
    let g = SimpleGraph::<u32>::from_edge_text("0 1\n# comment\n1 2\n").unwrap();
    assert_eq!(g.nv(), 3);
    assert_eq!(g.ne(), 2);
    assert_eq!(parse_edge_line::<u32>("# comment"), Ok(None));
    assert_eq!(parse_edge_line::<u32>("#12 13"), Ok(None));
    assert_eq!(parse_edge_line::<u32>(" \t#"), Ok(None));
}

#[test]
fn line_with_one_field_or_none_is_malformed() {
    assert_eq!(parse_edge_line::<u32>("17").unwrap_err(), GraphError::MalformedLine);
    assert_eq!(parse_edge_line::<u32>("  17  ").unwrap_err(), GraphError::MalformedLine);
    assert_eq!(parse_edge_line::<u32>("").unwrap_err(), GraphError::MalformedLine);
    assert_eq!(parse_edge_line::<u32>("   \t ").unwrap_err(), GraphError::MalformedLine);
    assert_eq!(parse_edge_list::<u32>("0 1\n\n1 2\n").unwrap_err(), GraphError::MalformedLine);
    assert_eq!(parse_edge_list::<u32>("0 1\n\n").unwrap_err(), GraphError::MalformedLine);
    assert_eq!(parse_edge_list::<u32>("\n").unwrap_err(), GraphError::MalformedLine);
}

#[test]
fn field_that_is_no_number_is_a_parse_error() {
    assert_eq!(parse_edge_line::<u32>("a b").unwrap_err(), GraphError::ParseError);
    assert_eq!(parse_edge_line::<u32>("1 x2").unwrap_err(), GraphError::ParseError);
    assert_eq!(parse_edge_line::<u32>("1 2x").unwrap_err(), GraphError::ParseError);
    assert_eq!(parse_edge_line::<u32>("-1 2").unwrap_err(), GraphError::ParseError);
    assert_eq!(parse_edge_line::<u32>("1.0 2").unwrap_err(), GraphError::ParseError);
    assert_eq!(parse_edge_line::<u32>("1 +").unwrap_err(), GraphError::ParseError);
    assert_eq!(parse_edge_line::<u32>("1 ++2").unwrap_err(), GraphError::ParseError);
    assert_eq!(parse_edge_line::<u32>("1,2 3").unwrap_err(), GraphError::ParseError);
    assert_eq!(parse_edge_line::<u32>("0x10 3").unwrap_err(), GraphError::ParseError);
    assert_eq!(parse_edge_line::<u32>("\u{661} 3").unwrap_err(), GraphError::ParseError);
    let r = SimpleGraph::<u32>::from_edge_text("0 1\n1 two\n");
    assert_eq!(r.unwrap_err(), GraphError::ParseError);
}

#[test]
fn number_of_more_than_128_bits_is_a_parse_error() {
    let max = "340282366920938463463374607431768211455";
    let over = "340282366920938463463374607431768211456";
    assert_eq!(parse_number(max), Some(u128::MAX));
    assert_eq!(parse_number(over), None);
    assert_eq!(parse_number("3402823669209384634633746074317682114550"), None);
    assert_eq!(parse_number("000000000000000000000000000000000000000000000000017"), Some(17));
    assert_eq!(parse_edge_line::<u64>(&format!("1 {}", over)).unwrap_err(), GraphError::ParseError);
    assert_eq!(
        parse_edge_line::<u64>(&format!("1 {}", max)).unwrap_err(),
        GraphError::VertexOutOfRange
    );
}

#[test]
fn numbers_in_fields() {
    assert_eq!(parse_number("0"), Some(0));
    assert_eq!(parse_number("7"), Some(7));
    assert_eq!(parse_number("1234567890"), Some(1234567890));
    assert_eq!(parse_number("+42"), Some(42));
    assert_eq!(parse_number("007"), Some(7));
    assert_eq!(parse_number(""), None);
    assert_eq!(parse_number("+"), None);
    assert_eq!(parse_number("-3"), None);
    assert_eq!(parse_number("4+"), None);
    assert_eq!(parse_number("+-4"), None);
    assert_eq!(parse_number("12 "), None);
    assert_eq!(parse_number("1e3"), None);
}

#[test]
fn vertex_beyond_the_identifier_width_is_out_of_range() {
    assert_eq!(parse_edge_line::<u8>("255 0"), Ok(Some((255, 0))));
    assert_eq!(parse_edge_line::<u8>("256 0").unwrap_err(), GraphError::VertexOutOfRange);
    assert_eq!(parse_edge_line::<u8>("0 256").unwrap_err(), GraphError::VertexOutOfRange);
    assert_eq!(parse_edge_line::<u16>("65535 65535"), Ok(Some((65535, 65535))));
    assert_eq!(parse_edge_line::<u16>("65536 1").unwrap_err(), GraphError::VertexOutOfRange);
    assert_eq!(parse_edge_line::<u32>("4294967295 1"), Ok(Some((4294967295, 1))));
    assert_eq!(parse_edge_line::<u32>("4294967296 1").unwrap_err(), GraphError::VertexOutOfRange);
    assert_eq!(
        parse_edge_line::<u64>("18446744073709551615 1"),
        Ok(Some((18446744073709551615, 1)))
    );
    assert_eq!(
        parse_edge_line::<u64>("18446744073709551616 1").unwrap_err(),
        GraphError::VertexOutOfRange
    );
    let r = SimpleGraph::<u8>::from_edge_text("1 2\n300 4\n");
    assert_eq!(r.unwrap_err(), GraphError::VertexOutOfRange);
}

#[test]
fn a_number_is_read_before_its_range_is_checked() {
    // the first field is out of range and the second is no number
    assert_eq!(parse_edge_line::<u8>("300 x").unwrap_err(), GraphError::ParseError);
    // the field count is checked before anything is read
    assert_eq!(parse_edge_line::<u8>("300 x y").unwrap_err(), GraphError::MalformedLine);
}

#[test]
fn the_first_refused_line_gives_the_reason() {
    assert_eq!(parse_edge_list::<u8>("0 1\nx y\n1 2 3\n").unwrap_err(), GraphError::ParseError);
    assert_eq!(parse_edge_list::<u8>("0 1\n1 2 3\nx y\n").unwrap_err(), GraphError::MalformedLine);
    assert_eq!(
        parse_edge_list::<u8>("999 1\n1 2 3\nx y").unwrap_err(),
        GraphError::VertexOutOfRange
    );
    assert_eq!(parse_edge_list::<u8>("# 1 2 3\n0 1\nx y").unwrap_err(), GraphError::ParseError);
}

#[test]
fn white_space_of_any_kind_separates_fields() {
    assert_eq!(parse_edge_line::<u32>("3 4"), Ok(Some((3, 4))));
    assert_eq!(parse_edge_line::<u32>("3\t4"), Ok(Some((3, 4))));
    assert_eq!(parse_edge_line::<u32>("  3   \t 4  \r"), Ok(Some((3, 4))));
    assert_eq!(parse_edge_line::<u32>("3\u{b}4\u{c}"), Ok(Some((3, 4))));
    assert_eq!(parse_edge_line::<u32>("3\u{a0}4"), Ok(Some((3, 4))));
    assert_eq!(parse_edge_line::<u32>("\u{3000}3\u{2003}4\u{85}"), Ok(Some((3, 4))));
    assert_eq!(parse_edge_line::<u32>("3\u{1680}4\u{2028}"), Ok(Some((3, 4))));
    assert_eq!(parse_edge_line::<u32>("3\u{200b}4").unwrap_err(), GraphError::MalformedLine);
    assert_eq!(parse_edge_line::<u32>("3 \u{200b} 4").unwrap_err(), GraphError::MalformedLine);
}

#[test]
fn line_ends() {
    let want = vec![(0u32, 1u32), (1, 2)];
    assert_eq!(parse_edge_list::<u32>("0 1\n1 2\n").unwrap(), want);
    assert_eq!(parse_edge_list::<u32>("0 1\n1 2").unwrap(), want);
    assert_eq!(parse_edge_list::<u32>("0 1\r\n1 2\r\n").unwrap(), want);
    assert_eq!(parse_edge_list::<u32>("0 1\n1 2\n#").unwrap(), want);
    assert_eq!(parse_edge_list::<u32>("").unwrap(), Vec::<(u32, u32)>::new());
    assert_eq!(parse_edge_list::<u32>("# only a note").unwrap(), Vec::<(u32, u32)>::new());
    assert_eq!(parse_edge_list::<u32>("0 1\n1 2\n ").unwrap_err(), GraphError::MalformedLine);
}

#[test]
fn signs_and_leading_zeros() {
    assert_eq!(parse_edge_line::<u32>("+3 +4"), Ok(Some((3, 4))));
    assert_eq!(parse_edge_line::<u32>("003 0004"), Ok(Some((3, 4))));
    assert_eq!(parse_edge_line::<u8>("+0000255 00"), Ok(Some((255, 0))));
}

#[test]
fn edges_keep_their_order_and_their_repeats() {
    let edges = parse_edge_list::<u16>("5 1\n0 0\n5 1\n2 5\n0 0\n").unwrap();
    assert_eq!(edges, vec![(5, 1), (0, 0), (5, 1), (2, 5), (0, 0)]);
    let g = SimpleGraph::<u16>::from_edge_text("5 1\n0 0\n5 1\n2 5\n0 0\n").unwrap();
    assert_eq!(g.nv(), 6);
    assert_eq!(g.ne(), 5);
    assert_eq!(g.outneighbors(5).unwrap().to_vec(), vec![1, 1]);
    assert_eq!(g.outneighbors(0).unwrap().to_vec(), vec![0, 0]);
}

#[test]
fn text_with_a_vertex_too_large_for_any_store() {
    let r = SimpleGraph::<u64>::from_edge_text("0 18446744073709551615\n");
    assert_eq!(r.unwrap_err(), GraphError::VertexOutOfRange);
}
