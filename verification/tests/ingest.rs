use centrality::error::CentralityError;
use centrality::graph::EdgeWeightedDigraph;
use centrality::ingest::{parse_index, parse_record};

#[test]
fn index_is_read_as_a_decimal_number() {
    assert_eq!(parse_index(b"0"), Some(0));
    assert_eq!(parse_index(b"7"), Some(7));
    assert_eq!(parse_index(b"167"), Some(167));
    assert_eq!(parse_index(b"1234567890"), Some(1234567890));
    assert_eq!(parse_index(b"007"), Some(7));
    assert_eq!(parse_index(b"+42"), Some(42));
}

#[test]
fn index_agrees_with_the_standard_parser() {
    let texts = [
        "", "+", "-", "0", "+0", "-0", "12", " 12", "12 ", "1 2", "++1", "+-1", "1+", "0x10", "1e3",
        "1.0", "١٢", "18446744073709551615", "18446744073709551616", "99999999999999999999999",
        "000000000000000000000000000001", "4294967295", "4294967296", "a", "1a", "a1", "1;2",
    ];
    for text in texts {
        assert_eq!(parse_index(text.as_bytes()), text.parse::<usize>().ok(), "{:?}", text);
    }
}

#[test]
fn index_that_does_not_fit_is_refused() {
    let largest = usize::MAX.to_string();
    assert_eq!(parse_index(largest.as_bytes()), Some(usize::MAX));
    let mut beyond = largest.clone().into_bytes();
    let last = beyond.len() - 1;
    beyond[last] += 1;
    assert_eq!(parse_index(&beyond), None);
    let longer = format!("{}0", largest);
    assert_eq!(parse_index(longer.as_bytes()), None);
}

#[test]
fn record_is_its_first_two_fields() {
    assert_eq!(parse_record(b"17;37"), Some((17, 37)));
    assert_eq!(parse_record(b"17;37;2010-01-02 17:40:10"), Some((17, 37)));
    assert_eq!(parse_record(b"0;0;"), Some((0, 0)));
    assert_eq!(parse_record(b"3;4;not;looked;at"), Some((3, 4)));
    assert_eq!(parse_record(b"+3;+4"), Some((3, 4)));
}

#[test]
fn line_that_is_no_record_gives_nothing() {
    assert_eq!(parse_record(b""), None);
    assert_eq!(parse_record(b"17"), None);
    assert_eq!(parse_record(b"17;"), None);
    assert_eq!(parse_record(b";37"), None);
    assert_eq!(parse_record(b";"), None);
    assert_eq!(parse_record(b"17,37"), None);
    assert_eq!(parse_record(b"17; 37"), None);
    assert_eq!(parse_record(b"17;37\r"), None);
    assert_eq!(parse_record(b"Sender;Recipient;EventDate"), None);
    assert_eq!(parse_record(b"-1;2"), None);
    assert_eq!(parse_record(b"1;x"), None);
}

#[test]
fn record_line_adds_the_edge() {
    let mut graph = EdgeWeightedDigraph::new(3);
    assert_eq!(graph.record_line(b"0;1;2010-01-02"), Ok(()));
    assert_eq!(graph.record_line(b"1;2"), Ok(()));
    assert_eq!(graph.record_line(b"0;1"), Ok(()));
    assert_eq!(*graph.rows(), vec![vec![0, 2, 0], vec![0, 0, 1], vec![0, 0, 0]]);
    assert_eq!(graph.interactions(), 3);
}

#[test]
fn record_line_refuses_what_is_malformed_or_out_of_range() {
    let mut graph = EdgeWeightedDigraph::new(3);
    graph.record_line(b"0;1").unwrap();
    assert_eq!(graph.record_line(b"0;3"), Err(CentralityError::IndexOutOfRange));
    assert_eq!(graph.record_line(b"3;0"), Err(CentralityError::IndexOutOfRange));
    assert_eq!(graph.record_line(b"one;two"), Err(CentralityError::IndexOutOfRange));
    assert_eq!(graph.record_line(b"1"), Err(CentralityError::IndexOutOfRange));
    assert_eq!(graph.record_line(b""), Err(CentralityError::IndexOutOfRange));
    assert_eq!(*graph.rows(), vec![vec![0, 1, 0], vec![0, 0, 0], vec![0, 0, 0]]);
    assert_eq!(graph.interactions(), 1);
}
