use onebrc::order::compare_bytes;
use onebrc::records::{split_line, FormatError};
use onebrc::summary::{format_output, format_output_bytes, mean_of, process_data, summarize, summarize_bytes};
use onebrc::table::{Accumulator, StationTable};
use onebrc::temperature::{push_tenths, try_parse_temperature};
use std::cmp::Ordering;

#[test]
fn empty_input_gives_braces() {
    assert_eq!(summarize(b"").unwrap(), "{}");
    assert_eq!(summarize_bytes(b"").unwrap(), b"{}".to_vec());
}

#[test]
fn input_of_blank_lines_gives_braces() {
    assert_eq!(summarize(b"\n\n\n").unwrap(), "{}");
}

#[test]
fn scenario_two_keys_sorted() {
    let out = summarize(b"Hamburg;12.0\nBerlin;20.0\nHamburg;8.0\nBerlin;25.0\n").unwrap();
    assert_eq!(out, "{Berlin=20.0/22.5/25.0, Hamburg=8.0/10.0/12.0}");
}

#[test]
fn scenario_negative_mean_rounds() {
    let out = summarize(b"Oslo;-5.0\nOslo;-10.0\nOslo;-2.0\n").unwrap();
    assert_eq!(out, "{Oslo=-10.0/-5.7/-2.0}");
}

#[test]
fn scenario_accumulator_formats() {
    let mut t = StationTable::new();
    t.insert(b"Tokyo", Accumulator { min: 248, sum: 766, count: 3, max: 263 });
    assert_eq!(format_output_bytes(&t), b"{Tokyo=24.8/25.5/26.3}".to_vec());
}

#[test]
fn extremes_are_exact_and_mean_rounds() {
    let out = summarize(b"X;-99.9\nX;99.9\nX;0.1\n").unwrap();
    // mean = 0.1 / 3 = 0.0333... -> 0.0
    assert_eq!(out, "{X=-99.9/0.0/99.9}");
}

#[test]
fn rerun_gives_identical_output() {
    let data = b"b;1.0\na;2.0\nc;-3.0\na;4.5\n";
    assert_eq!(summarize_bytes(data), summarize_bytes(data));
}

#[test]
fn keys_sorted_bytewise_without_duplicates() {
    let out = summarize("b;1.0\nB;1.0\na;1.0\nä;1.0\nb;2.0\n".as_bytes()).unwrap();
    assert_eq!(out, "{B=1.0/1.0/1.0, a=1.0/1.0/1.0, b=1.0/1.5/2.0, ä=1.0/1.0/1.0}");
}

#[test]
fn no_trailing_newline() {
    assert_eq!(summarize(b"A;1.0\nA;3.0").unwrap(), "{A=1.0/2.0/3.0}");
}

#[test]
fn blank_line_in_the_middle_is_skipped() {
    assert_eq!(summarize(b"A;1.0\n\nB;2.0\n").unwrap(), "{A=1.0/1.0/1.0, B=2.0/2.0/2.0}");
}

#[test]
fn key_may_hold_delimiter() {
    assert_eq!(summarize(b"a;b;1.5\n").unwrap(), "{a;b=1.5/1.5/1.5}");
    assert_eq!(split_line(b"a;b;1.5"), Some((&b"a;b"[..], &b"1.5"[..])));
}

#[test]
fn unicode_keys_are_kept() {
    let out = summarize("Hamburg;12.5\n北京;-3.7\n東京;25.0\n".as_bytes()).unwrap();
    assert_eq!(out, "{Hamburg=12.5/12.5/12.5, 北京=-3.7/-3.7/-3.7, 東京=25.0/25.0/25.0}");
}

#[test]
fn missing_delimiter_is_an_error() {
    assert_eq!(summarize(b"A;1.0\nnodelimiter\n"), Err(FormatError::MissingDelimiter));
    assert_eq!(split_line(b"abc"), None);
}

#[test]
fn bad_value_is_an_error() {
    assert_eq!(summarize(b"A;1.05\n").map(|_| ()), Err(FormatError::InvalidValue));
    assert_eq!(summarize(b"A;x.0\n").map(|_| ()), Err(FormatError::InvalidValue));
    assert_eq!(summarize(b"A;\n").map(|_| ()), Err(FormatError::InvalidValue));
    assert!(process_data(b"A;12\n").is_err());
}

#[test]
fn first_error_wins() {
    assert_eq!(summarize(b"A;1.0\nA;zz\nnodelim\n"), Err(FormatError::InvalidValue));
    assert_eq!(summarize(b"nodelim\nA;zz\n"), Err(FormatError::MissingDelimiter));
}

#[test]
fn parse_bounds_and_forms() {
    assert_eq!(try_parse_temperature(b"3276.7"), Some(32767));
    assert_eq!(try_parse_temperature(b"3276.8"), None);
    assert_eq!(try_parse_temperature(b"-3276.8"), Some(-32768));
    assert_eq!(try_parse_temperature(b"-3276.9"), None);
    assert_eq!(try_parse_temperature(b"0012.3"), Some(123));
    assert_eq!(try_parse_temperature(b"99999999999.9"), None);
    assert_eq!(try_parse_temperature(b".5"), None);
    assert_eq!(try_parse_temperature(b"-"), None);
    assert_eq!(try_parse_temperature(b""), None);
    assert_eq!(try_parse_temperature(b"1.2.3"), None);
    assert_eq!(try_parse_temperature(b"--1.0"), None);
}

#[test]
fn render_round_trips_parse() {
    for s in ["12.3", "-4.7", "0.0", "-0.1", "99.9", "-99.9", "5.5"] {
        let v = try_parse_temperature(s.as_bytes()).unwrap();
        let mut out = Vec::new();
        push_tenths(&mut out, v as i32);
        assert_eq!(try_parse_temperature(&out), Some(v));
    }
    let mut out = Vec::new();
    push_tenths(&mut out, -47);
    assert_eq!(out, b"-4.7".to_vec());
}

#[test]
fn mean_rounds_half_away_from_zero() {
    let up = Accumulator { min: 0, sum: 1, count: 2, max: 1 };
    assert_eq!(mean_of(&up), 1);
    let down = Accumulator { min: -1, sum: -1, count: 2, max: 0 };
    assert_eq!(mean_of(&down), -1);
    let tiny = Accumulator { min: -1, sum: -1, count: 3, max: 0 };
    assert_eq!(mean_of(&tiny), 0);
}

#[test]
fn tiny_negative_mean_prints_unsigned_zero() {
    assert_eq!(summarize(b"Z;-0.1\nZ;0.0\nZ;0.0\n").unwrap(), "{Z=-0.1/0.0/0.0}");
}

#[test]
fn byte_order_comparison() {
    assert_eq!(compare_bytes(b"a", b"b"), Ordering::Less);
    assert_eq!(compare_bytes(b"ab", b"a"), Ordering::Greater);
    assert_eq!(compare_bytes(b"", b""), Ordering::Equal);
    assert_eq!(compare_bytes(b"B", b"a"), Ordering::Less);
}

#[test]
fn format_output_decodes_bytes() {
    let mut t = StationTable::new();
    t.insert("Zürich".as_bytes(), Accumulator { min: -15, sum: -15, count: 1, max: -15 });
    assert_eq!(format_output(&t), "{Zürich=-1.5/-1.5/-1.5}");
}

#[test]
fn insert_replaces_existing_key() {
    let mut t = StationTable::new();
    t.insert(b"k", Accumulator { min: 1, sum: 1, count: 1, max: 1 });
    t.insert(b"k", Accumulator { min: 2, sum: 4, count: 2, max: 2 });
    assert_eq!(t.len(), 1);
    assert_eq!(t.key(0), b"k");
    assert_eq!(t.accumulator(0).sum, 4);
    assert!(t.get(b"j").is_none());
}
