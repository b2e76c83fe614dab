use onebrc::records::FormatError;
use onebrc::summary::{format_output, process_data, process_line};
use onebrc::table::{Accumulator, StationTable};
use onebrc::temperature::parse_temperature;

fn split_input(input: &str) -> (&[u8], &[u8]) {
    let (city, temp) = input.split_once(';').expect("Invalid input format");
    (city.as_bytes(), temp.as_bytes())
}

fn feed(table: &mut StationTable, input: &str) {
    let (station, temperature) = split_input(input);
    process_line(station, temperature, table).expect("valid record");
}

fn stats_of(table: &StationTable, key: &str) -> (i16, i128, u64, i16) {
    let a = table.get(key.as_bytes()).expect("key present");
    (a.min, a.sum, a.count, a.max)
}

#[test]
fn test_process_line_single_entry() {
    let mut stats = StationTable::new();
    feed(&mut stats, "Hamburg;12.0");

    assert_eq!(stats.len(), 1);
    assert!(stats.get("Hamburg".as_bytes()).is_some());

    let (min, sum, count, max) = stats_of(&stats, "Hamburg");
    assert_eq!(min, 120);
    assert_eq!(sum, 120);
    assert_eq!(count, 1);
    assert_eq!(max, 120);
}

#[test]
fn test_process_line_multiple_same_station() {
    let mut stats = StationTable::new();
    feed(&mut stats, "Hamburg;12.0");
    feed(&mut stats, "Hamburg;15.0");
    feed(&mut stats, "Hamburg;9.0");

    assert_eq!(stats.len(), 1);

    let (min, sum, count, max) = stats_of(&stats, "Hamburg");
    assert_eq!(min, 90);
    assert_eq!(sum, 360);
    assert_eq!(count, 3);
    assert_eq!(max, 150);
}

#[test]
fn test_process_line_multiple_stations() {
    let mut stats = StationTable::new();
    feed(&mut stats, "Hamburg;12.0");
    feed(&mut stats, "Berlin;20.0");
    feed(&mut stats, "Hamburg;8.0");

    assert_eq!(stats.len(), 2);
    assert!(stats.get("Hamburg".as_bytes()).is_some());
    assert!(stats.get("Berlin".as_bytes()).is_some());

    let (min, sum, count, max) = stats_of(&stats, "Hamburg");
    assert_eq!(min, 80);
    assert_eq!(sum, 200);
    assert_eq!(count, 2);
    assert_eq!(max, 120);

    let (min, sum, count, max) = stats_of(&stats, "Berlin");
    assert_eq!(min, 200);
    assert_eq!(sum, 200);
    assert_eq!(count, 1);
    assert_eq!(max, 200);
}

#[test]
fn test_process_line_negative_temperatures() {
    let mut stats = StationTable::new();
    feed(&mut stats, "Oslo;-5.0");
    feed(&mut stats, "Oslo;-10.0");
    feed(&mut stats, "Oslo;-2.0");

    let (min, sum, count, max) = stats_of(&stats, "Oslo");
    assert_eq!(min, -100);
    assert_eq!(sum, -170);
    assert_eq!(count, 3);
    assert_eq!(max, -20);
}

#[test]
fn test_parse_temperature_positive_temperature() {
    assert_eq!(parse_temperature(b"12.3"), 123);
    assert_eq!(parse_temperature(b"0.1"), 1);
    assert_eq!(parse_temperature(b"99.9"), 999);
}

#[test]
fn test_parse_temperature_negative_temperature() {
    assert_eq!(parse_temperature(b"-1.0"), -10);
    assert_eq!(parse_temperature(b"-4.7"), -47);
    assert_eq!(parse_temperature(b"-99.9"), -999);
}

#[test]
fn test_parse_temperature_zero() {
    assert_eq!(parse_temperature(b"0.0"), 0);
    assert_eq!(parse_temperature(b"-0.0"), 0);
}

#[test]
fn test_parse_temperature_single_digit_before_decimal() {
    assert_eq!(parse_temperature(b"5.5"), 55);
    assert_eq!(parse_temperature(b"-5.5"), -55);
}

fn acc(min: i16, sum: i128, count: u64, max: i16) -> Accumulator {
    Accumulator { min, sum, count, max }
}

#[test]
fn test_format_output_single_station() {
    let mut stats = StationTable::new();
    stats.insert("Hamburg".as_bytes(), acc(90, 360, 3, 150));

    let output = format_output(&stats);
    assert_eq!(output, "{Hamburg=9.0/12.0/15.0}");
}

#[test]
fn test_format_output_multiple_stations_alphabetical() {
    let mut stats = StationTable::new();
    stats.insert("Hamburg".as_bytes(), acc(50, 300, 3, 150));
    stats.insert("Berlin".as_bytes(), acc(100, 450, 3, 200));
    stats.insert("Copenhagen".as_bytes(), acc(0, 150, 3, 100));

    let output = format_output(&stats);
    assert_eq!(
        output,
        "{Berlin=10.0/15.0/20.0, Copenhagen=0.0/5.0/10.0, Hamburg=5.0/10.0/15.0}"
    );
}

#[test]
fn test_format_output_decimal_precision() {
    let mut stats = StationTable::new();
    stats.insert("Tokyo".as_bytes(), acc(248, 766, 3, 263));

    let output = format_output(&stats);
    assert_eq!(output, "{Tokyo=24.8/25.5/26.3}");
}

#[test]
fn test_format_output_empty() {
    let stats = StationTable::new();
    let output = format_output(&stats);
    assert_eq!(output, "{}");
}

#[test]
fn test_process_file_integration() {
    let data = "Hamburg;12.0\nBerlin;20.0\nHamburg;8.0\nBerlin;25.0\n";

    let stats = process_data(data.as_bytes()).expect("valid input");

    assert_eq!(stats.len(), 2);

    let (min, sum, count, max) = stats_of(&stats, "Hamburg");
    assert_eq!(min, 80);
    assert_eq!(sum, 200);
    assert_eq!(count, 2);
    assert_eq!(max, 120);

    let (min, sum, count, max) = stats_of(&stats, "Berlin");
    assert_eq!(min, 200);
    assert_eq!(sum, 450);
    assert_eq!(count, 2);
    assert_eq!(max, 250);
}

#[test]
fn test_process_file_with_mmap_integration() {
    let data = "A;1.0\nB;2.0\nC;3.0\n";

    let stats = process_data(data.as_bytes()).expect("valid input");

    assert_eq!(stats.len(), 3);
    assert!(stats.get("A".as_bytes()).is_some());
    assert!(stats.get("B".as_bytes()).is_some());
    assert!(stats.get("C".as_bytes()).is_some());
}

#[test]
fn test_full_pipeline() {
    let data = "Hamburg;12.0\nBerlin;20.0\nHamburg;8.0\nBerlin;25.0\n";

    let stats = process_data(data.as_bytes()).expect("valid input");
    let output = format_output(&stats);

    assert_eq!(output, "{Berlin=20.0/22.5/25.0, Hamburg=8.0/10.0/12.0}");
}

#[test]
fn test_full_pipeline_with_negatives() {
    let data = "Oslo;-5.0\nOslo;-10.0\nOslo;-2.0\n";

    let stats = process_data(data.as_bytes()).expect("valid input");
    let output = format_output(&stats);

    // mean = -17.0 / 3 = -5.666... rounds to -5.7
    assert_eq!(output, "{Oslo=-10.0/-5.7/-2.0}");
}

#[test]
fn process_line_rejects_bad_value_and_keeps_table() {
    let mut stats = StationTable::new();
    feed(&mut stats, "Oslo;1.0");
    assert_eq!(
        process_line(b"Oslo", b"1.25", &mut stats),
        Err(FormatError::InvalidValue)
    );
    assert_eq!(stats_of(&stats, "Oslo"), (10, 10, 1, 10));
}
