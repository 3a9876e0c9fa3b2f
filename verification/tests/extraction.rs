use rust_paisy2pdf::extract::{line_to_map, rows_from_lines, should_process, ParseError};
use rust_paisy2pdf::time_format::{format_time, FormatError};

fn make_line(pn: &str, payroll: &str, last: &str, first: &str, date: &str, code: &str, tail: &str) -> String {
    format!(
        "{:<12}{:<14}{:<32}{:<24}{:<10}{:<67}{}",
        pn, payroll, last, first, date, code, tail
    )
}

#[test]
fn test_should_process_accepts_alnum_prefix() {
    assert!(should_process("A1B2C3      rest of the line"));
    assert!(should_process("abc123"));
    assert!(should_process("ABCDEF"));
    assert!(should_process("000000"));
}

#[test]
fn test_should_process_rejects_short_and_nonalnum() {
    assert!(!should_process(""));
    assert!(!should_process("A1B2C"));
    assert!(!should_process("-----------"));
    assert!(!should_process(" A1B2C3"));
    assert!(!should_process("A1B2C "));
    assert!(!should_process("A1B2C\u{e9}"));
}

#[test]
fn test_extract_full_line() {
    let line = make_line(
        "A1B2C3",
        "D4E5F6",
        "Mueller",
        "Hans",
        "2024-01-01",
        "Grundgehalt",
        "    -1,5",
    );
    assert!(should_process(&line));
    let rec = line_to_map(&line).unwrap();
    assert_eq!(rec.personnel_number, "A1B2C3");
    assert_eq!(rec.payroll_run_number, "D4E5F6");
    assert_eq!(rec.last_name, "Mueller");
    assert_eq!(rec.first_name, "Hans");
    assert_eq!(rec.date, "2024-01-01");
    assert_eq!(rec.pay_code_description, "Grundgehalt");
    assert_eq!(rec.value_change, "- 1:30");
}

#[test]
fn test_extract_line_too_short() {
    let line = "A1B2C3 too short";
    assert!(matches!(line_to_map(line), Err(ParseError::LineTooShort)));
    let almost = "x".repeat(158);
    assert!(matches!(line_to_map(&almost), Err(ParseError::LineTooShort)));
}

#[test]
fn test_extract_invalid_time() {
    let line = make_line("A1B2C3", "D4E5F6", "X", "Y", "d", "c", "abc");
    assert!(matches!(line_to_map(&line), Err(ParseError::InvalidTimeValue)));
    // a line of exactly the fixed width has an empty time field
    let line = make_line("A1B2C3", "D4E5F6", "X", "Y", "d", "c", "");
    assert_eq!(line.chars().count(), 159);
    assert!(matches!(line_to_map(&line), Err(ParseError::InvalidTimeValue)));
}

#[test]
fn test_format_time_examples() {
    assert_eq!(format_time("2.5").unwrap(), "+ 2:30");
    assert_eq!(format_time("2,5").unwrap(), "+ 2:30");
    assert_eq!(format_time("-1.75").unwrap(), "- 1:45");
    assert_eq!(format_time("0").unwrap(), "+ 0:00");
    assert_eq!(format_time("-0.0").unwrap(), "- 0:00");
    assert_eq!(format_time("+2.5").unwrap(), "+ 2:30");
    assert_eq!(format_time(" - 1 , 5 ").unwrap(), "- 1:30");
    assert_eq!(format_time(".5").unwrap(), "+ 0:30");
    assert_eq!(format_time("5.").unwrap(), "+ 5:00");
    assert_eq!(format_time("12.0").unwrap(), "+ 12:00");
    assert_eq!(format_time("173.99").unwrap(), "+ 173:59");
}

#[test]
fn test_format_time_rejects_nonnumeric() {
    assert_eq!(format_time(""), Err(FormatError::NotANumber));
    assert_eq!(format_time("   "), Err(FormatError::NotANumber));
    assert_eq!(format_time("."), Err(FormatError::NotANumber));
    assert_eq!(format_time("+"), Err(FormatError::NotANumber));
    assert_eq!(format_time("-."), Err(FormatError::NotANumber));
    assert_eq!(format_time("abc"), Err(FormatError::NotANumber));
    assert_eq!(format_time("1.2.3"), Err(FormatError::NotANumber));
    assert_eq!(format_time("1e5"), Err(FormatError::NotANumber));
    assert_eq!(format_time("2.5h"), Err(FormatError::NotANumber));
    assert_eq!(format_time("1-2"), Err(FormatError::NotANumber));
    // an integer part too wide for the renderer is rejected, not mangled
    assert_eq!(format_time("99999999999999999999"), Err(FormatError::NotANumber));
}

#[test]
fn test_format_time_rounding() {
    // minutes round half away from zero
    assert_eq!(format_time("0.025").unwrap(), "+ 0:02");
    assert_eq!(format_time("-0.025").unwrap(), "- 0:02");
    assert_eq!(format_time("0.024").unwrap(), "+ 0:01");
    // rounding may carry the minute count up to sixty
    assert_eq!(format_time("1.999").unwrap(), "+ 1:60");
}

#[test]
fn test_format_time_sign_symmetry() {
    let plus = format_time("3.25").unwrap();
    let minus = format_time("-3.25").unwrap();
    assert_eq!(plus, "+ 3:15");
    assert_eq!(minus, "- 3:15");
    assert_eq!(&plus[1..], &minus[1..]);
}

#[test]
fn test_rows_keep_qualifying_lines_in_order() {
    let mut lines: Vec<String> = Vec::new();
    lines.push(" PERSONALBERICHT".to_string());
    for i in 0..10u32 {
        let pn = format!("P{:05}", i);
        lines.push(make_line(&pn, "RUN001", "Name", "Vor", "2024-01-01", "Gehalt", "  2,5"));
        if i == 4 {
            lines.push("-----".to_string());
        }
    }
    lines.push("".to_string());
    let rows = rows_from_lines(&lines).unwrap();
    assert_eq!(rows.len(), 10);
    for (i, rec) in rows.iter().enumerate() {
        assert_eq!(rec.personnel_number, format!("P{:05}", i));
        assert_eq!(rec.value_change, "+ 2:30");
    }
}

#[test]
fn test_rows_abort_on_bad_qualifying_line() {
    let mut lines: Vec<String> = Vec::new();
    lines.push(make_line("P00001", "RUN001", "A", "B", "d", "c", "  1,0"));
    lines.push("P00002 short".to_string());
    lines.push(make_line("P00003", "RUN001", "A", "B", "d", "c", "  1,0"));
    assert!(matches!(rows_from_lines(&lines), Err(ParseError::LineTooShort)));
}

#[test]
fn test_rows_empty_input() {
    let lines: Vec<String> = Vec::new();
    assert_eq!(rows_from_lines(&lines).unwrap().len(), 0);
}
