use nscript::functions::{
    base64_to_string, command_words, decimal_string, decode_file_text, hex_to_string,
    is_white_space_exec, operation_report, parse_string_to_usize, program_report,
    signed_decimal_string, size_text, size_unit, splitselect, string_to_base64, string_to_hex,
    user_input_or_default, ClockReading, FileOperation, ProgramOutcome, SizeUnit, Timer,
};
use nscript::functions::{arrayfilter, arraypush, arraysearch, arraysort};

#[test]
fn base64_encodes() {
    assert_eq!(string_to_base64("Hello"), "SGVsbG8=");
    assert_eq!(string_to_base64(""), "");
    assert_eq!(string_to_base64("ab"), "YWI=");
    assert_eq!(string_to_base64("abc"), "YWJj");
    assert_eq!(string_to_base64("é?>"), "w6k/Pg==");
}

#[test]
fn base64_decodes() {
    assert_eq!(base64_to_string("SGVsbG8="), "Hello");
    assert_eq!(base64_to_string("not base64!"), "");
    assert_eq!(base64_to_string("/w=="), "\u{FFFD}");
}

#[test]
fn base64_roundtrip() {
    for s in ["", "x", "Nscript v2", "ünïcödé ✓"] {
        assert_eq!(base64_to_string(&string_to_base64(s)), s);
    }
}

#[test]
fn hex_encodes_upper_case() {
    assert_eq!(string_to_hex("Hi"), "4869");
    assert_eq!(string_to_hex(""), "");
    assert_eq!(string_to_hex("\n\u{ff}"), "0AC3BF");
}

#[test]
fn hex_decodes_either_case() {
    assert_eq!(hex_to_string("4869"), "Hi");
    assert_eq!(hex_to_string("6869"), "hi");
    assert_eq!(hex_to_string("4a4B"), "JK");
    assert_eq!(hex_to_string("48656c6c6f"), "Hello");
    assert_eq!(hex_to_string("486"), "");
    assert_eq!(hex_to_string("zz"), "");
    assert_eq!(hex_to_string("ff"), "\u{FFFD}");
}

#[test]
fn hex_roundtrip() {
    for s in ["", "abc", "ñandú", "tab\tend"] {
        assert_eq!(hex_to_string(&string_to_hex(s)), s);
    }
}

#[test]
fn file_text_drops_byte_order_mark() {
    assert_eq!(decode_file_text(b"\xEF\xBB\xBFabc"), "abc");
    assert_eq!(decode_file_text(b"plain"), "plain");
    assert_eq!(decode_file_text(b"a\xFFb"), "a\u{FFFD}b");
    assert_eq!(decode_file_text("ünï".as_bytes()).as_bytes(), "ünï".as_bytes());
}

#[test]
fn parse_usize_values() {
    assert_eq!(parse_string_to_usize("42"), 42);
    assert_eq!(parse_string_to_usize("+7"), 7);
    assert_eq!(parse_string_to_usize("007"), 7);
    assert_eq!(parse_string_to_usize("-1"), 0);
    assert_eq!(parse_string_to_usize(""), 0);
    assert_eq!(parse_string_to_usize("+"), 0);
    assert_eq!(parse_string_to_usize("12a"), 0);
    assert_eq!(parse_string_to_usize(" 1"), 0);
    assert_eq!(parse_string_to_usize("99999999999999999999999"), 0);
}

#[test]
fn parse_usize_agrees_with_std() {
    let max = usize::MAX.to_string();
    let over = format!("{}0", max);
    for s in ["0", "1", "+0", "-0", "++1", "٣", "18446744073709551615", "4294967296", &max, &over] {
        assert_eq!(parse_string_to_usize(s), s.parse::<usize>().unwrap_or(0), "input {:?}", s);
    }
}

#[test]
fn decimal_roundtrip() {
    for n in [0u64, 9, 10, 12345, 4294967295] {
        assert_eq!(decimal_string(n), n.to_string());
        assert_eq!(parse_string_to_usize(&size_text(n)) as u64, n);
    }
}

#[test]
fn signed_decimals() {
    assert_eq!(signed_decimal_string(0), "0");
    assert_eq!(signed_decimal_string(-17), "-17");
    assert_eq!(signed_decimal_string(i32::MIN), "-2147483648");
    assert_eq!(signed_decimal_string(i32::MAX), "2147483647");
}

#[test]
fn splitselect_picks_entry() {
    assert_eq!(splitselect("a,b,c", ",", 1), "b");
    assert_eq!(splitselect("a,b,c", ",", 2), "c");
    assert_eq!(splitselect("a,b,c", ",", 3), "");
    assert_eq!(splitselect("", ",", 0), "");
}

#[test]
fn user_input_trims_line_end() {
    assert_eq!(user_input_or_default("  hi \n", "d"), "  hi");
    assert_eq!(user_input_or_default("\r\n", "d"), "d");
    assert_eq!(user_input_or_default("", "dflt"), "dflt");
    assert_eq!(user_input_or_default("x\u{3000}", "d"), "x");
}

#[test]
fn white_space_agrees_with_std() {
    for u in 0u32..0x11_0000 {
        if let Some(c) = char::from_u32(u) {
            assert_eq!(is_white_space_exec(c), c.is_whitespace(), "char {:#x}", u);
        }
    }
}

#[test]
fn command_words_split_on_white_space() {
    assert_eq!(command_words("ls  -la\t/tmp "), vec!["ls", "-la", "/tmp"]);
    assert_eq!(command_words("   "), Vec::<String>::new());
    for s in ["echo a\u{2003}b", "\nx y\n", "one"] {
        let expected: Vec<String> = s.split_whitespace().map(|w| w.to_string()).collect();
        assert_eq!(command_words(s), expected);
    }
}

#[test]
fn size_reports() {
    assert_eq!(size_text(0), "0");
    assert_eq!(size_text(1536), "1536");
    assert_eq!(size_unit(999), SizeUnit::Bytes);
    assert_eq!(size_unit(1000), SizeUnit::Kilobytes);
    assert_eq!(size_unit(999_999), SizeUnit::Kilobytes);
    assert_eq!(size_unit(1_000_000), SizeUnit::Megabytes);
    assert_eq!(size_unit(1_000_000_000), SizeUnit::Gigabytes);
}

#[test]
fn operation_reports() {
    assert_eq!(operation_report(FileOperation::FileMove, Ok(())), "File moved successfully");
    assert_eq!(operation_report(FileOperation::FileCopy, Ok(())), "File copied successfully");
    assert_eq!(operation_report(FileOperation::FileDelete, Ok(())), "File deleted successfully");
    assert_eq!(
        operation_report(FileOperation::DirectoryDelete, Ok(())),
        "Directory deleted successfully"
    );
    assert_eq!(
        operation_report(FileOperation::DirectoryMove, Ok(())),
        "Directory moved successfully"
    );
    assert_eq!(
        operation_report(FileOperation::FileMove, Err("gone".to_string())),
        "Error moving file: gone"
    );
    assert_eq!(
        operation_report(FileOperation::DirectoryDelete, Err("busy".to_string())),
        "Error deleting directory: busy"
    );
}

#[test]
fn program_reports() {
    let ok = ProgramOutcome::Finished {
        success: true,
        code: Some(0),
        stdout: b"out".to_vec(),
        stderr: b"e\xFF".to_vec(),
    };
    assert_eq!(program_report(&ok), "Program executed successfully.\nStdout: out\nStderr: e\u{FFFD}");
    let failed = ProgramOutcome::Finished { success: false, code: Some(-3), stdout: vec![], stderr: vec![] };
    assert_eq!(program_report(&failed), "Program execution failed with exit code: Some(-3)");
    let killed = ProgramOutcome::Finished { success: false, code: None, stdout: vec![], stderr: vec![] };
    assert_eq!(program_report(&killed), "Program execution failed with exit code: None");
    let missing = ProgramOutcome::NotStarted { error: "not found".to_string() };
    assert_eq!(program_report(&missing), "Failed to execute program: not found");
}

fn reading(year: i32, millis: u32) -> ClockReading {
    ClockReading { year, month: 3, day: 5, hour: 7, minute: 8, second: 9, millis }
}

#[test]
fn timer_stamps() {
    assert_eq!(Timer::stamp(&reading(2024, 12)), Some(20240305070809012));
    assert_eq!(Timer::stamp(&reading(2024, 345)), Some(20240305070809345));
    assert_eq!(Timer::stamp(&reading(2024, 1500)), Some(202403050708091500));
    assert_eq!(Timer::stamp(&reading(-44, 7)), Some(-440305070809007));
    assert_eq!(Timer::stamp(&reading(0, 7)), Some(305070809007));
    assert_eq!(Timer::stamp(&reading(200000, 1500)), None);
}

#[test]
fn timer_stamp_matches_digit_string() {
    let r = reading(2031, 999);
    let text = format!("{}{:02}{:02}{:02}{:02}{:02}{:03}", r.year, r.month, r.day, r.hour, r.minute, r.second, r.millis);
    assert_eq!(Timer::stamp(&r), Some(text.parse::<i64>().unwrap()));
}

#[test]
fn timer_now_and_diff() {
    let now = Timer::init().unwrap();
    assert!(now > 20_000_000_000_000_000);
    assert_eq!(now.to_string().len(), 17);
    let d = Timer::diff(now).unwrap();
    assert!(d >= 0);
    assert_eq!(Timer::elapsed(10, 3), Some(7));
    assert_eq!(Timer::elapsed(i64::MIN, 1), None);
}

#[test]
fn reexported_array_functions() {
    let d = nscript::arrays::NC_ARRAY_DELIM;
    assert_eq!(arraypush("a", "b"), format!("a{d}b"));
    assert_eq!(arraysort(&format!("b{d}a")), format!("a{d}b"));
    assert_eq!(arraysearch(&format!("ab{d}c"), "a"), "ab");
    assert_eq!(arrayfilter(&format!("ab{d}c"), "a"), "c");
}

#[test]
fn stamps_follow_clock_order() {
    let base = ClockReading { year: 2024, month: 12, day: 31, hour: 23, minute: 59, second: 59, millis: 999 };
    let later = [
        ClockReading { year: 2025, month: 1, day: 1, hour: 0, minute: 0, second: 0, millis: 0 },
        ClockReading { millis: 998, ..base },
        ClockReading { second: 58, millis: 999, ..base },
        ClockReading { year: 10000, month: 1, day: 1, hour: 0, minute: 0, second: 0, millis: 0 },
    ];
    let b = Timer::stamp(&base).unwrap();
    assert!(Timer::stamp(&later[0]).unwrap() > b);
    assert!(Timer::stamp(&later[1]).unwrap() < b);
    assert!(Timer::stamp(&later[2]).unwrap() < b);
    assert!(Timer::stamp(&later[3]).unwrap() > b);
}
