use xquo::cli::{bulk_range, workers_range, XQuo, XQuoArgs, XQuoError, XQuoOutDelimiter};

fn make(no_escape: bool, out_delimiter: XQuoOutDelimiter, workers: u8, bulk_lines: usize) -> XQuo {
    XQuo::new(XQuoArgs {
        no_escape,
        out_delimiter,
        workers,
        bulk_lines,
        input_from_tty: false,
    })
}

#[test]
fn quote_lines_and_joined_by_lf() {
    let xq = make(false, XQuoOutDelimiter::Lf, 1, 100);
    let lines = ["test", "test test", "テスト🦀", "テスト テスト"];
    let input_lines = lines.join("\0");
    let ex = lines.map(|v| format!("'{}'", v)).join("\n") + "\n";

    let out = match xq.quote(input_lines.as_bytes().to_vec()) {
        Ok(out) => out,
        Err(_) => panic!("quoting failed"),
    };
    assert_eq!(out.as_bytes(), ex.as_bytes());
}

#[test]
fn wrap_sngle_quote_char() {
    let xq = make(false, XQuoOutDelimiter::Lf, 1, 100);
    let lines = ["test", "test'test", "テスト🦀'", "テスト'テスト"];
    let input_lines = lines.join("\0");
    let ex_lines = [
        "test",
        "test'\"'\"'test",
        "テスト🦀'\"'\"'",
        "テスト'\"'\"'テスト",
    ];
    let ex = ex_lines.map(|v| format!("'{}'", v)).join("\n") + "\n";

    let out = match xq.quote(input_lines.as_bytes().to_vec()) {
        Ok(out) => out,
        Err(_) => panic!("quoting failed"),
    };
    assert_eq!(out.as_bytes(), ex.as_bytes());
}

#[test]
fn joined_by_null() {
    let xq = make(false, XQuoOutDelimiter::Null, 1, 100);
    let lines = ["test", "test\ntest", "テスト🦀\n", "テスト\u{8}テスト"];
    let input_lines = lines.join("\0");
    let ex_lines = [
        "test",
        "test'$'\\n''test",
        "テスト🦀'$'\\n''",
        "テスト'$'\\b''テスト",
    ];
    let ex = ex_lines.map(|v| format!("'{}'", v)).join("\0") + "\0";

    let out = match xq.quote(input_lines.as_bytes().to_vec()) {
        Ok(out) => out,
        Err(_) => panic!("quoting failed"),
    };
    assert_eq!(out.as_bytes(), ex.as_bytes());
}

#[test]
fn disable_escape_chars() {
    let xq = make(true, XQuoOutDelimiter::Lf, 1, 100);
    let lines = ["test", "test\ntest", "テスト🦀\n", "テスト\u{8}テスト"];
    let input_lines = lines.join("\0");
    let ex_lines = ["test", "test\ntest", "テスト🦀\n", "テスト\u{8}テスト"];
    let ex = ex_lines.map(|v| format!("'{}'", v)).join("\n") + "\n";

    let out = match xq.quote(input_lines.as_bytes().to_vec()) {
        Ok(out) => out,
        Err(_) => panic!("quoting failed"),
    };
    assert_eq!(out.as_bytes(), ex.as_bytes());
}

#[test]
fn disable_escape_chars_and_joined_by_null() {
    let xq = make(true, XQuoOutDelimiter::Null, 1, 100);
    let lines = ["test", "test\ntest", "テスト🦀\n", "テスト\u{8}テスト"];
    let input_lines = lines.join("\0");
    let ex_lines = ["test", "test\ntest", "テスト🦀\n", "テスト\u{8}テスト"];
    let ex = ex_lines.map(|v| format!("'{}'", v)).join("\0") + "\0";

    let out = match xq.quote(input_lines.as_bytes().to_vec()) {
        Ok(out) => out,
        Err(_) => panic!("quoting failed"),
    };
    assert_eq!(out.as_bytes(), ex.as_bytes());
}

#[test]
fn use_large_data_that_is_shuffle_lines_in_parallel_mode() {
    let xq = make(false, XQuoOutDelimiter::Lf, 2, 10);
    let mut lines = Vec::<String>::new();
    for i in 0..10000 {
        lines.push(format!("{:04}", i));
    }
    let input_lines = lines.join("\0");
    let mut ex_lines = Vec::<String>::new();
    for v in lines {
        ex_lines.push(format!("'{}'", v));
    }
    let ex = format!("\n{}", ex_lines.join("\n"));

    let out = match xq.quote(input_lines.as_bytes().to_vec()) {
        Ok(out) => out,
        Err(_) => panic!("quoting failed"),
    };
    let mut out_lines: Vec<String> = out.split('\n').map(|v| v.to_string()).collect();
    out_lines.sort();

    assert_eq!(ex, out_lines.join("\n"));
}

#[test]
fn same_output_for_any_worker_count() {
    let lines = ["a", "b'c", "d\ne", "f"];
    let input = lines.join("\0");
    let one = make(false, XQuoOutDelimiter::Lf, 1, 3);
    let eight = make(false, XQuoOutDelimiter::Lf, 8, 3);
    let out_one = match one.quote(input.as_bytes().to_vec()) {
        Ok(out) => out,
        Err(_) => panic!("quoting failed"),
    };
    let out_eight = match eight.quote(input.as_bytes().to_vec()) {
        Ok(out) => out,
        Err(_) => panic!("quoting failed"),
    };
    assert_eq!(out_one.as_bytes(), out_eight.as_bytes());
}

#[test]
fn empty_input_gives_empty_output() {
    let xq = make(false, XQuoOutDelimiter::Lf, 1, 100);
    let out = match xq.quote(Vec::new()) {
        Ok(out) => out,
        Err(_) => panic!("quoting failed"),
    };
    assert_eq!(out, "");
}

#[test]
fn example_records_with_default_flags() {
    let xq = make(false, XQuoOutDelimiter::Lf, 1, 100);
    let input = ["test", "it's", "a🦀b"].join("\0");
    let out = match xq.quote(input.as_bytes().to_vec()) {
        Ok(out) => out,
        Err(_) => panic!("quoting failed"),
    };
    assert_eq!(out, "'test'\n'it'\"'\"'s'\n'a🦀b'\n");
}

#[test]
fn invalid_utf8_record_is_an_encoding_error() {
    let xq = make(false, XQuoOutDelimiter::Lf, 1, 100);
    let mut input: Vec<u8> = "ok".as_bytes().to_vec();
    input.push(0);
    input.push(0xff);
    input.push(0xfe);
    match xq.quote(input) {
        Ok(_) => panic!("invalid UTF-8 must not quote"),
        Err(XQuoError::Encoding) => {}
    }
}

#[test]
fn single_record_without_trailing_delimiter() {
    let xq = make(false, XQuoOutDelimiter::Lf, 1, 100);
    let out = match xq.quote("plain".as_bytes().to_vec()) {
        Ok(out) => out,
        Err(_) => panic!("quoting failed"),
    };
    assert_eq!(out, "'plain'\n");
}

#[test]
fn workers_range_parses_and_clamps() {
    assert_eq!(workers_range("4"), Ok(4));
    assert_eq!(workers_range("0"), Ok(1));
    assert_eq!(workers_range("+7"), Ok(7));
    assert_eq!(workers_range("255"), Ok(255));
    assert!(workers_range("256").is_err());
    assert!(workers_range("").is_err());
    assert!(workers_range("+").is_err());
    assert!(workers_range("abc").is_err());
    assert!(workers_range("-1").is_err());
    assert!(workers_range("1x").is_err());
}

#[test]
fn bulk_range_parses_and_clamps() {
    assert_eq!(bulk_range("100"), Ok(100));
    assert_eq!(bulk_range("0"), Ok(1));
    assert_eq!(bulk_range("+12"), Ok(12));
    assert!(bulk_range("").is_err());
    assert!(bulk_range("ten").is_err());
    assert!(bulk_range("99999999999999999999999999").is_err());
}
