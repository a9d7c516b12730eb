use busdump::parse::{find_parse_read, parse_read, split_lines};

#[test]
fn parse_read_empty_payload_is_a_valid_result() {
    assert_eq!(parse_read(b"READ: "), Some(vec![]));
}

#[test]
fn parse_read_decodes_bytes_in_order() {
    assert_eq!(parse_read(b"READ: 0x01 0x02 0xFF "), Some(vec![0x01, 0x02, 0xFF]));
}

#[test]
fn parse_read_requires_the_separator_space() {
    assert_eq!(parse_read(b"READ:0x01"), None);
}

#[test]
fn parse_read_rejects_non_hex_digits() {
    assert_eq!(parse_read(b"READ: 0xGG"), None);
}

#[test]
fn parse_read_takes_payload_without_trailing_space() {
    assert_eq!(parse_read(b"READ: 0x01 0x02"), Some(vec![0x01, 0x02]));
}

#[test]
fn parse_read_single_byte() {
    assert_eq!(parse_read(b"READ: 0xA5 "), Some(vec![0xA5]));
}

#[test]
fn parse_read_accepts_lowercase_digits() {
    assert_eq!(parse_read(b"READ: 0xab 0xCd "), Some(vec![0xAB, 0xCD]));
}

#[test]
fn parse_read_rejects_narrow_token() {
    assert_eq!(parse_read(b"READ: 0x1 "), None);
}

#[test]
fn parse_read_rejects_wide_token() {
    assert_eq!(parse_read(b"READ: 0x123 "), None);
}

#[test]
fn parse_read_rejects_double_space() {
    assert_eq!(parse_read(b"READ: 0x01  0x02 "), None);
}

#[test]
fn parse_read_rejects_untagged_line() {
    assert_eq!(parse_read(b"SPI>"), None);
}

#[test]
fn find_takes_the_first_tagged_line() {
    let lines = vec![
        b"echo of the command".to_vec(),
        b"READ: 0x0A ".to_vec(),
        b"READ: 0xFF ".to_vec(),
    ];
    assert_eq!(find_parse_read(&lines), Some(vec![0x0A]));
}

#[test]
fn find_yields_none_without_a_tagged_line() {
    let lines = vec![b"Ready".to_vec(), b"SPI>".to_vec()];
    assert_eq!(find_parse_read(&lines), None);
    let empty: Vec<Vec<u8>> = vec![];
    assert_eq!(find_parse_read(&empty), None);
}

#[test]
fn find_fails_on_a_malformed_first_tagged_line() {
    let lines = vec![b"READ: 0xZZ ".to_vec(), b"READ: 0x01 ".to_vec()];
    assert_eq!(find_parse_read(&lines), None);
}

#[test]
fn split_lines_matches_text_line_iteration() {
    let samples = [
        "",
        "a",
        "a\n",
        "a\r\n",
        "a\r\nb",
        "a\nb\n",
        "hello\r\nREAD: 0x01 \r\n",
        "x\r",
        "\n",
        "\r\n",
        "a\n\nb",
        "Ready\r\nSPI>",
    ];
    for s in samples {
        let got = split_lines(s.as_bytes());
        let expect: Vec<Vec<u8>> = s.lines().map(|l| l.as_bytes().to_vec()).collect();
        assert_eq!(got, expect, "sample {:?}", s);
    }
}

#[test]
fn reply_text_yields_first_read_payload() {
    let reply =
        b"[0x03 0x00 0x00 0x00 r:4]\r\nCS ENABLED\r\nREAD: 0xDE 0xAD 0xBE 0xEF \r\nCS DISABLED\r\nSPI>";
    let lines = split_lines(reply);
    assert_eq!(find_parse_read(&lines), Some(vec![0xDE, 0xAD, 0xBE, 0xEF]));
}
