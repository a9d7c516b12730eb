use busdump::dump::{
    build_read_at_cmd, build_read_cmd, decode_addr, encode_addr, mode_setup_cmd, power_on_cmd,
    window_starts, Dump,
};
use busdump::parse::{find_parse_read, split_lines};

#[test]
fn address_renders_as_six_uppercase_hex_digits() {
    assert_eq!(encode_addr(0x012345), b"012345".to_vec());
    assert_eq!(encode_addr(0), b"000000".to_vec());
    assert_eq!(encode_addr(0xABCDEF), b"ABCDEF".to_vec());
}

#[test]
fn address_round_trips_through_its_digits() {
    for a in [0u32, 1, 0x012345, 0xABCDEF, 0xFFFFFF, 0x500000] {
        assert_eq!(decode_addr(&encode_addr(a)), Some(a));
    }
}

#[test]
fn address_decode_rejects_wrong_width_or_bad_digit() {
    assert_eq!(decode_addr(b"01234"), None);
    assert_eq!(decode_addr(b"0123456"), None);
    assert_eq!(decode_addr(b"0123G5"), None);
}

#[test]
fn address_decode_accepts_lowercase_digits() {
    assert_eq!(decode_addr(b"abcdef"), Some(0xABCDEF));
}

#[test]
fn window_read_command_embeds_address_and_count() {
    assert_eq!(
        build_read_at_cmd(0x03, 0x012345, 65535),
        b"[0x03 0x01 0x23 0x45 r:65535]\n".to_vec()
    );
}

#[test]
fn bare_read_command_embeds_opcode_and_count() {
    assert_eq!(build_read_cmd(0x9F, 3), b"[0x9F r:3]\n".to_vec());
}

#[test]
fn setup_commands_match_the_device_grammar() {
    assert_eq!(mode_setup_cmd(), b"\nm\n5\n4\n\n\n\n\n2\n".to_vec());
    assert_eq!(power_on_cmd(), b"W\n".to_vec());
}

#[test]
fn window_starts_step_from_zero_below_the_total() {
    let starts = window_starts(0x50000, 65535);
    assert_eq!(starts, vec![0, 65535, 131070, 196605, 262140, 327675]);
    let mut expect: Vec<u32> = Vec::new();
    let mut s: u32 = 0;
    while s < 0x50000 {
        expect.push(s);
        s += 65535;
    }
    assert_eq!(starts, expect);
}

#[test]
fn window_starts_exact_division_has_no_extra_window() {
    assert_eq!(window_starts(8, 4), vec![0, 4]);
    assert_eq!(window_starts(0, 4), Vec::<u32>::new());
}

#[test]
fn dump_walks_windows_in_order_and_rebuilds_the_image() {
    let total: u32 = 0x50000;
    let step: u32 = 65535;
    let mut d = Dump::new(total, step);
    let mut visited: Vec<u32> = Vec::new();
    let mut sizes: Vec<u32> = Vec::new();
    while !d.done() {
        visited.push(d.next);
        let len = d.window_len();
        sizes.push(len);
        let chunk = vec![0xA5u8; len as usize];
        d.accept_chunk(&chunk);
    }
    assert_eq!(visited, window_starts(total, step));
    assert_eq!(sizes, vec![65535, 65535, 65535, 65535, 65535, 5]);
    assert_eq!(d.data.len() as u32, total);
}

#[test]
fn dump_command_for_first_window() {
    let d = Dump::new(0x50000, 65535);
    assert_eq!(d.command(), b"[0x03 0x00 0x00 0x00 r:65535]\n".to_vec());
}

#[test]
fn failed_window_leaves_completed_chunks_intact() {
    let mut d = Dump::new(10, 4);
    // simulated transport: two good replies, then a read error mid-poll
    let polls: Vec<Option<Vec<u8>>> = vec![
        Some(b"READ: 0x10 0x11 0x12 0x13 \r\n".to_vec()),
        Some(b"READ: 0x14 0x15 0x16 0x17 \r\n".to_vec()),
        None,
    ];
    let mut aborted = false;
    let mut idx: usize = 0;
    while !d.done() {
        let _cmd = d.command();
        match &polls[idx] {
            Some(reply) => {
                let lines = split_lines(reply);
                let chunk = find_parse_read(&lines).unwrap();
                d.accept_chunk(&chunk);
            },
            None => {
                aborted = true;
                break;
            },
        }
        idx += 1;
    }
    assert!(aborted);
    assert_eq!(d.next, 8);
    assert_eq!(d.data, vec![0x10, 0x11, 0x12, 0x13, 0x14, 0x15, 0x16, 0x17]);
}
