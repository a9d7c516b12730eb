use busdump::receive::Quiescence;
use busdump::transmit::chunk_pairs;

#[test]
fn transmitter_bursts_are_pairs_in_order() {
    let cmd = b"\nm\n5\n4\n\n\n\n\n2\n";
    let chunks = chunk_pairs(cmd);
    assert_eq!(chunks.len(), 7);
    let mut rebuilt: Vec<u8> = Vec::new();
    for (i, c) in chunks.iter().enumerate() {
        if i + 1 < chunks.len() {
            assert_eq!(c.len(), 2);
        } else {
            assert!(c.len() == 1 || c.len() == 2);
        }
        rebuilt.extend_from_slice(c);
    }
    assert_eq!(rebuilt, cmd.to_vec());
}

#[test]
fn transmitter_odd_length_gets_short_final_burst() {
    let chunks = chunk_pairs(b"abc");
    assert_eq!(chunks, vec![b"ab".to_vec(), b"c".to_vec()]);
}

#[test]
fn transmitter_empty_command_sends_nothing() {
    let chunks = chunk_pairs(b"");
    assert!(chunks.is_empty());
}

#[test]
fn transmitter_single_byte_command() {
    let chunks = chunk_pairs(b"W");
    assert_eq!(chunks, vec![b"W".to_vec()]);
}

#[test]
fn quiescence_stops_after_threshold_of_silence() {
    let polls: Vec<Vec<u8>> = vec![
        b"[0x9F r:3]\r\n".to_vec(),
        b"READ: 0x01 0x02 0x03 ".to_vec(),
        b"\r\nSPI>".to_vec(),
    ];
    let mut q = Quiescence::new();
    let mut fed: usize = 0;
    while !q.done() {
        if fed < polls.len() {
            q.feed(&polls[fed]);
        } else {
            q.feed(&[]);
        }
        fed += 1;
    }
    assert_eq!(fed, polls.len() + 10);
    let mut expect: Vec<u8> = Vec::new();
    for p in &polls {
        expect.extend_from_slice(p);
    }
    assert_eq!(q.into_bytes(), expect);
}

#[test]
fn quiescence_data_resets_the_quiet_run() {
    let mut q = Quiescence::new();
    let mut fed: usize = 0;
    while !q.done() {
        if fed == 0 {
            q.feed(b"first");
        } else if fed == 6 {
            // five empty polls were not enough; data starts the count over
            q.feed(b"second");
        } else {
            q.feed(&[]);
        }
        fed += 1;
    }
    assert_eq!(fed, 17);
    assert_eq!(q.into_bytes(), b"firstsecond".to_vec());
}

#[test]
fn quiescence_silent_device_yields_empty_response() {
    let mut q = Quiescence::new();
    let mut fed: usize = 0;
    while !q.done() {
        q.feed(&[]);
        fed += 1;
    }
    assert_eq!(fed, 10);
    assert!(q.into_bytes().is_empty());
}
