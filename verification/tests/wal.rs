use tiempodb::wal::{read_blocks, Wal, WalBlockReader, WalError};

fn append(wal: &mut Wal, log: &mut Vec<u8>, block: &[u8]) {
    let written = wal.write(block).unwrap();
    log.extend_from_slice(&written.frame);
}

fn replay(log: &[u8]) -> Vec<String> {
    let reader = WalBlockReader::read(log.to_vec());
    let mut iter = reader.into_iter();
    let mut result = Vec::new();
    loop {
        iter.advance();
        match iter.get() {
            Some(v) => {
                result.push(String::from_utf8(Vec::from(v)).unwrap());
            }
            None => break,
        }
    }
    result
}

#[test]
fn basic() {
    let mut log = Vec::new();
    let mut wal = Wal::new("wal");
    append(&mut wal, &mut log, "vo pole bereza stoyala".as_bytes());
    append(&mut wal, &mut log, "vo pole kudryavaya stoyala".as_bytes());
    wal.flush_and_sync();

    let reader = WalBlockReader::read(log);
    let mut iter = reader.into_iter();
    let mut result = Vec::new();

    while false != iter.consume_next() {
        match iter.get() {
            Some(buf) => result.push(String::from_utf8(Vec::from(buf)).unwrap()),
            None => panic!("a delivered block is held"),
        }
    }

    assert_eq!(
        result,
        vec![
            "vo pole bereza stoyala".to_string(),
            "vo pole kudryavaya stoyala".to_string()
        ]
    );
}

#[test]
fn streaming_iterator() {
    let mut log = Vec::new();
    let mut wal = Wal::new("wal");
    append(&mut wal, &mut log, "vo pole bereza stoyala".as_bytes());
    append(&mut wal, &mut log, "vo pole kudryavaya stoyala".as_bytes());
    wal.flush_and_sync();

    let reader = WalBlockReader::read(log);
    let mut iter = reader.into_iter();
    let mut result = Vec::new();
    loop {
        iter.advance();
        match iter.get() {
            Some(v) => {
                result.push(String::from_utf8(Vec::from(v)).unwrap());
            }
            None => break,
        }
    }

    assert_eq!(
        result,
        vec![
            "vo pole bereza stoyala".to_string(),
            "vo pole kudryavaya stoyala".to_string()
        ]
    );
}

#[test]
fn corrupt_wal_log() {
    let mut log = Vec::new();
    let mut wal = Wal::new("wal");
    append(&mut wal, &mut log, "vo pole bereza stoyala".as_bytes());
    append(&mut wal, &mut log, "vo pole kudryavaya stoyala".as_bytes());
    wal.flush_and_sync();

    let cut = log.len() - 3;
    log.truncate(cut);
    wal.truncate(cut as u64);

    append(&mut wal, &mut log, "small".as_bytes());
    wal.flush_and_sync();

    let reader = WalBlockReader::read(log);
    let mut iter = reader.into_iter();
    let mut result = Vec::new();
    loop {
        iter.advance();
        match iter.get() {
            Some(v) => {
                result.push(String::from_utf8(Vec::from(v)).unwrap());
            }
            None => break,
        }
    }
    assert_eq!(result, vec!["vo pole bereza stoyala".to_string(),]);

    for _ in 0..10 {
        iter.advance();
        assert!(iter.get().is_none());
    }
}

#[test]
fn blocks_with_invalid_crc32_should_be_skipped() {
    let mut log = Vec::new();
    let mut wal = Wal::new("wal");
    append(&mut wal, &mut log, "first".as_bytes());
    append(&mut wal, &mut log, "second".as_bytes());
    let crc_at = log.len() - "second".as_bytes().len() - 4;
    for byte in &mut log[crc_at..crc_at + 4] {
        *byte = 0;
    }
    append(&mut wal, &mut log, "third".as_bytes());
    wal.flush_and_sync();

    let reader = WalBlockReader::read(log);
    let mut iter = reader.into_iter();
    let mut result = Vec::new();
    loop {
        iter.advance();
        match iter.get() {
            Some(v) => {
                result.push(String::from_utf8(Vec::from(v)).unwrap());
            }
            None => break,
        }
    }
    assert_eq!(result, vec!["first".to_string(), "third".to_string()]);
}

#[test]
fn frame_is_length_checksum_payload() {
    let mut wal = Wal::new("wal");
    let written = wal.write(b"123456789").unwrap();
    // 0xCBF43926 is the CRC-32 check value of "123456789".
    let mut expected = vec![9u8, 0, 0, 0, 0, 0, 0, 0, 0x26, 0x39, 0xF4, 0xCB];
    expected.extend_from_slice(b"123456789");
    assert_eq!(expected, written.frame);
    assert!(!written.sync);
    assert_eq!(21, wal.log_position());
}

#[test]
fn replay_returns_what_was_written() {
    let blocks = ["", "a", "two words", "line one\nline two"];
    let mut log = Vec::new();
    let mut wal = Wal::new("wal");
    for block in blocks {
        append(&mut wal, &mut log, block.as_bytes());
    }
    assert_eq!(replay(&log), blocks.to_vec());
}

#[test]
fn replay_skips_a_mutated_payload() {
    let mut log = Vec::new();
    let mut wal = Wal::new("wal");
    append(&mut wal, &mut log, b"first");
    let at = log.len() + 12;
    append(&mut wal, &mut log, b"second");
    append(&mut wal, &mut log, b"third");
    log[at] = b'S';
    assert_eq!(replay(&log), vec!["first".to_string(), "third".to_string()]);
}

#[test]
fn replay_stops_without_error_inside_a_header() {
    let mut log = Vec::new();
    let mut wal = Wal::new("wal");
    append(&mut wal, &mut log, b"first");
    let good = log.len();
    log.extend_from_slice(&[7, 0, 0, 0, 0]);

    let mut iter = WalBlockReader::read(log).into_iter();
    assert!(iter.consume_next());
    assert!(!iter.consume_next());
    assert_eq!(None, iter.error());
    assert_eq!(good as u64, iter.last_successfull_read_position());
}

#[test]
fn replay_fails_on_a_header_that_declares_too_much() {
    let mut log = Vec::new();
    let mut wal = Wal::new("wal");
    append(&mut wal, &mut log, b"first");
    let good = log.len();
    append(&mut wal, &mut log, b"second");
    log.truncate(log.len() - 1);

    let mut iter = WalBlockReader::read(log).into_iter();
    assert!(iter.consume_next());
    assert_eq!(Some(&b"first"[..]), iter.get());
    assert!(!iter.consume_next());
    assert_eq!(Some(WalError::CorruptHeader), iter.error());
    assert!(iter.get().is_none());
    assert_eq!(good as u64, iter.last_successfull_read_position());
    assert!(!iter.consume_next());
    assert_eq!(Some(WalError::CorruptHeader), iter.error());
}

#[test]
fn last_good_position_is_behind_the_last_good_block() {
    let mut log = Vec::new();
    let mut wal = Wal::new("wal");
    append(&mut wal, &mut log, b"first");
    append(&mut wal, &mut log, b"second");
    let good = log.len();
    let at = log.len() + 12;
    append(&mut wal, &mut log, b"third");
    log[at] ^= 0xff;

    let mut iter = WalBlockReader::read(log).into_iter();
    while iter.consume_next() {}
    assert_eq!(good as u64, iter.last_successfull_read_position());
    assert_eq!(None, iter.error());
}

#[test]
fn sync_is_due_after_a_mebibyte() {
    let mut wal = Wal::new("wal");
    let block = vec![0u8; 1048576 - 12];
    let first = wal.write(&block).unwrap();
    assert!(!first.sync);
    let second = wal.write(b"").unwrap();
    assert!(second.sync);
    let third = wal.write(b"").unwrap();
    assert!(!third.sync);
    assert_eq!(1048576 + 24, wal.log_position());
}

#[test]
fn rolled_segments_are_named_by_position() {
    let mut wal = Wal::new("data/wal");
    wal.write(b"block").unwrap();
    let roll = wal.roll_new_segment(17);
    assert_eq!("data/wal.pending_17", roll.pending);
    assert_eq!(0, roll.position);
    assert_eq!(0, wal.log_position());
    assert_eq!("data/wal.pending_0", wal.drop_pending(0));
    assert_eq!(
        "data/wal.pending_18446744073709551615",
        wal.drop_pending(u64::MAX)
    );
}

#[test]
fn a_segment_cannot_outgrow_its_offsets() {
    let mut wal = Wal::from_position("wal", u64::MAX - 12);
    assert!(wal.write(b"").is_ok());
    assert_eq!(Err(WalError::TooLarge), wal.write(b"").map(|w| w.sync));
    assert_eq!(u64::MAX, wal.log_position());
}

#[test]
fn a_segment_is_read_to_its_end() {
    let blocks: Vec<Vec<u8>> = (0..7u8).map(|i| vec![i; 3 * i as usize]).collect();
    let mut log = Vec::new();
    let mut wal = Wal::new("wal");
    let mut ends = Vec::new();
    for block in &blocks {
        append(&mut wal, &mut log, block);
        ends.push(log.len());
    }
    assert_eq!((blocks.clone(), log.len() as u64), read_blocks(log.clone()));
    assert_eq!((Vec::new(), 0), read_blocks(Vec::new()));

    // One frame with a changed checksum, or a changed payload, is left out;
    // the others come in their order.
    for j in 1..blocks.len() {
        let mut left: Vec<Vec<u8>> = blocks.clone();
        left.remove(j);
        let end = if j + 1 == blocks.len() { ends[j - 1] } else { log.len() };

        let mut changed = log.clone();
        changed[ends[j - 1] + 8] ^= 0xff;
        assert_eq!((left.clone(), end as u64), read_blocks(changed));

        let mut changed = log.clone();
        changed[ends[j - 1] + 12] ^= 0x01;
        assert_eq!((left, end as u64), read_blocks(changed));
    }

    // A torn tail delivers nothing and is cut away.
    for cut in 1..(12 + blocks[6].len()) {
        let torn = log[..log.len() - cut].to_vec();
        assert_eq!((blocks[..6].to_vec(), ends[5] as u64), read_blocks(torn));
    }
}
