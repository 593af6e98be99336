use ar::{ArError, Archive, Entry, ErrorKind, Header, SeekFrom};

fn sample() -> Vec<u8> {
    "\
    !<arch>\n\
    foo.txt         1487552916  501   20    100644  7         `\n\
    foobar\n\n\
    baz.txt         1487552349  42    12345 100664  4         `\n\
    baz\n"
        .as_bytes()
        .to_vec()
}

#[test]
fn reads_are_bounded_by_the_entry() {
    let mut archive = Archive::new(sample());
    let mut entry = archive.next_entry().unwrap().unwrap();
    assert_eq!(entry.length(), 7);
    let mut buf = [0u8; 4];
    assert_eq!(entry.read(&mut buf), 4);
    assert_eq!(&buf, b"foob");
    assert_eq!(entry.position(), 4);
    assert_eq!(entry.remaining(), 3);
    let mut buf = [b'#'; 16];
    assert_eq!(entry.read(&mut buf), 3);
    assert_eq!(&buf[..3], b"ar\n");
    assert_eq!(&buf[3..], &[b'#'; 13]);
    assert_eq!(entry.read(&mut buf), 0);
    assert_eq!(entry.position(), 7);
}

#[test]
fn an_abandoned_entry_does_not_disturb_the_next() {
    let mut archive = Archive::new(sample());
    {
        let mut entry = archive.next_entry().unwrap().unwrap();
        let mut buf = [0u8; 2];
        assert_eq!(entry.read(&mut buf), 2);
    }
    let mut entry = archive.next_entry().unwrap().unwrap();
    assert_eq!(entry.header().identifier(), b"baz.txt");
    let mut buf = [0u8; 8];
    assert_eq!(entry.read(&mut buf), 4);
    assert_eq!(&buf[..4], b"baz\n");
}

#[test]
fn seek_within_bounds_then_read_the_rest() {
    let payload = b"0123456789";
    for target in 0..=payload.len() as u64 {
        let mut entry = Entry::new(Header::new(b"digits".to_vec(), 10), payload);
        assert_eq!(entry.seek(SeekFrom::Start(target)), Ok(target));
        assert_eq!(entry.position(), target);
        let mut buf = [0u8; 32];
        let n = entry.read(&mut buf);
        assert_eq!(n as u64, 10 - target);
        assert_eq!(&buf[..n], &payload[target as usize..]);
        assert_eq!(entry.read(&mut buf), 0);
    }
}

#[test]
fn seek_outside_bounds_leaves_the_position() {
    let payload = b"0123456789";
    let mut entry = Entry::new(Header::new(b"digits".to_vec(), 10), payload);
    assert_eq!(entry.seek(SeekFrom::Start(3)), Ok(3));
    let e = entry.seek(SeekFrom::Start(11)).unwrap_err();
    assert_eq!(e, ArError::SeekPastEnd { target: 11, length: 10 });
    assert_eq!(e.kind(), ErrorKind::Range);
    assert_eq!(entry.position(), 3);
    let e = entry.seek(SeekFrom::Current(-4)).unwrap_err();
    assert_eq!(e, ArError::SeekBeforeStart { target: -1 });
    assert_eq!(e.kind(), ErrorKind::Range);
    assert_eq!(entry.position(), 3);
    assert_eq!(entry.seek(SeekFrom::End(1)), Err(ArError::SeekPastEnd { target: 11, length: 10 }));
    assert_eq!(entry.seek(SeekFrom::End(-11)), Err(ArError::SeekBeforeStart { target: -1 }));
    assert_eq!(
        entry.seek(SeekFrom::Start(u64::MAX)),
        Err(ArError::SeekPastEnd { target: u64::MAX as i128, length: 10 })
    );
    assert_eq!(
        entry.seek(SeekFrom::Current(i64::MIN)),
        Err(ArError::SeekBeforeStart { target: 3 + i64::MIN as i128 })
    );
    assert_eq!(entry.position(), 3);
}

#[test]
fn seek_from_each_origin() {
    let payload = b"0123456789";
    let mut entry = Entry::new(Header::new(b"digits".to_vec(), 10), payload);
    assert_eq!(entry.seek(SeekFrom::End(0)), Ok(10));
    assert_eq!(entry.seek(SeekFrom::End(-10)), Ok(0));
    assert_eq!(entry.seek(SeekFrom::Current(4)), Ok(4));
    assert_eq!(entry.seek(SeekFrom::Current(-1)), Ok(3));
    assert_eq!(entry.seek(SeekFrom::Current(0)), Ok(3));
    let mut buf = [0u8; 2];
    assert_eq!(entry.read(&mut buf), 2);
    assert_eq!(&buf, b"34");
}

#[test]
fn plans_for_a_streaming_source() {
    assert_eq!(ar::entry::read_limit(10, 4, 100), 6);
    assert_eq!(ar::entry::read_limit(10, 4, 5), 5);
    assert_eq!(ar::entry::read_limit(10, 10, 5), 0);
    assert_eq!(ar::entry::drain_len(10, 4), 6);
    assert_eq!(ar::entry::drain_len(10, 10), 0);
    assert_eq!(ar::entry::plan_seek(10, 4, SeekFrom::Current(-4)), Ok(0));
    assert_eq!(ar::entry::relative_step(4, 0), Some(-4));
    assert_eq!(ar::entry::relative_step(0, u64::MAX), None);
}

#[test]
fn reading_one_byte_at_a_time_reaches_the_end() {
    let mut archive = Archive::new(sample());
    let mut entry = archive.next_entry().unwrap().unwrap();
    let mut seen = Vec::new();
    let mut byte = [0u8; 1];
    while entry.read(&mut byte) == 1 {
        seen.push(byte[0]);
    }
    assert_eq!(seen, b"foobar\n");
    assert_eq!(entry.remaining(), 0);
    let mut none = [0u8; 0];
    assert_eq!(entry.read(&mut none), 0);
}
