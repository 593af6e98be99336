use ar::scanner::{Demand, Scanner};
use ar::{ArError, Archive, Builder, GnuBuilder, Header, Variant};

/// Drives a scanner over bytes in memory the way a streaming caller would:
/// it hands over what is demanded and skips the payloads of members.
fn scan(data: &[u8]) -> (Vec<(Header, Vec<u8>)>, Option<ArError>, Scanner) {
    let mut scanner = Scanner::new();
    let mut at = 0usize;
    let mut members = Vec::new();
    loop {
        match scanner.demand() {
            Demand::Nothing => return (members, None, scanner),
            Demand::Member { len } => {
                let header = match scanner.take_member(len) {
                    Some(Ok(header)) => header,
                    Some(Err(e)) => return (members, Some(e), scanner),
                    None => unreachable!(),
                };
                let end = (at + len as usize).min(data.len());
                members.push((header, data[at..end].to_vec()));
                at = end;
            }
            Demand::Read { len } => {
                let end = (at + len as usize).min(data.len());
                match scanner.supply(&data[at..end]) {
                    Ok(true) => return (members, None, scanner),
                    Ok(false) => {}
                    Err(e) => return (members, Some(e), scanner),
                }
                at = end;
            }
        }
    }
}

fn read(data: &[u8]) -> (Vec<(Header, Vec<u8>)>, Option<ArError>) {
    let mut archive = Archive::new(data.to_vec());
    let mut members = Vec::new();
    loop {
        match archive.next_entry() {
            None => return (members, None),
            Some(Err(e)) => return (members, Some(e)),
            Some(Ok(mut entry)) => {
                let mut payload = vec![0u8; entry.length() as usize];
                entry.read(&mut payload);
                members.push((entry.header().clone(), payload));
            }
        }
    }
}

#[test]
fn scanner_demands_piece_by_piece() {
    let mut scanner = Scanner::new();
    assert!(scanner.at_start());
    assert_eq!(scanner.demand(), Demand::Read { len: 8 });
    assert_eq!(scanner.supply(b"!<arch>\n"), Ok(false));
    assert!(scanner.is_between());
    assert!(!scanner.pad_due());
    assert_eq!(scanner.demand(), Demand::Read { len: 60 });
    assert_eq!(
        scanner.supply(b"#1/8            1           2     3     4       15        `\n"),
        Ok(false)
    );
    assert_eq!(scanner.awaited_name(), Some(8));
    assert_eq!(scanner.demand(), Demand::Read { len: 8 });
    assert_eq!(scanner.supply(b"foo bar\0"), Ok(false));
    assert_eq!(scanner.awaited_name(), None);
    assert_eq!(scanner.demand(), Demand::Member { len: 7 });
    assert_eq!(scanner.supply(b"ignored"), Ok(false));
    assert_eq!(scanner.demand(), Demand::Member { len: 7 });
    let header = scanner.take_member(7).unwrap().unwrap();
    assert_eq!(header, Header::with_fields(b"foo bar".to_vec(), 1, 2, 3, 4, 7));
    assert_eq!(scanner.variant(), Variant::BSD);
    assert!(scanner.pad_due());
    assert_eq!(scanner.take_member(7), None);
    assert_eq!(scanner.demand(), Demand::Read { len: 1 });
    assert_eq!(scanner.supply(b"\n"), Ok(false));
    assert!(!scanner.is_between());
    assert_eq!(scanner.demand(), Demand::Read { len: 60 });
    assert_eq!(scanner.supply(b""), Ok(true));
    assert!(scanner.is_between());
    assert_eq!(scanner.demand(), Demand::Read { len: 60 });
    assert_eq!(scanner.supply(b""), Ok(true));
}

#[test]
fn scanner_ends_where_the_last_padding_is_missing() {
    let mut scanner = Scanner::new();
    assert_eq!(scanner.supply(b"!<arch>\n"), Ok(false));
    assert_eq!(
        scanner.supply(b"a               0           0     0     0       1         `\n"),
        Ok(false)
    );
    assert_eq!(scanner.take_member(1).unwrap().unwrap().identifier(), b"a");
    assert_eq!(scanner.demand(), Demand::Read { len: 1 });
    assert_eq!(scanner.supply(b""), Ok(true));
    assert!(!scanner.pad_due());
}

#[test]
fn scanner_fails_for_good() {
    let mut scanner = Scanner::new();
    assert_eq!(scanner.supply(b"!<arch>\r"), Err(ArError::BadMagic));
    assert_eq!(scanner.demand(), Demand::Nothing);
    assert_eq!(scanner.supply(b"!<arch>\n"), Ok(false));
    assert_eq!(scanner.demand(), Demand::Nothing);
    assert_eq!(scanner.take_member(0), None);

    let mut scanner = Scanner::new();
    assert_eq!(scanner.supply(b"!<arch>\n"), Ok(false));
    assert_eq!(
        scanner.supply(b"a               0           0     0     0       5         `\n"),
        Ok(false)
    );
    assert_eq!(
        scanner.take_member(3),
        Some(Err(ArError::Truncated { needed: 5, available: 3 }))
    );
    assert_eq!(scanner.demand(), Demand::Nothing);

    let mut scanner = Scanner::new();
    assert_eq!(scanner.supply(b"!<arch>\n"), Ok(false));
    assert_eq!(
        scanner.supply(b"//                                              10        `\n"),
        Ok(false)
    );
    assert_eq!(scanner.demand(), Demand::Read { len: 10 });
    assert_eq!(
        scanner.supply(b"short"),
        Err(ArError::Truncated { needed: 10, available: 5 })
    );
    assert_eq!(scanner.demand(), Demand::Nothing);
}

#[test]
fn scanner_and_archive_agree() {
    let mut builder = Builder::new(Vec::new());
    builder.append(&Header::new(b"one".to_vec(), 3), b"abc").unwrap();
    builder.append(&Header::new(b"number two".to_vec(), 4), b"defg").unwrap();
    builder.append(&Header::new(b"three".to_vec(), 0), b"").unwrap();
    let bsd = builder.into_inner().unwrap();

    let long = b"a_name_that_is_long.txt".to_vec();
    let mut builder = GnuBuilder::new(Vec::new(), vec![long.clone(), b"short".to_vec()]);
    builder.append(&Header::new(b"short".to_vec(), 1), b"x").unwrap();
    builder.append(&Header::new(long, 2), b"yz").unwrap();
    let gnu = builder.into_inner().unwrap();

    let mut broken = bsd.clone();
    broken[66] = b'?';
    let inputs: Vec<Vec<u8>> = vec![
        bsd.clone(),
        gnu.clone(),
        broken,
        bsd[..bsd.len() - 20].to_vec(),
        gnu[..70].to_vec(),
        b"!<arch>\n".to_vec(),
        b"nonsense".to_vec(),
        Vec::new(),
    ];
    for input in inputs {
        let (scanned, scan_error, _) = scan(&input);
        let (read_members, read_error) = read(&input);
        assert_eq!(scanned.len(), read_members.len());
        for (a, b) in scanned.iter().zip(read_members.iter()) {
            assert_eq!(a.0, b.0);
        }
        match (scan_error, read_error) {
            (None, None) => assert_eq!(scanned, read_members),
            (Some(a), Some(b)) => {
                if !matches!(b, ArError::Truncated { .. }) {
                    assert_eq!(a, b);
                }
            }
            (Some(ArError::Truncated { .. }), None) => {}
            (None, Some(ArError::Truncated { .. })) => {}
            (a, b) => panic!("scanner {:?}, archive {:?}", a, b),
        }
    }
    let (_, _, scanner) = scan(&gnu);
    assert_eq!(scanner.variant(), Variant::GNU);
    assert_eq!(scanner.symbols().unwrap().len(), 0);
}
