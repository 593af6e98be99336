use ar::{ArError, Archive, Builder, Column, ErrorKind, GnuBuilder, Header, Variant};

fn read_all(bytes: Vec<u8>) -> (Vec<(Header, Vec<u8>)>, Variant) {
    let mut archive = Archive::new(bytes);
    let mut members = Vec::new();
    loop {
        match archive.next_entry() {
            None => break,
            Some(result) => {
                let mut entry = result.unwrap();
                let mut payload = vec![0u8; entry.length() as usize];
                let n = entry.read(&mut payload);
                assert_eq!(n, payload.len());
                members.push((entry.header().clone(), payload));
            }
        }
    }
    assert!(archive.next_entry().is_none());
    (members, archive.variant())
}

fn first_error(bytes: &[u8]) -> ArError {
    let mut archive = Archive::new(bytes.to_vec());
    loop {
        match archive.next_entry() {
            None => panic!("the archive was read without an error"),
            Some(Err(e)) => {
                assert!(archive.next_entry().is_none());
                return e;
            }
            Some(Ok(_)) => {}
        }
    }
}

fn full_header(name: &[u8], size: u64) -> Header {
    let mut header = Header::new(name.to_vec(), size);
    header.set_mtime(1487552916);
    header.set_uid(501);
    header.set_gid(20);
    header.set_mode(0o100644);
    header
}

#[test]
fn read_common_archive() {
    let input = "\
    !<arch>\n\
    foo.txt         1487552916  501   20    100644  7         `\n\
    foobar\n\n\
    bar.awesome.txt 1487552919  501   20    100644  22        `\n\
    This file is awesome!\n\
    baz.txt         1487552349  42    12345 100664  4         `\n\
    baz\n";
    let (members, variant) = read_all(input.as_bytes().to_vec());
    assert_eq!(variant, Variant::Common);
    assert_eq!(members.len(), 3);
    assert_eq!(members[0].0, full_header(b"foo.txt", 7));
    assert_eq!(members[0].1, b"foobar\n");
    assert_eq!(members[1].0.identifier(), b"bar.awesome.txt");
    assert_eq!(members[1].0.mtime(), 1487552919);
    assert_eq!(members[1].1, b"This file is awesome!\n");
    assert_eq!(members[2].0.identifier(), b"baz.txt");
    assert_eq!(members[2].0.uid(), 42);
    assert_eq!(members[2].0.gid(), 12345);
    assert_eq!(members[2].0.mode(), 0o100664);
    assert_eq!(members[2].0.size(), 4);
    assert_eq!(members[2].1, b"baz\n");
}

#[test]
fn read_bsd_archive_with_long_filenames() {
    let input = "\
    !<arch>\n\
    #1/32           1487552916  501   20    100644  39        `\n\
    this_is_a_very_long_filename.txtfoobar\n\n\
    #1/44           0           0     0     0       48        `\n\
    and_this_is_another_very_long_filename.txt\x00\x00baz\n";
    let (members, variant) = read_all(input.as_bytes().to_vec());
    assert_eq!(variant, Variant::BSD);
    assert_eq!(members.len(), 2);
    assert_eq!(members[0].0, full_header(b"this_is_a_very_long_filename.txt", 7));
    assert_eq!(members[0].1, b"foobar\n");
    assert_eq!(
        members[1].0,
        Header::new(b"and_this_is_another_very_long_filename.txt".to_vec(), 4)
    );
    assert_eq!(members[1].1, b"baz\n");
}

#[test]
fn read_gnu_archive_with_long_filenames() {
    let input = "\
    !<arch>\n\
    //                                              78        `\n\
    this_is_a_very_long_filename.txt/\n\
    and_this_is_another_very_long_filename.txt/\n\
    /0              1487552916  501   20    100644  7         `\n\
    foobar\n\n\
    /34             0           0     0     0       4         `\n\
    baz\n";
    let (members, variant) = read_all(input.as_bytes().to_vec());
    assert_eq!(variant, Variant::GNU);
    assert_eq!(members.len(), 2);
    assert_eq!(members[0].0, full_header(b"this_is_a_very_long_filename.txt", 7));
    assert_eq!(members[0].1, b"foobar\n");
    assert_eq!(
        members[1].0,
        Header::new(b"and_this_is_another_very_long_filename.txt".to_vec(), 4)
    );
    assert_eq!(members[1].1, b"baz\n");
}

#[test]
fn read_gnu_archive_with_short_names() {
    let input = "\
    !<arch>\n\
    foo bar/        0           0     0     0       4         `\n\
    baz\n\
    plain           0           0     0     0       0         `\n";
    let (members, variant) = read_all(input.as_bytes().to_vec());
    assert_eq!(variant, Variant::GNU);
    assert_eq!(members.len(), 2);
    assert_eq!(members[0].0.identifier(), b"foo bar");
    assert_eq!(members[0].1, b"baz\n");
    assert_eq!(members[1].0.identifier(), b"plain");
}

#[test]
fn round_trip_through_builder() {
    let inputs: Vec<(Header, Vec<u8>)> = vec![
        (full_header(b"foo.txt", 7), b"foobar\n".to_vec()),
        (Header::new(b"a name with spaces".to_vec(), 3), b"abc".to_vec()),
        (Header::new(b"exactly_16_bytes".to_vec(), 0), Vec::new()),
        (Header::new(b"this_is_a_very_long_filename.txt".to_vec(), 4), b"baz\n".to_vec()),
        (Header::new(b"x".to_vec(), 1), b"\n".to_vec()),
    ];
    let mut builder = Builder::new(Vec::new());
    for (header, payload) in &inputs {
        builder.append(header, payload).unwrap();
    }
    let bytes = builder.into_inner().unwrap();
    assert_eq!(bytes.len() % 2, 0);
    let (members, variant) = read_all(bytes);
    assert_eq!(variant, Variant::BSD);
    assert_eq!(members, inputs);
}

#[test]
fn round_trip_through_gnu_builder() {
    let inputs: Vec<(Header, Vec<u8>)> = vec![
        (full_header(b"foo.txt", 7), b"foobar\n".to_vec()),
        (Header::new(b"sixteen_bytes_id".to_vec(), 3), b"abc".to_vec()),
        (Header::new(b"this_is_a_very_long_filename.txt".to_vec(), 4), b"baz\n".to_vec()),
        (Header::new(b"with space".to_vec(), 0), Vec::new()),
        (Header::new(b"seventeen_bytes_x".to_vec(), 1), b"z".to_vec()),
    ];
    let names: Vec<Vec<u8>> = inputs.iter().map(|(h, _)| h.identifier().to_vec()).collect();
    let mut builder = GnuBuilder::new(Vec::new(), names);
    for (header, payload) in &inputs {
        builder.append(header, payload).unwrap();
    }
    let bytes = builder.into_inner().unwrap();
    let (members, variant) = read_all(bytes);
    assert_eq!(variant, Variant::GNU);
    assert_eq!(members, inputs);
}

#[test]
fn empty_archive_has_no_members() {
    let (members, variant) = read_all(b"!<arch>\n".to_vec());
    assert!(members.is_empty());
    assert_eq!(variant, Variant::Common);
}

#[test]
fn bad_magic_is_a_format_error() {
    let e = first_error(b"!<arch>\rfoo");
    assert_eq!(e, ArError::BadMagic);
    assert_eq!(e.kind(), ErrorKind::Format);
    assert_eq!(first_error(b"!<ar"), ArError::BadMagic);
    assert_eq!(first_error(b""), ArError::BadMagic);
}

#[test]
fn bad_terminator_is_a_format_error() {
    let input = "\
    !<arch>\n\
    foo.txt         1487552916  501   20    100644  7         `\r\
    foobar\n\n";
    let e = first_error(input.as_bytes());
    assert_eq!(e, ArError::BadTerminator);
    assert_eq!(e.kind(), ErrorKind::Format);
}

#[test]
fn malformed_numbers_name_their_column() {
    let input = "\
    !<arch>\n\
    foo.txt         1487552916  501   20    100644  seven     `\n\
    foobar\n\n";
    assert_eq!(first_error(input.as_bytes()), ArError::BadNumber { column: Column::Size });
    let input = "\
    !<arch>\n\
    foo.txt         1487552916  501   20    100648  7         `\n\
    foobar\n\n";
    assert_eq!(first_error(input.as_bytes()), ArError::BadNumber { column: Column::Mode });
    let input = "\
    !<arch>\n\
    foo.txt                     501   20    100644  7         `\n\
    foobar\n\n";
    assert_eq!(first_error(input.as_bytes()), ArError::BadNumber { column: Column::Mtime });
    let input = "\
    !<arch>\n\
    foo.txt         1487552916  5 1   20    100644  7         `\n\
    foobar\n\n";
    assert_eq!(first_error(input.as_bytes()), ArError::BadNumber { column: Column::Uid });
    let input = "\
    !<arch>\n\
    foo.txt         1487552916  501   -20   100644  7         `\n\
    foobar\n\n";
    assert_eq!(first_error(input.as_bytes()), ArError::BadNumber { column: Column::Gid });
    let input = "\
    !<arch>\n\
    #1/x            1487552916  501   20    100644  7         `\n\
    foobar\n\n";
    assert_eq!(first_error(input.as_bytes()), ArError::BadNumber { column: Column::NameLength });
    let input = "\
    !<arch>\n\
    /x              1487552916  501   20    100644  7         `\n\
    foobar\n\n";
    assert_eq!(first_error(input.as_bytes()), ArError::BadNumber { column: Column::NameOffset });
}

#[test]
fn truncated_members_are_integrity_errors() {
    let input = "\
    !<arch>\n\
    foo.txt         1487552916  501   20    100644  7         `\n\
    foo";
    let e = first_error(input.as_bytes());
    assert_eq!(e, ArError::Truncated { needed: 7, available: 3 });
    assert_eq!(e.kind(), ErrorKind::Integrity);
    let input = "\
    !<arch>\n\
    foo.txt         1487552916  501   20";
    assert_eq!(first_error(input.as_bytes()), ArError::Truncated { needed: 60, available: 36 });
    let input = "\
    !<arch>\n\
    #1/32           1487552916  501   20    100644  39        `\n\
    this_is_a_very";
    assert_eq!(first_error(input.as_bytes()), ArError::Truncated { needed: 32, available: 14 });
}

#[test]
fn an_entry_before_a_bad_padding_byte_is_still_read() {
    let input = "\
    !<arch>\n\
    foo.txt         1487552916  501   20    100644  7         `\n\
    foobar\n?\
    baz.txt         1487552349  42    12345 100664  4         `\n\
    baz\n";
    let mut archive = Archive::new(input.as_bytes().to_vec());
    {
        let entry = archive.next_entry().unwrap().unwrap();
        assert_eq!(entry.header().identifier(), b"foo.txt");
    }
    let e = archive.next_entry().unwrap().unwrap_err();
    assert_eq!(e, ArError::BadPadding { found: b'?' });
    assert!(archive.next_entry().is_none());
}

#[test]
fn a_missing_last_padding_byte_is_tolerated() {
    let input = "\
    !<arch>\n\
    foo.txt         1487552916  501   20    100644  7         `\n\
    foobar\n";
    let (members, _) = read_all(input.as_bytes().to_vec());
    assert_eq!(members.len(), 1);
    assert_eq!(members[0].1, b"foobar\n");
}

#[test]
fn mixed_dialects_are_refused() {
    let input = "\
    !<arch>\n\
    #1/8            0           0     0     0       12        `\n\
    foo bar\x00baz\n\
    gnu/            0           0     0     0       0         `\n";
    assert_eq!(first_error(input.as_bytes()), ArError::MixedDialects);
    let input = "\
    !<arch>\n\
    gnu/            0           0     0     0       0         `\n\
    #1/8            0           0     0     0       12        `\n\
    foo bar\x00baz\n";
    assert_eq!(first_error(input.as_bytes()), ArError::MixedDialects);
}

#[test]
fn gnu_offsets_outside_the_table_are_refused() {
    let input = "\
    !<arch>\n\
    //                                              34        `\n\
    this_is_a_very_long_filename.txt/\n\
    /34             0           0     0     0       0         `\n";
    assert_eq!(
        first_error(input.as_bytes()),
        ArError::BadNameOffset { offset: 34, table_len: 34 }
    );
    let input = "\
    !<arch>\n\
    /0              0           0     0     0       0         `\n";
    assert_eq!(
        first_error(input.as_bytes()),
        ArError::BadNameOffset { offset: 0, table_len: 0 }
    );
}

#[test]
fn bsd_name_longer_than_member_is_refused() {
    let input = "\
    !<arch>\n\
    #1/8            0           0     0     0       4         `\n\
    foo bar\x00";
    assert_eq!(
        first_error(input.as_bytes()),
        ArError::NameExceedsMember { name_len: 8, size: 4 }
    );
}

#[test]
fn gnu_symbol_table_is_passed_over_and_kept() {
    let mut input = b"!<arch>\n".to_vec();
    input.extend_from_slice(b"/               0           0     0     0       17        `\n");
    input.extend_from_slice(&[0, 0, 0, 2, 0, 0, 0, 0x5a, 0, 0, 1, 0]);
    input.extend_from_slice(b"ab\0c\0\n");
    input.extend_from_slice(b"foo.o/          0           0     0     0       0         `\n");
    let mut archive = Archive::new(input);
    assert_eq!(archive.symbols().unwrap().len(), 0);
    {
        let entry = archive.next_entry().unwrap().unwrap();
        assert_eq!(entry.header().identifier(), b"foo.o");
    }
    assert_eq!(archive.variant(), Variant::GNU);
    let symbols = archive.symbols().unwrap();
    assert_eq!(symbols.len(), 2);
    assert_eq!(symbols.get(0).unwrap().name(), b"ab");
    assert_eq!(symbols.get(0).unwrap().offset(), 0x5a);
    assert_eq!(symbols.get(1).unwrap().name(), b"c");
    assert_eq!(symbols.get(1).unwrap().offset(), 0x100);
    assert!(symbols.get(2).is_none());
}

#[test]
fn bsd_symbol_table_is_passed_over_and_kept() {
    let mut table: Vec<u8> = Vec::new();
    table.extend_from_slice(&[16, 0, 0, 0]);
    table.extend_from_slice(&[0, 0, 0, 0, 0x60, 0, 0, 0]);
    table.extend_from_slice(&[4, 0, 0, 0, 0x00, 1, 0, 0]);
    table.extend_from_slice(&[8, 0, 0, 0]);
    table.extend_from_slice(b"one\0two\0");
    assert_eq!(table.len(), 32);
    let mut input = b"!<arch>\n".to_vec();
    input.extend_from_slice(b"#1/20           0           0     0     0       52        `\n");
    input.extend_from_slice(b"__.SYMDEF SORTED\0\0\0\0");
    input.extend_from_slice(&table);
    input.extend_from_slice(b"foo.o           0           0     0     0       0         `\n");
    let mut archive = Archive::new(input.clone());
    {
        let entry = archive.next_entry().unwrap().unwrap();
        assert_eq!(entry.header().identifier(), b"foo.o");
    }
    assert_eq!(archive.variant(), Variant::BSD);
    let symbols = archive.symbols().unwrap();
    assert_eq!(symbols.len(), 2);
    assert_eq!(symbols.get(0).unwrap().name(), b"one");
    assert_eq!(symbols.get(0).unwrap().offset(), 0x60);
    assert_eq!(symbols.get(1).unwrap().name(), b"two");
    assert_eq!(symbols.get(1).unwrap().offset(), 0x100);
    assert!(archive.next_entry().is_none());
    assert_eq!(archive.into_inner().unwrap(), input);
}

#[test]
fn plain_symdef_member_is_the_bsd_symbol_table() {
    let mut input = b"!<arch>\n".to_vec();
    input.extend_from_slice(b"__.SYMDEF       0           0     0     0       8         `\n");
    input.extend_from_slice(&[0, 0, 0, 0, 0, 0, 0, 0]);
    input.extend_from_slice(b"foo.o           0           0     0     0       0         `\n");
    let (members, variant) = read_all(input);
    assert_eq!(variant, Variant::BSD);
    assert_eq!(members.len(), 1);
    assert_eq!(members[0].0.identifier(), b"foo.o");
}

#[test]
fn symbol_tables_cut_short_are_refused() {
    let mut input = b"!<arch>\n".to_vec();
    input.extend_from_slice(b"/               0           0     0     0       8         `\n");
    input.extend_from_slice(&[0, 0, 0, 1, 0, 0, 0, 0x5a]);
    let mut archive = Archive::new(input);
    assert!(archive.next_entry().is_none());
    assert_eq!(archive.symbols().unwrap_err(), ArError::BadSymbolTable);
    assert_eq!(ArError::BadSymbolTable.kind(), ErrorKind::Format);
}
