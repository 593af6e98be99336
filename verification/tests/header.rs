use ar::bytes::{contains_byte, copy_range, push_all, push_repeat, same_bytes};
use ar::field::{parse_number, push_number, trimmed_len};
use ar::record::{parse, Shape};
use ar::{ArError, Archive, Builder, Column, GnuBuilder, Header, Symbols, Variant};

#[test]
fn header_fields_can_be_set_and_read() {
    let mut header = Header::new(b"name".to_vec(), 12);
    assert_eq!(header.identifier(), b"name");
    assert_eq!(header.mtime(), 0);
    assert_eq!(header.uid(), 0);
    assert_eq!(header.gid(), 0);
    assert_eq!(header.mode(), 0);
    assert_eq!(header.size(), 12);
    header.set_identifier(b"other".to_vec());
    header.set_mtime(1);
    header.set_uid(2);
    header.set_gid(3);
    header.set_mode(4);
    header.set_size(5);
    assert_eq!(header, Header::with_fields(b"other".to_vec(), 1, 2, 3, 4, 5));
    assert_eq!(header.identifier(), b"other");
    assert_eq!(header.mtime(), 1);
    assert_eq!(header.uid(), 2);
    assert_eq!(header.gid(), 3);
    assert_eq!(header.mode(), 4);
    assert_eq!(header.size(), 5);
}

#[test]
fn numbers_are_left_justified_in_their_columns() {
    let mut out = b">".to_vec();
    push_number(&mut out, 0, 10, 3);
    push_number(&mut out, 42, 10, 6);
    push_number(&mut out, 0o100644, 8, 8);
    push_number(&mut out, 123, 10, 3);
    push_number(&mut out, 1234, 10, 3);
    push_number(&mut out, 7, 10, 0);
    push_number(&mut out, u128::MAX, 10, 1);
    assert_eq!(
        String::from_utf8(out).unwrap(),
        ">0  42    100644  12312347340282366920938463463374607431768211455"
    );
}

#[test]
fn number_columns_are_digits_then_spaces() {
    assert_eq!(parse_number(b"0", 10), Some(0));
    assert_eq!(parse_number(b"42    ", 10), Some(42));
    assert_eq!(parse_number(b"007", 10), Some(7));
    assert_eq!(parse_number(b"100644  ", 8), Some(0o100644));
    assert_eq!(parse_number(b"18446744073709551615", 10), Some(u64::MAX));
    assert_eq!(parse_number(b"18446744073709551616", 10), None);
    assert_eq!(parse_number(b"99999999999999999999", 10), None);
    assert_eq!(parse_number(b"", 10), None);
    assert_eq!(parse_number(b"      ", 10), None);
    assert_eq!(parse_number(b" 42", 10), None);
    assert_eq!(parse_number(b"4 2", 10), None);
    assert_eq!(parse_number(b"+42", 10), None);
    assert_eq!(parse_number(b"-1", 10), None);
    assert_eq!(parse_number(b"8", 8), None);
    assert_eq!(parse_number(b"42\n", 10), None);
    assert_eq!(parse_number(b"42\0", 10), None);
}

#[test]
fn common_record_is_sixty_bytes() {
    let header = Header::with_fields(b"foo.txt".to_vec(), 1487552916, 501, 20, 0o100644, 7);
    let mut out = Vec::new();
    header.write(&mut out).unwrap();
    assert_eq!(out, b"foo.txt         1487552916  501   20    100644  7         `\n");
    assert_eq!(out.len(), 60);
}

#[test]
fn sixteen_byte_name_fills_the_column() {
    let header = Header::new(b"exactly_16_bytes".to_vec(), 0);
    let mut out = Vec::new();
    header.write(&mut out).unwrap();
    assert_eq!(out, b"exactly_16_bytes0           0     0     0       0         `\n");
    let mut out = Vec::new();
    header.write_gnu(&mut out, 5).unwrap();
    assert_eq!(out, b"/5              0           0     0     0       0         `\n");
}

#[test]
fn inline_names_are_padded_to_a_multiple_of_four() {
    for (name, padded) in [
        (&b"seventeen_bytes_x"[..], 20usize),
        (&b"eighteen_bytes_xxx"[..], 20),
        (&b"nineteen_bytes_xxxx"[..], 20),
        (&b"twenty_bytes_xxxxxxx"[..], 20),
        (&b"a b"[..], 4),
        (&b" "[..], 4),
    ] {
        let header = Header::new(name.to_vec(), 10);
        let mut out = Vec::new();
        header.write(&mut out).unwrap();
        assert_eq!(out.len(), 60 + padded);
        assert_eq!(&out[..3], b"#1/");
        assert_eq!(parse_number(&out[3..16], 10), Some(padded as u64));
        assert_eq!(parse_number(&out[48..58], 10), Some(10 + padded as u64));
        assert_eq!(&out[60..60 + name.len()], name);
        assert!(out[60 + name.len()..].iter().all(|&b| b == 0));
    }
}

#[test]
fn gnu_record_closes_short_names_with_a_slash() {
    let header = Header::with_fields(b"fifteen_bytes_x".to_vec(), 1, 2, 3, 4, 5);
    let mut out = Vec::new();
    header.write_gnu(&mut out, 99).unwrap();
    assert_eq!(out, b"fifteen_bytes_x/1           2     3     4       5         `\n");
    let header = Header::new(Vec::new(), 0);
    let mut out = Vec::new();
    header.write_gnu(&mut out, 0).unwrap();
    assert_eq!(out, b"/               0           0     0     0       0         `\n");
}

#[test]
fn a_written_record_parses_to_its_header() {
    let header = Header::with_fields(b"foo.txt".to_vec(), 1487552916, 501, 20, 0o100644, 7);
    let mut out = Vec::new();
    header.write(&mut out).unwrap();
    let record = parse(&out, Variant::Common, b"").unwrap();
    assert_eq!(record.header, header);
    assert_eq!(record.shape, Shape::Member);
    assert_eq!(record.variant, Variant::Common);
    let record = parse(&out, Variant::BSD, b"").unwrap();
    assert_eq!(record.variant, Variant::BSD);
    let record = parse(&out, Variant::GNU, b"").unwrap();
    assert_eq!(record.variant, Variant::GNU);
}

#[test]
fn an_inline_record_parses_in_two_steps() {
    let header = Header::with_fields(b"a name".to_vec(), 9, 8, 7, 6, 5);
    let mut out = Vec::new();
    header.write(&mut out).unwrap();
    assert_eq!(out.len(), 68);
    let first = parse(&out[..60], Variant::Common, b"").unwrap();
    assert_eq!(first.shape, Shape::InlineName { name_len: 8 });
    assert_eq!(first.variant, Variant::BSD);
    assert_eq!(first.header.identifier(), b"");
    assert_eq!(first.header.size(), 5);
    let record = first.with_inline_name(&out[60..]);
    assert_eq!(record.shape, Shape::Member);
    assert_eq!(record.header, header);
}

#[test]
fn a_record_of_the_wrong_length_is_truncated() {
    assert_eq!(
        parse(b"foo.txt", Variant::Common, b"").unwrap_err(),
        ArError::Truncated { needed: 60, available: 7 }
    );
}

#[test]
fn special_gnu_members_may_have_blank_metadata() {
    let raw = b"//                                              78        `\n";
    let record = parse(raw, Variant::Common, b"").unwrap();
    assert_eq!(record.shape, Shape::NameTable);
    assert_eq!(record.variant, Variant::GNU);
    assert_eq!(record.header, Header::new(b"//".to_vec(), 78));
    let raw = b"/                                               12        `\n";
    let record = parse(raw, Variant::GNU, b"").unwrap();
    assert_eq!(record.shape, Shape::SymbolTable);
    assert_eq!(record.header, Header::new(b"/".to_vec(), 12));
    assert_eq!(parse(raw, Variant::BSD, b"").unwrap_err(), ArError::MixedDialects);
}

#[test]
fn gnu_names_end_at_slash_or_newline_or_table_end() {
    let table = b"first_long_name.txt/\nsecond\nthird";
    let at = |offset: &str| {
        let mut raw = format!("/{:<15}", offset).into_bytes();
        raw.extend_from_slice(b"0           0     0     0       0         `\n");
        parse(&raw, Variant::GNU, table).map(|r| r.header.identifier().to_vec())
    };
    assert_eq!(at("0").unwrap(), b"first_long_name.txt");
    assert_eq!(at("6").unwrap(), b"long_name.txt");
    assert_eq!(at("19").unwrap(), b"");
    assert_eq!(at("21").unwrap(), b"second");
    assert_eq!(at("28").unwrap(), b"third");
    assert_eq!(at("32").unwrap(), b"d");
    assert_eq!(at("33").unwrap_err(), ArError::BadNameOffset { offset: 33, table_len: 33 });
    assert_eq!(at("1x").unwrap_err(), ArError::BadNumber { column: Column::NameOffset });
}

#[test]
fn a_name_shaped_like_both_dialects_is_gnu() {
    let raw = b"#1/20/          0           0     0     0       0         `\n";
    let record = parse(raw, Variant::Common, b"").unwrap();
    assert_eq!(record.variant, Variant::GNU);
    assert_eq!(record.shape, Shape::Member);
    assert_eq!(record.header.identifier(), b"#1/20");
}

#[test]
fn an_untouched_builder_writes_nothing() {
    let bytes = Builder::new(Vec::new()).into_inner().unwrap();
    assert!(bytes.is_empty());
    let mut archive = Archive::new(bytes);
    assert_eq!(archive.next_entry().unwrap().unwrap_err(), ArError::BadMagic);
    let bytes = GnuBuilder::new(Vec::new(), vec![b"a".to_vec()]).into_inner().unwrap();
    assert!(bytes.is_empty());
}

#[test]
fn names_that_look_like_another_dialect_do_not_come_back() {
    let mut builder = Builder::new(Vec::new());
    builder.append(&Header::new(b"dir/".to_vec(), 0), b"").unwrap();
    let mut archive = Archive::new(builder.into_inner().unwrap());
    let entry = archive.next_entry().unwrap().unwrap();
    assert_eq!(entry.header().identifier(), b"dir");

    let long = b"a/very_long_path_name.txt".to_vec();
    let mut builder = GnuBuilder::new(Vec::new(), vec![long.clone()]);
    builder.append(&Header::new(long, 0), b"").unwrap();
    let mut archive = Archive::new(builder.into_inner().unwrap());
    let entry = archive.next_entry().unwrap().unwrap();
    assert_eq!(entry.header().identifier(), b"a");
}

#[test]
fn headers_can_be_written_apart_from_payloads() {
    let mut builder = Builder::new(Vec::new());
    builder.write_header(&Header::new(b"a".to_vec(), 3)).unwrap();
    let head = builder.take_output();
    assert_eq!(
        head,
        b"!<arch>\na               0           0     0     0       3         `\n"
    );
    builder.write_header(&Header::new(b"b".to_vec(), 0)).unwrap();
    let head = builder.take_output();
    assert_eq!(head, b"b               0           0     0     0       0         `\n");
    assert!(builder.into_inner().unwrap().is_empty());

    let long = b"seventeen_bytes_x".to_vec();
    let mut builder = GnuBuilder::new(Vec::new(), vec![long.clone()]);
    assert_eq!(
        builder.write_header(&Header::new(b"nope".to_vec(), 0)),
        Err(ArError::UnknownIdentifier)
    );
    assert!(builder.take_output().is_empty());
    assert_eq!(builder.write_header(&Header::new(long.clone(), 0)), Ok(()));
    let head = builder.take_output();
    let expected = "\
    !<arch>\n\
    //                                              19        `\n\
    seventeen_bytes_x/\n\n\
    /0              0           0     0     0       0         `\n";
    assert_eq!(String::from_utf8(head).unwrap(), expected);
    assert_eq!(builder.write_header(&Header::new(long, 0)), Ok(()));
    assert_eq!(
        builder.take_output(),
        b"/0              0           0     0     0       0         `\n"
    );
}

#[test]
fn size_check_and_padding_for_streamed_payloads() {
    assert_eq!(ar::builder::check_size(7, 7), Ok(()));
    assert_eq!(
        ar::builder::check_size(7, 8),
        Err(ArError::SizeMismatch { declared: 7, actual: 8 })
    );
    let mut out = Vec::new();
    ar::builder::push_parity_pad(&mut out, 7);
    assert_eq!(out, b"\n");
    ar::builder::push_parity_pad(&mut out, 8);
    assert_eq!(out, b"\n");
    let mut out = Vec::new();
    ar::builder::push_global_header(&mut out);
    assert_eq!(out, b"!<arch>\n");
    assert!(ar::scanner::is_global_header(&out));
    assert!(!ar::scanner::is_global_header(b"!<arch>"));
    assert!(!ar::scanner::is_global_header(b"!<arch>\n\n"));
    assert_eq!(ar::scanner::check_padding(b'\n'), Ok(()));
    assert_eq!(ar::scanner::check_padding(0), Err(ArError::BadPadding { found: 0 }));
    assert!(ar::scanner::padding_due(7, 0));
    assert!(!ar::scanner::padding_due(7, 1));
    assert!(ar::scanner::padding_due(u64::MAX, u64::MAX - 1));
    assert_eq!(ar::entry::after_read(10, 4, 6, 6), Ok(10));
    assert_eq!(ar::entry::after_read(10, 4, 6, 2), Ok(6));
    assert_eq!(ar::entry::after_read(10, 10, 0, 0), Ok(10));
    assert_eq!(ar::entry::after_read(10, 4, 0, 0), Ok(4));
    assert_eq!(
        ar::entry::after_read(10, 4, 6, 0),
        Err(ArError::Truncated { needed: 6, available: 0 })
    );
    assert_eq!(
        ar::entry::after_read(10, 4, 1, 0),
        Err(ArError::Truncated { needed: 6, available: 0 })
    );
    assert_eq!(
        ar::entry::after_read(10, 4, 6, 7),
        Err(ArError::Overrun { asked: 6, given: 7 })
    );
    assert_eq!(
        ar::entry::after_read(10, 4, 3, 4),
        Err(ArError::Overrun { asked: 3, given: 4 })
    );
    assert_eq!(
        ar::entry::after_read(u64::MAX, u64::MAX, 1, 1),
        Err(ArError::Overrun { asked: 1, given: 1 })
    );
    assert_eq!(ArError::Overrun { asked: 1, given: 2 }.kind(), ar::ErrorKind::Integrity);
    assert_eq!(ArError::NameTableTooLarge { size: 1 }.kind(), ar::ErrorKind::Usage);
}

#[test]
fn byte_helpers() {
    let mut out = b"ab".to_vec();
    push_all(&mut out, b"cd");
    push_repeat(&mut out, b'-', 3);
    push_repeat(&mut out, b'!', 0);
    assert_eq!(out, b"abcd---");
    assert!(contains_byte(&out, b'-'));
    assert!(!contains_byte(&out, b'!'));
    assert!(same_bytes(b"abc", b"abc"));
    assert!(!same_bytes(b"abc", b"abd"));
    assert!(!same_bytes(b"abc", b"ab"));
    assert_eq!(copy_range(&out, 1, 3), b"bc");
    assert_eq!(copy_range(&out, 4, 4), b"");
    assert_eq!(trimmed_len(b"abc   ", b' '), 3);
    assert_eq!(trimmed_len(b"a c", b' '), 3);
    assert_eq!(trimmed_len(b"   ", b' '), 0);
    assert_eq!(trimmed_len(b"", b' '), 0);
}

#[test]
fn symbol_tables_in_both_layouts() {
    let gnu = [0u8, 0, 0, 1, 0x12, 0x34, 0x56, 0x78, b'f', b'n', 0];
    let symbols = Symbols::parse_gnu(&gnu).unwrap();
    assert_eq!(symbols.len(), 1);
    assert_eq!(symbols.get(0).unwrap().name(), b"fn");
    assert_eq!(symbols.get(0).unwrap().offset(), 0x12345678);
    assert_eq!(Symbols::parse_gnu(&gnu[..10]).unwrap_err(), ArError::BadSymbolTable);
    assert_eq!(Symbols::parse_gnu(&gnu[..6]).unwrap_err(), ArError::BadSymbolTable);
    assert_eq!(Symbols::parse_gnu(&gnu[..3]).unwrap_err(), ArError::BadSymbolTable);
    assert_eq!(Symbols::parse_gnu(&[0, 0, 0, 0]).unwrap().len(), 0);
    assert_eq!(
        Symbols::parse_gnu(&[0xff, 0xff, 0xff, 0xff]).unwrap_err(),
        ArError::BadSymbolTable
    );

    let bsd = [8u8, 0, 0, 0, 1, 0, 0, 0, 0x78, 0x56, 0x34, 0x12, 4, 0, 0, 0, b'x', b'f', b'n', 0];
    let symbols = Symbols::parse_bsd(&bsd).unwrap();
    assert_eq!(symbols.len(), 1);
    assert_eq!(symbols.get(0).unwrap().name(), b"fn");
    assert_eq!(symbols.get(0).unwrap().offset(), 0x12345678);
    assert_eq!(Symbols::parse_bsd(&bsd[..19]).unwrap_err(), ArError::BadSymbolTable);
    assert_eq!(Symbols::parse_bsd(&bsd[..12]).unwrap_err(), ArError::BadSymbolTable);
    let mut beyond = bsd;
    beyond[4] = 5;
    assert_eq!(Symbols::parse_bsd(&beyond).unwrap_err(), ArError::BadSymbolTable);
    let mut at_end = bsd;
    at_end[4] = 4;
    assert_eq!(Symbols::parse_bsd(&at_end).unwrap().get(0).unwrap().name(), b"");

    assert_eq!(Symbols::parse(&gnu, Variant::GNU).unwrap().len(), 1);
    assert_eq!(Symbols::parse(&bsd, Variant::BSD).unwrap().len(), 1);
    assert_eq!(Symbols::parse(&bsd, Variant::Common).unwrap().len(), 0);
    assert_eq!(Symbols::empty().len(), 0);
}

#[test]
fn members_can_be_closed_apart_from_payloads() {
    let mut builder = Builder::new(Vec::new());
    let odd = Header::new(b"odd".to_vec(), 7);
    builder.write_header(&odd).unwrap();
    builder.take_output();
    assert_eq!(builder.finish_member(&odd, 7), Ok(()));
    assert_eq!(builder.take_output(), b"\n");
    assert_eq!(
        builder.finish_member(&odd, 6),
        Err(ArError::SizeMismatch { declared: 7, actual: 6 })
    );
    assert_eq!(builder.take_output(), b"");
    let even = Header::new(b"even".to_vec(), 4);
    assert_eq!(builder.finish_member(&even, 4), Ok(()));
    assert_eq!(builder.take_output(), b"");

    let mut builder = GnuBuilder::new(Vec::new(), vec![b"odd".to_vec()]);
    assert_eq!(builder.finish_member(&odd, 7), Ok(()));
    assert_eq!(builder.take_output(), b"\n");
    assert_eq!(
        builder.finish_member(&odd, 8),
        Err(ArError::SizeMismatch { declared: 7, actual: 8 })
    );
    assert_eq!(builder.take_output(), b"");
}
