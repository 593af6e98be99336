use ar::{ArError, Builder, Column, ErrorKind, GnuBuilder, Header};
use std::str;

#[test]
fn build_common_archive() {
    let mut builder = Builder::new(Vec::new());
    let mut header1 = Header::new(b"foo.txt".to_vec(), 7);
    header1.set_mtime(1487552916);
    header1.set_uid(501);
    header1.set_gid(20);
    header1.set_mode(0o100644);
    builder.append(&header1, "foobar\n".as_bytes()).unwrap();
    let header2 = Header::new(b"baz.txt".to_vec(), 4);
    builder.append(&header2, "baz\n".as_bytes()).unwrap();
    let actual = builder.into_inner().unwrap();
    let expected = "\
    !<arch>\n\
    foo.txt         1487552916  501   20    100644  7         `\n\
    foobar\n\n\
    baz.txt         0           0     0     0       4         `\n\
    baz\n";
    assert_eq!(str::from_utf8(&actual).unwrap(), expected);
}

#[test]
fn build_bsd_archive_with_long_filenames() {
    let mut builder = Builder::new(Vec::new());
    let mut header1 = Header::new(b"short".to_vec(), 1);
    header1.set_identifier(b"this_is_a_very_long_filename.txt".to_vec());
    header1.set_mtime(1487552916);
    header1.set_uid(501);
    header1.set_gid(20);
    header1.set_mode(0o100644);
    header1.set_size(7);
    builder.append(&header1, "foobar\n".as_bytes()).unwrap();
    let header2 = Header::new(
        b"and_this_is_another_very_long_filename.txt".to_vec(),
        4,
    );
    builder.append(&header2, "baz\n".as_bytes()).unwrap();
    let actual = builder.into_inner().unwrap();
    let expected = "\
    !<arch>\n\
    #1/32           1487552916  501   20    100644  39        `\n\
    this_is_a_very_long_filename.txtfoobar\n\n\
    #1/44           0           0     0     0       48        `\n\
    and_this_is_another_very_long_filename.txt\x00\x00baz\n";
    assert_eq!(str::from_utf8(&actual).unwrap(), expected);
}

#[test]
fn build_bsd_archive_with_space_in_filename() {
    let mut builder = Builder::new(Vec::new());
    let header = Header::new(b"foo bar".to_vec(), 4);
    builder.append(&header, "baz\n".as_bytes()).unwrap();
    let actual = builder.into_inner().unwrap();
    let expected = "\
    !<arch>\n\
    #1/8            0           0     0     0       12        `\n\
    foo bar\x00baz\n";
    assert_eq!(str::from_utf8(&actual).unwrap(), expected);
}

#[test]
fn build_gnu_archive() {
    let names = vec![b"baz.txt".to_vec(), b"foo.txt".to_vec()];
    let mut builder = GnuBuilder::new(Vec::new(), names);
    let mut header1 = Header::new(b"foo.txt".to_vec(), 7);
    header1.set_mtime(1487552916);
    header1.set_uid(501);
    header1.set_gid(20);
    header1.set_mode(0o100644);
    builder.append(&header1, "foobar\n".as_bytes()).unwrap();
    let header2 = Header::new(b"baz.txt".to_vec(), 4);
    builder.append(&header2, "baz\n".as_bytes()).unwrap();
    let actual = builder.into_inner().unwrap();
    let expected = "\
    !<arch>\n\
    foo.txt/        1487552916  501   20    100644  7         `\n\
    foobar\n\n\
    baz.txt/        0           0     0     0       4         `\n\
    baz\n";
    assert_eq!(str::from_utf8(&actual).unwrap(), expected);
}

#[test]
fn build_gnu_archive_with_long_filenames() {
    let names = vec![
        b"this_is_a_very_long_filename.txt".to_vec(),
        b"and_this_is_another_very_long_filename.txt".to_vec(),
    ];
    let mut builder = GnuBuilder::new(Vec::new(), names);
    let mut header1 = Header::new(b"short".to_vec(), 1);
    header1.set_identifier(b"this_is_a_very_long_filename.txt".to_vec());
    header1.set_mtime(1487552916);
    header1.set_uid(501);
    header1.set_gid(20);
    header1.set_mode(0o100644);
    header1.set_size(7);
    builder.append(&header1, "foobar\n".as_bytes()).unwrap();
    let header2 = Header::new(
        b"and_this_is_another_very_long_filename.txt".to_vec(),
        4,
    );
    builder.append(&header2, "baz\n".as_bytes()).unwrap();
    let actual = builder.into_inner().unwrap();
    let expected = "\
    !<arch>\n\
    //                                              78        `\n\
    this_is_a_very_long_filename.txt/\n\
    and_this_is_another_very_long_filename.txt/\n\
    /0              1487552916  501   20    100644  7         `\n\
    foobar\n\n\
    /34             0           0     0     0       4         `\n\
    baz\n";
    assert_eq!(str::from_utf8(&actual).unwrap(), expected);
}

#[test]
fn build_gnu_archive_with_space_in_filename() {
    let names = vec![b"foo bar".to_vec()];
    let mut builder = GnuBuilder::new(Vec::new(), names);
    let header = Header::new(b"foo bar".to_vec(), 4);
    builder.append(&header, "baz\n".as_bytes()).unwrap();
    let actual = builder.into_inner().unwrap();
    let expected = "\
    !<arch>\n\
    foo bar/        0           0     0     0       4         `\n\
    baz\n";
    assert_eq!(str::from_utf8(&actual).unwrap(), expected);
}

#[test]
fn gnu_builder_refuses_unknown_identifier() {
    let names = vec![b"foo".to_vec()];
    let mut builder = GnuBuilder::new(Vec::new(), names);
    let header = Header::new(b"bar".to_vec(), 4);
    let result = builder.append(&header, "baz\n".as_bytes());
    assert_eq!(result, Err(ArError::UnknownIdentifier));
    assert_eq!(result.unwrap_err().kind(), ErrorKind::Usage);
    assert_eq!(builder.into_inner().unwrap(), Vec::<u8>::new());
}

#[test]
fn builder_reports_size_mismatch_after_writing() {
    let mut builder = Builder::new(Vec::new());
    let header = Header::new(b"a.txt".to_vec(), 5);
    let result = builder.append(&header, "abc".as_bytes());
    assert_eq!(result, Err(ArError::SizeMismatch { declared: 5, actual: 3 }));
    assert_eq!(result.unwrap_err().kind(), ErrorKind::Integrity);
    let actual = builder.into_inner().unwrap();
    let expected = "\
    !<arch>\n\
    a.txt           0           0     0     0       5         `\n\
    abc";
    assert_eq!(str::from_utf8(&actual).unwrap(), expected);
}

#[test]
fn builder_pads_odd_payloads_only() {
    let mut builder = Builder::new(Vec::new());
    builder.append(&Header::new(b"odd".to_vec(), 7), b"1234567").unwrap();
    let after_odd = builder.into_inner().unwrap();
    assert_eq!(after_odd.len(), 8 + 60 + 7 + 1);
    assert_eq!(after_odd[after_odd.len() - 1], b'\n');

    let mut builder = Builder::new(Vec::new());
    builder.append(&Header::new(b"even".to_vec(), 4), b"1234").unwrap();
    let after_even = builder.into_inner().unwrap();
    assert_eq!(after_even.len(), 8 + 60 + 4);
    assert_eq!(after_even[after_even.len() - 1], b'4');
}

#[test]
fn builder_keeps_what_the_sink_held() {
    let mut builder = Builder::new(b"xy".to_vec());
    builder.append(&Header::new(b"a".to_vec(), 0), b"").unwrap();
    let actual = builder.into_inner().unwrap();
    assert_eq!(&actual[..10], b"xy!<arch>\n");
    assert_eq!(actual.len(), 2 + 8 + 60);
}

#[test]
fn gnu_builder_pads_an_odd_name_table() {
    let long = b"seventeen_bytes_x".to_vec();
    let mut builder = GnuBuilder::new(Vec::new(), vec![long.clone(), b"tiny".to_vec()]);
    builder.append(&Header::new(long, 0), b"").unwrap();
    builder.append(&Header::new(b"tiny".to_vec(), 1), b"z").unwrap();
    let actual = builder.into_inner().unwrap();
    let expected = "\
    !<arch>\n\
    //                                              19        `\n\
    seventeen_bytes_x/\n\n\
    /0              0           0     0     0       0         `\n\
    tiny/           0           0     0     0       1         `\n\
    z\n";
    assert_eq!(str::from_utf8(&actual).unwrap(), expected);
}

#[test]
fn gnu_builder_uses_the_first_of_repeated_names() {
    let a = b"a_name_of_twenty_byt".to_vec();
    let b = b"b_name_of_twenty_byt".to_vec();
    let mut builder = GnuBuilder::new(Vec::new(), vec![a.clone(), b.clone(), a.clone()]);
    builder.append(&Header::new(b, 0), b"").unwrap();
    builder.append(&Header::new(a, 0), b"").unwrap();
    let actual = builder.into_inner().unwrap();
    let expected = "\
    !<arch>\n\
    //                                              66        `\n\
    a_name_of_twenty_byt/\n\
    b_name_of_twenty_byt/\n\
    a_name_of_twenty_byt/\n\
    /22             0           0     0     0       0         `\n\
    /0              0           0     0     0       0         `\n";
    assert_eq!(str::from_utf8(&actual).unwrap(), expected);
}

#[test]
fn numbers_too_wide_for_their_column_are_refused() {
    let wide: Vec<(Header, Column)> = vec![
        (Header::with_fields(b"a".to_vec(), 1_000_000_000_000, 0, 0, 0, 0), Column::Mtime),
        (Header::with_fields(b"a".to_vec(), 0, 1_000_000, 0, 0, 0), Column::Uid),
        (Header::with_fields(b"a".to_vec(), 0, 0, 1_000_000, 0, 0), Column::Gid),
        (Header::with_fields(b"a".to_vec(), 0, 0, 0, 0o100_000_000, 0), Column::Mode),
        (Header::with_fields(b"a".to_vec(), 0, 0, 0, 0, 10_000_000_000), Column::Size),
        (Header::with_fields(b"a b".to_vec(), 0, 0, 0, 0, 9_999_999_996), Column::Size),
        (Header::with_fields(b"a".to_vec(), u64::MAX, 7_000_000, 0, 0, 0), Column::Mtime),
    ];
    for (header, column) in wide {
        let mut builder = Builder::new(Vec::new());
        let result = builder.append(&header, b"");
        assert_eq!(result, Err(ArError::TooWide { column }));
        assert_eq!(result.unwrap_err().kind(), ErrorKind::Usage);
        assert_eq!(builder.write_header(&header), Err(ArError::TooWide { column }));
        assert_eq!(builder.into_inner().unwrap(), Vec::<u8>::new());

        if header.gnu_overflow(0) == Some(column) {
            let mut builder = GnuBuilder::new(Vec::new(), vec![header.identifier().to_vec()]);
            assert_eq!(builder.append(&header, b""), Err(ArError::TooWide { column }));
            assert_eq!(builder.write_header(&header), Err(ArError::TooWide { column }));
            assert_eq!(builder.into_inner().unwrap(), Vec::<u8>::new());
        } else {
            assert_eq!(header.identifier(), b"a b");
            assert_eq!(header.gnu_overflow(0), None);
        }

        let mut out = b"kept".to_vec();
        assert_eq!(header.write(&mut out), Err(ArError::TooWide { column }));
        assert_eq!(header.overflow(), Some(column));
        assert_eq!(out, b"kept");
    }
}

#[test]
fn the_widest_numbers_that_fit_make_a_record_of_sixty_bytes() {
    let header =
        Header::with_fields(b"a".to_vec(), 999_999_999_999, 999_999, 999_999, 0o77_777_777, 0);
    assert_eq!(header.overflow(), None);
    let mut builder = Builder::new(Vec::new());
    builder.append(&header, b"").unwrap();
    let actual = builder.into_inner().unwrap();
    let expected = format!(
        "!<arch>\na{}{}{}{}{}0{}`\n",
        " ".repeat(15),
        "9".repeat(12),
        "9".repeat(6),
        "9".repeat(6),
        "7".repeat(8),
        " ".repeat(9)
    );
    assert_eq!(str::from_utf8(&actual).unwrap(), expected);
    assert_eq!(actual.len(), 68);

    let mut header = Header::new(b"a b".to_vec(), 9_999_999_995);
    assert_eq!(header.overflow(), None);
    let mut out = Vec::new();
    header.write(&mut out).unwrap();
    assert_eq!(out.len(), 64);
    assert_eq!(&out[48..58], b"9999999999");
    header.set_size(9_999_999_999);
    assert_eq!(header.gnu_overflow(0), None);
    let mut out = Vec::new();
    header.write_gnu(&mut out, 0).unwrap();
    assert_eq!(out.len(), 60);
}

#[test]
fn gnu_offsets_of_up_to_fifteen_digits_fit() {
    let long = Header::new(b"a_name_of_twenty_byt".to_vec(), 0);
    let short = Header::new(b"short".to_vec(), 0);
    assert_eq!(long.gnu_overflow(999_999_999_999_999), None);
    assert_eq!(long.gnu_overflow(1_000_000_000_000_000), Some(Column::NameOffset));
    assert_eq!(short.gnu_overflow(u64::MAX), None);
    let mut out = Vec::new();
    assert_eq!(
        long.write_gnu(&mut out, 1_000_000_000_000_000),
        Err(ArError::TooWide { column: Column::NameOffset })
    );
    assert!(out.is_empty());
    long.write_gnu(&mut out, 999_999_999_999_999).unwrap();
    let expected = format!("/{}0           0     0     0       0         `\n", "9".repeat(15));
    assert_eq!(out, expected.as_bytes());
}

#[test]
fn every_successful_append_keeps_the_sink_even() {
    let names: Vec<&[u8]> = vec![b"a", b"a b", b"seventeen_bytes_x", b"exactly_16_bytes", b""];
    let mut builder = Builder::new(Vec::new());
    let mut gnu = GnuBuilder::new(Vec::new(), names.iter().map(|n| n.to_vec()).collect());
    for (i, name) in names.iter().enumerate() {
        let payload = vec![b'x'; i];
        let mut header = Header::new(name.to_vec(), i as u64);
        header.set_uid(999_999);
        builder.append(&header, &payload).unwrap();
        gnu.append(&header, &payload).unwrap();
    }
    assert_eq!(builder.into_inner().unwrap().len() % 2, 0);
    assert_eq!(gnu.into_inner().unwrap().len() % 2, 0);
}
