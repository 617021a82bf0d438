//! The canonical header: PAX-aware path and link name, the regular-file
//! clone, decoding of raw PAX records, and the hard-link header.

use oci2squashfs::canonical::{CanonicalError, CanonicalTarHeader};

fn header_with(ty: tar::EntryType, path: &str, link: Option<&str>) -> [u8; 512] {
    let mut hdr = tar::Header::new_ustar();
    hdr.set_entry_type(ty);
    hdr.set_size(0);
    hdr.set_mode(0o644);
    hdr.set_mtime(0);
    hdr.set_uid(0);
    hdr.set_gid(0);
    hdr.set_path(path).unwrap();
    if let Some(l) = link {
        hdr.set_link_name(l).unwrap();
    }
    hdr.set_cksum();
    *hdr.as_bytes()
}

fn pax(pairs: &[(&str, &str)]) -> Vec<(String, String)> {
    pairs.iter().map(|(k, v)| (k.to_string(), v.to_string())).collect()
}

#[test]
fn path_prefers_pax_extension() {
    let c = CanonicalTarHeader {
        header: header_with(tar::EntryType::Regular, "short", None),
        pax_extensions: pax(&[("mtime", "1"), ("path", "a/very/long/name"), ("path", "second")]),
    };
    assert_eq!(c.path(), b"a/very/long/name".to_vec());
}

#[test]
fn path_falls_back_to_header() {
    let c = CanonicalTarHeader {
        header: header_with(tar::EntryType::Regular, "usr/bin/tool", None),
        pax_extensions: pax(&[("linkpath", "x")]),
    };
    assert_eq!(c.path(), b"usr/bin/tool".to_vec());
}

#[test]
fn link_name_prefers_pax_extension() {
    let c = CanonicalTarHeader {
        header: header_with(tar::EntryType::Link, "l", Some("header-target")),
        pax_extensions: pax(&[("linkpath", "pax-target")]),
    };
    assert_eq!(c.link_name(), Some(b"pax-target".to_vec()));
}

#[test]
fn link_name_falls_back_to_header() {
    let c = CanonicalTarHeader {
        header: header_with(tar::EntryType::Link, "l", Some("header-target")),
        pax_extensions: vec![],
    };
    assert_eq!(c.link_name(), Some(b"header-target".to_vec()));
    let plain = CanonicalTarHeader {
        header: header_with(tar::EntryType::Regular, "f", None),
        pax_extensions: vec![],
    };
    assert_eq!(plain.link_name(), None);
}

#[test]
fn entry_type_reads_type_flag() {
    let dir = CanonicalTarHeader {
        header: header_with(tar::EntryType::Directory, "d", None),
        pax_extensions: vec![],
    };
    assert_eq!(dir.entry_type(), b'5');
    let mut raw = header_with(tar::EntryType::Regular, "f", None);
    raw[156] = 0;
    let old = CanonicalTarHeader { header: raw, pax_extensions: vec![] };
    assert_eq!(old.entry_type(), b'0');
}

#[test]
fn clone_as_regular_strips_path_linkpath_and_sparse() {
    let c = CanonicalTarHeader {
        header: header_with(tar::EntryType::Link, "l", Some("t")),
        pax_extensions: pax(&[
            ("path", "x"),
            ("mtime", "1"),
            ("GNU.sparse.size", "9"),
            ("linkpath", "y"),
            ("GNU.sparsefile", "z"),
        ]),
    };
    let r = c.clone_as_regular();
    assert_eq!(r.pax_extensions, pax(&[("mtime", "1"), ("GNU.sparsefile", "z")]));
    assert_eq!(r.entry_type(), b'0');
    assert_eq!(r.header[156], b'0');
    // Everything but the type flag is kept.
    for i in 0..512 {
        if i != 156 {
            assert_eq!(r.header[i], c.header[i]);
        }
    }
    // With the path extension gone, the header's own path is used.
    assert_eq!(r.path(), b"l".to_vec());
}

#[test]
fn clone_is_equal() {
    let c = CanonicalTarHeader {
        header: header_with(tar::EntryType::Regular, "f", None),
        pax_extensions: pax(&[("a", "b")]),
    };
    let d = c.clone();
    assert_eq!(d.header, c.header);
    assert_eq!(d.pax_extensions, c.pax_extensions);
}

#[test]
fn from_raw_parts_without_extensions() {
    let raw = header_with(tar::EntryType::Regular, "f", None);
    let c = CanonicalTarHeader::from_raw_parts(raw, None).unwrap();
    assert_eq!(c.header, raw);
    assert!(c.pax_extensions.is_empty());
}

#[test]
fn from_raw_parts_decodes_records_in_order() {
    let raw = header_with(tar::EntryType::Regular, "f", None);
    let records = vec![
        Some((b"path".to_vec(), b"long/path".to_vec())),
        Some((b"mtime".to_vec(), b"12".to_vec())),
    ];
    let c = CanonicalTarHeader::from_raw_parts(raw, Some(records)).unwrap();
    assert_eq!(c.pax_extensions, pax(&[("path", "long/path"), ("mtime", "12")]));
    assert_eq!(c.path(), b"long/path".to_vec());
}

#[test]
fn from_raw_parts_reports_each_error() {
    let raw = header_with(tar::EntryType::Regular, "f", None);
    let bad_key = vec![Some((vec![0xff], b"v".to_vec()))];
    assert!(matches!(
        CanonicalTarHeader::from_raw_parts(raw, Some(bad_key)),
        Err(CanonicalError::InvalidPaxKey)
    ));
    let bad_value = vec![Some((b"k".to_vec(), vec![0xc3]))];
    assert!(matches!(
        CanonicalTarHeader::from_raw_parts(raw, Some(bad_value)),
        Err(CanonicalError::InvalidPaxValue)
    ));
    let malformed = vec![Some((b"k".to_vec(), b"v".to_vec())), None, Some((vec![0xff], vec![]))];
    assert!(matches!(
        CanonicalTarHeader::from_raw_parts(raw, Some(malformed)),
        Err(CanonicalError::InvalidPaxExtension)
    ));
}

#[test]
fn hardlink_header_short_paths() {
    let mut raw = tar::Header::from_byte_slice(&header_with(tar::EntryType::Regular, "orig", None)).clone();
    raw.set_size(1234);
    raw.set_cksum();
    let c = CanonicalTarHeader { header: *raw.as_bytes(), pax_extensions: vec![] };
    let h = c.hardlink_header(b"link.txt", b"target.txt");
    assert!(h.pax_extensions.is_empty());
    let hdr = tar::Header::from_byte_slice(&h.header);
    assert_eq!(hdr.entry_type(), tar::EntryType::Link);
    assert_eq!(hdr.size().unwrap(), 0);
    assert_eq!(&h.header[124..136], b"00000000000\0");
    assert_eq!(&h.header[0..8], b"link.txt");
    assert!(h.header[8..100].iter().all(|b| *b == 0));
    assert_eq!(hdr.link_name_bytes().unwrap().as_ref(), b"target.txt");
    assert_eq!(hdr.mode().unwrap(), 0o644);
    // The checksum matches the new contents.
    let sum: u32 = h.header[..148].iter().map(|b| *b as u32).sum::<u32>()
        + 8 * (b' ' as u32)
        + h.header[156..].iter().map(|b| *b as u32).sum::<u32>();
    assert_eq!(hdr.cksum().unwrap(), sum);
}

#[test]
fn hardlink_header_long_paths_use_pax() {
    let c = CanonicalTarHeader {
        header: header_with(tar::EntryType::Regular, "orig", None),
        pax_extensions: vec![],
    };
    let link = "l".repeat(150);
    let target = "t".repeat(101);
    let h = c.hardlink_header(link.as_bytes(), target.as_bytes());
    assert_eq!(h.pax_extensions.len(), 2);
    assert_eq!(h.pax_extensions[0].0, "path");
    assert_eq!(h.pax_extensions[0].1, link.as_bytes().to_vec());
    assert_eq!(h.pax_extensions[1].0, "linkpath");
    assert_eq!(h.pax_extensions[1].1, target.as_bytes().to_vec());
    // The name fields hold the paths cut to 99 bytes and a NUL.
    assert_eq!(&h.header[0..99], &link.as_bytes()[..99]);
    assert_eq!(h.header[99], 0);
    assert_eq!(&h.header[157..256], &target.as_bytes()[..99]);
    assert_eq!(h.header[256], 0);
}

#[test]
fn hardlink_header_exactly_100_bytes_goes_to_pax() {
    let c = CanonicalTarHeader {
        header: header_with(tar::EntryType::Regular, "orig", None),
        pax_extensions: vec![],
    };
    let link = "a".repeat(100);
    let target = "b".repeat(100);
    let h = c.hardlink_header(link.as_bytes(), target.as_bytes());
    // A 100-byte path does not fit the name field with its NUL.
    assert_eq!(h.pax_extensions.len(), 2);
    assert_eq!(h.pax_extensions[0], ("path".to_string(), link.as_bytes().to_vec()));
    assert_eq!(h.pax_extensions[1], ("linkpath".to_string(), target.as_bytes().to_vec()));
    assert_eq!(&h.header[0..99], &link.as_bytes()[..99]);
    assert_eq!(h.header[99], 0);
    // 99 bytes still fit.
    let short = "a".repeat(99);
    let h = c.hardlink_header(short.as_bytes(), b"t");
    assert!(h.pax_extensions.is_empty());
    assert_eq!(tar::Header::from_byte_slice(&h.header).path_bytes().as_ref(), short.as_bytes());
}

#[test]
fn hardlink_header_clears_ustar_prefix() {
    let mut raw = header_with(tar::EntryType::Regular, "file", None);
    raw[345..356].copy_from_slice(b"some/prefix");
    let c = CanonicalTarHeader { header: raw, pax_extensions: vec![] };
    assert_eq!(c.path(), b"some/prefix/file".to_vec());
    let h = c.hardlink_header(b"link", b"target");
    assert!(h.header[345..500].iter().all(|b| *b == 0));
    let hdr = tar::Header::from_byte_slice(&h.header);
    assert_eq!(hdr.path_bytes().as_ref(), b"link");
    // The magic and the other metadata stay.
    assert_eq!(&h.header[257..265], &raw[257..265]);
    assert_eq!(&h.header[100..124], &raw[100..124]);
}

#[test]
fn hardlink_header_keeps_gnu_fields_past_link_name() {
    let mut gnu = tar::Header::new_gnu();
    gnu.set_entry_type(tar::EntryType::Regular);
    gnu.set_path("orig").unwrap();
    gnu.set_size(0);
    gnu.set_cksum();
    let mut raw = *gnu.as_bytes();
    // Bytes that a GNU header uses for other fields are not a prefix.
    raw[345] = b'1';
    let c = CanonicalTarHeader { header: raw, pax_extensions: vec![] };
    let h = c.hardlink_header(b"link", b"target");
    assert_eq!(&h.header[257..512], &raw[257..512]);
}

fn write_hardlink(c: &CanonicalTarHeader, link: &[u8], target: &[u8]) -> Vec<u8> {
    let h = c.hardlink_header(link, target);
    let mut builder = tar::Builder::new(Vec::new());
    if !h.pax_extensions.is_empty() {
        builder
            .append_pax_extensions(h.pax_extensions.iter().map(|(k, v)| (k.as_str(), v.as_slice())))
            .unwrap();
    }
    let header = tar::Header::from_byte_slice(&h.header).clone();
    builder.append(&header, &[] as &[u8]).unwrap();
    builder.into_inner().unwrap()
}

#[test]
fn hardlink_reads_back_through_tar() {
    let c = CanonicalTarHeader { header: *tar::Header::new_gnu().as_bytes(), pax_extensions: vec![] };
    let link = "l".repeat(150);
    let target = "t".repeat(150);
    let bytes = write_hardlink(&c, link.as_bytes(), target.as_bytes());
    let mut archive = tar::Archive::new(bytes.as_slice());
    assert_eq!(archive.entries().unwrap().count(), 1);
    let mut archive = tar::Archive::new(bytes.as_slice());
    let mut entries = archive.entries().unwrap();
    let e = entries.next().unwrap().unwrap();
    assert_eq!(e.header().entry_type(), tar::EntryType::Link);
    assert_eq!(e.path_bytes().as_ref(), link.as_bytes());
    assert_eq!(e.link_name_bytes().unwrap().as_ref(), target.as_bytes());
    assert_eq!(e.size(), 0);
}

#[test]
fn hardlink_reads_back_through_the_library() {
    let mut cases: Vec<(Vec<u8>, Vec<u8>)> = [(5, 7), (99, 99), (100, 100), (150, 101)]
        .iter()
        .map(|&(l, t)| ("l".repeat(l).into_bytes(), "t".repeat(t).into_bytes()))
        .collect();
    // Long paths travel whole in their PAX records, NUL bytes included.
    let mut long_link = vec![b'l'; 120];
    long_link[60] = 0;
    let mut long_target = vec![b't'; 130];
    long_target[0] = 0;
    cases.push((long_link, long_target));
    for (link, target) in cases {
        let mut raw = header_with(tar::EntryType::Regular, "orig", None);
        raw[345..350].copy_from_slice(b"stale");
        let c = CanonicalTarHeader { header: raw, pax_extensions: vec![] };
        let bytes = write_hardlink(&c, &link, &target);
        // Read raw, so that the PAX extension entry is seen on its own.
        let mut archive = tar::Archive::new(bytes.as_slice());
        let mut block: Option<Vec<u8>> = None;
        let mut read = Vec::new();
        for e in archive.entries().unwrap().raw(true) {
            let mut e = e.unwrap();
            let ty = e.header().entry_type();
            if ty.is_pax_local_extensions() {
                let mut data = Vec::new();
                std::io::Read::read_to_end(&mut e, &mut data).unwrap();
                block = Some(data);
            } else {
                let header = *e.header().as_bytes();
                read.push(CanonicalTarHeader::from_header_and_pax_block(header, block.take().as_deref()).unwrap());
            }
        }
        assert_eq!(read.len(), 1);
        assert_eq!(read[0].entry_type(), b'1');
        assert_eq!(read[0].path(), link);
        assert_eq!(read[0].link_name(), Some(target));
    }
}

#[test]
fn from_header_and_pax_block_parses_records() {
    let raw = header_with(tar::EntryType::Regular, "f", None);
    let block: &[u8] = b"16 path=foo/bar\n11 mtime=1\n";
    let c = CanonicalTarHeader::from_header_and_pax_block(raw, Some(block)).unwrap();
    assert_eq!(c.pax_extensions, pax(&[("path", "foo/bar"), ("mtime", "1")]));
    assert_eq!(c.path(), b"foo/bar".to_vec());
    let none = CanonicalTarHeader::from_header_and_pax_block(raw, None).unwrap();
    assert!(none.pax_extensions.is_empty());
    assert_eq!(none.path(), b"f".to_vec());
    // Records after an empty line are not read.
    let stop_block: &[u8] = b"11 mtime=1\n\n16 path=foo/bar\n";
    let stop = CanonicalTarHeader::from_header_and_pax_block(raw, Some(stop_block)).unwrap();
    assert_eq!(stop.pax_extensions, pax(&[("mtime", "1")]));
}

#[test]
fn from_header_and_pax_block_reports_errors() {
    let raw = header_with(tar::EntryType::Regular, "f", None);
    // The length does not match the record.
    let wrong_len: &[u8] = b"99 path=foo\n";
    assert!(matches!(
        CanonicalTarHeader::from_header_and_pax_block(raw, Some(wrong_len)),
        Err(CanonicalError::InvalidPaxExtension)
    ));
    // No `=` in the record.
    let no_equals: &[u8] = b"8 pathx\n";
    assert!(matches!(
        CanonicalTarHeader::from_header_and_pax_block(raw, Some(no_equals)),
        Err(CanonicalError::InvalidPaxExtension)
    ));
    let bad_value: &[u8] = b"7 k=\xc3\xc3\n";
    assert!(matches!(
        CanonicalTarHeader::from_header_and_pax_block(raw, Some(bad_value)),
        Err(CanonicalError::InvalidPaxValue)
    ));
    let bad_key: &[u8] = b"7 \xff=ab\n";
    assert!(matches!(
        CanonicalTarHeader::from_header_and_pax_block(raw, Some(bad_key)),
        Err(CanonicalError::InvalidPaxKey)
    ));
}

#[test]
fn hardlink_header_converts_non_utf8_lossily() {
    let c = CanonicalTarHeader {
        header: header_with(tar::EntryType::Regular, "orig", None),
        pax_extensions: vec![],
    };
    let h = c.hardlink_header(b"a\xffb", b"t");
    // U+FFFD in UTF-8 is EF BF BD.
    assert_eq!(&h.header[0..5], b"a\xef\xbf\xbdb");
}

#[test]
fn from_entry_records_match_the_block_parse() {
    // An extension entry read as a normal entry's predecessor and the same
    // block parsed by the library give the same extensions.
    let c = CanonicalTarHeader { header: header_with(tar::EntryType::Regular, "orig", None), pax_extensions: vec![] };
    let link = "x".repeat(140);
    let bytes = write_hardlink(&c, link.as_bytes(), b"t");
    let mut archive = tar::Archive::new(bytes.as_slice());
    let mut e = archive.entries().unwrap().next().unwrap().unwrap();
    let header = *e.header().as_bytes();
    let records: Vec<_> = e
        .pax_extensions()
        .unwrap()
        .unwrap()
        .map(|ext| ext.ok().map(|x| (x.key_bytes().to_vec(), x.value_bytes().to_vec())))
        .collect();
    let r = CanonicalTarHeader::from_raw_parts(header, Some(records)).unwrap();
    assert_eq!(r.path(), link.as_bytes().to_vec());
    assert_eq!(r.link_name(), Some(b"t".to_vec()));
}
