use mime_guess::builder::{build_packed_data, invert, pack, BuildError};
use mime_guess::lut::get_mimes;

fn dict(pairs: &[(&str, &[&str])]) -> Vec<(Vec<u8>, Vec<Vec<u8>>)> {
    pairs
        .iter()
        .map(|(m, exts)| {
            (
                m.as_bytes().to_vec(),
                exts.iter().map(|e| e.as_bytes().to_vec()).collect(),
            )
        })
        .collect()
}

#[test]
fn test_round_trip_scenario() {
    // {"image/gif": ["gif"], "text/plain": ["txt", "text"]}
    let data = build_packed_data(&dict(&[
        ("image/gif", &["gif"]),
        ("text/plain", &["txt", "text"]),
    ]))
    .unwrap();

    let gif = get_mimes(&data, b"gif").unwrap();
    assert_eq!(gif.len(), 1);
    assert_eq!(gif.get(0), Some(&b"image/gif"[..]));

    let txt = get_mimes(&data, b"TXT").unwrap();
    assert_eq!(txt.len(), 1);
    assert_eq!(txt.get(0), Some(&b"text/plain"[..]));

    let text = get_mimes(&data, b"text").unwrap();
    assert_eq!(text.len(), 1);
    assert_eq!(text.get(0), Some(&b"text/plain"[..]));

    assert!(get_mimes(&data, b"png").is_none());
}

#[test]
fn test_shared_extension_order() {
    // {"application/xml": ["xml"], "text/xml": ["xml"]}: first-seen
    // media-type order is preserved.
    let data = build_packed_data(&dict(&[
        ("application/xml", &["xml"]),
        ("text/xml", &["xml"]),
    ]))
    .unwrap();

    let xml = get_mimes(&data, b"xml").unwrap();
    assert_eq!(xml.len(), 2);
    assert_eq!(xml.get(0), Some(&b"application/xml"[..]));
    assert_eq!(xml.get(1), Some(&b"text/xml"[..]));
}

#[test]
fn test_dedup_case_variants() {
    // The same extension under two spellings is stored once, and its
    // media-type list concatenates both origins in dictionary order.
    let d = dict(&[("application/xml", &["XML"]), ("text/xml", &["xml"])]);
    let entries = invert(&d);
    assert_eq!(entries.len(), 1);
    assert_eq!(&entries[0].ext[..], b"xml");
    assert_eq!(entries[0].mimes.len(), 2);
    assert_eq!(&entries[0].mimes[0][..], b"application/xml");
    assert_eq!(&entries[0].mimes[1][..], b"text/xml");

    let data = build_packed_data(&d).unwrap();
    assert_eq!(data.extension_offsets.len(), 2);
    let m = get_mimes(&data, b"Xml").unwrap();
    assert_eq!(m.len(), 2);
    assert_eq!(m.get(0), Some(&b"application/xml"[..]));
    assert_eq!(m.get(1), Some(&b"text/xml"[..]));
}

#[test]
fn test_invert_sorts_extensions() {
    let entries = invert(&dict(&[("text/plain", &["txt", "conf", "text"])]));
    let exts: Vec<&[u8]> = entries.iter().map(|e| &e.ext[..]).collect();
    assert_eq!(exts, vec![&b"conf"[..], b"text", b"txt"]);
}

#[test]
fn test_empty_dataset_error() {
    assert!(matches!(
        build_packed_data(&dict(&[])),
        Err(BuildError::EmptyDataset)
    ));
    assert!(matches!(
        build_packed_data(&dict(&[("image/gif", &[])])),
        Err(BuildError::EmptyDataset)
    ));
}

#[test]
fn test_empty_extension_error() {
    assert!(matches!(
        build_packed_data(&dict(&[("image/gif", &[""])])),
        Err(BuildError::EmptyExtension)
    ));
}

#[test]
fn test_non_ascii_extension_error() {
    assert!(matches!(
        build_packed_data(&dict(&[("image/gif", &["\u{e9}x"])])),
        Err(BuildError::NonAsciiExtension)
    ));
}

#[test]
fn test_bucket_order_error() {
    // Folded "^x" sorts before "ax", but its uppercase-folded bucket
    // (94) lies after the bucket of "ax" (65).
    assert!(matches!(
        build_packed_data(&dict(&[("a/b", &["^x"]), ("c/d", &["ax"])])),
        Err(BuildError::BucketOrder)
    ));
}

#[test]
fn test_overflow_error() {
    let long_ext = "x".repeat(70_000);
    assert!(matches!(
        build_packed_data(&dict(&[("a/b", &[long_ext.as_str()])])),
        Err(BuildError::Overflow)
    ));

    let long_mime = "y".repeat(70_000);
    assert!(matches!(
        build_packed_data(&dict(&[(long_mime.as_str(), &["gz"])])),
        Err(BuildError::Overflow)
    ));
}

#[test]
fn test_pack_direct() {
    let entries = invert(&dict(&[("image/gif", &["gif"])]));
    let data = pack(&entries).unwrap();
    assert_eq!(data.lut_offset, b'G');
    assert_eq!(&data.packed_extensions[..], b"gif");
    assert_eq!(&data.packed_mimes[..], b"image/gif");
    assert_eq!(data.extension_lut, vec![0, 1]);
    assert_eq!(data.extension_offsets, vec![0, 3]);
    assert_eq!(data.extension_mimes_offsets, vec![0, 1]);
    assert_eq!(data.extension_mimes, vec![0]);
    assert_eq!(data.mime_offsets, vec![0, 9]);
}

#[test]
fn test_repeated_extension_in_one_record() {
    // A record that lists the same extension twice contributes its
    // media type twice, in encounter order.
    let data = build_packed_data(&dict(&[("a/b", &["gz", "gz"])])).unwrap();
    let m = get_mimes(&data, b"gz").unwrap();
    assert_eq!(m.len(), 2);
    assert_eq!(m.get(0), Some(&b"a/b"[..]));
    assert_eq!(m.get(1), Some(&b"a/b"[..]));
}
