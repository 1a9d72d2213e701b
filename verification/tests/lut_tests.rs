use mime_guess::builder::build_packed_data;
use mime_guess::lut::{extension_lut_index, get_mimes, PackedData};

fn dict(pairs: &[(&str, &[&str])]) -> Vec<(Vec<u8>, Vec<Vec<u8>>)> {
    pairs
        .iter()
        .map(|(m, exts)| {
            (
                m.as_bytes().to_vec(),
                exts.iter().map(|e| e.as_bytes().to_vec()).collect(),
            )
        })
        .collect()
}

fn sample_data() -> PackedData {
    build_packed_data(&dict(&[
        ("application/x-zmachine", &["z1"]),
        ("image/gif", &["gif"]),
        ("text/plain", &["txt", "text"]),
    ]))
    .unwrap()
}

#[test]
fn test_specific_exts() {
    let data = sample_data();
    let exts = ["z1"];

    for ext in exts {
        let _resolved_mimes = get_mimes(&data, ext.as_bytes())
            .unwrap_or_else(|| panic!("no resolved mimes for {ext:?}"));
    }
}

#[test]
fn test_all_exts() {
    let data = sample_data();
    let ext_to_mime: &[(&str, &[&str])] = &[
        ("gif", &["image/gif"]),
        ("text", &["text/plain"]),
        ("txt", &["text/plain"]),
        ("z1", &["application/x-zmachine"]),
    ];

    for (ext, mimes) in ext_to_mime {
        let resolved_mimes = get_mimes(&data, ext.as_bytes())
            .unwrap_or_else(|| panic!("no resolved mimes for {ext:?}"));

        assert_eq!(resolved_mimes.len(), mimes.len());

        for (i, &mime) in mimes.iter().enumerate() {
            let resolved_mime = resolved_mimes.get(i);
            assert_eq!(
                resolved_mime,
                Some(mime.as_bytes()),
                "ext {ext:?} missing resolved mime at {i}"
            );
        }
    }
}

#[test]
fn test_are_extensions_sorted() {
    let data = sample_data();
    let stored: Vec<&[u8]> = (0..data.extension_offsets.len() - 1)
        .map(|i| {
            let s = data.extension_offsets[i] as usize;
            let e = data.extension_offsets[i + 1] as usize;
            &data.packed_extensions[s..e]
        })
        .collect();
    for (ext, n_ext) in stored.iter().zip(stored.iter().skip(1)) {
        assert!(
            ext <= n_ext,
            "stored extensions should be sorted lexicographically
                in ascending order. Failed assert: {:?} <= {:?}",
            ext,
            n_ext
        );
    }
}

#[test]
fn test_lookup_misses() {
    let data = sample_data();
    assert!(get_mimes(&data, b"").is_none());
    assert!(get_mimes(&data, "\u{2205}nonascii".as_bytes()).is_none());
    assert!(get_mimes(&data, b"zzzzznotreal").is_none());
}

#[test]
fn test_lookup_case_variants() {
    let data = sample_data();
    for q in ["gif", "GIF", "Gif", "gIf"] {
        let m = get_mimes(&data, q.as_bytes()).unwrap();
        assert_eq!(m.len(), 1);
        assert_eq!(m.get(0), Some(&b"image/gif"[..]));
    }
}

#[test]
fn test_bucket_table_complete() {
    // "amber" and "cyan" leave the bucket for 'b' empty; its range must
    // still be well-formed and scanning it must miss cleanly.
    let data = build_packed_data(&dict(&[
        ("application/x-amber", &["amber"]),
        ("text/x-cyan", &["cyan"]),
    ]))
    .unwrap();
    for i in 0..data.extension_lut.len() - 1 {
        assert!(data.extension_lut[i] <= data.extension_lut[i + 1]);
    }
    assert!(get_mimes(&data, b"brass").is_none());
    assert_eq!(get_mimes(&data, b"amber").unwrap().get(0), Some(&b"application/x-amber"[..]));
    assert_eq!(get_mimes(&data, b"cyan").unwrap().get(0), Some(&b"text/x-cyan"[..]));
}

#[test]
fn test_mimes_view_access() {
    let data = sample_data();
    let m = get_mimes(&data, b"txt").unwrap();
    assert!(!m.is_empty());
    assert_eq!(m.len(), 1);
    assert_eq!(m.get(0), Some(&b"text/plain"[..]));
    assert_eq!(m.get(1), None);
    assert_eq!(m.get(usize::MAX), None);
}

#[test]
fn test_extension_lut_index() {
    assert_eq!(extension_lut_index(0, b"gif"), Some(b'G'));
    assert_eq!(extension_lut_index(b'A', b"gif"), Some(6));
    assert_eq!(extension_lut_index(b'A', b"Gif"), Some(6));
    assert_eq!(extension_lut_index(0, b""), None);
    assert_eq!(extension_lut_index(0, "\u{2205}x".as_bytes()), None);
    assert_eq!(extension_lut_index(b'Z', b"gif"), None);
}

#[test]
fn test_shared_buffers_store_mime_once() {
    // Both extensions resolve to the same media type; its text is stored
    // once, so the two views index the same offsets.
    let data = build_packed_data(&dict(&[("text/plain", &["txt", "text"])])).unwrap();
    assert_eq!(data.mime_offsets.len(), 2);
    assert_eq!(&data.packed_mimes[..], b"text/plain");
}
