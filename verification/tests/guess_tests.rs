use mime_guess::builder::build_packed_data;
use mime_guess::lut::PackedData;
use mime_guess::{from_ext, from_path, get_mime_type_str, mime_str_for_path_ext, MimeGuess};

const MIME_TYPES: &[(&str, &[&str])] = &[
    ("gif", &["image/gif"]),
    ("text", &["text/plain"]),
    ("txt", &["text/plain"]),
    ("z1", &["application/x-zmachine"]),
];

fn sample_data() -> PackedData {
    let dict: Vec<(Vec<u8>, Vec<Vec<u8>>)> = MIME_TYPES
        .iter()
        .flat_map(|(ext, mimes)| {
            mimes
                .iter()
                .map(move |m| (m.as_bytes().to_vec(), vec![ext.as_bytes().to_vec()]))
        })
        .collect();
    build_packed_data(&dict).unwrap()
}

#[test]
fn test_mime_type_guessing() {
    let data = sample_data();
    assert_eq!(
        from_ext(&data, b"gif").first_as_str(),
        Some(&b"image/gif".to_vec())
    );
    assert_eq!(
        from_ext(&data, b"TXT").first_as_str(),
        Some(&b"text/plain".to_vec())
    );
    // An unknown extension gives the empty guess, which callers fall
    // back from (to application/octet-stream in the original setting).
    assert!(from_ext(&data, b"blahblah").is_empty());

    assert_eq!(
        from_path(&data, b"/path/to/file.gif").first_as_str(),
        Some(&b"image/gif".to_vec())
    );
}

#[test]
fn test_mime_type_guessing_opt() {
    let data = sample_data();
    assert_eq!(
        from_ext(&data, b"gif").first_as_str(),
        Some(&b"image/gif".to_vec())
    );
    assert_eq!(
        from_ext(&data, b"TXT").first_as_str(),
        Some(&b"text/plain".to_vec())
    );
    assert_eq!(from_ext(&data, b"blahblah").first_as_str(), None);

    assert_eq!(
        from_path(&data, b"/path/to/file.gif").first_as_str(),
        Some(&b"image/gif".to_vec())
    );
    assert_eq!(from_path(&data, b"/path/to/file").first_as_str(), None);
}

#[test]
fn test_are_mime_types_parseable() {
    for (_, mimes) in MIME_TYPES {
        mimes.iter().for_each(|s| {
            s.parse::<mime::Mime>()
                .unwrap_or_else(|e| panic!("failed to parse media-type {:?}: {}", s, e));
        });
    }
}

#[test]
fn test_are_extensions_ascii() {
    for (ext, _) in MIME_TYPES {
        assert!(ext.is_ascii(), "Extension not ASCII: {:?}", ext);
    }
}

#[test]
fn test_guess_accessors() {
    let data = sample_data();
    let g = from_ext(&data, b"txt");
    assert!(!g.is_empty());
    assert_eq!(g.count(), 1);
    let empty = from_ext(&data, b"");
    assert!(empty.is_empty());
    assert_eq!(empty.count(), 0);
    assert_eq!(empty.first_as_str(), None);
}

#[test]
fn test_iter_raw() {
    let dict: Vec<(Vec<u8>, Vec<Vec<u8>>)> = vec![
        (b"application/xml".to_vec(), vec![b"xml".to_vec()]),
        (b"text/xml".to_vec(), vec![b"xml".to_vec()]),
    ];
    let data = build_packed_data(&dict).unwrap();
    let g = MimeGuess::from_ext(&data, b"xml");
    let mut it = g.iter_raw();
    assert_eq!(it.len(), 2);
    assert_eq!(it.next(), Some(b"application/xml".to_vec()));
    assert_eq!(it.len(), 1);
    assert_eq!(it.next(), Some(b"text/xml".to_vec()));
    assert_eq!(it.next(), None);
    assert_eq!(it.len(), 0);

    let mut back = g.iter_raw();
    assert_eq!(back.next_back(), Some(b"text/xml".to_vec()));
    assert_eq!(back.len(), 1);
    assert_eq!(back.next(), Some(b"application/xml".to_vec()));
    assert_eq!(back.next_back(), None);
    assert_eq!(back.next(), None);
}

#[test]
fn test_path_extension_rules() {
    let data = sample_data();
    assert!(from_path(&data, b"/path/to/.gif").is_empty());
    assert!(from_path(&data, b"/path.gif/file").is_empty());
    assert!(from_path(&data, b"file.").is_empty());
    assert_eq!(
        from_path(&data, b"archive.tar.txt").first_as_str(),
        Some(&b"text/plain".to_vec())
    );
    assert_eq!(
        from_path(&data, b"dir/file.gif/").first_as_str(),
        Some(&b"image/gif".to_vec())
    );
    assert_eq!(
        from_path(&data, b"file.gif//").first_as_str(),
        Some(&b"image/gif".to_vec())
    );
}

#[test]
fn test_mime_str_for_path_ext() {
    let data = sample_data();
    assert_eq!(
        mime_str_for_path_ext(&data, b"/path/to/file.gif"),
        Some(b"image/gif".to_vec())
    );
    assert_eq!(mime_str_for_path_ext(&data, b"/path/to/file"), None);
}

#[test]
fn test_get_mime_type_str() {
    let data = sample_data();
    assert_eq!(
        get_mime_type_str(&data, b"txt"),
        Some(b"text/plain".to_vec())
    );
    assert_eq!(
        get_mime_type_str(&data, b"TXT"),
        Some(b"text/plain".to_vec())
    );
    assert_eq!(get_mime_type_str(&data, b""), None);
    assert_eq!(get_mime_type_str(&data, b"blahblah"), None);
}
