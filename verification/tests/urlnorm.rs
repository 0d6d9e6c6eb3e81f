use chunkstore::errors::Error;
use chunkstore::urlnorm::normalize_url;

#[test]
fn template_placeholder_and_query_are_stripped() {
    let raw = "https://uploads.example.com/repos/o/r/releases/1/assets{?name,label}";
    let clean = normalize_url(raw).unwrap();
    assert_eq!(clean, "https://uploads.example.com/repos/o/r/releases/1/assets");
}

#[test]
fn query_string_is_cleared() {
    let clean = normalize_url("https://example.com/a/b?x=1&y=2").unwrap();
    assert_eq!(clean, "https://example.com/a/b");
}

#[test]
fn plain_url_passes_through() {
    let clean = normalize_url("https://example.com/dl/abc-chunk0").unwrap();
    assert_eq!(clean, "https://example.com/dl/abc-chunk0");
}

#[test]
fn path_final_marker_is_stripped_even_with_a_fragment() {
    let clean = normalize_url("https://example.com/assets%7B#part").unwrap();
    assert_eq!(clean, "https://example.com/assets#part");
}

#[test]
fn fragment_final_marker_is_kept() {
    let clean = normalize_url("https://example.com/assets#part%7B").unwrap();
    assert_eq!(clean, "https://example.com/assets#part%7B");
}

#[test]
fn unparseable_input_is_a_malformed_url() {
    assert!(matches!(normalize_url("not a url"), Err(Error::MalformedUrl)));
    assert!(matches!(normalize_url(""), Err(Error::MalformedUrl)));
}
