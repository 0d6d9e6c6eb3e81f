use chunkstore::errors::Error;
use chunkstore::store::{
    append_chunk_suffix, decode_download, dedup_locator, finish_upload, prepare_upload, FileId,
};

const HELLO_HASH: &str = "932c21f8a4d294f79380e93c7ca80494823da0fd73a15374ffd7d4b767e16b0f";

#[test]
fn chunk_suffix_appends_index() {
    assert_eq!(append_chunk_suffix("x", 0), "x-chunk0");
    assert_eq!(append_chunk_suffix("x", 10), "x-chunk10");
    assert_eq!(
        append_chunk_suffix("https://example.com/dl/a", 3),
        "https://example.com/dl/a-chunk3"
    );
}

#[test]
fn plan_hashes_the_prefixed_payload() {
    let plan = prepare_upload("hello.txt", &b"hi".to_vec(), "owner/repo", 100).unwrap();
    assert_eq!(plan.hash, HELLO_HASH);
    assert_eq!(plan.chunks.len(), 1);
    assert_eq!(plan.chunks[0], b"hello.txt\nhi".to_vec());
}

#[test]
fn invalid_repo_is_rejected_before_any_work() {
    let r = prepare_upload("a", &b"b".to_vec(), "notaslash", 100);
    assert!(matches!(r, Err(Error::InvalidRepoFormat)));
    assert!(prepare_upload("a", &b"b".to_vec(), "owner/name", 100).is_ok());
    assert!(prepare_upload("a", &b"b".to_vec(), "https://github.com/owner/name", 100).is_ok());
    assert!(matches!(
        prepare_upload("a", &b"b".to_vec(), "owner/name/extra", 100),
        Err(Error::InvalidRepoFormat)
    ));
}

#[test]
fn dedup_hit_reuses_the_existing_asset() {
    let plan = prepare_upload("hello.txt", &b"hi".to_vec(), "owner/repo", 1).unwrap();
    let assets = vec![
        ("other".to_string(), "https://example.com/dl/other".to_string()),
        (
            format!("{}-chunk0", plan.hash),
            "https://example.com/dl/hit-chunk0".to_string(),
        ),
    ];
    let hit = dedup_locator(&assets, &plan.hash, plan.chunks.len()).unwrap();
    let id = hit.unwrap();
    assert_eq!(id.asset_url, "https://example.com/dl/hit-chunk0");
    assert_eq!(id.chunks, 12);
}

#[test]
fn dedup_miss_reports_nothing() {
    let plan = prepare_upload("hello.txt", &b"hi".to_vec(), "owner/repo", 1).unwrap();
    let assets = vec![("other".to_string(), "https://example.com/dl/other".to_string())];
    let hit = dedup_locator(&assets, &plan.hash, plan.chunks.len()).unwrap();
    assert!(hit.is_none());
}

#[test]
fn second_upload_of_same_pair_uploads_nothing() {
    // first upload: fresh store, plan the chunks and record what was stored
    let first = prepare_upload("hello.txt", &b"hi".to_vec(), "owner/repo", 1).unwrap();
    let mut assets: Vec<(String, String)> = Vec::new();
    assert!(dedup_locator(&assets, &first.hash, first.chunks.len())
        .unwrap()
        .is_none());
    let mut uploads = 0;
    for (i, _chunk) in first.chunks.iter().enumerate() {
        assets.push((
            append_chunk_suffix(&first.hash, i),
            format!("https://example.com/dl/{}-chunk{}", first.hash, i),
        ));
        uploads += 1;
    }
    assert_eq!(uploads, 12);
    // second upload of the same (name, bytes): the probe hits, zero uploads
    let second = prepare_upload("hello.txt", &b"hi".to_vec(), "owner/repo", 1).unwrap();
    assert_eq!(second.hash, first.hash);
    let hit = dedup_locator(&assets, &second.hash, second.chunks.len()).unwrap();
    let id = hit.expect("the dedup probe must hit a populated store");
    assert_eq!(id.chunks, first.chunks.len());
}

#[test]
fn finish_upload_normalizes_the_reported_url() {
    let id = finish_upload("https://example.com/dl/abc-chunk0?ignore=me", 3).unwrap();
    assert_eq!(id.asset_url, "https://example.com/dl/abc-chunk0");
    assert_eq!(id.chunks, 3);
}

#[test]
fn finish_upload_rejects_a_malformed_url() {
    let r = finish_upload("not a url", 1);
    assert!(matches!(r, Err(Error::MalformedUrl)));
}

#[test]
fn download_reassembles_out_of_order_chunks() {
    let parts = vec![
        (2usize, b"t\nhi".to_vec()),
        (0usize, b"hell".to_vec()),
        (1usize, b"o.tx".to_vec()),
    ];
    let (content, name) = decode_download(&parts, 3).unwrap();
    assert_eq!(content, b"hi".to_vec());
    assert_eq!(name, "hello.txt");
}

#[test]
fn download_with_missing_chunk_fails_to_join() {
    let parts = vec![(0usize, b"ab".to_vec())];
    let r = decode_download(&parts, 2);
    assert!(matches!(r, Err(Error::Join(_))));
}

#[test]
fn end_to_end_upload_then_download() {
    // upload "hello.txt"/"hi" with the chunk size forced to one byte against
    // a mock object store
    let plan = prepare_upload("hello.txt", &b"hi".to_vec(), "owner/repo", 1).unwrap();
    assert_eq!(plan.chunks.len(), 12);
    let mut store: Vec<(String, Vec<u8>)> = Vec::new();
    for (i, chunk) in plan.chunks.iter().enumerate() {
        assert_eq!(chunk.len(), 1);
        store.push((append_chunk_suffix(&plan.hash, i), chunk.clone()));
    }
    assert_eq!(store.len(), 12);
    let stored: Vec<u8> = store.iter().flat_map(|(_, c)| c.clone()).collect();
    assert_eq!(stored, b"hello.txt\nhi".to_vec());
    let id = finish_upload("https://example.com/dl/x-chunk0", plan.chunks.len()).unwrap();
    // fetch every chunk by its derived URL, completing in reverse order
    let mut parts: Vec<(usize, Vec<u8>)> = Vec::new();
    for i in (0..id.chunks).rev() {
        let url = append_chunk_suffix(&id.asset_url, i);
        let name = append_chunk_suffix(&plan.hash, i);
        assert_eq!(url, format!("https://example.com/dl/x-chunk0-chunk{}", i));
        let body = store.iter().find(|(n, _)| *n == name).unwrap().1.clone();
        parts.push((i, body));
    }
    let (content, name) = decode_download(&parts, id.chunks).unwrap();
    assert_eq!(content, b"hi".to_vec());
    assert_eq!(name, "hello.txt");
}

#[test]
fn locator_is_a_plain_serializable_pair() {
    let id = FileId {
        asset_url: "https://example.com/dl/x-chunk0".to_string(),
        chunks: 2,
    };
    let copy = id.clone();
    assert_eq!(id, copy);
    assert_eq!(copy.asset_url, "https://example.com/dl/x-chunk0");
    assert_eq!(copy.chunks, 2);
}
