use chunkstore::errors::Error;

#[test]
fn each_failure_describes_itself() {
    assert_eq!(
        Error::Transport("connection reset".to_string()).describe(),
        "Transport error: connection reset"
    );
    assert_eq!(
        Error::Decode("unexpected shape".to_string()).describe(),
        "Decode error: unexpected shape"
    );
    assert_eq!(Error::InvalidRepoFormat.describe(), "Invalid repository format");
    assert_eq!(Error::MalformedUrl.describe(), "Malformed URL");
    assert_eq!(Error::Join("task aborted".to_string()).describe(), "Join error: task aborted");
}
