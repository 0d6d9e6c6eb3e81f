use chunkstore::errors::Error;
use chunkstore::resolver::{
    bootstrap_contents_url, next_action, release_create_url, release_lookup_url, release_tag,
    resolver_step, validate_repo, ResolveAction, ResolveEvent, ResolverState,
};

#[test]
fn repo_format_owner_slash_name() {
    assert!(!validate_repo("notaslash"));
    assert!(validate_repo("owner/name"));
    assert!(validate_repo("https://github.com/owner/name"));
    assert!(!validate_repo("too/many/slashes"));
    assert!(!validate_repo(""));
}

#[test]
fn endpoint_urls_follow_the_api_shape() {
    assert_eq!(release_tag(), "files");
    assert_eq!(
        release_lookup_url("owner/name", "files"),
        "https://api.github.com/repos/owner/name/releases/tags/files"
    );
    assert_eq!(
        release_create_url("owner/name"),
        "https://api.github.com/repos/owner/name/releases"
    );
    assert_eq!(
        bootstrap_contents_url("owner/name"),
        "https://api.github.com/repos/owner/name/contents/__no_empty_repo__"
    );
}

#[test]
fn lookup_success_resolves_immediately() {
    let state = ResolverState::Lookup;
    assert_eq!(next_action(&state), Some(ResolveAction::GetRelease));
    let next = resolver_step(
        state,
        ResolveEvent::Release {
            upload_url: Some("https://uploads.example.com/assets{?name,label}".to_string()),
            assets_url: Some("https://api.example.com/assets".to_string()),
        },
    );
    match next {
        ResolverState::Resolved(endpoints) => {
            assert_eq!(endpoints.upload_url, "https://uploads.example.com/assets");
            assert_eq!(endpoints.assets_url, "https://api.example.com/assets");
        }
        _ => panic!("a complete lookup response must resolve"),
    }
}

#[test]
fn incomplete_lookup_falls_through_to_creation() {
    let next = resolver_step(
        ResolverState::Lookup,
        ResolveEvent::Release {
            upload_url: None,
            assets_url: Some("https://api.example.com/assets".to_string()),
        },
    );
    assert!(matches!(next, ResolverState::Create));
}

#[test]
fn bootstrap_path_runs_once_and_surfaces_the_final_lookup_error() {
    // lookup and creation both fail: exactly one bootstrap commit attempt,
    // then one final lookup, whose error is the one surfaced
    let mut state = ResolverState::Lookup;
    let mut actions: Vec<ResolveAction> = Vec::new();

    actions.push(next_action(&state).unwrap());
    state = resolver_step(
        state,
        ResolveEvent::RequestFailed(Error::Transport("lookup refused".to_string())),
    );
    assert!(matches!(state, ResolverState::Create));

    actions.push(next_action(&state).unwrap());
    state = resolver_step(
        state,
        ResolveEvent::RequestFailed(Error::Transport("creation refused".to_string())),
    );
    assert!(matches!(state, ResolverState::Bootstrap));

    actions.push(next_action(&state).unwrap());
    state = resolver_step(state, ResolveEvent::BootstrapDone);
    assert!(matches!(state, ResolverState::FinalLookup));

    actions.push(next_action(&state).unwrap());
    state = resolver_step(
        state,
        ResolveEvent::RequestFailed(Error::Transport("still failing".to_string())),
    );
    assert_eq!(
        actions,
        vec![
            ResolveAction::GetRelease,
            ResolveAction::CreateRelease,
            ResolveAction::PutBootstrap,
            ResolveAction::GetRelease,
        ]
    );
    assert!(next_action(&state).is_none());
    match state {
        ResolverState::Failed(Error::Transport(msg)) => assert_eq!(msg, "still failing"),
        _ => panic!("the final lookup's error must be surfaced"),
    }
}

#[test]
fn bootstrap_commit_failure_is_surfaced() {
    let next = resolver_step(
        ResolverState::Bootstrap,
        ResolveEvent::RequestFailed(Error::Transport("cannot commit".to_string())),
    );
    assert!(matches!(next, ResolverState::Failed(Error::Transport(_))));
}

#[test]
fn final_lookup_with_missing_fields_is_a_decode_failure() {
    let next = resolver_step(
        ResolverState::FinalLookup,
        ResolveEvent::Release {
            upload_url: None,
            assets_url: None,
        },
    );
    assert!(matches!(next, ResolverState::Failed(Error::Decode(_))));
}
