use vstd::prelude::*;
use vstd::string::{StrSliceExecFns, StringExecFns};
use crate::errors::Error;
use crate::urlnorm::{normalize_url, normalized_of, parses_as_url};

verus! {

// ---------------------------------------------------------------------------
// Repository identifiers.
// ---------------------------------------------------------------------------

/// How many times `c` occurs in `s`.
pub open spec fn count_char(s: Seq<char>, c: char) -> nat
    decreases s.len(),
{
    if s.len() == 0 {
        0
    } else {
        (if s[0] == c {
            1nat
        } else {
            0nat
        }) + count_char(s.drop_first(), c)
    }
}

pub open spec fn has_substr(s: Seq<char>, pat: Seq<char>) -> bool {
    exists|i: int|
        0 <= i && i + pat.len() <= s.len() && #[trigger] s.subrange(i, i + pat.len()) == pat
}

/// A repository identifier is accepted when it is `owner/name` — exactly one
/// slash — or already looks like a full hosting-platform URL.
pub open spec fn valid_repo(s: Seq<char>) -> bool {
    count_char(s, '/') == 1 || has_substr(s, "github.com"@)
}

proof fn lemma_count_char_push(s: Seq<char>, x: char, c: char)
    ensures
        count_char(s.push(x), c) == count_char(s, c) + (if x == c {
            1nat
        } else {
            0nat
        }),
    decreases s.len(),
{
    if s.len() == 0 {
        assert(s.push(x).drop_first() =~= s);
        assert(s.push(x)[0] == x);
    } else {
        assert(s.push(x).drop_first() =~= s.drop_first().push(x));
        lemma_count_char_push(s.drop_first(), x, c);
    }
}

/// Decides [`valid_repo`].
pub fn validate_repo(repo: &str) -> (r: bool)
    ensures
        r == valid_repo(repo@),
{
    let n = repo.unicode_len();
    let mut slashes: usize = 0;
    let mut i: usize = 0;
    while i < n
        invariant
            i <= n,
            n == repo@.len(),
            slashes <= i,
            slashes as nat == count_char(repo@.take(i as int), '/'),
        decreases n - i,
    {
        let c = repo.get_char(i);
        proof {
            assert(repo@.take(i as int).push(repo@[i as int]) =~= repo@.take(i + 1));
            lemma_count_char_push(repo@.take(i as int), repo@[i as int], '/');
        }
        if c == '/' {
            slashes = slashes + 1;
        }
        i = i + 1;
    }
    proof {
        assert(repo@.take(n as int) =~= repo@);
    }
    if slashes == 1 {
        return true;
    }
    let pat = "github.com";
    proof {
        reveal_strlit("github.com");
    }
    if n < 10 {
        proof {
            assert(!has_substr(repo@, pat@));
        }
        return false;
    }
    let mut start: usize = 0;
    let mut found = false;
    while start <= n - 10
        invariant
            n == repo@.len(),
            pat@.len() == 10,
            pat@ == "github.com"@,
            10 <= n,
            start <= n - 10 + 1,
            found ==> has_substr(repo@, pat@),
            !found ==> forall|i2: int|
                0 <= i2 < start ==> #[trigger] repo@.subrange(i2, i2 + 10) != pat@,
        decreases n - start,
    {
        if !found {
            let mut j: usize = 0;
            let mut same = true;
            proof {
                assert(repo@.subrange(start as int, start as int) =~= pat@.take(0));
            }
            while j < 10
                invariant
                    j <= 10,
                    n == repo@.len(),
                    pat@.len() == 10,
                    pat@ == "github.com"@,
                    start + 10 <= n,
                    same <==> repo@.subrange(start as int, start + j) == pat@.take(j as int),
                decreases 10 - j,
            {
                let a = repo.get_char(start + j);
                let b = pat.get_char(j);
                proof {
                    assert(repo@.subrange(start as int, start + j + 1) =~= repo@.subrange(
                        start as int,
                        start + j,
                    ).push(repo@[start + j]));
                    assert(pat@.take(j + 1) =~= pat@.take(j as int).push(pat@[j as int]));
                }
                if a != b {
                    proof {
                        if repo@.subrange(start as int, start + j + 1) == pat@.take(j + 1) {
                            assert(repo@.subrange(start as int, start + j + 1)[j as int]
                                == pat@.take(j + 1)[j as int]);
                        }
                    }
                    same = false;
                } else {
                    proof {
                        if same {
                            assert(repo@.subrange(start as int, start + j + 1) =~= repo@.subrange(
                                start as int,
                                start + j,
                            ).push(repo@[start + j]));
                        } else {
                            if repo@.subrange(start as int, start + j + 1) == pat@.take(j + 1) {
                                assert(forall|t: int|
                                    0 <= t < j ==> #[trigger] repo@.subrange(
                                        start as int,
                                        start + j + 1,
                                    )[t] == pat@.take(j + 1)[t]);
                                assert(repo@.subrange(start as int, start + j) =~= repo@.subrange(
                                    start as int,
                                    start + j + 1,
                                ).take(j as int));
                                assert(pat@.take(j as int) =~= pat@.take(j + 1).take(j as int));
                                assert(repo@.subrange(start as int, start + j) == pat@.take(
                                    j as int,
                                ));
                            }
                        }
                    }
                }
                j = j + 1;
            }
            proof {
                assert(pat@.take(10) =~= pat@);
            }
            if same {
                proof {
                    assert(repo@.subrange(start as int, start + 10) == pat@);
                }
                found = true;
            } else {
                proof {
                    assert(repo@.subrange(start as int, start + 10) != pat@);
                }
            }
        }
        start = start + 1;
    }
    proof {
        if !found {
            assert forall|i2: int| 0 <= i2 && i2 + 10 <= n implies #[trigger] repo@.subrange(
                i2,
                i2 + 10,
            ) != pat@ by {
                assert(i2 < start);
            }
            assert(!has_substr(repo@, pat@));
        }
    }
    found
}

// ---------------------------------------------------------------------------
// Endpoints of the remote object API.
// ---------------------------------------------------------------------------

/// The release tag reserved for this store's files.
pub fn release_tag() -> (r: &'static str)
    ensures
        r@ == "files"@,
{
    "files"
}

/// Where a release with `tag` is looked up.
pub fn release_lookup_url(repo: &str, tag: &str) -> (r: String)
    ensures
        r@ == "https://api.github.com/repos/"@ + repo@ + "/releases/tags/"@ + tag@,
{
    let mut s = String::from_str("https://api.github.com/repos/");
    s.append(repo);
    s.append("/releases/tags/");
    s.append(tag);
    s
}

/// Where a release is created.
pub fn release_create_url(repo: &str) -> (r: String)
    ensures
        r@ == "https://api.github.com/repos/"@ + repo@ + "/releases"@,
{
    let mut s = String::from_str("https://api.github.com/repos/");
    s.append(repo);
    s.append("/releases");
    s
}

/// Where the one-time bootstrap commit is written so that a release can be
/// created in a repository with no commits yet.
pub fn bootstrap_contents_url(repo: &str) -> (r: String)
    ensures
        r@ == "https://api.github.com/repos/"@ + repo@ + "/contents/__no_empty_repo__"@,
{
    let mut s = String::from_str("https://api.github.com/repos/");
    s.append(repo);
    s.append("/contents/__no_empty_repo__");
    s
}

// ---------------------------------------------------------------------------
// The three-phase resolution state machine: look the release up, create it,
// or bootstrap the repository with one commit and look it up once more.
// Failures of the first two phases are soft — they only mean "try the next
// phase" — and only the final lookup surfaces an error.
// ---------------------------------------------------------------------------

/// The endpoints a resolved release offers.
#[derive(Debug)]
pub struct ReleaseEndpoints {
    /// Where the release's existing assets are listed.
    pub assets_url: String,
    /// Where a new asset is uploaded.
    pub upload_url: String,
}

/// What the driver must do next.
#[derive(Clone, Copy, PartialEq, Eq, Structural, Debug)]
pub enum ResolveAction {
    /// Fetch the release under the tag.
    GetRelease,
    /// Create a release under the tag.
    CreateRelease,
    /// Write the one-time bootstrap commit.
    PutBootstrap,
}

/// The states of the resolver.
pub enum ResolverState {
    /// Phase one: look the release up.
    Lookup,
    /// Phase two: create the release.
    Create,
    /// Phase three, first half: write the bootstrap commit.
    Bootstrap,
    /// Phase three, second half: the one retried lookup.
    FinalLookup,
    /// Terminal success.
    Resolved(ReleaseEndpoints),
    /// Terminal failure.
    Failed(Error),
}

/// What the remote side answered.
pub enum ResolveEvent {
    /// A release lookup or creation yielded a body; either field may be
    /// missing from it.
    Release { upload_url: Option<String>, assets_url: Option<String> },
    /// The request failed (transport or decode).
    RequestFailed(Error),
    /// The bootstrap commit was accepted.
    BootstrapDone,
}

/// The request to perform in a given state, or nothing in a terminal one.
pub fn next_action(state: &ResolverState) -> (r: Option<ResolveAction>)
    ensures
        state is Lookup || state is FinalLookup ==> r == Some(ResolveAction::GetRelease),
        state is Create ==> r == Some(ResolveAction::CreateRelease),
        state is Bootstrap ==> r == Some(ResolveAction::PutBootstrap),
        state is Resolved || state is Failed ==> r is None,
{
    match state {
        ResolverState::Lookup => Some(ResolveAction::GetRelease),
        ResolverState::Create => Some(ResolveAction::CreateRelease),
        ResolverState::Bootstrap => Some(ResolveAction::PutBootstrap),
        ResolverState::FinalLookup => Some(ResolveAction::GetRelease),
        ResolverState::Resolved(_) => None,
        ResolverState::Failed(_) => None,
    }
}

/// Both endpoint fields are present.
pub open spec fn event_complete(upload_url: Option<String>, assets_url: Option<String>) -> bool {
    upload_url is Some && assets_url is Some
}

/// Both endpoint fields are present and both parse, so the release resolves.
pub open spec fn event_resolves(upload_url: Option<String>, assets_url: Option<String>) -> bool {
    &&& event_complete(upload_url, assets_url)
    &&& parses_as_url(assets_url.unwrap()@)
    &&& parses_as_url(upload_url.unwrap()@)
}

/// One transition of the resolver.
///
/// A complete response whose two endpoints normalize resolves the machine
/// from any lookup or creation phase.  Anything else — a failed request, a
/// response missing a field, an endpoint that does not normalize — moves
/// phase one to phase two and phase two to phase three, and is surfaced only
/// by the final lookup, as the error it carries (a malformed endpoint as
/// [`Error::MalformedUrl`], a missing field as [`Error::Decode`]).
pub fn resolver_step(state: ResolverState, event: ResolveEvent) -> (next: ResolverState)
    requires
        !(state is Resolved),
        !(state is Failed),
        state is Bootstrap ==> !(event is Release),
        state is Bootstrap || event is Release || event is RequestFailed,
    ensures
        state is Lookup ==> match event {
            ResolveEvent::Release { upload_url: u, assets_url: a } => {
                if event_resolves(u, a) {
                    next is Resolved && next->Resolved_0.assets_url@ == normalized_of(a.unwrap()@)
                        && next->Resolved_0.upload_url@ == normalized_of(u.unwrap()@)
                } else {
                    next is Create
                }
            },
            _ => next is Create,
        },
        state is Create ==> match event {
            ResolveEvent::Release { upload_url: u, assets_url: a } => {
                if event_resolves(u, a) {
                    next is Resolved && next->Resolved_0.assets_url@ == normalized_of(a.unwrap()@)
                        && next->Resolved_0.upload_url@ == normalized_of(u.unwrap()@)
                } else {
                    next is Bootstrap
                }
            },
            _ => next is Bootstrap,
        },
        state is Bootstrap ==> match event {
            ResolveEvent::BootstrapDone => next is FinalLookup,
            ResolveEvent::RequestFailed(e) => next == ResolverState::Failed(e),
            _ => true,
        },
        state is FinalLookup ==> match event {
            ResolveEvent::Release { upload_url: u, assets_url: a } => {
                if event_resolves(u, a) {
                    next is Resolved && next->Resolved_0.assets_url@ == normalized_of(a.unwrap()@)
                        && next->Resolved_0.upload_url@ == normalized_of(u.unwrap()@)
                } else if event_complete(u, a) {
                    next is Failed && next->Failed_0 is MalformedUrl
                } else {
                    next is Failed && next->Failed_0 is Decode
                }
            },
            ResolveEvent::RequestFailed(e) => next == ResolverState::Failed(e),
            _ => true,
        },
{
    match state {
        ResolverState::Lookup => match try_endpoints(event) {
            Ok(endpoints) => ResolverState::Resolved(endpoints),
            Err(_) => ResolverState::Create,
        },
        ResolverState::Create => match try_endpoints(event) {
            Ok(endpoints) => ResolverState::Resolved(endpoints),
            Err(_) => ResolverState::Bootstrap,
        },
        ResolverState::Bootstrap => match event {
            ResolveEvent::BootstrapDone => ResolverState::FinalLookup,
            ResolveEvent::RequestFailed(e) => ResolverState::Failed(e),
            ResolveEvent::Release { .. } => ResolverState::FinalLookup,
        },
        ResolverState::FinalLookup => match try_endpoints(event) {
            Ok(endpoints) => ResolverState::Resolved(endpoints),
            Err(e) => ResolverState::Failed(e),
        },
        ResolverState::Resolved(_) => state,
        ResolverState::Failed(_) => state,
    }
}

/// Extracts and normalizes the two endpoints of a lookup or creation
/// response; the error says what was wrong.
fn try_endpoints(event: ResolveEvent) -> (r: Result<ReleaseEndpoints, Error>)
    requires
        event is Release || event is RequestFailed,
    ensures
        event matches ResolveEvent::Release { upload_url: u, assets_url: a } ==> {
            &&& (r is Ok <==> event_resolves(u, a))
            &&& (r is Ok ==> r.unwrap().assets_url@ == normalized_of(a.unwrap()@)
                && r.unwrap().upload_url@ == normalized_of(u.unwrap()@))
            &&& (!event_complete(u, a) ==> r is Err && r.unwrap_err() is Decode)
            &&& (event_complete(u, a) && r is Err ==> r.unwrap_err() is MalformedUrl)
        },
        event matches ResolveEvent::RequestFailed(e) ==> r == Err::<ReleaseEndpoints, Error>(e),
{
    match event {
        ResolveEvent::Release { upload_url: Some(u), assets_url: Some(a) } => {
            let assets_url = match normalize_url(a.as_str()) {
                Ok(x) => x,
                Err(e) => {
                    return Err(e);
                },
            };
            let upload_url = match normalize_url(u.as_str()) {
                Ok(x) => x,
                Err(e) => {
                    return Err(e);
                },
            };
            Ok(ReleaseEndpoints { assets_url, upload_url })
        },
        ResolveEvent::Release { .. } => Err(
            Error::Decode(String::from_str("release response is missing an endpoint field")),
        ),
        ResolveEvent::RequestFailed(e) => Err(e),
        ResolveEvent::BootstrapDone => Err(
            Error::Decode(String::from_str("unexpected event for this phase")),
        ),
    }
}

} // verus!
