use vstd::prelude::*;
use vstd::string::StrSliceExecFns;
use vstd::string::StringExecFns;
use crate::errors::Error;

verus! {

/// Whether the character sequence `s` parses as a URL.  Defined only
/// through the `url` crate; nothing else is assumed of it.
pub uninterp spec fn parses_as_url(s: Seq<char>) -> bool;

/// The canonical serialization, with the query part cleared, of the URL that
/// the character sequence `s` parses to.  Defined only through the `url`
/// crate; nothing else is assumed of it.
pub uninterp spec fn canonical_of(s: Seq<char>) -> Seq<char>;

/// Relies on `url::Url::parse`, `Url::set_query` and the `Url`
/// serialization (`From<Url> for String`): whether parsing succeeds depends
/// on the input characters alone, and so does the serialization after
/// clearing the query.
#[verifier::external_body]
fn parse_without_query(s: &str) -> (r: Option<String>)
    ensures
        r is Some <==> parses_as_url(s@),
        r is Some ==> r.unwrap()@ == canonical_of(s@),
{
    match url::Url::parse(s) {
        Ok(mut u) => {
            u.set_query(None);
            Some(String::from(u))
        },
        Err(_) => None,
    }
}

/// Where the fragment delimiter `#` first occurs, or the length when there
/// is none.  In a canonical serialization with the query cleared, `#`
/// occurs nowhere but as that delimiter, so everything before this position
/// is scheme, host and path.
pub open spec fn fragment_start(s: Seq<char>) -> int
    decreases s.len(),
{
    if s.len() == 0 {
        0
    } else if s[0] == '#' {
        0
    } else {
        1 + fragment_start(s.drop_first())
    }
}

/// Drops a trailing percent-encoded `{` — the URI-template artifact some
/// responses leave at the end of a path — if one is present.
pub open spec fn strip_marker(s: Seq<char>) -> Seq<char> {
    if s.len() >= 3 && s.subrange(s.len() - 3, s.len() as int) == "%7B"@ {
        s.subrange(0, s.len() - 3)
    } else {
        s
    }
}

/// Strips the template artifact from the end of the part before the
/// fragment — the end of the path — leaving any fragment untouched.
pub open spec fn strip_template_suffix(s: Seq<char>) -> Seq<char> {
    let f = fragment_start(s);
    strip_marker(s.take(f)) + s.skip(f)
}

/// The canonical form this library stores: parsed, query cleared, template
/// artifact stripped from the path.
pub open spec fn normalized_of(s: Seq<char>) -> Seq<char> {
    strip_template_suffix(canonical_of(s))
}

/// `fragment_start` is the first position holding `#`, or the length.
proof fn lemma_fragment_start_at(s: Seq<char>, i: int)
    requires
        0 <= i <= s.len(),
        i < s.len() ==> s[i] == '#',
        forall|k: int| 0 <= k < i ==> s[k] != '#',
    ensures
        fragment_start(s) == i,
    decreases i,
{
    if s.len() == 0 {
    } else if i == 0 {
    } else {
        let t = s.drop_first();
        assert forall|k: int| 0 <= k < i - 1 implies t[k] != '#' by {
            assert(t[k] == s[k + 1]);
        }
        assert(i - 1 < t.len() ==> t[i - 1] == s[i]);
        lemma_fragment_start_at(t, i - 1);
    }
}

/// Cleans a URL taken from a remote response: clears its query string and
/// strips a trailing percent-encoded `{` artifact from the path.  Fails
/// with [`Error::MalformedUrl`] exactly when the input does not parse as a
/// URL.
pub fn normalize_url(raw: &str) -> (r: Result<String, Error>)
    ensures
        r is Ok <==> parses_as_url(raw@),
        r is Ok ==> r.unwrap()@ == normalized_of(raw@),
        r is Err ==> r.unwrap_err() is MalformedUrl,
{
    let parsed = match parse_without_query(raw) {
        Some(u) => u,
        None => {
            return Err(Error::MalformedUrl);
        },
    };
    proof {
        reveal_strlit("%7B");
    }
    let n = parsed.as_str().unicode_len();
    let mut f: usize = 0;
    while f < n && parsed.as_str().get_char(f) != '#'
        invariant
            f <= n,
            n == parsed@.len(),
            forall|k: int| 0 <= k < f ==> parsed@[k] != '#',
        decreases n - f,
    {
        f = f + 1;
    }
    proof {
        lemma_fragment_start_at(parsed@, f as int);
    }
    let ghost pre = parsed@.take(f as int);
    let strip = f >= 3 && parsed.as_str().get_char(f - 3) == '%' && parsed.as_str().get_char(
        f - 2,
    ) == '7' && parsed.as_str().get_char(f - 1) == 'B';
    proof {
        if strip {
            assert(pre.subrange(pre.len() - 3, pre.len() as int) =~= "%7B"@);
        } else if f >= 3 {
            assert(pre.subrange(pre.len() - 3, pre.len() as int) != "%7B"@) by {
                if pre.subrange(pre.len() - 3, pre.len() as int) == "%7B"@ {
                    assert(pre.subrange(pre.len() - 3, pre.len() as int)[0] == '%');
                    assert(pre.subrange(pre.len() - 3, pre.len() as int)[1] == '7');
                    assert(pre.subrange(pre.len() - 3, pre.len() as int)[2] == 'B');
                    assert(pre[f - 3] == parsed@[f - 3]);
                    assert(pre[f - 2] == parsed@[f - 2]);
                    assert(pre[f - 1] == parsed@[f - 1]);
                }
            }
        }
    }
    let keep = if strip {
        f - 3
    } else {
        f
    };
    let mut out = parsed.as_str().substring_char(0, keep).to_owned();
    out.append(parsed.as_str().substring_char(f, n));
    proof {
        assert(parsed@.subrange(0, keep as int) =~= strip_marker(pre));
        assert(parsed@.subrange(f as int, n as int) =~= parsed@.skip(f as int));
        assert(out@ == strip_marker(pre) + parsed@.skip(f as int));
    }
    Ok(out)
}

} // verus!
