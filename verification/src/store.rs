use vstd::prelude::*;
use vstd::string::{StrSliceExecFns, StringExecFns};
use vstd::utf8::{decode_utf8, valid_utf8};
use crate::codec::{
    arrival_ok, arrival_views, assemble_chunks, assembled, chunk_count_spec, chunks_of,
    encode_payload, encoded_payload, lemma_chunks_count, split_chunks, split_payload,
    split_payload_spec,
};
use crate::errors::Error;
use crate::resolver::{valid_repo, validate_repo};
use crate::text::{dec_chars, decimal_string};
use crate::urlnorm::{normalize_url, normalized_of, parses_as_url};

verus! {

// ---------------------------------------------------------------------------
// Content hashing.
// ---------------------------------------------------------------------------

/// The lowercase hexadecimal SHA-256 digest of the bytes.  Defined only
/// through the `sha256` crate; nothing is assumed of its value beyond its
/// length.
pub uninterp spec fn sha256_hex_of(data: Seq<u8>) -> Seq<char>;

/// Relies on `sha256::digest` (for `&Vec<u8>`): the hex digest depends on
/// the bytes alone and is 64 characters long.
#[verifier::external_body]
fn sha256_hex(data: &Vec<u8>) -> (r: String)
    ensures
        r@ == sha256_hex_of(data@),
        r@.len() == 64,
{
    sha256::digest(data)
}

// ---------------------------------------------------------------------------
// The locator.
// ---------------------------------------------------------------------------

/// The opaque locator of an uploaded file: the canonical download URL of its
/// first chunk's asset, and how many chunks the payload was split into.
/// Callers persist it as a pair and hand it back unchanged.
#[derive(Clone, Debug, PartialEq, Eq)]
pub struct FileId {
    /// Download URL of the chunk-0 asset; the URL of chunk `i` is this with
    /// its trailing `0` replaced — derived by appending the index suffix to
    /// the common stem.
    pub asset_url: String,
    /// Number of chunks, at least 1.
    pub chunks: usize,
}

impl FileId {
    /// The locator's one invariant.
    pub open spec fn wf(self) -> bool {
        self.chunks >= 1
    }
}

/// The remote asset name of chunk `index`, or — applied to a chunk-0 asset
/// URL — the URL a chunk is fetched from.
pub open spec fn chunk_suffix_spec(prefix: Seq<char>, index: nat) -> Seq<char> {
    prefix + "-chunk"@ + dec_chars(index)
}

/// Appends `-chunk{index}` to an asset name stem or URL.
pub fn append_chunk_suffix(prefix: &str, index: usize) -> (r: String)
    ensures
        r@ == chunk_suffix_spec(prefix@, index as nat),
{
    let mut s = prefix.to_owned();
    s.append("-chunk");
    let digits = decimal_string(index);
    s.append(digits.as_str());
    s
}

// ---------------------------------------------------------------------------
// Upload planning.
// ---------------------------------------------------------------------------

/// Everything the transport needs to upload a file: the content hash that
/// names the assets and the chunk bodies in index order.
#[derive(Debug)]
pub struct UploadPlan {
    /// Lowercase hex SHA-256 of the name-prefixed payload.
    pub hash: String,
    /// The chunk bodies, in index order.
    pub chunks: Vec<Vec<u8>>,
}

/// What a correct plan for `(name, data)` at a chunk size looks like.
pub open spec fn plan_ok(plan: UploadPlan, name: Seq<char>, data: Seq<u8>, size: nat) -> bool {
    &&& plan.hash@ == sha256_hex_of(encoded_payload(name, data))
    &&& plan.chunks@.map_values(|c: Vec<u8>| c@) == chunks_of(encoded_payload(name, data), size)
    &&& plan.chunks@.len() == chunk_count_spec(encoded_payload(name, data).len(), size)
}

/// Validates the repository identifier, prefixes the file name to the bytes,
/// hashes the result and cuts it into chunks.  Everything before the first
/// network request happens here.
pub fn prepare_upload(file_name: &str, file_data: &Vec<u8>, repo: &str, chunk_size: usize) -> (r:
    Result<UploadPlan, Error>)
    requires
        chunk_size >= 1,
    ensures
        r is Ok <==> valid_repo(repo@),
        r is Err ==> r.unwrap_err() is InvalidRepoFormat,
        r is Ok ==> plan_ok(r.unwrap(), file_name@, file_data@, chunk_size as nat),
        r is Ok ==> r.unwrap().chunks@.len() >= 1,
{
    if !validate_repo(repo) {
        return Err(Error::InvalidRepoFormat);
    }
    let payload = encode_payload(file_name, file_data);
    let hash = sha256_hex(&payload);
    let chunks = split_chunks(&payload, chunk_size);
    proof {
        lemma_chunks_count(payload@, chunk_size as nat);
        assert(chunks@.map_values(|c: Vec<u8>| c@).len() == chunks@.len());
    }
    Ok(UploadPlan { hash, chunks })
}

// ---------------------------------------------------------------------------
// Deduplication against the existing assets of the release.
// ---------------------------------------------------------------------------

pub open spec fn asset_views(assets: Seq<(String, String)>) -> Seq<(Seq<char>, Seq<char>)> {
    assets.map_values(|p: (String, String)| (p.0@, p.1@))
}

/// The download URL of the first asset bearing `target` as its name.
pub open spec fn find_asset_spec(assets: Seq<(Seq<char>, Seq<char>)>, target: Seq<char>) -> Option<
    Seq<char>,
>
    decreases assets.len(),
{
    if assets.len() == 0 {
        None
    } else if assets[0].0 == target {
        Some(assets[0].1)
    } else {
        find_asset_spec(assets.drop_first(), target)
    }
}

proof fn lemma_find_asset_step(assets: Seq<(Seq<char>, Seq<char>)>, target: Seq<char>, k: int)
    requires
        0 <= k < assets.len(),
        forall|t: int| 0 <= t < k ==> assets[t].0 != target,
    ensures
        assets[k].0 == target ==> find_asset_spec(assets, target) == Some(assets[k].1),
        assets[k].0 != target ==> (forall|t: int| 0 <= t < k + 1 ==> assets[t].0 != target),
        k + 1 == assets.len() && assets[k].0 != target ==> find_asset_spec(assets, target)
            is None,
    decreases k,
{
    if k == 0 {
        if assets[0].0 != target && assets.len() == 1 {
            assert(assets.drop_first().len() == 0);
        }
    } else {
        let rest = assets.drop_first();
        assert(assets[0].0 != target);
        assert forall|t: int| 0 <= t < k - 1 implies rest[t].0 != target by {
            assert(rest[t] == assets[t + 1]);
        }
        lemma_find_asset_step(rest, target, k - 1);
        assert(rest[k - 1] == assets[k]);
        assert forall|t: int| 0 <= t < k + 1 implies assets[k].0 != target ==> assets[t].0
            != target by {}
    }
}

/// Scans the release's assets for one named `target` and yields its download
/// URL: the first match, as the listing orders them.
pub fn find_asset(assets: &Vec<(String, String)>, target: &String) -> (r: Option<String>)
    ensures
        r is Some <==> find_asset_spec(asset_views(assets@), target@) is Some,
        r is Some ==> Some(r.unwrap()@) == find_asset_spec(asset_views(assets@), target@),
{
    let ghost av = asset_views(assets@);
    let mut k: usize = 0;
    while k < assets.len()
        invariant
            av == asset_views(assets@),
            k <= assets@.len(),
            av.len() == assets@.len(),
            forall|t: int| 0 <= t < k ==> av[t].0 != target@,
        decreases assets@.len() - k,
    {
        proof {
            assert(av[k as int] == (assets@[k as int].0@, assets@[k as int].1@));
        }
        if assets[k].0.eq(target) {
            proof {
                lemma_find_asset_step(av, target@, k as int);
            }
            return Some(assets[k].1.clone());
        }
        proof {
            lemma_find_asset_step(av, target@, k as int);
        }
        k = k + 1;
    }
    proof {
        if av.len() > 0 {
            lemma_find_asset_step(av, target@, av.len() - 1);
        }
    }
    None
}

/// Checks the dedup condition: when an asset named `{hash}-chunk0` already
/// exists, its canonical URL and the chunk count make the locator and no
/// chunk needs uploading.  A hit whose URL does not parse is a
/// [`Error::MalformedUrl`] failure.
pub fn dedup_locator(assets: &Vec<(String, String)>, hash: &String, chunk_count: usize) -> (r:
    Result<Option<FileId>, Error>)
    requires
        chunk_count >= 1,
    ensures
        ({
            let hit = find_asset_spec(asset_views(assets@), chunk_suffix_spec(hash@, 0));
            &&& (hit is None ==> r == Ok::<Option<FileId>, Error>(None))
            &&& (r is Ok && r.unwrap() is Some <==> hit is Some && parses_as_url(hit.unwrap()))
            &&& (r is Ok && r.unwrap() is Some ==> r.unwrap().unwrap().asset_url@
                == normalized_of(hit.unwrap()) && r.unwrap().unwrap().chunks == chunk_count
                && r.unwrap().unwrap().wf())
            &&& (r is Err <==> hit is Some && !parses_as_url(hit.unwrap()))
            &&& (r is Err ==> r.unwrap_err() is MalformedUrl)
        }),
{
    let target = append_chunk_suffix(hash.as_str(), 0);
    match find_asset(assets, &target) {
        None => Ok(None),
        Some(url) => match normalize_url(url.as_str()) {
            Ok(canonical) => Ok(Some(FileId { asset_url: canonical, chunks: chunk_count })),
            Err(e) => Err(e),
        },
    }
}

/// Builds the locator from the asset URL that the chunk-0 upload response
/// reported, normalized to its canonical form.
pub fn finish_upload(chunk0_url: &str, chunk_count: usize) -> (r: Result<FileId, Error>)
    requires
        chunk_count >= 1,
    ensures
        r is Ok <==> parses_as_url(chunk0_url@),
        r is Ok ==> r.unwrap().asset_url@ == normalized_of(chunk0_url@) && r.unwrap().chunks
            == chunk_count && r.unwrap().wf(),
        r is Err ==> r.unwrap_err() is MalformedUrl,
{
    match normalize_url(chunk0_url) {
        Ok(canonical) => Ok(FileId { asset_url: canonical, chunks: chunk_count }),
        Err(e) => Err(e),
    }
}

// ---------------------------------------------------------------------------
// Download.
// ---------------------------------------------------------------------------

/// Reassembles the fetched chunks — tagged with their indices, in whatever
/// order they completed — in ascending index order, then splits the name off
/// the payload.  An arrival that does not carry each index below
/// `chunk_count` exactly once is a [`Error::Join`] failure; name bytes that
/// are not UTF-8 are a [`Error::Decode`] failure.
pub fn decode_download(parts: &Vec<(usize, Vec<u8>)>, chunk_count: usize) -> (r: Result<
    (Vec<u8>, String),
    Error,
>)
    ensures
        ({
            let av = arrival_views(parts@);
            let sp = split_payload_spec(assembled(av, chunk_count as nat));
            &&& (r is Ok <==> arrival_ok(av, chunk_count as nat) && valid_utf8(sp.0))
            &&& (r is Ok ==> r.unwrap().0@ == sp.1 && r.unwrap().1@ == decode_utf8(sp.0))
            &&& (!arrival_ok(av, chunk_count as nat) ==> r is Err && r.unwrap_err() is Join)
            &&& (arrival_ok(av, chunk_count as nat) && !valid_utf8(sp.0) ==> r is Err
                && r.unwrap_err() is Decode)
        }),
{
    let payload = match assemble_chunks(parts, chunk_count) {
        Some(p) => p,
        None => {
            return Err(Error::Join(String::from_str("a chunk index is missing or repeated")));
        },
    };
    split_payload(payload)
}

// ---------------------------------------------------------------------------
// The dedup law: a repeated upload plans the same asset names and the same
// chunk count, and the dedup probe must hit.
// ---------------------------------------------------------------------------

/// Uploading the same name and bytes a second time against a store that
/// already holds the first upload's chunk-0 asset finds it — the content
/// hash depends on the name-prefixed payload alone — so no chunk is
/// uploaded, and the chunk count recomputed for the second call equals the
/// first call's, both being the same function of `(name, data)`.
///
/// With the hit in hand, [`dedup_locator`]'s own contract returns the
/// stored locator provided the listed download URL parses.  A store
/// populated by a successful first upload meets that: the first call built
/// its locator from that very URL through [`finish_upload`], whose success
/// implies `parses_as_url` of it.  The chunk count the probe is handed is
/// at least 1, as the count here is.
pub proof fn lemma_second_upload_dedups(
    name: Seq<char>,
    data: Seq<u8>,
    size: nat,
    assets: Seq<(Seq<char>, Seq<char>)>,
)
    requires
        size >= 1,
        exists|j: int|
            0 <= j < assets.len() && (#[trigger] assets[j].0) == chunk_suffix_spec(
                sha256_hex_of(encoded_payload(name, data)),
                0,
            ),
    ensures
        find_asset_spec(assets, chunk_suffix_spec(sha256_hex_of(encoded_payload(name, data)), 0))
            is Some,
        chunks_of(encoded_payload(name, data), size).len() == chunk_count_spec(
            encoded_payload(name, data).len(),
            size,
        ),
        chunks_of(encoded_payload(name, data), size).len() >= 1,
    decreases assets.len(),
{
    let target = chunk_suffix_spec(sha256_hex_of(encoded_payload(name, data)), 0);
    let j = choose|j: int| 0 <= j < assets.len() && assets[j].0 == target;
    if assets[0].0 != target {
        let rest = assets.drop_first();
        assert(rest[j - 1] == assets[j]);
        assert(rest[j - 1].0 == target);
        lemma_second_upload_dedups(name, data, size, rest);
    }
    lemma_chunks_count(encoded_payload(name, data), size);
    crate::codec::lemma_upload_chunk_count(name, data, size);
}

} // verus!
