use vstd::prelude::*;
use vstd::arithmetic::div_mod::lemma_div_plus_one;
use vstd::seq_lib::lemma_flatten_concat;
use vstd::pervasive::VecAdditionalExecFns;
use vstd::string::StringExecFns;
use vstd::utf8::{
    decode_utf8, encode_scalar, encode_utf8, encode_utf8_decode_utf8, encode_utf8_valid_utf8,
    has_width_1_encoding, last_continuation_byte, leading_byte_width_1, leading_byte_width_2,
    leading_byte_width_3, leading_byte_width_4, second_last_continuation_byte,
    third_last_continuation_byte, valid_utf8,
};
use crate::errors::Error;
use crate::text::string_from_bytes;

verus! {

/// Size of one chunk, in bytes: large enough to keep the request count low,
/// small enough to keep any single upload bounded in duration.
pub const CHUNK_SIZE: usize = 100_000_000;

// ---------------------------------------------------------------------------
// Wire format: the file name is embedded as a newline-terminated prefix of
// the payload, so the downloader can recover it without a side channel.
// ---------------------------------------------------------------------------

/// The name-prefixed payload: UTF-8 bytes of the name, a newline, the data.
pub open spec fn encoded_payload(name: Seq<char>, data: Seq<u8>) -> Seq<u8> {
    encode_utf8(name) + seq![10u8] + data
}

/// Prefixes the file name and a newline to the payload bytes.
pub fn encode_payload(file_name: &str, file_data: &Vec<u8>) -> (r: Vec<u8>)
    ensures
        r@ == encoded_payload(file_name@, file_data@),
{
    let name_bytes: &[u8] = file_name.as_bytes();
    let mut out: Vec<u8> = Vec::new();
    let mut i: usize = 0;
    while i < name_bytes.len()
        invariant
            i <= name_bytes@.len(),
            out@ == name_bytes@.take(i as int),
        decreases name_bytes@.len() - i,
    {
        out.push(name_bytes[i]);
        i = i + 1;
        proof {
            assert(out@ =~= name_bytes@.take(i as int));
        }
    }
    proof {
        assert(out@ =~= name_bytes@);
    }
    out.push(10u8);
    let mut j: usize = 0;
    while j < file_data.len()
        invariant
            j <= file_data@.len(),
            out@ == name_bytes@ + seq![10u8] + file_data@.take(j as int),
        decreases file_data@.len() - j,
    {
        out.push(file_data[j]);
        j = j + 1;
        proof {
            assert(out@ =~= name_bytes@ + seq![10u8] + file_data@.take(j as int));
        }
    }
    proof {
        assert(file_data@.take(file_data@.len() as int) =~= file_data@);
    }
    out
}

/// Splits at the first newline byte: everything before it, everything after.
/// When the sequence starts without a newline anywhere, the whole of it ends
/// up in the first component.
pub open spec fn split_at_nl(s: Seq<u8>) -> (Seq<u8>, Seq<u8>)
    decreases s.len(),
{
    if s.len() == 0 {
        (seq![], seq![])
    } else if s[0] == 10u8 {
        (seq![], s.drop_first())
    } else {
        let r = split_at_nl(s.drop_first());
        (seq![s[0]] + r.0, r.1)
    }
}

pub open spec fn has_nl(s: Seq<u8>) -> bool {
    exists|i: int| 0 <= i < s.len() && s[i] == 10u8
}

/// What a reassembled payload means: name bytes before the first newline and
/// the content after it; a payload without any newline is all content under
/// an empty name (graceful degradation for malformed or legacy data).
pub open spec fn split_payload_spec(s: Seq<u8>) -> (Seq<u8>, Seq<u8>) {
    if has_nl(s) {
        split_at_nl(s)
    } else {
        (seq![], s)
    }
}

/// `split_at_nl` splits exactly at the first newline position.
proof fn lemma_split_at_nl_at(s: Seq<u8>, i: int)
    requires
        0 <= i < s.len(),
        s[i] == 10u8,
        forall|k: int| 0 <= k < i ==> s[k] != 10u8,
    ensures
        split_at_nl(s).0 == s.subrange(0, i),
        split_at_nl(s).1 == s.subrange(i + 1, s.len() as int),
    decreases i,
{
    if i == 0 {
        assert(split_at_nl(s).0 =~= s.subrange(0, 0));
        assert(s.drop_first() =~= s.subrange(1, s.len() as int));
    } else {
        let t = s.drop_first();
        assert(t[i - 1] == 10u8);
        assert forall|k: int| 0 <= k < i - 1 implies t[k] != 10u8 by {
            assert(t[k] == s[k + 1]);
        }
        lemma_split_at_nl_at(t, i - 1);
        assert(seq![s[0]] + t.subrange(0, i - 1) =~= s.subrange(0, i));
        assert(t.subrange(i, t.len() as int) =~= s.subrange(i + 1, s.len() as int));
    }
}

/// Splits a payload at its first newline.  The name bytes must be UTF-8 to
/// come back as a string; a payload without a newline yields an empty name
/// and the payload unchanged.
pub fn split_payload(payload: Vec<u8>) -> (r: Result<(Vec<u8>, String), Error>)
    ensures
        r is Ok <==> valid_utf8(split_payload_spec(payload@).0),
        r is Ok ==> r.unwrap().0@ == split_payload_spec(payload@).1,
        r is Ok ==> r.unwrap().1@ == decode_utf8(split_payload_spec(payload@).0),
        r is Err ==> r.unwrap_err() is Decode,
{
    let len = payload.len();
    let mut i: usize = 0;
    while i < len && payload[i] != 10u8
        invariant
            i <= len,
            len == payload@.len(),
            forall|k: int| 0 <= k < i ==> payload@[k] != 10u8,
        decreases len - i,
    {
        i = i + 1;
    }
    if i == len {
        // no newline: empty name, whole payload as content
        proof {
            assert(!has_nl(payload@));
            assert(valid_utf8(Seq::<u8>::empty()));
            assert(decode_utf8(Seq::<u8>::empty()) =~= Seq::<char>::empty());
        }
        return Ok((payload, String::new()));
    }
    proof {
        assert(has_nl(payload@));
        lemma_split_at_nl_at(payload@, i as int);
    }
    let mut name_bytes: Vec<u8> = Vec::new();
    let mut k: usize = 0;
    while k < i
        invariant
            k <= i < len,
            len == payload@.len(),
            name_bytes@ == payload@.subrange(0, k as int),
        decreases i - k,
    {
        name_bytes.push(payload[k]);
        k = k + 1;
        proof {
            assert(name_bytes@ =~= payload@.subrange(0, k as int));
        }
    }
    let mut content: Vec<u8> = Vec::new();
    let mut m: usize = i + 1;
    while m < len
        invariant
            i + 1 <= m <= len,
            len == payload@.len(),
            content@ == payload@.subrange(i + 1, m as int),
        decreases len - m,
    {
        content.push(payload[m]);
        m = m + 1;
        proof {
            assert(content@ =~= payload@.subrange(i + 1, m as int));
        }
    }
    match string_from_bytes(name_bytes) {
        Some(name) => Ok((content, name)),
        None => Err(Error::Decode(String::from_str("file name bytes are not valid UTF-8"))),
    }
}

// ---------------------------------------------------------------------------
// Chunking: the name-prefixed payload is cut into fixed-size spans, the last
// one possibly shorter.
// ---------------------------------------------------------------------------

/// `ceil(total / size)`, and 1 for an empty payload: even an empty upload
/// stores one (empty) chunk.
pub open spec fn chunk_count_spec(total: nat, size: nat) -> nat
    recommends
        size >= 1,
{
    if total == 0 {
        1
    } else {
        (((total + size - 1) as int) / (size as int)) as nat
    }
}

/// The spans of `payload` of length `size`, in order; the last may be short.
pub open spec fn chunks_of(payload: Seq<u8>, size: nat) -> Seq<Seq<u8>>
    decreases payload.len() when size >= 1
{
    if payload.len() <= size {
        seq![payload]
    } else {
        seq![payload.take(size as int)] + chunks_of(payload.skip(size as int), size)
    }
}

/// There are exactly `ceil(len / size)` chunks (one for an empty payload).
pub proof fn lemma_chunks_count(payload: Seq<u8>, size: nat)
    requires
        size >= 1,
    ensures
        chunks_of(payload, size).len() == chunk_count_spec(payload.len(), size),
    decreases payload.len(),
{
    let l = payload.len() as int;
    let s = size as int;
    if payload.len() <= size {
        if payload.len() > 0 {
            assert(0 <= l - 1 < s);
            assert((l - 1) / s == 0) by {
                vstd::arithmetic::div_mod::lemma_basic_div(l - 1, s);
            }
            lemma_div_plus_one(l - 1, s);
            assert((s + (l - 1)) / s == 1);
            assert(l + s - 1 == s + (l - 1));
        }
    } else {
        let rest = payload.skip(s);
        lemma_chunks_count(rest, size);
        assert(rest.len() == l - s);
        assert(chunk_count_spec(rest.len(), size) == ((l - s) + s - 1) / s);
        lemma_div_plus_one(l - 1, s);
        assert((s + (l - 1)) / s == (l - 1) / s + 1);
        assert(l + s - 1 == s + (l - 1));
        assert((l - s) + s - 1 == l - 1);
    }
}

/// The chunk count of an upload of `data` under `name` is
/// `ceil((len(data) + len(name bytes) + 1) / size)` — never less than 1,
/// since the name prefix and its newline make the payload non-empty.
pub proof fn lemma_upload_chunk_count(name: Seq<char>, data: Seq<u8>, size: nat)
    requires
        size >= 1,
    ensures
        chunks_of(encoded_payload(name, data), size).len() == chunk_count_spec(
            (encode_utf8(name).len() + 1 + data.len()) as nat,
            size,
        ),
        chunks_of(encoded_payload(name, data), size).len() >= 1,
{
    assert(encoded_payload(name, data).len() == encode_utf8(name).len() + 1 + data.len());
    lemma_chunks_count(encoded_payload(name, data), size);
    let total = encoded_payload(name, data).len();
    let l = total as int;
    let s = size as int;
    assert((l + s - 1) / s >= 1) by {
        vstd::arithmetic::div_mod::lemma_div_is_ordered(s, l + s - 1, s);
        vstd::arithmetic::div_mod::lemma_div_by_self(s);
    }
}

/// Concatenating the chunks in order gives back the payload.
pub proof fn lemma_chunks_flatten(payload: Seq<u8>, size: nat)
    requires
        size >= 1,
    ensures
        chunks_of(payload, size).flatten() == payload,
    decreases payload.len(),
{
    if payload.len() <= size {
        seq![payload].lemma_flatten_one_element();
    } else {
        let head = payload.take(size as int);
        let rest = payload.skip(size as int);
        lemma_chunks_flatten(rest, size);
        lemma_flatten_concat(seq![head], chunks_of(rest, size));
        seq![head].lemma_flatten_one_element();
        assert(head + rest =~= payload);
    }
}

/// Cuts the payload into chunks of `size` bytes, the last possibly shorter;
/// an empty payload yields one empty chunk.
pub fn split_chunks(payload: &Vec<u8>, size: usize) -> (r: Vec<Vec<u8>>)
    requires
        size >= 1,
    ensures
        r@.map_values(|c: Vec<u8>| c@) == chunks_of(payload@, size as nat),
{
    let mut r: Vec<Vec<u8>> = Vec::new();
    let len = payload.len();
    if len == 0 {
        r.push(Vec::new());
        proof {
            assert(r@.map_values(|c: Vec<u8>| c@) =~~= chunks_of(payload@, size as nat));
        }
        return r;
    }
    proof {
        assert(payload@.skip(0) =~= payload@);
        assert(r@.map_values(|c: Vec<u8>| c@) =~= Seq::<Seq<u8>>::empty());
        assert(Seq::<Seq<u8>>::empty() + chunks_of(payload@, size as nat) =~= chunks_of(
            payload@,
            size as nat,
        ));
    }
    let mut start: usize = 0;
    while start < len
        invariant
            size >= 1,
            len == payload@.len(),
            start <= len,
            start == len ==> r@.map_values(|c: Vec<u8>| c@) == chunks_of(payload@, size as nat),
            start < len ==> chunks_of(payload@, size as nat) == r@.map_values(|c: Vec<u8>| c@)
                + chunks_of(payload@.skip(start as int), size as nat),
        decreases len - start,
    {
        let ghost prev = r@.map_values(|c: Vec<u8>| c@);
        let ghost rem = payload@.skip(start as int);
        let end = if len - start > size {
            start + size
        } else {
            len
        };
        let mut chunk: Vec<u8> = Vec::new();
        let mut j = start;
        while j < end
            invariant
                start <= j <= end <= len,
                len == payload@.len(),
                chunk@ == payload@.subrange(start as int, j as int),
            decreases end - j,
        {
            chunk.push(payload[j]);
            j = j + 1;
            proof {
                assert(chunk@ =~= payload@.subrange(start as int, j as int));
            }
        }
        let ghost chunkv = chunk@;
        proof {
            if len - start > size {
                assert(rem.take(size as int) =~= payload@.subrange(start as int, end as int));
                assert(rem.skip(size as int) =~= payload@.skip(end as int));
                assert(chunks_of(rem, size as nat) == seq![chunkv] + chunks_of(
                    payload@.skip(end as int),
                    size as nat,
                ));
                assert(prev + chunks_of(rem, size as nat) =~= prev.push(chunkv) + chunks_of(
                    payload@.skip(end as int),
                    size as nat,
                ));
            } else {
                assert(rem =~= payload@.subrange(start as int, end as int));
                assert(chunks_of(rem, size as nat) == seq![chunkv]);
                assert(prev + chunks_of(rem, size as nat) =~= prev.push(chunkv));
            }
        }
        r.push(chunk);
        start = end;
        proof {
            assert(r@.map_values(|c: Vec<u8>| c@) =~= prev.push(chunkv));
        }
    }
    r
}

// ---------------------------------------------------------------------------
// Reassembly: chunk fetches may complete in any order; each result is tagged
// with its index, and concatenation follows ascending index regardless.
// ---------------------------------------------------------------------------

pub open spec fn arrival_views(parts: Seq<(usize, Vec<u8>)>) -> Seq<(usize, Seq<u8>)> {
    parts.map_values(|p: (usize, Vec<u8>)| (p.0, p.1@))
}

pub open spec fn has_index(parts: Seq<(usize, Seq<u8>)>, i: int) -> bool {
    exists|j: int| 0 <= j < parts.len() && parts[j].0 == i
}

/// The bytes tagged with index `i` (well defined when indices are distinct).
pub open spec fn part_at(parts: Seq<(usize, Seq<u8>)>, i: int) -> Seq<u8>
    recommends
        has_index(parts, i),
{
    let j = choose|j: int| 0 <= j < parts.len() && parts[j].0 == i;
    parts[j].1
}

pub open spec fn distinct_indices(parts: Seq<(usize, Seq<u8>)>) -> bool {
    forall|j: int, k: int| 0 <= j < k < parts.len() ==> parts[j].0 != parts[k].0
}

/// With distinct indices, `part_at` returns the bytes of whichever entry
/// carries the index.
proof fn lemma_part_at_unique(parts: Seq<(usize, Seq<u8>)>, i: int, j: int)
    requires
        distinct_indices(parts),
        0 <= j < parts.len(),
        parts[j].0 == i,
    ensures
        part_at(parts, i) == parts[j].1,
{
    assert(has_index(parts, i));
    let k = choose|k: int| 0 <= k < parts.len() && parts[k].0 == i;
    if k != j {
        if k < j {
            assert(parts[k].0 != parts[j].0);
        } else {
            assert(parts[j].0 != parts[k].0);
        }
        assert(false);
    }
}

/// A complete arrival of `n` chunk results: one result for each index below
/// `n`, and nothing else.
pub open spec fn arrival_ok(parts: Seq<(usize, Seq<u8>)>, n: nat) -> bool {
    &&& parts.len() == n
    &&& distinct_indices(parts)
    &&& forall|j: int| 0 <= j < parts.len() ==> (#[trigger] parts[j].0) < n
    &&& forall|i: int| 0 <= i < n ==> has_index(parts, i)
}

/// The reassembled bytes: the parts concatenated in ascending index order,
/// whatever order they arrived in.
pub open spec fn assembled(parts: Seq<(usize, Seq<u8>)>, n: nat) -> Seq<u8> {
    Seq::new(n, |i: int| part_at(parts, i)).flatten()
}

/// Places each index-tagged result into its slot and concatenates the slots
/// in ascending index order.  Returns `None` unless the results carry each
/// index below `n` exactly once.
pub fn assemble_chunks(parts: &Vec<(usize, Vec<u8>)>, n: usize) -> (r: Option<Vec<u8>>)
    ensures
        r is Some <==> arrival_ok(arrival_views(parts@), n as nat),
        r is Some ==> r.unwrap()@ == assembled(arrival_views(parts@), n as nat),
{
    let ghost pv = arrival_views(parts@);
    if parts.len() != n {
        return None;
    }
    let mut seen: Vec<bool> = Vec::new();
    let mut t: usize = 0;
    while t < n
        invariant
            t <= n,
            seen@.len() == t,
            forall|q: int| 0 <= q < t ==> !seen@[q],
        decreases n - t,
    {
        seen.push(false);
        t = t + 1;
    }
    let mut k: usize = 0;
    while k < parts.len()
        invariant
            n == pv.len(),
            parts@.len() == n,
            pv == arrival_views(parts@),
            seen@.len() == n,
            k <= n,
            forall|j1: int, j2: int| 0 <= j1 < j2 < k ==> pv[j1].0 != pv[j2].0,
            forall|j: int| 0 <= j < k ==> (#[trigger] pv[j].0) < n,
            forall|q: int|
                0 <= q < n ==> ((#[trigger] seen@[q]) <==> exists|j: int|
                    0 <= j < k && pv[j].0 == q),
        decreases parts@.len() - k,
    {
        let idx = parts[k].0;
        proof {
            assert(pv[k as int].0 == idx);
        }
        if idx >= n {
            proof {
                assert(!arrival_ok(pv, n as nat));
            }
            return None;
        }
        if seen[idx] {
            proof {
                let j = choose|j: int| 0 <= j < k && pv[j].0 == idx as int;
                assert(0 <= j < k && pv[j].0 == idx as int);
                assert(0 <= j < k < pv.len() && pv[j].0 == pv[k as int].0);
                assert(!distinct_indices(pv));
            }
            return None;
        }
        seen.set(idx, true);
        k = k + 1;
    }
    proof {
        assert(distinct_indices(pv));
    }
    let mut i: usize = 0;
    while i < n
        invariant
            n == pv.len(),
            parts@.len() == n,
            pv == arrival_views(parts@),
            seen@.len() == n,
            i <= n,
            forall|q: int| 0 <= q < i ==> seen@[q],
            forall|q: int|
                0 <= q < n ==> ((#[trigger] seen@[q]) <==> exists|j: int|
                    0 <= j < pv.len() && pv[j].0 == q),
        decreases n - i,
    {
        if !seen[i] {
            proof {
                assert(!has_index(pv, i as int));
                assert(!arrival_ok(pv, n as nat));
            }
            return None;
        }
        i = i + 1;
    }
    proof {
        assert forall|q: int| 0 <= q < n implies has_index(pv, q) by {
            assert(seen@[q]);
        }
        assert(arrival_ok(pv, n as nat));
    }
    let mut out: Vec<u8> = Vec::new();
    let mut i2: usize = 0;
    while i2 < n
        invariant
            n == pv.len(),
            parts@.len() == n,
            pv == arrival_views(parts@),
            arrival_ok(pv, n as nat),
            i2 <= n,
            out@ == Seq::new(i2 as nat, |q: int| part_at(pv, q)).flatten(),
        decreases n - i2,
    {
        let ghost prev_out = out@;
        let mut j: usize = 0;
        while j < parts.len() && parts[j].0 != i2
            invariant
                parts@.len() == n,
                pv == arrival_views(parts@),
                j <= n,
                forall|t2: int| 0 <= t2 < j ==> pv[t2].0 != i2 as int,
            decreases parts@.len() - j,
        {
            proof {
                assert(pv[j as int].0 == arrival_views(parts@)[j as int].0);
            }
            j = j + 1;
        }
        proof {
            assert(has_index(pv, i2 as int));
            if j >= parts.len() {
                let w = choose|w: int| 0 <= w < pv.len() && pv[w].0 == i2 as int;
                assert(pv[w].0 == i2 as int);
                assert(false);
            }
            assert(pv[j as int].0 == i2 as int);
            lemma_part_at_unique(pv, i2 as int, j as int);
        }
        let v: &Vec<u8> = &parts[j].1;
        proof {
            assert(v@ == pv[j as int].1);
        }
        let mut u: usize = 0;
        while u < v.len()
            invariant
                u <= v@.len(),
                out@ == prev_out + v@.take(u as int),
            decreases v@.len() - u,
        {
            out.push(v[u]);
            u = u + 1;
            proof {
                assert(out@ =~= prev_out + v@.take(u as int));
            }
        }
        proof {
            assert(v@.take(v@.len() as int) =~= v@);
            let f = |q: int| part_at(pv, q);
            assert(Seq::new((i2 + 1) as nat, f) =~= Seq::new(i2 as nat, f).push(f(i2 as int)));
            Seq::new(i2 as nat, f).lemma_flatten_push(f(i2 as int));
            assert(out@ == Seq::new((i2 + 1) as nat, f).flatten());
        }
        i2 = i2 + 1;
    }
    proof {
        assert(out@ == assembled(pv, n as nat));
    }
    Some(out)
}

// ---------------------------------------------------------------------------
// Laws of the wire format.
// ---------------------------------------------------------------------------

/// The newline byte never occurs in the UTF-8 encoding of a text that does
/// not contain the newline character.
pub proof fn lemma_no_nl_in_encoding(name: Seq<char>)
    requires
        !name.contains('\n'),
    ensures
        forall|i: int| 0 <= i < encode_utf8(name).len() ==> encode_utf8(name)[i] != 10u8,
    decreases name.len(),
{
    if name.len() > 0 {
        let c = name[0];
        let s = c as u32;
        let head = encode_scalar(s);
        assert forall|i: int| 0 <= i < head.len() implies head[i] != 10u8 by {
            vstd::utf8::char_is_scalar(c);
            if has_width_1_encoding(s) {
                assert(leading_byte_width_1(s) == (s & 0x7F) as u8);
                assert(s <= 0x7F ==> ((s & 0x7F) as u8 == 10u8 ==> s == 10)) by (bit_vector);
                if s == 10 {
                    vstd::utf8::char_u32_cast(c, 10u32);
                    assert(c == '\n');
                    assert(name.contains('\n'));
                    assert(false);
                }
            } else {
                assert((0xC0u8 | (((s >> 6) & 0x1F) as u8)) != 10u8) by (bit_vector);
                assert((0xE0u8 | (((s >> 12) & 0x0F) as u8)) != 10u8) by (bit_vector);
                assert((0xF0u8 | (((s >> 18) & 0x7) as u8)) != 10u8) by (bit_vector);
                assert((0x80u8 | ((s & 0x3F) as u8)) != 10u8) by (bit_vector);
                assert((0x80u8 | (((s >> 6) & 0x3F) as u8)) != 10u8) by (bit_vector);
                assert((0x80u8 | (((s >> 12) & 0x3F) as u8)) != 10u8) by (bit_vector);
                assert(leading_byte_width_2(s) == 0xC0u8 | (((s >> 6) & 0x1F) as u8));
                assert(leading_byte_width_3(s) == 0xE0u8 | (((s >> 12) & 0x0F) as u8));
                assert(leading_byte_width_4(s) == 0xF0u8 | (((s >> 18) & 0x7) as u8));
                assert(last_continuation_byte(s) == 0x80u8 | ((s & 0x3F) as u8));
                assert(second_last_continuation_byte(s) == 0x80u8 | (((s >> 6) & 0x3F) as u8));
                assert(third_last_continuation_byte(s) == 0x80u8 | (((s >> 12) & 0x3F) as u8));
            }
        }
        let tail = name.drop_first();
        assert forall|k: int| 0 <= k < tail.len() implies tail[k] != '\n' by {
            assert(tail[k] == name[k + 1]);
            assert(!name.contains('\n'));
        }
        assert(!tail.contains('\n'));
        lemma_no_nl_in_encoding(tail);
        assert forall|i: int| 0 <= i < encode_utf8(name).len() implies encode_utf8(name)[i]
            != 10u8 by {
            if i < head.len() {
                assert(encode_utf8(name)[i] == head[i]);
            } else {
                assert(encode_utf8(name)[i] == encode_utf8(tail)[i - head.len()]);
            }
        }
    }
}

/// Splitting `a + [newline] + d` at the first newline gives `(a, d)` when
/// `a` itself holds no newline byte.
proof fn lemma_split_of_framed(a: Seq<u8>, d: Seq<u8>)
    requires
        forall|i: int| 0 <= i < a.len() ==> a[i] != 10u8,
    ensures
        has_nl(a + seq![10u8] + d),
        split_at_nl(a + seq![10u8] + d).0 == a,
        split_at_nl(a + seq![10u8] + d).1 == d,
{
    let s = a + seq![10u8] + d;
    let i = a.len() as int;
    assert(s[i] == 10u8);
    assert forall|k: int| 0 <= k < i implies s[k] != 10u8 by {
        assert(s[k] == a[k]);
    }
    lemma_split_at_nl_at(s, i);
    assert(s.subrange(0, i) =~= a);
    assert(s.subrange(i + 1, s.len() as int) =~= d);
}

/// Round trip of the wire format: a name without newline characters and any
/// payload come back exactly from the name-prefixed encoding.
pub proof fn lemma_payload_round_trip(name: Seq<char>, data: Seq<u8>)
    requires
        !name.contains('\n'),
    ensures
        valid_utf8(split_payload_spec(encoded_payload(name, data)).0),
        decode_utf8(split_payload_spec(encoded_payload(name, data)).0) == name,
        split_payload_spec(encoded_payload(name, data)).1 == data,
{
    lemma_no_nl_in_encoding(name);
    lemma_split_of_framed(encode_utf8(name), data);
    encode_utf8_valid_utf8(name);
    encode_utf8_decode_utf8(name);
}

/// Reassembly is order-independent: two complete arrivals made of the same
/// index-tagged results assemble to the same bytes, in index order.
pub proof fn lemma_assembly_order_irrelevant(
    one: Seq<(usize, Seq<u8>)>,
    other: Seq<(usize, Seq<u8>)>,
    n: nat,
)
    requires
        arrival_ok(one, n),
        arrival_ok(other, n),
        forall|j: int| 0 <= j < other.len() ==> one.contains(#[trigger] other[j]),
    ensures
        assembled(other, n) == assembled(one, n),
{
    assert forall|i: int| 0 <= i < n implies part_at(other, i) == part_at(one, i) by {
        assert(has_index(other, i));
        let jo = choose|j: int| 0 <= j < other.len() && other[j].0 == i;
        assert(0 <= jo < other.len() && other[jo].0 == i);
        assert(one.contains(other[jo]));
        let j1 = choose|j: int| 0 <= j < one.len() && one[j] == other[jo];
        assert(0 <= j1 < one.len() && one[j1] == other[jo]);
        lemma_part_at_unique(one, i, j1);
        lemma_part_at_unique(other, i, jo);
    }
    assert(Seq::new(n, |i: int| part_at(other, i)) =~= Seq::new(n, |i: int| part_at(one, i)));
}

/// The whole round trip: chunk a name-prefixed payload, let the chunk
/// fetches complete in any order, reassemble by index, split at the first
/// newline — the original name and bytes come back.
pub proof fn lemma_upload_download_round_trip(
    name: Seq<char>,
    data: Seq<u8>,
    size: nat,
    arrival: Seq<(usize, Seq<u8>)>,
)
    requires
        !name.contains('\n'),
        size >= 1,
        arrival_ok(arrival, chunks_of(encoded_payload(name, data), size).len() as nat),
        forall|i: int|
            0 <= i < chunks_of(encoded_payload(name, data), size).len() ==> part_at(arrival, i)
                == chunks_of(encoded_payload(name, data), size)[i],
    ensures
        assembled(arrival, chunks_of(encoded_payload(name, data), size).len() as nat)
            == encoded_payload(name, data),
        valid_utf8(split_payload_spec(encoded_payload(name, data)).0),
        decode_utf8(split_payload_spec(encoded_payload(name, data)).0) == name,
        split_payload_spec(encoded_payload(name, data)).1 == data,
{
    let payload = encoded_payload(name, data);
    let cs = chunks_of(payload, size);
    assert(Seq::new(cs.len() as nat, |i: int| part_at(arrival, i)) =~= cs);
    lemma_chunks_flatten(payload, size);
    lemma_payload_round_trip(name, data);
}

} // verus!
