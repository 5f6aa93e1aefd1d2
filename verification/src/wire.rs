//! Gossip wire framing: bounded reads of one message (a line over a stream,
//! or the whole of a subprocess's output), and the base64 text form of chunk
//! bytes carried in a chunks response.
use std::io::{self, BufRead, Read};
use std::string::FromUtf8Error;
use base64::engine::general_purpose::STANDARD;
use base64::{DecodeError, Engine};
use vstd::prelude::*;
use vstd::utf8::*;

use crate::manifest::{keys_distinct, lemma_to_map_char, lemma_to_map_push, lemma_to_map_update, to_map, Manifest};
use crate::strings::utf8;

verus! {

/// Bound on a single gossip message, a request or a response, whether framed
/// as one line or as the whole of a subprocess's output.
pub const MAX_MESSAGE_BYTES: usize = 256 * 1024 * 1024;

/// How many bytes a bounded read hands to the capped read: one more than the
/// bound, so that a message over the bound is seen to be over it rather than
/// cut at it.
pub fn read_limit() -> (c: u64)
    ensures
        c == MAX_MESSAGE_BYTES + 1,
{
    MAX_MESSAGE_BYTES as u64 + 1
}

/// `std::io::Error`, carried through opaquely.
#[verifier::external_type_specification]
#[verifier::external_body]
pub struct ExIoError(io::Error);

/// `std::string::FromUtf8Error`, carried through opaquely.
#[verifier::external_type_specification]
#[verifier::external_body]
pub struct ExFromUtf8Error(FromUtf8Error);

/// Why a bounded read gave no message.
#[derive(Debug)]
pub enum WireError {
    /// The message is longer than `MAX_MESSAGE_BYTES`: invalid data.
    TooLarge,
    /// The message is not UTF-8: invalid data, with the decoder's message.
    NotUtf8 { message: String },
    /// Reading failed; the reader's own error.
    Read(io::Error),
    /// The peer closed the connection before sending a line.
    Closed,
}

/// The text of the too-large error; it names the bound.
pub open spec fn too_large_text() -> Seq<char> {
    "gossip message exceeds MAX_MESSAGE_BYTES (268435456)"@
}

/// The text of the closed-connection error.
pub open spec fn closed_text() -> Seq<char> {
    "peer closed the connection"@
}

impl WireError {
    /// The error is about the data received (too large, or not UTF-8), not
    /// about reading it: `std::io::ErrorKind::InvalidData` at the I/O edge.
    pub fn is_invalid_data(&self) -> (r: bool)
        ensures
            r == (self is TooLarge || self is NotUtf8),
    {
        match self {
            WireError::TooLarge => true,
            WireError::NotUtf8 { .. } => true,
            _ => false,
        }
    }

    /// The peer closed the connection: `std::io::ErrorKind::UnexpectedEof`
    /// at the I/O edge.
    pub fn is_closed(&self) -> (r: bool)
        ensures
            r == (self is Closed),
    {
        match self {
            WireError::Closed => true,
            _ => false,
        }
    }

    /// The text of the error.
    pub fn message(&self) -> (r: String)
        ensures
            self is TooLarge ==> r@ == too_large_text(),
            self matches WireError::NotUtf8 { message } ==> r@ == message@,
            self matches WireError::Read(e) ==> vstd::string::to_string_from_display_ensures::<
                io::Error,
            >(&e, r),
            self is Closed ==> r@ == closed_text(),
    {
        match self {
            WireError::Closed => "peer closed the connection".to_owned(),
            WireError::TooLarge => "gossip message exceeds MAX_MESSAGE_BYTES (268435456)".to_owned(),
            WireError::NotUtf8 { message } => message.clone(),
            WireError::Read(e) => e.to_string(),
        }
    }
}

/// The error for a message over the bound.
fn too_large_err() -> (r: WireError)
    ensures
        r is TooLarge,
{
    WireError::TooLarge
}

/// `BufRead::read_line` on the reader limited by `Read::take(cap)`: reads up
/// to and including a newline, or to end of input, or until `cap` bytes have
/// been read, whichever comes first. What comes back depends on the reader;
/// a line that is returned is at most `cap` bytes long.
#[verifier::external_body]
fn read_line_capped<R: BufRead>(r: &mut R, cap: u64) -> (res: io::Result<String>)
    ensures
        res matches Ok(s) ==> utf8(s@).len() <= cap,
        res matches Ok(s) ==> one_line(s@),
{
    let mut line = String::new();
    r.take(cap).read_line(&mut line).map(|_| line)
}

/// `Read::read_to_end` on the reader limited by `Read::take(cap)`. What comes
/// back depends on the reader; bytes that are returned are at most `cap`.
#[verifier::external_body]
fn read_to_end_capped<R: Read>(r: &mut R, cap: u64) -> (res: io::Result<Vec<u8>>)
    ensures
        res matches Ok(b) ==> b@.len() <= cap,
{
    let mut buf = Vec::new();
    r.take(cap).read_to_end(&mut buf).map(|_| buf)
}

/// `String::from_utf8`: succeeds exactly on valid UTF-8, with the decoded text.
#[verifier::external_body]
fn string_from_utf8(buf: Vec<u8>) -> (res: Result<String, FromUtf8Error>)
    ensures
        res is Ok <==> valid_utf8(buf@),
        res matches Ok(s) ==> s@ == decode_utf8(buf@),
{
    String::from_utf8(buf)
}

/// At most one newline, and only as the last character.
pub open spec fn one_line(s: Seq<char>) -> bool {
    forall|i: int| 0 <= i < s.len() - 1 ==> s[i] != '\n'
}

/// What a bounded line read hands back, given what the capped read gave:
/// a line longer than `MAX_MESSAGE_BYTES` bytes is refused, a read error is
/// passed on, and any other line is returned as it is.
pub fn bound_line(read: io::Result<String>) -> (res: Result<String, WireError>)
    requires
        read matches Ok(s) ==> utf8(s@).len() <= usize::MAX,
    ensures
        match read {
            Err(e) => res matches Err(WireError::Read(e2)) && e2 == e,
            Ok(s) => if utf8(s@).len() > MAX_MESSAGE_BYTES {
                res matches Err(WireError::TooLarge)
            } else {
                res == Ok::<String, WireError>(s)
            },
        },
{
    match read {
        Err(e) => Err(WireError::Read(e)),
        Ok(line) => {
            if line.as_str().len() > MAX_MESSAGE_BYTES {
                Err(too_large_err())
            } else {
                Ok(line)
            }
        },
    }
}

/// Read one line (the trailing newline, if any, is included) from `r`,
/// erroring instead of growing without bound if no newline arrives within
/// `MAX_MESSAGE_BYTES`: at most `read_limit()` bytes are read, and
/// `bound_line` decides on what came back. An empty line (an immediately-closed connection) is
/// left to the caller.
pub fn read_bounded_line<R: BufRead>(r: &mut R) -> (res: Result<String, WireError>)
    ensures
        res matches Ok(s) ==> utf8(s@).len() <= MAX_MESSAGE_BYTES && one_line(s@),
{
    let read = read_line_capped(r, read_limit());
    bound_line(read)
}

/// A line from a peer, given what the bounded line read gave: an empty line
/// means the peer closed the connection; anything else is passed on.
pub fn expect_line(read: Result<String, WireError>) -> (res: Result<String, WireError>)
    ensures
        match read {
            Ok(s) => if s@.len() == 0 {
                res matches Err(WireError::Closed)
            } else {
                res == Ok::<String, WireError>(s)
            },
            Err(e) => res == Err::<String, WireError>(e),
        },
{
    match read {
        Ok(line) => {
            if line.as_str().is_empty() {
                Err(WireError::Closed)
            } else {
                Ok(line)
            }
        },
        Err(e) => Err(e),
    }
}

/// Read one line of a gossip exchange from `r`, bounded as
/// `read_bounded_line` is; a connection closed before any byte of the line
/// is an error rather than an empty line.
pub fn read_line<R: BufRead>(r: &mut R) -> (res: Result<String, WireError>)
    ensures
        res matches Ok(s) ==> 0 < s@.len() && utf8(s@).len() <= MAX_MESSAGE_BYTES && one_line(s@),
{
    expect_line(read_bounded_line(r))
}

/// What a bounded whole-input read hands back, given what the capped read
/// gave: more than `MAX_MESSAGE_BYTES` bytes are refused, bytes that are not
/// UTF-8 are refused, a read error is passed on, and otherwise the decoded
/// text is returned.
pub fn bound_to_string(read: io::Result<Vec<u8>>) -> (res: Result<String, WireError>)
    ensures
        match read {
            Err(e) => res matches Err(WireError::Read(e2)) && e2 == e,
            Ok(b) => if b@.len() > MAX_MESSAGE_BYTES {
                res matches Err(WireError::TooLarge)
            } else if !valid_utf8(b@) {
                res matches Err(WireError::NotUtf8 { .. })
            } else {
                res matches Ok(s) && s@ == decode_utf8(b@)
            },
        },
{
    match read {
        Err(e) => Err(WireError::Read(e)),
        Ok(buf) => {
            if buf.len() > MAX_MESSAGE_BYTES {
                Err(too_large_err())
            } else {
                match string_from_utf8(buf) {
                    Ok(s) => Ok(s),
                    Err(e) => Err(WireError::NotUtf8 { message: e.to_string() }),
                }
            }
        },
    }
}

/// Read all of `r` into a `String`, erroring instead of growing without
/// bound if the source produces more than `MAX_MESSAGE_BYTES` before end of
/// input, and erroring on bytes that are not UTF-8: at most `read_limit()`
/// bytes are read, and `bound_to_string` decides on what came back.
pub fn read_bounded_to_string<R: Read>(r: &mut R) -> (res: Result<String, WireError>)
    ensures
        res matches Ok(s) ==> utf8(s@).len() <= MAX_MESSAGE_BYTES,
{
    let read = read_to_end_capped(r, read_limit());
    let ghost bytes = read->Ok_0@;
    let res = bound_to_string(read);
    proof {
        if res is Ok {
            decode_utf8_encode_utf8(bytes);
        }
    }
    res
}


/// The standard (padded) base64 text of a byte string.
pub uninterp spec fn base64_text(bytes: Seq<u8>) -> Seq<char>;

/// The bytes that standard base64 text decodes to, or `None` where the text
/// is not valid standard base64.
pub uninterp spec fn base64_bytes(text: Seq<u8>) -> Option<Seq<u8>>;

/// `base64::DecodeError`, carried through opaquely.
#[verifier::external_type_specification]
#[verifier::external_body]
pub struct ExDecodeError(DecodeError);

/// The length of the standard (padded) base64 text of `n` bytes.
pub open spec fn base64_len(n: int) -> int {
    n / 3 * 4 + if n % 3 > 0 {
        4int
    } else {
        0int
    }
}

/// `Engine::encode` with the standard engine: the text decodes back to the
/// bytes with the same engine. It panics only when the length of the text
/// would overflow `usize`, which `requires` leaves out.
#[verifier::external_body]
fn base64_encode(bytes: &[u8]) -> (s: String)
    requires
        base64_len(bytes@.len() as int) <= usize::MAX,
    ensures
        s@ == base64_text(bytes@),
        base64_bytes(utf8(s@)) == Some(bytes@),
{
    STANDARD.encode(bytes)
}

/// `Engine::decode` with the standard engine.
#[verifier::external_body]
fn base64_decode(text: &[u8]) -> (r: Result<Vec<u8>, DecodeError>)
    ensures
        r is Ok <==> base64_bytes(text@) is Some,
        r matches Ok(b) ==> base64_bytes(text@) == Some(b@),
{
    STANDARD.decode(text)
}

/// Chunk bytes in a chunks response that are not valid base64.
pub enum PayloadError {
    NotBase64 { message: String },
}

/// The views of `(hash, bytes)` pairs.
pub open spec fn found_view(v: Seq<(String, Vec<u8>)>) -> Seq<(Seq<char>, Seq<u8>)> {
    v.map_values(|p: (String, Vec<u8>)| (p.0@, p.1@))
}

/// The views of `(hash, text)` pairs.
pub open spec fn texts_view(v: Seq<(String, String)>) -> Seq<(Seq<char>, Seq<char>)> {
    v.map_values(|p: (String, String)| (p.0@, p.1@))
}

/// `hash -> base64 text` of the found chunks; a hash found twice keeps the
/// bytes found last.
pub open spec fn payload_map(found: Seq<(Seq<char>, Seq<u8>)>) -> Map<Seq<char>, Seq<char>>
    decreases found.len(),
{
    if found.len() == 0 {
        Map::empty()
    } else {
        payload_map(found.drop_last()).insert(found.last().0, base64_text(found.last().1))
    }
}

/// Each text decodes, as standard base64, to the bytes kept for its hash.
pub open spec fn decodes_to(texts: Map<Seq<char>, Seq<char>>, bytes: Map<Seq<char>, Seq<u8>>) -> bool {
    &&& texts.dom() == bytes.dom()
    &&& forall|h: Seq<char>| #[trigger]
        texts.contains_key(h) ==> base64_bytes(utf8(texts[h])) == Some(bytes[h])
}

/// The chunks response for the chunks that were found: each hash once, with
/// the base64 text of its bytes (of the bytes found last, where a hash was
/// found twice).
pub fn encode_chunk_payloads(found: Vec<(String, Vec<u8>)>) -> (r: Vec<(String, String)>)
    requires
        forall|k: int| 0 <= k < found@.len() ==> base64_len(#[trigger] found@[k].1@.len() as int) <= usize::MAX,
    ensures
        keys_distinct(texts_view(r@)),
        to_map(texts_view(r@)) == payload_map(found_view(found@)),
        decodes_to(to_map(texts_view(r@)), to_map(found_view(found@))),
{
    let ghost fv = found_view(found@);
    let mut out: Vec<(String, String)> = Vec::new();
    let mut i: usize = 0;
    assert(texts_view(out@) =~= Seq::<(Seq<char>, Seq<char>)>::empty());
    assert(fv.take(0) =~= Seq::<(Seq<char>, Seq<u8>)>::empty());
    while i < found.len()
        invariant
            i <= found@.len(),
            fv == found_view(found@),
            forall|k: int| 0 <= k < found@.len() ==> base64_len(#[trigger] found@[k].1@.len() as int) <= usize::MAX,
            keys_distinct(texts_view(out@)),
            to_map(texts_view(out@)) == payload_map(fv.take(i as int)),
            decodes_to(to_map(texts_view(out@)), to_map(fv.take(i as int))),
        decreases found@.len() - i,
    {
        let text = base64_encode(found[i].1.as_slice());
        let hash = found[i].0.clone();
        let ghost old_out = texts_view(out@);
        proof {
            lemma_to_map_char(old_out);
        }
        let mut at: Option<usize> = None;
        let mut j: usize = 0;
        while j < out.len()
            invariant
                j <= out@.len(),
                old_out == texts_view(out@),
                at matches Some(x) ==> x < out@.len() && old_out[x as int].0 == hash@,
                at is None ==> forall|m: int| 0 <= m < j ==> old_out[m].0 != hash@,
            decreases out@.len() - j,
        {
            if at.is_none() && out[j].0 == hash {
                at = Some(j);
            }
            j = j + 1;
        }
        assert(fv.take(i + 1).drop_last() =~= fv.take(i as int));
        assert(fv[i as int] == (hash@, found@[i as int].1@));
        match at {
            Some(x) => {
                proof {
                    lemma_to_map_update(old_out, x as int, text@);
                }
                out.set(x, (hash, text));
                assert(texts_view(out@) =~= old_out.update(x as int, (old_out[x as int].0, text@)));
            },
            None => {
                assert(!to_map(old_out).contains_key(hash@)) by {
                    if to_map(old_out).contains_key(hash@) {
                        let m = choose|m: int| 0 <= m < old_out.len() && old_out[m].0 == hash@;
                    }
                }
                proof {
                    lemma_to_map_push(old_out, hash@, text@);
                }
                out.push((hash, text));
                assert(texts_view(out@) =~= old_out.push((hash@, text@)));
            },
        }
        i = i + 1;
    }
    assert(fv.take(found@.len() as int) =~= fv);
    out
}

/// The chunk bytes carried as base64 text in a chunks response.
pub fn decode_chunk_payload(text: &str) -> (r: Result<Vec<u8>, PayloadError>)
    ensures
        r is Ok <==> base64_bytes(utf8(text@)) is Some,
        r matches Ok(b) ==> base64_bytes(utf8(text@)) == Some(b@),
{
    match base64_decode(text.as_bytes()) {
        Ok(b) => Ok(b),
        Err(e) => Err(PayloadError::NotBase64 { message: e.to_string() }),
    }
}


/// One gossip request: a full manifest to merge, or the chunk hashes wanted.
pub enum GossipRequest {
    Manifest { manifest: Manifest },
    GetChunks { hashes: Vec<String> },
}

/// One gossip response: the responder's manifest, or `(hash, base64 bytes)`
/// for every requested chunk the responder has.
pub enum GossipResponse {
    Manifest { manifest: Manifest },
    Chunks { chunks: Vec<(String, String)> },
}


/// A message arrived out of turn in a gossip exchange.
#[derive(Debug, Clone, Copy, PartialEq, Eq, Structural)]
pub enum ProtocolError {
    ExpectedManifestResponse,
    ExpectedChunksResponse,
    ExpectedManifestRequestFirst,
    ExpectedGetChunksRequestSecond,
}

impl ProtocolError {
    /// The text of the error.
    pub fn message(&self) -> (r: String)
        ensures
            r@ == match *self {
                ProtocolError::ExpectedManifestResponse => "expected a manifest response"@,
                ProtocolError::ExpectedChunksResponse => "expected a chunks response"@,
                ProtocolError::ExpectedManifestRequestFirst => "expected a manifest request first"@,
                ProtocolError::ExpectedGetChunksRequestSecond => "expected a get_chunks request second"@,
            },
    {
        match *self {
            ProtocolError::ExpectedManifestResponse => "expected a manifest response".to_owned(),
            ProtocolError::ExpectedChunksResponse => "expected a chunks response".to_owned(),
            ProtocolError::ExpectedManifestRequestFirst => "expected a manifest request first".to_owned(),
            ProtocolError::ExpectedGetChunksRequestSecond => "expected a get_chunks request second".to_owned(),
        }
    }
}

/// The first reply of an exchange must carry the peer's manifest.
pub fn expect_manifest_response(resp: GossipResponse) -> (r: Result<Manifest, ProtocolError>)
    ensures
        match resp {
            GossipResponse::Manifest { manifest } => r == Ok::<Manifest, ProtocolError>(manifest),
            GossipResponse::Chunks { .. } => r == Err::<Manifest, ProtocolError>(
                ProtocolError::ExpectedManifestResponse,
            ),
        },
{
    match resp {
        GossipResponse::Manifest { manifest } => Ok(manifest),
        GossipResponse::Chunks { .. } => Err(ProtocolError::ExpectedManifestResponse),
    }
}

/// The second reply of an exchange must carry chunk bytes.
pub fn expect_chunks_response(resp: GossipResponse) -> (r: Result<Vec<(String, String)>, ProtocolError>)
    ensures
        match resp {
            GossipResponse::Chunks { chunks } => r == Ok::<Vec<(String, String)>, ProtocolError>(chunks),
            GossipResponse::Manifest { .. } => r == Err::<Vec<(String, String)>, ProtocolError>(
                ProtocolError::ExpectedChunksResponse,
            ),
        },
{
    match resp {
        GossipResponse::Chunks { chunks } => Ok(chunks),
        GossipResponse::Manifest { .. } => Err(ProtocolError::ExpectedChunksResponse),
    }
}

/// The first request of a streamed exchange must carry the peer's manifest.
pub fn expect_manifest_request(req: GossipRequest) -> (r: Result<Manifest, ProtocolError>)
    ensures
        match req {
            GossipRequest::Manifest { manifest } => r == Ok::<Manifest, ProtocolError>(manifest),
            GossipRequest::GetChunks { .. } => r == Err::<Manifest, ProtocolError>(
                ProtocolError::ExpectedManifestRequestFirst,
            ),
        },
{
    match req {
        GossipRequest::Manifest { manifest } => Ok(manifest),
        GossipRequest::GetChunks { .. } => Err(ProtocolError::ExpectedManifestRequestFirst),
    }
}

/// The chunk request of a dialled exchange: none when no chunk is missing
/// (the second dial is skipped), else a request for exactly the missing ones.
pub fn chunk_request(missing: Vec<String>) -> (r: Option<GossipRequest>)
    ensures
        missing@.len() == 0 ==> r is None,
        missing@.len() > 0 ==> (r matches Some(GossipRequest::GetChunks { hashes }) && hashes@
            == missing@),
{
    if missing.len() == 0 {
        None
    } else {
        Some(GossipRequest::GetChunks { hashes: missing })
    }
}

/// The second request of a streamed exchange must ask for chunks.
pub fn expect_get_chunks_request(req: GossipRequest) -> (r: Result<Vec<String>, ProtocolError>)
    ensures
        match req {
            GossipRequest::GetChunks { hashes } => r == Ok::<Vec<String>, ProtocolError>(hashes),
            GossipRequest::Manifest { .. } => r == Err::<Vec<String>, ProtocolError>(
                ProtocolError::ExpectedGetChunksRequestSecond,
            ),
        },
{
    match req {
        GossipRequest::GetChunks { hashes } => Ok(hashes),
        GossipRequest::Manifest { .. } => Err(ProtocolError::ExpectedGetChunksRequestSecond),
    }
}

} // verus!
