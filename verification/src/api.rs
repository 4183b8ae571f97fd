//! The decisions of the HTTP interface: who may upload, what an upload is,
//! which block size it gets, and how a name is answered.

use crate::decode::decode;
use crate::decode::decoded;
use crate::decode::resolve;
use crate::decode::resolved;
use crate::decode::DecodeError;
use crate::decode::Fault;
use crate::encode::capability_of;
use crate::encode::ciphertexts;
use crate::encode::encode;
use crate::encode::encoded;
use crate::encode::well_addressed;
use crate::roundtrip::collision_free;
use crate::roundtrip::no_zero_reference;
use crate::text::begins_with;
use crate::text::marker_at;
use crate::text::same_text;
use crate::types::BlockSize;
use crate::types::BlockWithReference;
use crate::types::ReadCapability;
use crate::urn::capability_urn;
use crate::urn::urn_capability;
use crate::urn::urn_reference;
use crate::urn::urn_to_ref;
use subtle::ConstantTimeEq;
use vstd::prelude::*;

verus! {

/// Whether `bytes` is one JSON document, as `serde_json` reads it.
pub uninterp spec fn parses_as_json(bytes: Seq<u8>) -> bool;

/// Calls `serde_json::from_slice::<serde_json::Value>` and reports whether
/// it gave a value. Whether it does is a function of the bytes alone.
#[verifier::external_body]
fn is_json(bytes: &[u8]) -> (valid: bool)
    ensures
        valid == parses_as_json(bytes@),
{
    serde_json::from_slice::<serde_json::Value>(bytes).is_ok()
}

/// Calls `subtle::ConstantTimeEq::ct_eq` on two byte slices and turns the
/// `Choice` into a `bool`: true exactly when the slices are equal. The time
/// taken depends on the lengths only.
#[verifier::external_body]
fn constant_time_eq(a: &[u8], b: &[u8]) -> (same: bool)
    ensures
        same == (a@ == b@),
{
    a.ct_eq(b).into()
}

/// The path that takes uploads.
pub open spec fn upload_path() -> Seq<char> {
    "/uri-res/R2N"@
}

/// Whether a request may go on: only uploads need the token, and for them
/// the `Authorization` header must be present and equal to it.
pub open spec fn authorized(path: Seq<char>, header: Option<Seq<u8>>, token: Seq<u8>) -> bool {
    path != upload_path() || header == Some(token)
}

/// Decides whether a request may go on. The header is compared with the
/// token in constant time.
pub fn authenticate(path: &str, header: Option<&[u8]>, token: &[u8]) -> (allowed: bool)
    ensures
        allowed == authorized(
            path@,
            match header {
                Some(h) => Some(h@),
                None => None,
            },
            token@,
        ),
{
    if !same_text(path, "/uri-res/R2N") {
        return true;
    }
    match header {
        Some(h) => constant_time_eq(h, token),
        None => false,
    }
}

/// The two kinds of upload.
#[derive(Clone, Copy, Debug, PartialEq, Eq, Structural)]
pub enum ContentKind {
    /// The whole body is one JSON document.
    Json,
    /// The first field of a multipart form is the payload.
    File,
}

/// The kind of upload that a `Content-Type` announces, if it is one that
/// is taken.
pub open spec fn content_kind(content_type: Option<Seq<char>>) -> Option<ContentKind> {
    match content_type {
        None => None,
        Some(t) => if marker_at(t, 0, "application/json"@) {
            Some(ContentKind::Json)
        } else if marker_at(t, 0, "multipart/form-data"@) {
            Some(ContentKind::File)
        } else {
            None
        },
    }
}

/// Reads the kind of an upload off its `Content-Type`; `None` stands for
/// an unsupported media type.
pub fn classify_content(content_type: Option<&str>) -> (kind: Option<ContentKind>)
    ensures
        kind == content_kind(
            match content_type {
                Some(t) => Some(t@),
                None => None,
            },
        ),
{
    match content_type {
        None => None,
        Some(t) => {
            if begins_with(t, "application/json") {
                Some(ContentKind::Json)
            } else if begins_with(t, "multipart/form-data") {
                Some(ContentKind::File)
            } else {
                None
            }
        },
    }
}

/// The block size for an upload: small blocks for a JSON document under
/// 1000 bytes, large blocks for everything else.
pub open spec fn block_size_for(kind: ContentKind, len: nat) -> BlockSize {
    if kind == ContentKind::Json && len < 1000 {
        BlockSize::Size1KiB
    } else {
        BlockSize::Size32KiB
    }
}

/// Chooses the block size for an upload.
pub fn choose_block_size(kind: ContentKind, len: usize) -> (size: BlockSize)
    ensures
        size == block_size_for(kind, len as nat),
{
    match kind {
        ContentKind::Json => if len < 1000 {
            BlockSize::Size1KiB
        } else {
            BlockSize::Size32KiB
        },
        ContentKind::File => BlockSize::Size32KiB,
    }
}

/// An answer to a request.
#[derive(Debug)]
pub enum Reply {
    /// 201: the content was encoded; the body is its capability URN.
    Created(String),
    /// 200: the body is the content, a JSON document.
    Json(Vec<u8>),
    /// 200: the body is the content or the block, as raw bytes.
    Bytes(Vec<u8>),
    /// 422: the content is not JSON although JSON was asked for.
    NotJson,
    /// 422: the name is neither a capability nor a bare reference.
    InvalidName,
    /// 404: the content was decoded but no form of it was asked for.
    NotAcceptable,
    /// 404: the capability could not be dereferenced.
    NotDereferenced(DecodeError),
    /// 404: the block could not be found.
    BlockNotFound,
    /// 415: the upload is of no kind that is taken.
    UnsupportedMedia,
    /// 401: the token is missing or wrong.
    Unauthorized,
}

impl Reply {
    /// The HTTP status of the answer.
    pub open spec fn spec_status(&self) -> u16 {
        match self {
            Reply::Created(_) => 201,
            Reply::Json(_) => 200,
            Reply::Bytes(_) => 200,
            Reply::NotJson => 422,
            Reply::InvalidName => 422,
            Reply::NotAcceptable => 404,
            Reply::NotDereferenced(_) => 404,
            Reply::BlockNotFound => 404,
            Reply::UnsupportedMedia => 415,
            Reply::Unauthorized => 401,
        }
    }

    /// The HTTP status of the answer.
    pub fn status(&self) -> (code: u16)
        ensures
            code == self.spec_status(),
    {
        match self {
            Reply::Created(_) => 201,
            Reply::Json(_) => 200,
            Reply::Bytes(_) => 200,
            Reply::NotJson => 422,
            Reply::InvalidName => 422,
            Reply::NotAcceptable => 404,
            Reply::NotDereferenced(_) => 404,
            Reply::BlockNotFound => 404,
            Reply::UnsupportedMedia => 415,
            Reply::Unauthorized => 401,
        }
    }
}

/// Encodes an upload: the block size is chosen from its kind and length,
/// the payload is encoded under `secret`, and the answer carries the
/// capability URN. The blocks are returned for the caller to persist and
/// announce; decoding the capability from them gives the payload back,
/// unless two of them collide or one is filed under the all-zero
/// reference.
pub fn resource_to_name(kind: ContentKind, payload: &[u8], secret: &[u8; 32]) -> (out: (
    Reply,
    Vec<BlockWithReference>,
))
    ensures
        ({
            let size = block_size_for(kind, payload@.len());
            let tree = encoded(payload@, secret@, size);
            &&& out.0 matches Reply::Created(urn)
            &&& urn@ == capability_urn(capability_of(tree, size))
            &&& urn_capability(urn@) == Some(capability_of(tree, size))
            &&& ciphertexts(out.1@) == tree.blocks
            &&& well_addressed(out.1@, size)
            &&& collision_free(out.1@) && no_zero_reference(out.1@) ==> decoded(
                out.1@,
                capability_of(tree, size),
            ) == Ok::<Seq<u8>, Fault>(payload@)
        }),
{
    let size = choose_block_size(kind, payload.len());
    let (capability, blocks) = encode(payload, secret, size);
    (Reply::Created(capability.to_urn()), blocks)
}

/// What a name in a query stands for.
#[derive(Clone, Copy, Debug)]
pub enum Name {
    /// A capability: the content it names is wanted.
    Capability(ReadCapability),
    /// A bare reference: the block it names is wanted, still encrypted.
    Reference([u8; 32]),
    /// Neither.
    Invalid,
}

/// Reads the name in a query: a capability if it is one, else a bare
/// reference if it is one.
pub fn parse_name(query: &String) -> (name: Name)
    ensures
        match name {
            Name::Capability(c) => urn_capability(query@) == Some(c@),
            Name::Reference(r) => urn_capability(query@).is_none() && urn_reference(query@)
                == Some(r@),
            Name::Invalid => urn_capability(query@).is_none() && urn_reference(query@).is_none(),
        },
{
    match ReadCapability::from_urn(query.clone()) {
        Some(c) => Name::Capability(c),
        None => match urn_to_ref(query.clone()) {
            Some(r) => Name::Reference(r),
            None => Name::Invalid,
        },
    }
}

/// The forms in which content can be asked for.
#[derive(Clone, Copy, Debug, PartialEq, Eq, Structural)]
pub enum Accept {
    Json,
    Octets,
    Other,
}

/// The form that an `Accept` header asks for.
pub open spec fn accept_of(header: Option<Seq<char>>) -> Accept {
    match header {
        Some(t) => if t == "application/json"@ {
            Accept::Json
        } else if t == "application/octet-stream"@ {
            Accept::Octets
        } else {
            Accept::Other
        },
        None => Accept::Other,
    }
}

/// Reads the form that an `Accept` header asks for.
pub fn classify_accept(header: Option<&str>) -> (accept: Accept)
    ensures
        accept == accept_of(
            match header {
                Some(t) => Some(t@),
                None => None,
            },
        ),
{
    match header {
        Some(t) => {
            if same_text(t, "application/json") {
                Accept::Json
            } else if same_text(t, "application/octet-stream") {
                Accept::Octets
            } else {
                Accept::Other
            }
        },
        None => Accept::Other,
    }
}

/// The answer for decoded content: as JSON if that was asked for and the
/// content is JSON, as raw bytes if those were asked for.
pub fn shape_content(accept: Accept, content: Vec<u8>, json: bool) -> (reply: Reply)
    ensures
        match accept {
            Accept::Json => if json {
                reply == Reply::Json(content)
            } else {
                reply is NotJson
            },
            Accept::Octets => reply == Reply::Bytes(content),
            Accept::Other => reply is NotAcceptable,
        },
{
    match accept {
        Accept::Json => if json {
            Reply::Json(content)
        } else {
            Reply::NotJson
        },
        Accept::Octets => Reply::Bytes(content),
        Accept::Other => Reply::NotAcceptable,
    }
}

/// What serving a name has come to: an answer, or a block that must be
/// fetched before the name can be served.
#[derive(Debug)]
pub enum Served {
    Reply(Reply),
    /// This block is not at hand. Once it is, serve the name again; if it
    /// cannot be had, the answer is `Reply::BlockNotFound`.
    Need([u8; 32]),
}

/// Serves a name from the blocks at hand.
///
/// A capability is decoded; if a block is missing, that block is asked
/// for; another failure is answered as not dereferenced; content is shaped
/// by what `accept` asks for. A bare reference is answered with the block
/// filed under it, or that block is asked for. Anything else is an invalid
/// name.
pub fn name_to_resource(query: &String, accept: Accept, blocks: &[BlockWithReference]) -> (served:
    Served)
    ensures
        match urn_capability(query@) {
            Some(c) => match decoded(blocks@, c) {
                Ok(content) => match accept {
                    Accept::Json => if parses_as_json(content) {
                        served matches Served::Reply(Reply::Json(body)) && body@ == content
                    } else {
                        served matches Served::Reply(Reply::NotJson)
                    },
                    Accept::Octets => served matches Served::Reply(Reply::Bytes(body)) && body@
                        == content,
                    Accept::Other => served matches Served::Reply(Reply::NotAcceptable),
                },
                Err(Fault::BlockNotFound(r)) => served matches Served::Need(need) && need@ == r,
                Err(fault) => served matches Served::Reply(Reply::NotDereferenced(e)) && e@
                    == fault,
            },
            None => match urn_reference(query@) {
                Some(r) => match resolved(blocks@, r) {
                    Some(block) => served matches Served::Reply(Reply::Bytes(body)) && body@
                        == block,
                    None => served matches Served::Need(need) && need@ == r,
                },
                None => served matches Served::Reply(Reply::InvalidName),
            },
        },
{
    match parse_name(query) {
        Name::Capability(c) => match decode(&c, blocks) {
            Ok(content) => {
                let json = is_json(content.as_slice());
                Served::Reply(shape_content(accept, content, json))
            },
            Err(DecodeError::BlockNotFound(r)) => Served::Need(r),
            Err(e) => Served::Reply(Reply::NotDereferenced(e)),
        },
        Name::Reference(r) => match resolve(blocks, &r) {
            Some(found) => Served::Reply(Reply::Bytes(found.block.clone())),
            None => Served::Need(r),
        },
        Name::Invalid => Served::Reply(Reply::InvalidName),
    }
}

} // verus!
