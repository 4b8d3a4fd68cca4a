//! The convenience executors: the console process that absorbs envelopes at
//! the root of the namespace, and the echo process that answers each request
//! back to its sender.

use vstd::prelude::*;
use crate::{Errors, OthismoError};

verus! {

/// The reply address and request id of a payload's `othismo` header, as a
/// pure function of the bytes.
pub uninterp spec fn reply_fields_of_bytes(b: Seq<u8>) -> Option<(Seq<u8>, i64)>;

/// Relies on `bson::Document::from_reader`, `Document::get_document`,
/// `Document::get_str` and `Document::get_i64`: the `reply_to` string and
/// `request_id` of the top-level `othismo` sub-document, which depend on the
/// payload bytes alone.
#[verifier::external_body]
fn reply_fields_of(bytes: &[u8]) -> (r: Option<(Vec<u8>, i64)>)
    ensures
        match r {
            Some(p) => reply_fields_of_bytes(bytes@) == Some((p.0@, p.1)),
            None => reply_fields_of_bytes(bytes@) is None,
        },
{
    let doc = bson::Document::from_reader(&mut std::io::Cursor::new(bytes)).ok()?;
    let header = doc.get_document("othismo").ok()?;
    let reply_to = header.get_str("reply_to").ok()?.as_bytes().to_vec();
    let request_id = header.get_i64("request_id").ok()?;
    Some((reply_to, request_id))
}

/// The inbound document with its `othismo` header replaced by one that
/// addresses `send_to` and echoes `response_id`, written back to bytes; a
/// pure function of the three arguments.
pub uninterp spec fn response_of(b: Seq<u8>, send_to: Seq<u8>, response_id: i64) -> Option<
    Seq<u8>,
>;

/// Relies on `bson::Document::from_reader`, `Document::remove`,
/// `Document::insert` and `Document::to_writer`: every field of the inbound
/// document except the old header is carried over, and the result depends on
/// the arguments alone.
#[verifier::external_body]
fn replace_header(bytes: &[u8], send_to: &[u8], response_id: i64) -> (r: Option<Vec<u8>>)
    ensures
        match r {
            Some(v) => response_of(bytes@, send_to@, response_id) == Some(v@),
            None => response_of(bytes@, send_to@, response_id) is None,
        },
{
    let mut doc = bson::Document::from_reader(&mut std::io::Cursor::new(bytes)).ok()?;
    doc.remove("othismo");
    let mut header = bson::Document::new();
    header.insert("send_to", std::str::from_utf8(send_to).ok()?);
    header.insert("response_id", response_id);
    doc.insert("othismo", header);
    let mut out: Vec<u8> = Vec::new();
    doc.to_writer(&mut out).ok()?;
    Some(out)
}

/// The root process: it absorbs whatever reaches it. Writing the absorbed
/// document to the terminal is the surrounding program's concern.
pub struct ConsoleExecutor;

/// The echo process: every request it receives is answered back to the
/// request's `reply_to`, with the request id echoed as `response_id`.
pub struct EchoExecutor;

impl EchoExecutor {
    /// Build the reply for one inbound request.
    ///
    /// Succeeds exactly when the inbound header carries `reply_to` and
    /// `request_id` and the reply can be written; the reply is the inbound
    /// document re-addressed to the sender with the request id echoed.
    pub fn respond(inbound: &[u8]) -> (r: Result<Vec<u8>, Errors>)
        ensures
            match r {
                Ok(v) => reply_fields_of_bytes(inbound@) matches Some(f) && response_of(
                    inbound@,
                    f.0,
                    f.1,
                ) == Some(v@),
                Err(e) => {
                    &&& reply_fields_of_bytes(inbound@) is None ==> (e matches Errors::Othismo(
                        OthismoError::AbiViolation(t),
                    ) && t@ == "missing_reply_header"@)
                    &&& reply_fields_of_bytes(inbound@) matches Some(f) ==> (response_of(
                        inbound@,
                        f.0,
                        f.1,
                    ) is None && (e matches Errors::Othismo(OthismoError::AbiViolation(t))
                        && t@ == "unwritable_reply"@))
                },
            },
    {
        let (reply_to, request_id) = match reply_fields_of(inbound) {
            Some(p) => p,
            None => {
                return Err(Errors::Othismo(OthismoError::AbiViolation(
                    String::from_str("missing_reply_header"),
                )));
            },
        };
        match replace_header(inbound, reply_to.as_slice(), request_id) {
            Some(v) => Ok(v),
            None => Err(Errors::Othismo(OthismoError::AbiViolation(
                String::from_str("unwritable_reply"),
            ))),
        }
    }
}

} // verus!
