//! An image-backed orchestration kernel for long-lived wasm-defined objects.
//!
//! The library covers the logic of the kernel: the wire codec that reads and
//! writes wasm modules at the section level, the rewriter that turns an
//! imported module into a self-contained instance template, the snapshot
//! protocol that moves state between a template and a live instance, the
//! image store with its namespace and link constraints, the message router,
//! and the guest-side mailbox. Everything here is verified; the surrounding
//! engine, file and terminal plumbing lives outside the library.

use vstd::prelude::*;

pub mod leb;
pub mod wasm;
pub mod decode;
pub mod encode;
pub mod rewrite;
pub mod snapshot;
pub mod image;
pub mod mailbox;
pub mod router;
pub mod executors;

verus! {

/// Faults of the kernel itself: namespace conflicts, missing objects,
/// referential-integrity refusals, and modules the rewriter does not accept.
#[derive(Debug)]
pub enum OthismoError {
    ImageAlreadyExists,
    ObjectAlreadyExists,
    ObjectDoesNotExist,
    ObjectNotFree,
    UnsupportedModuleDefinition(String),
    AbiViolation(String),
}

/// Faults of the wire codec: a byte string that is not a module this codec
/// can read back byte-identically.
#[derive(Debug)]
pub enum DecodeError {
    UnexpectedEnd,
    NonCanonical,
    IntegerTooLarge,
    BadTag,
    SectionSizeMismatch,
    TrailingBytes,
    BadMagic,
    InitTypeMismatch,
}

/// Faults of the wire codec when writing: a section grew past what a wasm
/// size field can carry.
#[derive(Debug)]
pub enum EncodeError {
    SectionTooLarge,
}

/// The error type of the kernel's fallible operations.
#[derive(Debug)]
pub enum Errors {
    Othismo(OthismoError),
    Decode(DecodeError),
    Encode(EncodeError),
}

/// A routed message: an opaque byte payload, by convention a BSON document
/// whose top-level `othismo` sub-document carries the routing header.
#[derive(Clone, Debug)]
pub struct Message {
    bytes: Vec<u8>,
}

impl View for Message {
    type V = Seq<u8>;

    /// The payload as a mathematical byte sequence.
    closed spec fn view(&self) -> Seq<u8> {
        self.bytes@
    }
}

impl Message {
    pub fn new(bytes: Vec<u8>) -> (r: Message)
        ensures
            r@ == bytes@,
    {
        Message { bytes }
    }

    pub fn bytes(&self) -> (r: &[u8])
        ensures
            r@ == self@,
    {
        self.bytes.as_slice()
    }
}

} // verus!
