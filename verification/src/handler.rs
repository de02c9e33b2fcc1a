//! A log file's bytes made ready for shipping: validated name, decoded text.

use crate::codec::{base, decode_spec, DecodeError, FilenameCodec, IdentityModel, TaskIdentity};
use crate::text::file_name;
use vstd::prelude::*;
use vstd::utf8::{decode_utf8, encode_utf8, encode_utf8_decode_utf8, valid_utf8};

verus! {

/// Why bytes read from a file cannot be shipped.
#[derive(Clone, Copy, Debug, PartialEq, Eq, Structural)]
pub enum ReadError {
    /// The bytes are not UTF-8 text.
    NotText,
    /// There are more or fewer bytes than the range that was to be read.
    WrongLength,
}

/// Why no handler could be made for a file.
#[derive(Clone, Copy, Debug, PartialEq, Eq, Structural)]
pub enum HandlerError {
    /// The file's name carries no identity.
    Decode(DecodeError),
    /// The file's bytes cannot be shipped.
    Read(ReadError),
}

/// `String::from_utf8` of the standard library: the text that `bytes` encode.
///
/// Assumed of it, as its documentation says: it succeeds exactly on
/// well-formed UTF-8, and the string it then gives consists of the very
/// bytes it was given.
#[verifier::external_body]
fn text_from_utf8(bytes: Vec<u8>) -> (r: Option<String>)
    ensures
        r is Some <==> valid_utf8(bytes@),
        r matches Some(text) ==> encode_utf8(text@) == bytes@,
{
    match String::from_utf8(bytes) {
        Ok(text) => Some(text),
        Err(_) => None,
    }
}

/// What is sent for a file: where it lies, whose it is, and the text to ship.
#[derive(Clone, Debug, PartialEq, Eq)]
pub struct Log {
    pub filepath: String,
    pub uuid: String,
    pub content: String,
}

impl Log {
    /// A log of the file at `filepath` with the text that `content` encodes;
    /// none where `content` is not UTF-8.
    pub fn new(filepath: &str, uuid: &str, content: Vec<u8>) -> (r: Result<Log, ReadError>)
        ensures
            match r {
                Ok(log) => {
                    &&& valid_utf8(content@)
                    &&& log.filepath@ == filepath@
                    &&& log.uuid@ == uuid@
                    &&& log.content@ == decode_utf8(content@)
                    &&& encode_utf8(log.content@) == content@
                },
                Err(e) => e == ReadError::NotText && !valid_utf8(content@),
            },
    {
        match text_from_utf8(content) {
            Some(text) => {
                proof {
                    encode_utf8_decode_utf8(text@);
                }
                Ok(Log { filepath: filepath.to_owned(), uuid: uuid.to_owned(), content: text })
            },
            None => Err(ReadError::NotText),
        }
    }
}

/// What a `FileHandler` holds, as mathematical values.
pub struct HandlerModel {
    pub filepath: Seq<char>,
    pub identity: IdentityModel,
    pub content: Seq<char>,
}

/// A log file whose name was decoded and whose bytes were read as text.
#[derive(Debug)]
pub struct FileHandler {
    log: Log,
    identity: TaskIdentity,
    size: usize,
}

impl View for FileHandler {
    type V = HandlerModel;

    closed spec fn view(&self) -> HandlerModel {
        HandlerModel {
            filepath: self.log.filepath@,
            identity: self.identity@,
            content: self.log.content@,
        }
    }
}

impl FileHandler {
    #[verifier::type_invariant]
    spec fn well_formed(&self) -> bool {
        &&& decode_spec(file_name(self.log.filepath@)) == Ok::<IdentityModel, DecodeError>(
            self.identity@,
        )
        &&& self.log.uuid@ == self.identity@.uuid
        &&& self.size == encode_utf8(self.log.content@).len()
    }

    /// Makes the handler for the file at `filepath`, of which `content` was read.
    ///
    /// The file's name must decode, and `content` must be UTF-8; the name is
    /// looked at first.
    pub fn new(filepath: &str, content: Vec<u8>) -> (r: Result<FileHandler, HandlerError>)
        ensures
            match r {
                Ok(handler) => {
                    &&& decode_spec(file_name(filepath@)) == Ok::<IdentityModel, DecodeError>(
                        handler@.identity,
                    )
                    &&& valid_utf8(content@)
                    &&& handler@.filepath == filepath@
                    &&& handler@.content == decode_utf8(content@)
                    &&& encode_utf8(handler@.content) == content@
                },
                Err(HandlerError::Decode(e)) => decode_spec(file_name(filepath@)) == Err::<
                    IdentityModel,
                    DecodeError,
                >(e),
                Err(HandlerError::Read(e)) => {
                    &&& decode_spec(file_name(filepath@)) is Ok
                    &&& e == ReadError::NotText
                    &&& !valid_utf8(content@)
                },
            },
    {
        let name = base(filepath);
        let identity = match FilenameCodec::decode(name.as_str()) {
            Ok(identity) => identity,
            Err(e) => {
                return Err(HandlerError::Decode(e));
            },
        };
        let size = content.len();
        match Log::new(filepath, identity.uuid(), content) {
            Ok(log) => Ok(FileHandler { log, identity, size }),
            Err(e) => Err(HandlerError::Read(e)),
        }
    }

    /// The text to ship.
    pub fn conent(&self) -> (r: &str)
        ensures
            r@ == self@.content,
    {
        self.log.content.as_str()
    }

    /// The instance identifier that the file's name carries.
    pub fn uuid(&self) -> (r: &str)
        ensures
            r@ == self@.identity.uuid,
    {
        proof {
            use_type_invariant(self);
        }
        self.log.uuid.as_str()
    }

    /// The path of the file.
    pub fn filepath(&self) -> (r: &str)
        ensures
            r@ == self@.filepath,
    {
        self.log.filepath.as_str()
    }

    /// Whose log the file is: what its name decodes to.
    pub fn identity(&self) -> (r: &TaskIdentity)
        ensures
            r@ == self@.identity,
            decode_spec(file_name(self@.filepath)) == Ok::<IdentityModel, DecodeError>(r@),
    {
        proof {
            use_type_invariant(self);
        }
        &self.identity
    }

    /// The fields of the request body, each with its name: the text to ship
    /// as `content`, the instance identifier as `uuid`.
    pub fn payload<'a>(&'a self) -> (fields: Vec<(&'static str, &'a str)>)
        ensures
            fields@.len() == 2,
            fields@[0].0@ == "content"@,
            fields@[0].1@ == self@.content,
            fields@[1].0@ == "uuid"@,
            fields@[1].1@ == self@.identity.uuid,
    {
        proof {
            use_type_invariant(self);
        }
        let mut fields: Vec<(&'static str, &'a str)> = Vec::new();
        fields.push(("content", self.log.content.as_str()));
        fields.push(("uuid", self.log.uuid.as_str()));
        fields
    }

    /// How many bytes the text to ship takes up.
    pub fn content_len(&self) -> (n: usize)
        ensures
            n == encode_utf8(self@.content).len(),
    {
        proof {
            use_type_invariant(self);
        }
        self.size
    }
}

} // verus!
