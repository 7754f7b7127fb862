use vstd::prelude::*;

verus! {

#[verifier::external_type_specification]
#[verifier::external_body]
pub struct ExMimeFromStrError(mime::FromStrError);

/// Everything that can go wrong while setting up or decoding a multipart stream.
#[derive(Debug)]
pub enum Error {
    /// The headers carry no `Content-Type`.
    ContentTypeMissing,
    /// The `Content-Type` names a type other than `multipart`.
    NotMultipart,
    /// The framing of the stream is broken, or its configuration is incomplete.
    MalformedMultipart(String),
    /// The `Content-Type` value is not a media type.
    InvalidMimeType(mime::FromStrError),
    /// The byte source failed; its description.
    InnerStream(String),
}

impl Error {
    pub(crate) fn malformed(msg: &str) -> (r: Error)
        ensures
            r matches Error::MalformedMultipart(m) && m@ == msg@,
    {
        Error::MalformedMultipart(msg.to_owned())
    }

    /// A short, fixed description of the kind of error.
    pub fn description(&self) -> (r: &'static str)
        ensures
            self is ContentTypeMissing ==> r@
                == "Content type header was missing from http response"@,
            self is MalformedMultipart ==> r@ == "Ran into errors when parsing multipart"@,
            self is NotMultipart ==> r@ == "The Http response was not a multipart"@,
            self is InvalidMimeType ==> r@
                == "Value of the Content Type header contained an invalid mime type"@,
            self is InnerStream ==> r@ == "Http error thrown by the underlying layer"@,
    {
        match self {
            Error::ContentTypeMissing => "Content type header was missing from http response",
            Error::MalformedMultipart(_) => "Ran into errors when parsing multipart",
            Error::NotMultipart => "The Http response was not a multipart",
            Error::InvalidMimeType(_) => {
                "Value of the Content Type header contained an invalid mime type"
            },
            Error::InnerStream(_) => "Http error thrown by the underlying layer",
        }
    }
}

} // verus!
