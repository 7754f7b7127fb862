use crate::Error;
use vstd::prelude::*;

verus! {

#[verifier::external_type_specification]
#[verifier::external_body]
pub struct ExMime(mime::Mime);

/// Whether `mime` parses `s` as a media type.
pub uninterp spec fn mime_accepts(s: Seq<char>) -> bool;

/// The top-level type of the media type `s`, as `mime` gives it (in lower case).
pub uninterp spec fn mime_top_of(s: Seq<char>) -> Seq<char>;

/// The value of the `boundary` parameter of the media type `s`, as `mime` gives it.
pub uninterp spec fn mime_boundary_of(s: Seq<char>) -> Option<Seq<char>>;

/// Relies on the `FromStr` impl of mime::Mime, then on mime::Mime::type_ and
/// mime::Mime::get_param(mime::BOUNDARY), with mime::Name::as_str to hand their results
/// out as text. Each depends on the text alone.
#[verifier::external_body]
fn media_type_parts(s: &str) -> (r: Result<(String, Option<String>), mime::FromStrError>)
    ensures
        r is Ok <==> mime_accepts(s@),
        r matches Ok((t, b)) ==> t@ == mime_top_of(s@) && match b {
            Some(b) => mime_boundary_of(s@) == Some(b@),
            None => mime_boundary_of(s@) is None,
        },
{
    s.parse::<mime::Mime>().map(
        |m|
            (
                m.type_().as_str().to_owned(),
                m.get_param(mime::BOUNDARY).map(|n| n.as_str().to_owned()),
            ),
    )
}

/// The boundary token, from the top-level type of a media type and its `boundary`
/// parameter: the type must be `multipart` and the parameter present.
pub fn boundary_from_media_type(top_type: &str, boundary: Option<&str>) -> (r: Result<
    String,
    Error,
>)
    ensures
        top_type@ != "multipart"@ ==> r matches Err(Error::NotMultipart),
        top_type@ == "multipart"@ ==> match boundary {
            None => r matches Err(Error::MalformedMultipart(_)),
            Some(b) => r matches Ok(t) && t@ == b@,
        },
{
    if top_type.to_owned() != "multipart".to_owned() {
        return Err(Error::NotMultipart);
    }
    match boundary {
        Some(b) => Ok(b.to_owned()),
        None => Err(Error::malformed("mime param boundary missing")),
    }
}

/// What reading the boundary token from a `Content-Type` value gives: no value means
/// the header is missing; then the value must be a media type, of type `multipart`,
/// with a `boundary` parameter, whose value is the token.
pub open spec fn boundary_outcome(content_type: Option<Seq<char>>, r: Result<String, Error>) -> bool {
    match content_type {
        None => r matches Err(Error::ContentTypeMissing),
        Some(s) => if !mime_accepts(s) {
            r matches Err(Error::InvalidMimeType(_))
        } else if mime_top_of(s) != "multipart"@ {
            r matches Err(Error::NotMultipart)
        } else {
            match mime_boundary_of(s) {
                None => r matches Err(Error::MalformedMultipart(_)),
                Some(b) => r matches Ok(t) && t@ == b,
            }
        },
    }
}

/// The boundary token that a `Content-Type` value names, where it names one.
pub open spec fn token_of(content_type: Option<Seq<char>>) -> Option<Seq<char>> {
    match content_type {
        None => None,
        Some(s) => if mime_accepts(s) && mime_top_of(s) == "multipart"@ {
            mime_boundary_of(s)
        } else {
            None
        },
    }
}

/// `e` is the error for a `Content-Type` value that names no boundary token.
pub open spec fn error_for(content_type: Option<Seq<char>>, e: Error) -> bool {
    match content_type {
        None => e is ContentTypeMissing,
        Some(s) => if !mime_accepts(s) {
            e is InvalidMimeType
        } else if mime_top_of(s) != "multipart"@ {
            e is NotMultipart
        } else {
            e is MalformedMultipart
        },
    }
}

/// The boundary token named by a `Content-Type` header value, if there is one.
pub fn boundary_from_content_type(content_type: Option<&str>) -> (r: Result<String, Error>)
    ensures
        boundary_outcome(
            match content_type {
                Some(s) => Some(s@),
                None => None,
            },
            r,
        ),
{
    let s = match content_type {
        None => return Err(Error::ContentTypeMissing),
        Some(s) => s,
    };
    match media_type_parts(s) {
        Err(e) => Err(Error::InvalidMimeType(e)),
        Ok((top, boundary)) => match boundary {
            Some(b) => boundary_from_media_type(top.as_str(), Some(b.as_str())),
            None => boundary_from_media_type(top.as_str(), None),
        },
    }
}

} // verus!
