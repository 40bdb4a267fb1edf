//! What a web handler takes from a request that carries XML.

use crate::symbol::str_eq;
use vstd::prelude::*;

verus! {

/// A value that was decoded from the body of a request.
#[derive(Debug, Clone, Default)]
#[must_use]
pub struct RaxbXml<T>(pub T);

/// The request does not say that its body is XML.
#[derive(Debug, Clone, Copy, Default)]
pub struct MissingXmlContentType;


/// The type, the subtype and the suffix of a media type, in lower case, as
/// `mime::Mime` reads them; `None` for text that is no media type.
pub uninterp spec fn mime_of(s: Seq<char>) -> Option<(Seq<char>, Seq<char>, Option<Seq<char>>)>;

pub open spec fn mime_view(parts: Option<(String, String, Option<String>)>) -> Option<
    (Seq<char>, Seq<char>, Option<Seq<char>>),
> {
    match parts {
        Some((ty, subtype, Some(suffix))) => Some((ty@, subtype@, Some(suffix@))),
        Some((ty, subtype, None)) => Some((ty@, subtype@, None)),
        None => None,
    }
}

/// Reads a media type by the `FromStr` of `mime::Mime` and takes its type,
/// subtype and suffix.
#[verifier::external_body]
fn parse_mime(s: &str) -> (parts: Option<(String, String, Option<String>)>)
    ensures
        mime_view(parts) == mime_of(s@),
{
    let mime = s.parse::<mime::Mime>().ok()?;
    let suffix = mime.suffix().map(|name| name.as_str().to_owned());
    Some((mime.type_().as_str().to_owned(), mime.subtype().as_str().to_owned(), suffix))
}

/// Whether a media type says XML: its type is `application` and its subtype
/// or its suffix is `xml`.
pub open spec fn says_xml(parts: Option<(Seq<char>, Seq<char>, Option<Seq<char>>)>) -> bool {
    match parts {
        Some((ty, subtype, suffix)) => ty == "application"@ && (subtype == "xml"@ || suffix
            == Some("xml"@)),
        None => false,
    }
}

pub open spec fn suffix_view(suffix: Option<&str>) -> Option<Seq<char>> {
    match suffix {
        Some(name) => Some(name@),
        None => None,
    }
}

/// Whether a media type of this type, subtype and suffix says XML.
pub fn is_xml_media_type(ty: &str, subtype: &str, suffix: Option<&str>) -> (is_xml: bool)
    ensures
        is_xml == says_xml(Some((ty@, subtype@, suffix_view(suffix)))),
{
    str_eq(ty, "application") && (str_eq(subtype, "xml") || match suffix {
        Some(name) => str_eq(name, "xml"),
        None => false,
    })
}

/// Whether the value of a content-type header says that the body is XML.
pub fn xml_content_type(content_type: &str) -> (is_xml: bool)
    ensures
        is_xml == says_xml(mime_of(content_type@)),
{
    match parse_mime(content_type) {
        None => false,
        Some((ty, subtype, suffix)) => {
            let name = match &suffix {
                Some(name) => Some(name.as_str()),
                None => None,
            };
            is_xml_media_type(ty.as_str(), subtype.as_str(), name)
        },
    }
}

} // verus!
