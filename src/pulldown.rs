//! The parts of `pulldown_cmark` that the parser reads, made known to Verus.
use pulldown_cmark::CodeBlockKind as BlockKind;
use vstd::prelude::*;

verus! {

#[verifier::external_type_specification]
#[verifier::external_body]
pub struct ExInlineStr(pulldown_cmark::InlineStr);

#[verifier::external_type_specification]
pub struct ExCowStr<'a>(pulldown_cmark::CowStr<'a>);

#[verifier::external_type_specification]
pub struct ExHeadingLevel(pulldown_cmark::HeadingLevel);

#[verifier::external_type_specification]
pub struct ExBlockQuoteKind(pulldown_cmark::BlockQuoteKind);

#[verifier::external_type_specification]
pub struct ExAlignment(pulldown_cmark::Alignment);

#[verifier::external_type_specification]
pub struct ExLinkType(pulldown_cmark::LinkType);

#[verifier::external_type_specification]
pub struct ExMetadataBlockKind(pulldown_cmark::MetadataBlockKind);

#[verifier::external_type_specification]
pub struct ExBlockKind<'a>(BlockKind<'a>);

#[verifier::external_type_specification]
pub struct ExTag<'a>(pulldown_cmark::Tag<'a>);

#[verifier::external_type_specification]
pub struct ExTagEnd(pulldown_cmark::TagEnd);

#[verifier::external_type_specification]
pub struct ExEvent<'a>(pulldown_cmark::Event<'a>);

/// Relies on the derived `Clone` of the `Copy` type `HeadingLevel`, which copies the value.
pub assume_specification[ <pulldown_cmark::HeadingLevel as std::clone::Clone>::clone ](
    x: &pulldown_cmark::HeadingLevel,
) -> (r: pulldown_cmark::HeadingLevel)
    ensures
        r == *x,
;

/// Relies on the derived `Clone` of the `Copy` type `Alignment`, which copies the value.
pub assume_specification[ <pulldown_cmark::Alignment as std::clone::Clone>::clone ](
    x: &pulldown_cmark::Alignment,
) -> (r: pulldown_cmark::Alignment)
    ensures
        r == *x,
;

/// Relies on the derived `Clone` of the `Copy` type `LinkType`, which copies the value.
pub assume_specification[ <pulldown_cmark::LinkType as std::clone::Clone>::clone ](
    x: &pulldown_cmark::LinkType,
) -> (r: pulldown_cmark::LinkType)
    ensures
        r == *x,
;

/// Relies on the derived `Clone` of the `Copy` type `MetadataBlockKind`, which copies the value.
pub assume_specification[ <pulldown_cmark::MetadataBlockKind as std::clone::Clone>::clone ](
    x: &pulldown_cmark::MetadataBlockKind,
) -> (r: pulldown_cmark::MetadataBlockKind)
    ensures
        r == *x,
;

/// Relies on the derived `Clone` of the `Copy` type `TagEnd`, which copies the value.
pub assume_specification[ <pulldown_cmark::TagEnd as std::clone::Clone>::clone ](
    x: &pulldown_cmark::TagEnd,
) -> (r: pulldown_cmark::TagEnd)
    ensures
        r == *x,
;

/// `s` holds the characters of `c`. The characters of an inlined string are not
/// visible to the verifier, so any owned string is accepted for one.
pub open spec fn holds_cow(s: String, c: pulldown_cmark::CowStr<'_>) -> bool {
    match c {
        pulldown_cmark::CowStr::Boxed(b) => s@ == b@,
        pulldown_cmark::CowStr::Borrowed(b) => s@ == b@,
        pulldown_cmark::CowStr::Inlined(_) => true,
    }
}

/// Relies on `InlineStr`'s `Deref` to `str`: the owned copy of a short inline string.
#[verifier::external_body]
fn inline_string(s: &pulldown_cmark::InlineStr) -> String {
    std::ops::Deref::deref(s).to_owned()
}

/// An owned copy of the characters of `c`.
pub fn cow_string(c: &pulldown_cmark::CowStr<'_>) -> (r: String)
    ensures
        holds_cow(r, *c),
{
    match c {
        pulldown_cmark::CowStr::Boxed(b) => {
            let s: &str = b;
            s.to_owned()
        },
        pulldown_cmark::CowStr::Borrowed(b) => {
            let s: &str = b;
            s.to_owned()
        },
        pulldown_cmark::CowStr::Inlined(i) => inline_string(i),
    }
}

} // verus!
