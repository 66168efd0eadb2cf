//! A font parsed by `fontdue` from in-memory TrueType/OpenType bytes.

use vstd::prelude::*;

verus! {

#[verifier::external_type_specification]
#[verifier::external_body]
pub struct ExFontdueFont(fontdue::Font);

/// Whether `fontdue` accepts `bytes` as a font (with its default settings).
pub uninterp spec fn fontdue_parses(bytes: Seq<u8>) -> bool;

/// Calls `fontdue::Font::from_bytes` with `fontdue::FontSettings::default()`. Claimed: the call
/// succeeds exactly when `fontdue_parses` holds of the bytes, that is, whether it succeeds
/// depends on the bytes alone. What the parsed font holds is not stated.
#[verifier::external_body]
fn fontdue_from_bytes(bytes: Vec<u8>) -> (r: Option<fontdue::Font>)
    ensures
        r is Some <==> fontdue_parses(bytes@),
{
    fontdue::Font::from_bytes(bytes, fontdue::FontSettings::default()).ok()
}

/// A system or web font, parsed and ready to rasterize.
pub struct SystemFont {
    pub font: fontdue::Font,
}

impl SystemFont {
    /// Load a font from in-memory TrueType/OpenType bytes (a fetched `@font-face` `src`).
    /// Returns `None` if the bytes aren't a font `fontdue` can parse (e.g. `woff`/`woff2`,
    /// which are compressed wrappers that must be decoded first).
    pub fn from_bytes(bytes: Vec<u8>) -> (r: Option<SystemFont>)
        ensures
            r is Some <==> fontdue_parses(bytes@),
    {
        match fontdue_from_bytes(bytes) {
            Some(font) => Some(SystemFont { font }),
            None => None,
        }
    }
}

} // verus!
