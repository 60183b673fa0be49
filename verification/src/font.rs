use vstd::prelude::*;

verus! {

/// `fontdue::Font`, declared so that a parsed font can be handed back
/// through the search; nothing inside it is read here.
#[verifier::external_type_specification]
#[verifier::external_body]
pub struct ExFont(fontdue::Font);

/// Whether fontdue reads `bytes` as a font with its default settings.
pub uninterp spec fn font_bytes_parse(bytes: Seq<u8>) -> bool;

/// Calls `fontdue::Font::from_bytes` with the default settings. Trusted:
/// the font comes back exactly when fontdue reads the bytes as a font,
/// which depends on the bytes alone.
#[verifier::external_body]
fn parse_font(bytes: &[u8]) -> (font: Option<fontdue::Font>)
    ensures
        font is Some <==> font_bytes_parse(bytes@),
{
    fontdue::Font::from_bytes(bytes, fontdue::FontSettings::default()).ok()
}

/// How many system font families are tried.
pub const SYSTEM_FONT_FAMILY_COUNT: usize = 5;

/// The system font family tried at position `index`, in order of preference.
pub fn system_font_family(index: usize) -> (name: Option<&'static str>)
    ensures
        name is Some <==> index < SYSTEM_FONT_FAMILY_COUNT,
        name == match index {
            0 => Some("PingFang SC"),
            1 => Some("Helvetica Neue"),
            2 => Some("Arial"),
            3 => Some("Noto Sans CJK SC"),
            4 => Some("Noto Sans"),
            _ => None::<&'static str>,
        },
{
    match index {
        0 => Some("PingFang SC"),
        1 => Some("Helvetica Neue"),
        2 => Some("Arial"),
        3 => Some("Noto Sans CJK SC"),
        4 => Some("Noto Sans"),
        _ => None,
    }
}

/// What the system font search does next.
pub enum FontSearchStep {
    /// The candidate is a font: the search ends with it.
    Found(fontdue::Font),
    /// Try the family at this position.
    Next(usize),
}

/// One step of the system font search at family `index`: its font data, when
/// it could be had, ends the search if it reads as a font; otherwise the
/// search goes on with the next family.
pub fn font_search_step(index: usize, candidate: Option<&[u8]>) -> (step: FontSearchStep)
    requires
        index < usize::MAX,
    ensures
        match candidate {
            Some(bytes) => if font_bytes_parse(bytes@) {
                step is Found
            } else {
                step matches FontSearchStep::Next(next) && next == index + 1
            },
            None => step matches FontSearchStep::Next(next) && next == index + 1,
        },
{
    match candidate {
        Some(bytes) => match parse_font(bytes) {
            Some(font) => FontSearchStep::Found(font),
            None => FontSearchStep::Next(index + 1),
        },
        None => FontSearchStep::Next(index + 1),
    }
}

} // verus!
