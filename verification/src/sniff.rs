use vstd::prelude::*;

verus! {

/// The extension inferred from the leading bytes of an image: the JPEG,
/// PNG and GIF magic numbers are recognized; anything else is `None`.
pub open spec fn spec_infer_extension(data: Seq<u8>) -> Option<Seq<char>> {
    if data.len() >= 3 && data[0] == 0xFFu8 && data[1] == 0xD8u8 && data[2] == 0xFFu8 {
        Some("jpg"@)
    } else if data.len() >= 8 && data[0] == 0x89u8 && data[1] == 0x50u8 && data[2] == 0x4Eu8
        && data[3] == 0x47u8 && data[4] == 0x0Du8 && data[5] == 0x0Au8 && data[6] == 0x1Au8
        && data[7] == 0x0Au8 {
        Some("png"@)
    } else if data.len() >= 4 && data[0] == 0x47u8 && data[1] == 0x49u8 && data[2] == 0x46u8
        && data[3] == 0x38u8 {
        Some("gif"@)
    } else {
        None
    }
}

/// Classifies raw image bytes by their magic number: JPEG, PNG or GIF.
/// Unrecognized leading bytes yield `None` (callers fall back to "jpg").
pub fn infer_extension_from_data(data: &[u8]) -> (r: Option<&'static str>)
    ensures
        match r {
            Some(s) => spec_infer_extension(data@) == Some(s@),
            None => spec_infer_extension(data@) is None,
        },
{
    if data.len() >= 3 && data[0] == 0xFF && data[1] == 0xD8 && data[2] == 0xFF {
        Some("jpg")
    } else if data.len() >= 8 && data[0] == 0x89 && data[1] == 0x50 && data[2] == 0x4E
        && data[3] == 0x47 && data[4] == 0x0D && data[5] == 0x0A && data[6] == 0x1A
        && data[7] == 0x0A {
        Some("png")
    } else if data.len() >= 4 && data[0] == 0x47 && data[1] == 0x49 && data[2] == 0x46
        && data[3] == 0x38 {
        Some("gif")
    } else {
        None
    }
}

} // verus!
