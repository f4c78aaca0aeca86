//! The rules by which a file counts as a geotagged photograph.
use vstd::prelude::*;

verus! {

/// `extension`, already in lower case, is one that photographs carry.
pub open spec fn accepted(extension: Seq<char>) -> bool {
    ||| extension == "jpg"@
    ||| extension == "jpeg"@
    ||| extension == "heif"@
    ||| extension == "heic"@
    ||| extension == "tiff"@
    ||| extension == "png"@
    ||| extension == "raw"@
}

/// The lower-case form of `text` by the Unicode rules of the standard
/// library.
pub uninterp spec fn lowercase_of(text: Seq<char>) -> Seq<char>;

/// `str::to_lowercase`: the lower-case form of `text`, which depends on the
/// text alone.
#[verifier::external_body]
fn lowered(text: &str) -> (lower: String)
    ensures
        lower@ == lowercase_of(text@),
{
    text.to_lowercase()
}

/// Whether `extension`, in lower case, is one that photographs carry.
pub fn is_accepted_extension(extension: &String) -> (is_image: bool)
    ensures
        is_image == accepted(extension@),
{
    *extension == "jpg".to_owned() || *extension == "jpeg".to_owned() || *extension
        == "heif".to_owned() || *extension == "heic".to_owned() || *extension == "tiff".to_owned()
        || *extension == "png".to_owned() || *extension == "raw".to_owned()
}

/// Whether a file with the extension `extension`, in whatever case, is taken
/// for a photograph.
pub fn is_image(extension: &str) -> (is_image: bool)
    ensures
        is_image == accepted(lowercase_of(extension@)),
{
    is_accepted_extension(&lowered(extension))
}

/// Whether a directory entry is looked into for a location: all but those
/// that carry a photograph's extension and are no file.
pub fn is_candidate(is_file: bool, is_image: bool) -> (candidate: bool)
    ensures
        candidate == (is_file || !is_image),
{
    is_file || !is_image
}

/// The upper-case form of an ASCII letter; any other byte as it is.
pub open spec fn upper(byte: u8) -> u8 {
    if 97 <= byte <= 122 {
        (byte - 32) as u8
    } else {
        byte
    }
}

/// The sign of a coordinate whose reference letter is `reference`: plus one
/// where it is `positive`, minus one where it is `negative`, in either case
/// of the letter. `positive` and `negative` are upper-case letters.
pub fn hemisphere_sign(reference: u8, positive: u8, negative: u8) -> (sign: Option<i8>)
    ensures
        sign == if upper(reference) == positive {
            Some(1i8)
        } else if upper(reference) == negative {
            Some(-1i8)
        } else {
            None
        },
{
    let letter = if 97 <= reference && reference <= 122 {
        reference - 32
    } else {
        reference
    };
    if letter == positive {
        Some(1)
    } else if letter == negative {
        Some(-1)
    } else {
        None
    }
}

/// The sign of a latitude by its reference letter: north is positive.
pub fn latitude_sign(reference: u8) -> (sign: Option<i8>)
    ensures
        sign == if upper(reference) == 78 {
            Some(1i8)
        } else if upper(reference) == 83 {
            Some(-1i8)
        } else {
            None
        },
{
    hemisphere_sign(reference, 78, 83)
}

/// The sign of a longitude by its reference letter: east is positive.
pub fn longitude_sign(reference: u8) -> (sign: Option<i8>)
    ensures
        sign == if upper(reference) == 69 {
            Some(1i8)
        } else if upper(reference) == 87 {
            Some(-1i8)
        } else {
            None
        },
{
    hemisphere_sign(reference, 69, 87)
}

} // verus!
