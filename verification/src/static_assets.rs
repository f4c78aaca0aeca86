//! The files of the user interface that are served as text.
use vstd::prelude::*;
use vstd::utf8::{decode_utf8, valid_utf8};

verus! {

/// Path under which a file is served.
#[derive(Debug, PartialEq, Eq)]
pub struct WebPath(pub String);

/// Text of a served file.
#[derive(Debug, PartialEq, Eq)]
pub struct FileContent(pub String);

/// `std::str::from_utf8`: the text that `bytes` encode, or `None` where they
/// are not valid UTF-8.
#[verifier::external_body]
fn text_of(bytes: &[u8]) -> (text: Option<&str>)
    ensures
        match text {
            Some(text) => valid_utf8(bytes@) && text@ == decode_utf8(bytes@),
            None => !valid_utf8(bytes@),
        },
{
    std::str::from_utf8(bytes).ok()
}

/// Pairs every embedded file's path with its content as text.
pub fn get_assets(files: &Vec<(String, Vec<u8>)>) -> (assets: Vec<(WebPath, FileContent)>)
    requires
        forall|i: int| 0 <= i < files@.len() ==> valid_utf8((#[trigger] files@[i]).1@),
    ensures
        assets@.len() == files@.len(),
        forall|i: int|
            0 <= i < files@.len() ==> (#[trigger] assets@[i]).0.0@ == files@[i].0@
                && assets@[i].1.0@ == decode_utf8(files@[i].1@),
{
    let mut vec: Vec<(WebPath, FileContent)> = Vec::new();
    let mut k: usize = 0;
    while k < files.len()
        invariant
            k <= files@.len(),
            forall|i: int| 0 <= i < files@.len() ==> valid_utf8((#[trigger] files@[i]).1@),
            vec@.len() == k,
            forall|i: int|
                0 <= i < k ==> (#[trigger] vec@[i]).0.0@ == files@[i].0@ && vec@[i].1.0@
                    == decode_utf8(files@[i].1@),
        decreases files.len() - k,
    {
        let file = &files[k];
        let as_string = text_of(file.1.as_slice()).unwrap();
        vec.push((WebPath(file.0.clone()), FileContent(as_string.to_owned())));
        k += 1;
    }
    vec
}

} // verus!
