use vstd::prelude::*;

use crate::encoding::{b64_encode, base64_encode};

verus! {

/// One span of a file entry: an encoding key into the key map, optionally
/// with the content key and size, and the base64 forms of the keys.
#[derive(Debug)]
pub struct SpanInfo {
    /// The binary content key, when present.
    pub content_key: Option<Vec<u8>>,
    /// The binary encoding key.
    pub encoding_key: Vec<u8>,
    /// The size of the span, when known.
    pub size: Option<usize>,
    /// The base64-encoded content key, when present.
    pub base64_content_key: Option<String>,
    /// The base64-encoded encoding key.
    pub base64_encoding_key: String,
}

impl SpanInfo {
    /// A span holding just an encoding key.
    pub fn new_with_encoding_key(e_key: Vec<u8>) -> (r: SpanInfo)
        ensures
            r.encoding_key@ == e_key@,
            r.base64_encoding_key@ == b64_encode(e_key@),
            r.content_key is None,
            r.size is None,
            r.base64_content_key is None,
    {
        let base64_encoding_key = base64_encode(e_key.as_slice());
        SpanInfo {
            content_key: None,
            encoding_key: e_key,
            size: None,
            base64_content_key: None,
            base64_encoding_key,
        }
    }

    /// A span holding a content key, an encoding key and a size.
    pub fn new_with_content_key(c_key: Vec<u8>, e_key: Vec<u8>, size: usize) -> (r: SpanInfo)
        ensures
            r.encoding_key@ == e_key@,
            r.base64_encoding_key@ == b64_encode(e_key@),
            r.content_key matches Some(k) && k@ == c_key@,
            r.base64_content_key matches Some(s) && s@ == b64_encode(c_key@),
            r.size == Some(size),
    {
        let base64_content_key = base64_encode(c_key.as_slice());
        let base64_encoding_key = base64_encode(e_key.as_slice());
        SpanInfo {
            content_key: Some(c_key),
            encoding_key: e_key,
            size: Some(size),
            base64_content_key: Some(base64_content_key),
            base64_encoding_key,
        }
    }
}

} // verus!
