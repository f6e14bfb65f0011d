use vstd::prelude::*;

use crate::span_info::SpanInfo;

verus! {

/// A file entry of the storage: its full name and the spans whose ordered
/// concatenation is the file's content.
#[derive(Debug)]
pub struct Entry {
    /// The full name of the file entry.
    pub name: String,
    /// The spans of the entry, in content order.
    pub spans: Vec<SpanInfo>,
}

impl Entry {
    /// An entry with the given name and spans.
    pub fn new_with_spans(name: String, spans: Vec<SpanInfo>) -> (r: Entry)
        ensures
            r.name@ == name@,
            r.spans == spans,
    {
        Entry { name, spans }
    }
}

} // verus!
