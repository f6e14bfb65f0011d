use vstd::prelude::*;

use crate::entry::Entry;
use crate::error::CascError;
use crate::tvfs::{EntryV, TVFSRootHandler};

verus! {

/// The root handler of a storage; only the TVFS format is carried.
#[derive(Debug)]
pub enum RootHandler {
    /// A TVFS root.
    Tvfs(TVFSRootHandler),
}

impl RootHandler {
    /// The views of the entries the handler holds.
    pub open spec fn entries_view(&self) -> Seq<EntryV> {
        match self {
            RootHandler::Tvfs(h) => h.entries_view(),
        }
    }
}

/// What every root-format handler offers: its file entries.
pub trait RootHandlerTrait {
    /// The views of the entries the handler holds.
    spec fn entries_v(&self) -> Seq<EntryV>;

    /// The file entries, in traversal order.
    fn get_file_entries(&self) -> (r: Result<&Vec<Entry>, CascError>)
        ensures
            r is Ok,
            r matches Ok(v) ==> v@.len() == self.entries_v().len() && forall|i: int|
                0 <= i < v@.len() ==> crate::tvfs::entry_v(#[trigger] v@[i]) == self.entries_v()[i],
    ;
}

impl RootHandlerTrait for RootHandler {
    open spec fn entries_v(&self) -> Seq<EntryV> {
        self.entries_view()
    }

    fn get_file_entries(&self) -> (r: Result<&Vec<Entry>, CascError>)
        ensures
            r is Ok,
            r matches Ok(v) ==> v@.len() == self.entries_v().len() && forall|i: int|
                0 <= i < v@.len() ==> crate::tvfs::entry_v(#[trigger] v@[i]) == self.entries_v()[i],
    {
        match self {
            RootHandler::Tvfs(handler) => Ok(&handler.file_entries),
        }
    }
}

} // verus!
