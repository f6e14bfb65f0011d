use vstd::prelude::*;

verus! {

/// What the storage reports about one file: its name, its logical size,
/// and whether every span of it is present locally.
#[derive(Debug)]
pub struct CascFileInfo {
    file_name: String,
    file_size: i64,
    is_local: bool,
}

impl CascFileInfo {
    /// The name of the file.
    pub closed spec fn name_view(&self) -> Seq<char> {
        self.file_name@
    }

    /// The size of the file in bytes.
    pub closed spec fn size_view(&self) -> i64 {
        self.file_size
    }

    /// Whether the file is local to the storage.
    pub closed spec fn local_view(&self) -> bool {
        self.is_local
    }

    /// File information with the given name, size and locality.
    pub fn new(file_name: String, file_size: i64, is_local: bool) -> (r: CascFileInfo)
        ensures
            r.name_view() == file_name@,
            r.size_view() == file_size,
            r.local_view() == is_local,
    {
        CascFileInfo { file_name, file_size, is_local }
    }

    /// The name of the file.
    pub fn file_name(&self) -> (r: &str)
        ensures
            r@ == self.name_view(),
    {
        self.file_name.as_str()
    }

    /// Renames the file.
    pub fn set_file_name(&mut self, name: String)
        ensures
            final(self).name_view() == name@,
            final(self).size_view() == old(self).size_view(),
            final(self).local_view() == old(self).local_view(),
    {
        self.file_name = name;
    }

    /// The size of the file in bytes.
    pub fn file_size(&self) -> (r: i64)
        ensures
            r == self.size_view(),
    {
        self.file_size
    }

    /// Sets the size of the file in bytes.
    pub fn set_file_size(&mut self, size: i64)
        ensures
            final(self).size_view() == size,
            final(self).name_view() == old(self).name_view(),
            final(self).local_view() == old(self).local_view(),
    {
        self.file_size = size;
    }

    /// Whether the file is local to the storage.
    pub fn is_local(&self) -> (r: bool)
        ensures
            r == self.local_view(),
    {
        self.is_local
    }

    /// Sets whether the file is local to the storage.
    pub fn set_is_local(&mut self, is_local: bool)
        ensures
            final(self).local_view() == is_local,
            final(self).name_view() == old(self).name_view(),
            final(self).size_view() == old(self).size_view(),
    {
        self.is_local = is_local;
    }
}

} // verus!
