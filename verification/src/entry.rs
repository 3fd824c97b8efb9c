use vstd::prelude::*;

verus! {

/// What kind of file a directory entry names.
#[derive(Clone, Copy, Debug, PartialEq, Eq, Structural)]
pub enum FileKind {
    File,
    Dir,
    Symlink,
}

/// One entry of a directory, as a read of the directory reports it.
#[derive(Debug, PartialEq, Eq)]
pub struct DirEntry {
    /// The entry's name inside its directory.
    pub file_name: String,
    /// The entry's full path.
    pub path: String,
    pub kind: FileKind,
    pub size: u64,
    /// Time of the last modification, in seconds.
    pub modified: u64,
    /// Whether the user has marked the entry.
    pub selected: bool,
}

/// A directory entry as a mathematical value.
pub struct EntryView {
    pub file_name: Seq<char>,
    pub path: Seq<char>,
    pub kind: FileKind,
    pub size: u64,
    pub modified: u64,
    pub selected: bool,
}

impl View for DirEntry {
    type V = EntryView;

    open spec fn view(&self) -> EntryView {
        EntryView {
            file_name: self.file_name@,
            path: self.path@,
            kind: self.kind,
            size: self.size,
            modified: self.modified,
            selected: self.selected,
        }
    }
}

/// The views of the entries in `s`, in order.
pub open spec fn spec_entry_views(s: Seq<DirEntry>) -> Seq<EntryView> {
    Seq::new(s.len(), |i: int| s[i]@)
}

impl DirEntry {
    /// An unmarked entry with the given attributes.
    pub fn new(file_name: String, path: String, kind: FileKind, size: u64, modified: u64) -> (r:
        Self)
        ensures
            r == (DirEntry { file_name, path, kind, size, modified, selected: false }),
    {
        DirEntry { file_name, path, kind, size, modified, selected: false }
    }

    pub open spec fn spec_is_dir(&self) -> bool {
        self.kind == FileKind::Dir
    }

    /// Whether the entry names a directory.
    pub fn is_dir(&self) -> (r: bool)
        ensures
            r == self.spec_is_dir(),
    {
        match self.kind {
            FileKind::Dir => true,
            _ => false,
        }
    }
}

impl Clone for DirEntry {
    fn clone(&self) -> (r: Self)
        ensures
            r == *self,
    {
        DirEntry {
            file_name: self.file_name.clone(),
            path: self.path.clone(),
            kind: self.kind,
            size: self.size,
            modified: self.modified,
            selected: self.selected,
        }
    }
}

} // verus!
