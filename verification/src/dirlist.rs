use crate::entry::{spec_entry_views, DirEntry, EntryView, FileKind};
use crate::path::{join, spec_join};
use crate::sort::{lemma_sort_is_sorted, lemma_sort_permutes, sort_entries, spec_is_sorted, spec_sort, SortType};
use vstd::prelude::*;

verus! {

/// Why the filesystem refused a read, a stat or a change of directory.
#[derive(Clone, Copy, Debug, PartialEq, Eq, Structural)]
pub enum IoError {
    NotFound,
    PermissionDenied,
    NotADirectory,
    Other,
}

/// What a read of a directory reports of one entry.
#[derive(Clone, Debug, PartialEq, Eq)]
pub struct FileInfo {
    pub file_name: String,
    pub kind: FileKind,
    pub size: u64,
    /// Time of the last modification, in seconds.
    pub modified: u64,
}

/// What a successful read of a directory reports: its entries in no
/// particular order, and the directory's own modification marker.
#[derive(Clone, Debug, PartialEq, Eq)]
pub struct DirSnapshot {
    pub entries: Vec<FileInfo>,
    pub modified: u64,
}

impl DirSnapshot {
    /// Whether a cursor can index every entry.
    pub open spec fn spec_fits(&self) -> bool {
        self.entries@.len() <= i32::MAX
    }

    /// Tests whether a cursor can index every entry.
    pub fn fits(&self) -> (r: bool)
        ensures
            r == self.spec_fits(),
    {
        self.entries.len() <= 0x7fff_ffff
    }
}

/// What the filesystem shows of one directory at one moment.
#[derive(Debug)]
pub struct DirProbe {
    /// What a stat reports: the modification marker, or nothing where the
    /// directory is gone.
    pub marker: Option<u64>,
    /// What a read of the directory reports.
    pub read: Result<DirSnapshot, IoError>,
}

impl DirProbe {
    /// Whether a cursor can index every entry that was read.
    pub open spec fn spec_fits(&self) -> bool {
        self.read matches Ok(s) ==> s.spec_fits()
    }

    /// Tests whether a cursor can index every entry that was read.
    pub fn fits(&self) -> (r: bool)
        ensures
            r == self.spec_fits(),
    {
        match &self.read {
            Ok(s) => s.fits(),
            Err(_) => true,
        }
    }
}

/// The entry that a listing of `dir` holds for `info`.
pub open spec fn spec_entry_of(dir: Seq<char>, info: FileInfo) -> EntryView {
    EntryView {
        file_name: info.file_name@,
        path: spec_join(dir, info.file_name@),
        kind: info.kind,
        size: info.size,
        modified: info.modified,
        selected: false,
    }
}

/// The entries that a listing of `dir` holds for `infos`, in the order read.
pub open spec fn spec_snapshot_entries(dir: Seq<char>, infos: Seq<FileInfo>) -> Seq<EntryView> {
    Seq::new(infos.len(), |i: int| spec_entry_of(dir, infos[i]))
}

/// Position of the first entry of `c` with the path `path`, or -1.
pub open spec fn spec_position(c: Seq<EntryView>, path: Seq<char>) -> int
    decreases c.len(),
{
    if c.len() == 0 {
        -1
    } else if c[0].path == path {
        0
    } else {
        let r = spec_position(c.drop_first(), path);
        if r < 0 {
            -1
        } else {
            r + 1
        }
    }
}

/// A listing as a mathematical value.
pub struct ListView {
    pub path: Seq<char>,
    pub contents: Seq<EntryView>,
    pub index: int,
    pub update_needed: bool,
    pub modified: u64,
    pub sort: SortType,
}

/// A snapshot of one directory's entries with a cursor and a staleness flag.
#[derive(Debug)]
pub struct DirList {
    /// The directory that the listing describes.
    pub path: String,
    /// The entries, in the order of `sort`.
    pub contents: Vec<DirEntry>,
    /// The cursor: a position in `contents`, or -1 where there is none.
    pub index: i32,
    /// Set where the listing must be read again before it is used.
    pub update_needed: bool,
    /// The directory's modification marker at the time of the read.
    pub modified: u64,
    /// The ordering policy by which `contents` was ordered.
    pub sort: SortType,
}

impl View for DirList {
    type V = ListView;

    open spec fn view(&self) -> ListView {
        ListView {
            path: self.path@,
            contents: spec_entry_views(self.contents@),
            index: self.index as int,
            update_needed: self.update_needed,
            modified: self.modified,
            sort: self.sort,
        }
    }
}

/// The invariant of a listing: the cursor is on an entry, or -1 where there
/// is none; the entries are in the order of the policy last applied; each
/// entry lies in the listing's directory.
pub open spec fn spec_list_wf(v: ListView) -> bool {
    &&& v.contents.len() <= i32::MAX
    &&& if v.contents.len() == 0 {
        v.index == -1
    } else {
        0 <= v.index < v.contents.len()
    }
    &&& spec_is_sorted(v.contents, v.sort)
    &&& forall|i: int|
        0 <= i < v.contents.len() ==> (#[trigger] v.contents[i]).path == spec_join(
            v.path,
            v.contents[i].file_name,
        )
}

/// The listing that a first read of `dir` gives.
pub open spec fn spec_fresh(dir: Seq<char>, snapshot: DirSnapshot, sort: SortType) -> ListView {
    let contents = spec_sort(spec_snapshot_entries(dir, snapshot.entries@), sort);
    ListView {
        path: dir,
        contents,
        index: if contents.len() == 0 {
            -1
        } else {
            0
        },
        update_needed: false,
        modified: snapshot.modified,
        sort,
    }
}

/// Where the cursor of `old` stands once the entries are `contents`: on the
/// first entry with the path it was on, if there is one; else as near to its
/// old position as the new length allows.
pub open spec fn spec_cursor_after(old: ListView, contents: Seq<EntryView>) -> int {
    let kept = if 0 <= old.index < old.contents.len() {
        spec_position(contents, old.contents[old.index].path)
    } else {
        -1
    };
    if contents.len() == 0 {
        -1
    } else if kept >= 0 {
        kept
    } else if old.index < 0 {
        0
    } else if old.index >= contents.len() {
        contents.len() - 1
    } else {
        old.index
    }
}

/// The listing `old` after its directory was read again.
pub open spec fn spec_refreshed(old: ListView, snapshot: DirSnapshot, sort: SortType) -> ListView {
    let contents = spec_sort(spec_snapshot_entries(old.path, snapshot.entries@), sort);
    ListView {
        path: old.path,
        contents,
        index: spec_cursor_after(old, contents),
        update_needed: false,
        modified: snapshot.modified,
        sort,
    }
}

/// The listing that warms the cache for `dir`: a first listing, its cursor on
/// the first entry with the path `child` where there is one.
pub open spec fn spec_warmed(
    dir: Seq<char>,
    child: Seq<char>,
    snapshot: DirSnapshot,
    sort: SortType,
) -> ListView {
    let f = spec_fresh(dir, snapshot, sort);
    let p = spec_position(f.contents, child);
    ListView {
        index: if p >= 0 {
            p
        } else {
            f.index
        },
        ..f
    }
}

/// Whether a listing with the view `v` must be read again, given what a stat
/// of its directory reports now: its marker, or nothing where it is gone.
pub open spec fn spec_need_update(v: ListView, marker: Option<u64>) -> bool {
    v.update_needed || marker != Some(v.modified)
}

/// `spec_position` finds the first entry with the path.
pub proof fn lemma_position(c: Seq<EntryView>, path: Seq<char>)
    ensures
        -1 <= spec_position(c, path) < c.len(),
        spec_position(c, path) >= 0 ==> c[spec_position(c, path)].path == path,
        forall|k: int|
            0 <= k < c.len() && (k < spec_position(c, path) || spec_position(c, path) < 0) ==> (
            #[trigger] c[k]).path != path,
    decreases c.len(),
{
    if c.len() > 0 && c[0].path != path {
        let r = c.drop_first();
        lemma_position(r, path);
        assert forall|k: int|
            0 <= k < c.len() && (k < spec_position(c, path) || spec_position(c, path) < 0) implies (
        #[trigger] c[k]).path != path by {
            if k > 0 {
                assert(c[k] == r[k - 1]);
            }
        }
    }
}

/// A position that holds the path, with none before it, is what
/// `spec_position` gives.
pub proof fn lemma_position_is(c: Seq<EntryView>, path: Seq<char>, i: int)
    requires
        0 <= i <= c.len(),
        forall|k: int| 0 <= k < i ==> (#[trigger] c[k]).path != path,
        i < c.len() ==> c[i].path == path,
    ensures
        spec_position(c, path) == (if i < c.len() {
            i
        } else {
            -1
        }),
{
    lemma_position(c, path);
    let p = spec_position(c, path);
    if p >= 0 {
        assert(c[p].path == path);
    }
    if i < c.len() {
        assert(c[i].path == path);
    }
}

/// A first read gives a listing that meets the invariant.
pub proof fn lemma_fresh_wf(dir: Seq<char>, snapshot: DirSnapshot, sort: SortType)
    requires
        snapshot.spec_fits(),
    ensures
        spec_list_wf(spec_fresh(dir, snapshot, sort)),
{
    let raw = spec_snapshot_entries(dir, snapshot.entries@);
    let v = spec_fresh(dir, snapshot, sort);
    lemma_sort_is_sorted(raw, sort);
    lemma_sort_permutes(raw, sort);
    assert forall|i: int| 0 <= i < v.contents.len() implies (#[trigger] v.contents[i]).path
        == spec_join(v.path, v.contents[i].file_name) by {
        assert(v.contents.contains(v.contents[i]));
        assert(raw.contains(v.contents[i]));
    }
}

/// A read that refreshes a listing gives one that meets the invariant,
/// whatever the listing held before.
pub proof fn lemma_refreshed_wf(old: ListView, snapshot: DirSnapshot, sort: SortType)
    requires
        snapshot.spec_fits(),
    ensures
        spec_list_wf(spec_refreshed(old, snapshot, sort)),
{
    let raw = spec_snapshot_entries(old.path, snapshot.entries@);
    let v = spec_refreshed(old, snapshot, sort);
    lemma_sort_is_sorted(raw, sort);
    lemma_sort_permutes(raw, sort);
    assert forall|i: int| 0 <= i < v.contents.len() implies (#[trigger] v.contents[i]).path
        == spec_join(v.path, v.contents[i].file_name) by {
        assert(v.contents.contains(v.contents[i]));
        assert(raw.contains(v.contents[i]));
    }
    if 0 <= old.index < old.contents.len() {
        lemma_position(v.contents, old.contents[old.index].path);
    }
}

/// A read that refreshes a listing keeps the cursor on the entry it was on,
/// where the directory still holds an entry of that path. Where it does not,
/// the cursor is on some entry of the new listing, or on none if that is
/// empty.
pub proof fn lemma_cursor_kept(old: ListView, snapshot: DirSnapshot, sort: SortType)
    requires
        snapshot.spec_fits(),
        0 <= old.index < old.contents.len(),
    ensures
        ({
            let fresh = spec_refreshed(old, snapshot, sort);
            let on = old.contents[old.index].path;
            &&& (exists|k: int|
                0 <= k < snapshot.entries@.len() && spec_join(
                    old.path,
                    (#[trigger] snapshot.entries@[k]).file_name@,
                ) == on) ==> 0 <= fresh.index < fresh.contents.len()
                && fresh.contents[fresh.index].path == on
            &&& fresh.contents.len() > 0 ==> 0 <= fresh.index < fresh.contents.len()
            &&& fresh.contents.len() == 0 ==> fresh.index == -1
        }),
{
    let raw = spec_snapshot_entries(old.path, snapshot.entries@);
    let fresh = spec_refreshed(old, snapshot, sort);
    let on = old.contents[old.index].path;
    lemma_refreshed_wf(old, snapshot, sort);
    lemma_sort_permutes(raw, sort);
    lemma_position(fresh.contents, on);
    if exists|k: int|
        0 <= k < snapshot.entries@.len() && spec_join(
            old.path,
            (#[trigger] snapshot.entries@[k]).file_name@,
        ) == on {
        let k = choose|k: int|
            0 <= k < snapshot.entries@.len() && spec_join(
                old.path,
                (#[trigger] snapshot.entries@[k]).file_name@,
            ) == on;
        assert(raw[k].path == on);
        assert(raw.contains(raw[k]));
        assert(fresh.contents.contains(raw[k]));
        let j = choose|j: int| 0 <= j < fresh.contents.len() && fresh.contents[j] == raw[k];
        assert(fresh.contents[j].path == on);
    }
}

/// A listing that warms the cache has its cursor on the entry that leads
/// down to `child`, where the directory holds an entry of that path.
pub proof fn lemma_warmed_cursor(
    dir: Seq<char>,
    child: Seq<char>,
    snapshot: DirSnapshot,
    sort: SortType,
)
    requires
        snapshot.spec_fits(),
        exists|k: int|
            0 <= k < snapshot.entries@.len() && spec_join(
                dir,
                (#[trigger] snapshot.entries@[k]).file_name@,
            ) == child,
    ensures
        ({
            let w = spec_warmed(dir, child, snapshot, sort);
            0 <= w.index < w.contents.len() && w.contents[w.index].path == child
        }),
{
    let raw = spec_snapshot_entries(dir, snapshot.entries@);
    let w = spec_warmed(dir, child, snapshot, sort);
    lemma_sort_permutes(raw, sort);
    lemma_position(w.contents, child);
    let k = choose|k: int|
        0 <= k < snapshot.entries@.len() && spec_join(
            dir,
            (#[trigger] snapshot.entries@[k]).file_name@,
        ) == child;
    assert(raw[k].path == child);
    assert(raw.contains(raw[k]));
    assert(w.contents.contains(raw[k]));
    let j = choose|j: int| 0 <= j < w.contents.len() && w.contents[j] == raw[k];
    assert(w.contents[j].path == child);
}

/// The entries that a listing of `dir` holds for `infos`.
fn build_entries(dir: &String, infos: &Vec<FileInfo>) -> (r: Vec<DirEntry>)
    ensures
        spec_entry_views(r@) == spec_snapshot_entries(dir@, infos@),
{
    let mut out: Vec<DirEntry> = Vec::new();
    let mut i: usize = 0;
    while i < infos.len()
        invariant
            i <= infos@.len(),
            out@.len() == i,
            forall|k: int| 0 <= k < i ==> (#[trigger] out@[k])@ == spec_entry_of(dir@, infos@[k]),
        decreases infos@.len() - i,
    {
        let info: &FileInfo = &infos[i];
        let path: String = join(dir.as_str(), info.file_name.as_str());
        out.push(
            DirEntry::new(info.file_name.clone(), path, info.kind, info.size, info.modified),
        );
        i = i + 1;
    }
    assert(spec_entry_views(out@) =~= spec_snapshot_entries(dir@, infos@));
    out
}

/// Position of the first entry of `contents` with the path `path`.
pub fn find_position(contents: &Vec<DirEntry>, path: &String) -> (r: Option<usize>)
    ensures
        match r {
            Some(i) => spec_position(spec_entry_views(contents@), path@) == i,
            None => spec_position(spec_entry_views(contents@), path@) == -1,
        },
{
    let mut i: usize = 0;
    while i < contents.len()
        invariant
            i <= contents@.len(),
            forall|k: int| 0 <= k < i ==> (#[trigger] spec_entry_views(contents@)[k]).path != path@,
        decreases contents@.len() - i,
    {
        if contents[i].path == *path {
            proof {
                lemma_position_is(spec_entry_views(contents@), path@, i as int);
            }
            return Some(i);
        }
        i = i + 1;
    }
    proof {
        lemma_position_is(spec_entry_views(contents@), path@, i as int);
    }
    None
}

impl DirList {
    /// The listing of the directory `path` as a first read shows it.
    pub fn fresh(path: String, snapshot: &DirSnapshot, sort: &SortType) -> (r: DirList)
        requires
            snapshot.spec_fits(),
        ensures
            r@ == spec_fresh(path@, *snapshot, *sort),
            spec_list_wf(r@),
    {
        proof {
            lemma_fresh_wf(path@, *snapshot, *sort);
        }
        let built: Vec<DirEntry> = build_entries(&path, &snapshot.entries);
        let contents: Vec<DirEntry> = sort_entries(built, sort);
        let index: i32 = if contents.len() == 0 {
            -1
        } else {
            0
        };
        DirList {
            path,
            contents,
            index,
            update_needed: false,
            modified: snapshot.modified,
            sort: *sort,
        }
    }

    /// The listing of the directory `path` from a first read of it. Fails as
    /// the read failed.
    pub fn new(path: String, read: Result<DirSnapshot, IoError>, sort: &SortType) -> (r: Result<
        DirList,
        IoError,
    >)
        requires
            read matches Ok(s) ==> s.spec_fits(),
        ensures
            match read {
                Err(e) => r == Err::<DirList, IoError>(e),
                Ok(s) => r matches Ok(l) && l@ == spec_fresh(path@, s, *sort) && spec_list_wf(l@),
            },
    {
        match read {
            Err(e) => Err(e),
            Ok(snapshot) => Ok(DirList::fresh(path, &snapshot, sort)),
        }
    }

    /// Whether the listing must be read again, given what a stat of its
    /// directory reports now: its marker, or nothing where it is gone.
    pub fn need_update(&self, marker: Option<u64>) -> (r: bool)
        ensures
            r == spec_need_update(self@, marker),
    {
        if self.update_needed {
            return true;
        }
        match marker {
            Some(m) => m != self.modified,
            None => true,
        }
    }

    /// Takes over what a new read of the directory reports, and keeps the
    /// cursor on the entry it was on where that entry is still there. A failed
    /// read leaves the listing as it was.
    pub fn update_contents(&mut self, read: Result<DirSnapshot, IoError>, sort: &SortType) -> (r:
        Result<(), IoError>)
        requires
            read matches Ok(s) ==> s.spec_fits(),
        ensures
            match read {
                Err(e) => r == Err::<(), IoError>(e) && *final(self) == *old(self),
                Ok(s) => r is Ok && final(self)@ == spec_refreshed(old(self)@, s, *sort)
                    && spec_list_wf(final(self)@),
            },
    {
        match read {
            Err(e) => Err(e),
            Ok(snapshot) => {
                proof {
                    lemma_refreshed_wf(self@, snapshot, *sort);
                    lemma_sort_permutes(
                        spec_snapshot_entries(self.path@, snapshot.entries@),
                        *sort,
                    );
                }
                let built: Vec<DirEntry> = build_entries(&self.path, &snapshot.entries);
                let contents: Vec<DirEntry> = sort_entries(built, sort);
                let n: usize = contents.len();
                let mut kept: Option<usize> = None;
                if self.index >= 0 && (self.index as usize) < self.contents.len() {
                    kept = find_position(&contents, &self.contents[self.index as usize].path);
                    proof {
                        lemma_position(
                            spec_entry_views(contents@),
                            self.contents@[self.index as int].path@,
                        );
                    }
                }
                let index: i32 = if n == 0 {
                    -1
                } else {
                    match kept {
                        Some(p) => p as i32,
                        None => if self.index < 0 {
                            0
                        } else if self.index as usize >= n {
                            (n - 1) as i32
                        } else {
                            self.index
                        },
                    }
                };
                self.contents = contents;
                self.index = index;
                self.update_needed = false;
                self.modified = snapshot.modified;
                self.sort = *sort;
                Ok(())
            },
        }
    }

    /// The entry under the cursor, if the cursor is on one.
    pub fn cursor_entry(&self) -> (r: Option<&DirEntry>)
        ensures
            match r {
                Some(e) => 0 <= self.index < self.contents@.len() && *e == self.contents@[self.index as int],
                None => !(0 <= self.index < self.contents@.len()),
            },
    {
        if self.index >= 0 && (self.index as usize) < self.contents.len() {
            Some(&self.contents[self.index as usize])
        } else {
            None
        }
    }

    /// The entries, in order.
    pub fn contents(&self) -> (r: &Vec<DirEntry>)
        ensures
            r == &self.contents,
    {
        &self.contents
    }
}

} // verus!
