use crate::dirlist::{DirList, DirProbe, IoError, ListView};
use crate::history::{spec_fetch, DirHistory};
use crate::path::{lemma_parent_shorter, parent, spec_parent};
use crate::sort::SortType;
use vstd::prelude::*;

verus! {

/// What one tab of the browser shows, and the cache it draws on. The two
/// listings that the tab shows are checked out of the cache.
pub struct TabState {
    /// The directory that the tab shows.
    pub curr_path: String,
    /// The listing of `curr_path`.
    pub curr_list: Option<DirList>,
    /// The listing of the parent of `curr_path`.
    pub parent_list: Option<DirList>,
    /// The listings of the directories that the tab does not show now.
    pub history: DirHistory,
}

/// What came of the request to make a directory the current one.
#[derive(Debug)]
pub enum ChdirOutcome {
    /// The filesystem refused.
    Failed(IoError),
    /// The directory is current now, and this is what the filesystem shows
    /// of the directory that the tab has to list next.
    Entered(DirProbe),
}

/// How a transition of a tab ended.
#[derive(Clone, Copy, Debug, PartialEq, Eq, Structural)]
pub enum Transition {
    /// The change of directory was refused. The tab is as it was.
    Refused(IoError),
    /// The tab shows the new directory.
    Done,
    /// The tab has moved, but the listing that it needed could not be had,
    /// and its place is empty.
    Unlisted(IoError),
    /// There was nowhere to go. The tab is as it was.
    Stayed,
}

/// Every listing of `m` is kept under its own path.
pub open spec fn spec_keyed(m: Map<Seq<char>, ListView>) -> bool {
    forall|k: Seq<char>| m.dom().contains(k) ==> (#[trigger] m[k]).path == k
}

/// The cache `m` after the listing `list`, if there is one, was handed back.
pub open spec fn spec_put_back(m: Map<Seq<char>, ListView>, list: Option<DirList>) -> Map<
    Seq<char>,
    ListView,
> {
    match list {
        Some(l) => m.insert(l.path@, l@),
        None => m,
    }
}

impl TabState {
    /// The invariant of a tab at rest: the current listing describes the
    /// current directory and the parent listing its parent; the cache keeps
    /// every listing under its own path, and holds none for the current
    /// directory or for its parent.
    pub open spec fn spec_wf(&self) -> bool {
        &&& self.curr_list matches Some(l) ==> l@.path == self.curr_path@
        &&& self.parent_list matches Some(l) ==> spec_parent(self.curr_path@) == Some(l@.path)
        &&& spec_keyed(self.history@)
        &&& !self.history@.dom().contains(self.curr_path@)
        &&& spec_parent(self.curr_path@) matches Some(q) ==> !self.history@.dom().contains(q)
    }

    /// A tab at `curr_path` that shows nothing yet, with an empty cache.
    pub fn new(curr_path: String) -> (r: Self)
        ensures
            r.curr_path == curr_path,
            r.curr_list is None,
            r.parent_list is None,
            r.history@ == Map::<Seq<char>, ListView>::empty(),
            r.spec_wf(),
    {
        TabState { curr_path, curr_list: None, parent_list: None, history: DirHistory::new() }
    }

    /// Moves the tab up to the parent of its directory, once the change of
    /// directory has been tried. The current listing goes back to the cache;
    /// the parent listing becomes the current one; the listing of the new
    /// parent is taken from the cache or made from `outcome`, which shows
    /// that directory. At the root there is nowhere to go, and a refused
    /// change of directory changes nothing.
    pub fn parent_directory(&mut self, outcome: ChdirOutcome, sort: &SortType) -> (r: Transition)
        requires
            outcome matches ChdirOutcome::Entered(p) ==> p.spec_fits(),
        ensures
            match (spec_parent(old(self).curr_path@), outcome) {
                (None, _) => r == Transition::Stayed && *final(self) == *old(self),
                (Some(_), ChdirOutcome::Failed(e)) => r == Transition::Refused(e) && *final(self)
                    == *old(self),
                (Some(up), ChdirOutcome::Entered(probe)) => {
                    let demoted = spec_put_back(old(self).history@, old(self).curr_list);
                    &&& final(self).curr_path@ == up
                    &&& final(self).curr_list == old(self).parent_list
                    &&& match spec_parent(up) {
                        None => {
                            &&& r == Transition::Done
                            &&& final(self).parent_list is None
                            &&& final(self).history@ == demoted
                        },
                        Some(above) => {
                            &&& final(self).history@ == demoted.remove(above)
                            &&& match spec_fetch(demoted, above, probe, *sort) {
                                Ok(v) => r == Transition::Done && (final(self).parent_list matches Some(
                                    l,
                                ) && l@ == v),
                                Err(e) => r == Transition::Unlisted(e) && final(self).parent_list is None,
                            }
                        },
                    }
                    &&& old(self).spec_wf() ==> final(self).spec_wf()
                },
            },
    {
        let up: String = match parent(self.curr_path.as_str()) {
            None => {
                return Transition::Stayed;
            },
            Some(up) => up,
        };
        let probe: DirProbe = match outcome {
            ChdirOutcome::Failed(e) => {
                return Transition::Refused(e);
            },
            ChdirOutcome::Entered(probe) => probe,
        };
        proof {
            lemma_parent_shorter(self.curr_path@);
            lemma_parent_shorter(up@);
        }
        let curr_list: Option<DirList> = self.curr_list.take();
        self.history.put_back(curr_list);
        let parent_list: Option<DirList> = self.parent_list.take();
        self.curr_list = parent_list;
        let r: Transition = match parent(up.as_str()) {
            None => {
                self.parent_list = None;
                Transition::Done
            },
            Some(above) => {
                match self.history.pop_or_create(above.as_str(), probe, sort) {
                    Ok(l) => {
                        self.parent_list = Some(l);
                        Transition::Done
                    },
                    Err(e) => {
                        self.parent_list = None;
                        Transition::Unlisted(e)
                    },
                }
            },
        };
        self.curr_path = up;
        r
    }
}

} // verus!
