use crate::dirlist::{DirList, ListView};
use crate::entry::{spec_entry_views, EntryView};
use crate::path::spec_views;
use vstd::prelude::*;

pub mod open_file;

verus! {

/// The paths of the marked entries of `c`, in order.
pub open spec fn spec_marked(c: Seq<EntryView>) -> Seq<Seq<char>>
    decreases c.len(),
{
    if c.len() == 0 {
        Seq::empty()
    } else if c.last().selected {
        spec_marked(c.drop_last()).push(c.last().path)
    } else {
        spec_marked(c.drop_last())
    }
}

/// The paths that a command acts on in the listing `v`: those of the marked
/// entries; the entry under the cursor alone where none is marked; nothing
/// where the cursor is on no entry.
pub open spec fn spec_selected_paths(v: ListView) -> Option<Seq<Seq<char>>> {
    if 0 <= v.index < v.contents.len() {
        if spec_marked(v.contents).len() > 0 {
            Some(spec_marked(v.contents))
        } else {
            Some(seq![v.contents[v.index].path])
        }
    } else {
        None
    }
}

/// The paths that a command acts on in `dirlist`.
pub fn collect_selected_paths(dirlist: &DirList) -> (r: Option<Vec<String>>)
    ensures
        match r {
            Some(paths) => spec_selected_paths(dirlist@) == Some(spec_views(paths@)),
            None => spec_selected_paths(dirlist@) is None,
        },
{
    if dirlist.index < 0 || dirlist.index as usize >= dirlist.contents.len() {
        return None;
    }
    let ghost c = spec_entry_views(dirlist.contents@);
    let mut out: Vec<String> = Vec::new();
    let mut i: usize = 0;
    proof {
        assert(c.subrange(0, 0) =~= Seq::<EntryView>::empty());
        assert(spec_views(out@) =~= Seq::<Seq<char>>::empty());
    }
    while i < dirlist.contents.len()
        invariant
            i <= dirlist.contents@.len(),
            c == spec_entry_views(dirlist.contents@),
            spec_views(out@) == spec_marked(c.subrange(0, i as int)),
        decreases dirlist.contents@.len() - i,
    {
        proof {
            assert(c.subrange(0, i + 1).drop_last() =~= c.subrange(0, i as int));
            assert(c.subrange(0, i + 1).last() == dirlist.contents@[i as int]@);
        }
        if dirlist.contents[i].selected {
            let path: String = dirlist.contents[i].path.clone();
            proof {
                assert(spec_views(out@.push(path)) =~= spec_views(out@).push(path@));
            }
            out.push(path);
        }
        i = i + 1;
    }
    assert(c.subrange(0, c.len() as int) =~= c);
    if out.len() == 0 {
        let path: String = dirlist.contents[dirlist.index as usize].path.clone();
        proof {
            assert(spec_views(out@.push(path)) =~= seq![path@]);
        }
        out.push(path);
    }
    Some(out)
}

} // verus!
