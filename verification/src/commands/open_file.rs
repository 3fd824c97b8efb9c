use crate::commands::{collect_selected_paths, spec_selected_paths};
use crate::dirlist::{DirList, DirProbe, ListView};
use crate::history::spec_fetch;
use crate::input::{parse_usize, spec_parse_usize, spec_split_whitespace, split_whitespace};
use crate::mimetype::{append_options, spec_derefs, spec_lookup, MimetypeEntry, MimetypeTable};
use crate::path::{
    extension, join, lemma_parent_shorter, lemma_strip_then_join, spec_extension, spec_parent,
    spec_views, strip_prefix,
};
use crate::sort::SortType;
use crate::tab::{spec_put_back, ChdirOutcome, TabState, Transition};
use vstd::prelude::*;

verus! {

/// What the command that opens is to do.
#[derive(Debug, PartialEq, Eq)]
pub enum OpenAction {
    /// Enter the directory of this path.
    Enter(String),
    /// Hand the files of these paths to a program.
    Open(Vec<String>),
    /// Report that the selection is empty.
    NoneSelected,
    /// Report that there is nothing to select from.
    NoSelection,
}

/// An `OpenAction` as a mathematical value.
pub enum OpenActionView {
    Enter(Seq<char>),
    Open(Seq<Seq<char>>),
    NoneSelected,
    NoSelection,
}

impl View for OpenAction {
    type V = OpenActionView;

    open spec fn view(&self) -> OpenActionView {
        match self {
            OpenAction::Enter(p) => OpenActionView::Enter(p@),
            OpenAction::Open(ps) => OpenActionView::Open(spec_views(ps@)),
            OpenAction::NoneSelected => OpenActionView::NoneSelected,
            OpenAction::NoSelection => OpenActionView::NoSelection,
        }
    }
}

impl OpenAction {
    /// The message that reports the action, where it is a report.
    pub fn message(&self) -> (r: Option<&'static str>)
        ensures
            match self {
                OpenAction::NoneSelected => r matches Some(m) && m@ == "No files selected: 0"@,
                OpenAction::NoSelection => r matches Some(m) && m@ == "No files selected: None"@,
                _ => r is None,
            },
    {
        match self {
            OpenAction::NoneSelected => Some("No files selected: 0"),
            OpenAction::NoSelection => Some("No files selected: None"),
            _ => None,
        }
    }
}

/// How the files are to be opened.
#[derive(Debug, PartialEq, Eq)]
pub enum Launch<'a> {
    /// By this configured program.
    With(&'a MimetypeEntry),
    /// By whatever the system opens such a file with.
    System,
}

/// What the command that asks for a program is to do with the answer.
#[derive(Debug, PartialEq, Eq)]
pub enum OpenWith {
    /// Nothing: there was no answer, or none that names an option.
    Nothing,
    /// Open with the option of this number.
    Entry(usize),
    /// Open with the program and arguments that these words give.
    Args(Vec<String>),
}

/// An `OpenWith` as a mathematical value.
pub enum OpenWithView {
    Nothing,
    Entry(usize),
    Args(Seq<Seq<char>>),
}

impl View for OpenWith {
    type V = OpenWithView;

    open spec fn view(&self) -> OpenWithView {
        match self {
            OpenWith::Nothing => OpenWithView::Nothing,
            OpenWith::Entry(i) => OpenWithView::Entry(*i),
            OpenWith::Args(words) => OpenWithView::Args(spec_views(words@)),
        }
    }
}

/// The programs configured for a file of the path `path` whose content is of
/// the type `mime_type`, where that is known: those for its extension, then
/// those for the type.
pub open spec fn spec_options(
    path: Seq<char>,
    mime_type: Option<Seq<char>>,
    table: MimetypeTable,
) -> Seq<MimetypeEntry> {
    let by_extension = match spec_extension(path) {
        Some(e) => spec_lookup(table.extension@, e),
        None => Seq::empty(),
    };
    let by_type = match mime_type {
        Some(t) => spec_lookup(table.mimetype@, t),
        None => Seq::empty(),
    };
    by_extension + by_type
}

/// What the command that opens is to do, given the listing that the tab
/// shows and whether the entry under the cursor is a directory now.
pub open spec fn spec_open_action(list: Option<ListView>, cursor_is_dir: bool) -> OpenActionView {
    match list {
        None => OpenActionView::NoSelection,
        Some(v) => if 0 <= v.index < v.contents.len() && cursor_is_dir {
            OpenActionView::Enter(v.contents[v.index].path)
        } else {
            match spec_selected_paths(v) {
                None => OpenActionView::NoSelection,
                Some(paths) => if paths.len() > 0 {
                    OpenActionView::Open(paths)
                } else {
                    OpenActionView::NoneSelected
                },
            }
        },
    }
}

/// What is to be done with the answer `input` to the question which of
/// `n_options` programs is to open the files.
pub open spec fn spec_open_with(input: Option<Seq<char>>, n_options: usize) -> OpenWithView {
    match input {
        None => OpenWithView::Nothing,
        Some(text) => if text.len() == 0 {
            OpenWithView::Nothing
        } else {
            match spec_parse_usize(text) {
                Some(i) => if i < n_options {
                    OpenWithView::Entry(i)
                } else {
                    OpenWithView::Nothing
                },
                None => OpenWithView::Args(spec_split_whitespace(text)),
            }
        },
    }
}

/// The command that opens what is under the cursor: a directory is entered,
/// a file is handed to a program.
#[derive(Clone, Debug)]
pub struct OpenFile;

impl OpenFile {
    pub fn new() -> (r: Self) {
        OpenFile
    }

    /// The name by which the command is bound to a key.
    pub fn command() -> (r: &'static str)
        ensures
            r@ == "open_file"@,
    {
        "open_file"
    }

    /// The programs configured for the file of the path `path`, the most
    /// fitting first. `mime_type` is the type of the file's content, where it
    /// could be found out.
    pub fn get_options<'a>(path: &str, mime_type: Option<&str>, table: &'a MimetypeTable) -> (r:
        Vec<&'a MimetypeEntry>)
        ensures
            spec_derefs(r@) == spec_options(
                path@,
                match mime_type {
                    Some(t) => Some(t@),
                    None => None,
                },
                *table,
            ),
    {
        let mut out: Vec<&'a MimetypeEntry> = Vec::new();
        assert(spec_derefs(out@) =~= Seq::<MimetypeEntry>::empty());
        if let Some(e) = extension(path) {
            append_options(&mut out, &table.extension, &e);
        }
        assert(spec_derefs(out@) =~= spec_options(path@, None, *table));
        if let Some(t) = mime_type {
            let key: String = String::from_str(t);
            append_options(&mut out, &table.mimetype, &key);
        }
        out
    }

    /// How the files are to be opened: by the first of the programs
    /// configured for them, or by the system where none is configured.
    pub fn open_file<'a>(options: &Vec<&'a MimetypeEntry>) -> (r: Launch<'a>)
        ensures
            r == (if options@.len() > 0 {
                Launch::With(options@[0])
            } else {
                Launch::System
            }),
    {
        if options.len() > 0 {
            Launch::With(options[0])
        } else {
            Launch::System
        }
    }

    /// What the command is to do: enter the directory under the cursor, or
    /// open the files that are selected, or report that there are none.
    /// `cursor_is_dir` says whether the entry under the cursor is a directory
    /// now.
    pub fn execute(curr_list: Option<&DirList>, cursor_is_dir: bool) -> (r: OpenAction)
        ensures
            r@ == spec_open_action(
                match curr_list {
                    Some(l) => Some(l@),
                    None => None,
                },
                cursor_is_dir,
            ),
    {
        let list: &DirList = match curr_list {
            None => {
                return OpenAction::NoSelection;
            },
            Some(l) => l,
        };
        if cursor_is_dir {
            if let Some(entry) = list.cursor_entry() {
                return OpenAction::Enter(entry.path.clone());
            }
        }
        match collect_selected_paths(list) {
            None => OpenAction::NoSelection,
            Some(paths) => if paths.len() > 0 {
                OpenAction::Open(paths)
            } else {
                OpenAction::NoneSelected
            },
        }
    }

    /// Makes `path` the directory that `tab` shows, once the change of
    /// directory has been tried. A refused change leaves the tab as it was.
    /// Otherwise the parent listing goes back to the cache, the current
    /// listing becomes the parent listing, and the listing of `path` is taken
    /// from the cache or made from what `outcome` shows of `path`; where
    /// that fails the tab has moved all the same, and shows no listing.
    pub fn enter_directory(
        path: &str,
        tab: &mut TabState,
        outcome: ChdirOutcome,
        sort: &SortType,
    ) -> (r: Transition)
        requires
            outcome matches ChdirOutcome::Entered(p) ==> p.spec_fits(),
        ensures
            match outcome {
                ChdirOutcome::Failed(e) => r == Transition::Refused(e) && *final(tab) == *old(tab),
                ChdirOutcome::Entered(probe) => {
                    let demoted = spec_put_back(old(tab).history@, old(tab).parent_list);
                    &&& final(tab).curr_path@ == path@
                    &&& final(tab).parent_list == old(tab).curr_list
                    &&& final(tab).history@ == demoted.remove(path@)
                    &&& match spec_fetch(demoted, path@, probe, *sort) {
                        Ok(v) => r == Transition::Done && (final(tab).curr_list matches Some(l) && l@
                            == v),
                        Err(e) => r == Transition::Unlisted(e) && final(tab).curr_list is None,
                    }
                    &&& old(tab).spec_wf() && spec_parent(path@) == Some(old(tab).curr_path@)
                        ==> final(tab).spec_wf()
                },
            },
    {
        let probe: DirProbe = match outcome {
            ChdirOutcome::Failed(e) => {
                return Transition::Refused(e);
            },
            ChdirOutcome::Entered(probe) => probe,
        };
        proof {
            lemma_parent_shorter(path@);
            lemma_parent_shorter(tab.curr_path@);
            lemma_strip_then_join(tab.curr_path@, path@);
        }
        let parent_list: Option<DirList> = tab.parent_list.take();
        tab.history.put_back(parent_list);
        let curr_list: Option<DirList> = tab.curr_list.take();
        tab.parent_list = curr_list;
        let r: Transition = match tab.history.pop_or_create(path, probe, sort) {
            Ok(l) => {
                tab.curr_list = Some(l);
                Transition::Done
            },
            Err(e) => {
                tab.curr_list = None;
                Transition::Unlisted(e)
            },
        };
        let next: String = match strip_prefix(tab.curr_path.as_str(), path) {
            Some(rest) => join(tab.curr_path.as_str(), rest.as_str()),
            None => String::from_str(path),
        };
        tab.curr_path = next;
        r
    }
}

/// The command that asks which program is to open what is under the cursor.
#[derive(Clone, Debug)]
pub struct OpenFileWith;

impl OpenFileWith {
    pub fn new() -> (r: Self) {
        OpenFileWith
    }

    /// The name by which the command is bound to a key.
    pub fn command() -> (r: &'static str)
        ensures
            r@ == "open_file_with"@,
    {
        "open_file_with"
    }

    /// What is to be done with the answer `user_input` to the question which
    /// of `n_options` programs is to open the files: a number picks the
    /// option of that number, if there is one; any other text is a program
    /// with its arguments; no answer and an empty one do nothing.
    pub fn open_with(user_input: Option<&str>, n_options: usize) -> (r: OpenWith)
        ensures
            r@ == spec_open_with(
                match user_input {
                    Some(t) => Some(t@),
                    None => None,
                },
                n_options,
            ),
    {
        let text: &str = match user_input {
            None => {
                return OpenWith::Nothing;
            },
            Some(t) => t,
        };
        if text.unicode_len() == 0 {
            return OpenWith::Nothing;
        }
        match parse_usize(text) {
            Some(i) => if i < n_options {
                OpenWith::Entry(i)
            } else {
                OpenWith::Nothing
            },
            None => OpenWith::Args(split_whitespace(text)),
        }
    }

    /// The files that the command asks a program for: those selected in the
    /// listing that the tab shows, if it shows one with a selection.
    pub fn execute(curr_list: Option<&DirList>) -> (r: Option<Vec<String>>)
        ensures
            match r {
                Some(paths) => curr_list matches Some(l) && spec_selected_paths(l@) == Some(
                    spec_views(paths@),
                ),
                None => curr_list matches Some(l) ==> spec_selected_paths(l@) is None,
            },
    {
        match curr_list {
            Some(l) => collect_selected_paths(l),
            None => None,
        }
    }
}

} // verus!
