use joshuto::commands::open_file::OpenFile;
use joshuto::dirlist::{DirList, DirProbe, DirSnapshot, FileInfo, IoError};
use joshuto::entry::FileKind;
use joshuto::sort::{SortMethod, SortType};
use joshuto::tab::{ChdirOutcome, TabState, Transition};

fn natural() -> SortType {
    SortType { method: SortMethod::Natural, directories_first: false, reverse: false }
}

fn dir(name: &str) -> FileInfo {
    FileInfo { file_name: name.to_string(), kind: FileKind::Dir, size: 0, modified: 1 }
}

fn file(name: &str) -> FileInfo {
    FileInfo { file_name: name.to_string(), kind: FileKind::File, size: 3, modified: 2 }
}

fn shown(entries: Vec<FileInfo>, modified: u64) -> DirProbe {
    DirProbe { marker: Some(modified), read: Ok(DirSnapshot { entries, modified }) }
}

fn names(list: &DirList) -> Vec<String> {
    list.contents.iter().map(|e| e.file_name.clone()).collect()
}

fn tab_at_home_user() -> TabState {
    let mut tab = TabState::new("/home/user".to_string());
    let read = Ok(DirSnapshot { entries: vec![file("notes"), dir("docs"), file("a.txt")], modified: 10 });
    let mut list = DirList::new("/home/user".to_string(), read, &natural()).unwrap();
    assert_eq!(names(&list), vec!["a.txt", "docs", "notes"]);
    list.index = 1;
    tab.curr_list = Some(list);
    tab
}

#[test]
fn enter_child_directory_from_empty_cache() {
    let mut tab = tab_at_home_user();
    let outcome = ChdirOutcome::Entered(shown(vec![file("x")], 20));
    let r = OpenFile::enter_directory("/home/user/docs", &mut tab, outcome, &natural());
    assert_eq!(r, Transition::Done);
    assert_eq!(tab.curr_path, "/home/user/docs");
    let parent = tab.parent_list.as_ref().unwrap();
    assert_eq!(parent.path, "/home/user");
    assert_eq!(parent.cursor_entry().unwrap().file_name, "docs");
    assert_eq!(parent.cursor_entry().unwrap().path, "/home/user/docs");
    assert!(!tab.history.contains("/home/user"));
    assert!(!tab.history.contains("/home/user/docs"));
    assert_eq!(tab.history.len(), 0);
    let curr = tab.curr_list.as_ref().unwrap();
    assert_eq!(curr.path, "/home/user/docs");
    assert_eq!(names(curr), vec!["x"]);
    assert_eq!(curr.index, 0);
}

#[test]
fn refused_change_of_directory_changes_nothing() {
    let mut tab = tab_at_home_user();
    let r = OpenFile::enter_directory(
        "/home/user/docs",
        &mut tab,
        ChdirOutcome::Failed(IoError::PermissionDenied),
        &natural(),
    );
    assert_eq!(r, Transition::Refused(IoError::PermissionDenied));
    assert_eq!(tab.curr_path, "/home/user");
    assert_eq!(tab.curr_list.as_ref().unwrap().index, 1);
    assert!(tab.parent_list.is_none());
    assert_eq!(tab.history.len(), 0);
}

#[test]
fn navigate_back_up_to_parent() {
    let mut tab = tab_at_home_user();
    let entered = ChdirOutcome::Entered(shown(vec![file("x"), file("y")], 20));
    assert_eq!(OpenFile::enter_directory("/home/user/docs", &mut tab, entered, &natural()), Transition::Done);
    tab.curr_list.as_mut().unwrap().index = 1;
    let above = ChdirOutcome::Entered(shown(vec![dir("user"), dir("guest")], 30));
    assert_eq!(tab.parent_directory(above, &natural()), Transition::Done);
    assert_eq!(tab.curr_path, "/home/user");
    let curr = tab.curr_list.as_ref().unwrap();
    assert_eq!(curr.path, "/home/user");
    assert_eq!(curr.cursor_entry().unwrap().file_name, "docs");
    assert_eq!(names(curr), vec!["a.txt", "docs", "notes"]);
    let parent = tab.parent_list.as_ref().unwrap();
    assert_eq!(parent.path, "/home");
    assert_eq!(names(parent), vec!["guest", "user"]);
    assert_eq!(tab.history.len(), 1);
    let docs = tab.history.get("/home/user/docs").unwrap();
    assert_eq!(names(docs), vec!["x", "y"]);
    assert_eq!(docs.index, 1);
    assert!(!tab.history.contains("/home/user"));
    assert!(!tab.history.contains("/home"));
}

#[test]
fn reenter_restores_the_demoted_listing() {
    let mut tab = tab_at_home_user();
    let entered = ChdirOutcome::Entered(shown(vec![file("x"), file("y")], 20));
    OpenFile::enter_directory("/home/user/docs", &mut tab, entered, &natural());
    tab.curr_list.as_mut().unwrap().index = 1;
    tab.parent_directory(ChdirOutcome::Entered(shown(vec![dir("user")], 30)), &natural());
    let again = ChdirOutcome::Entered(shown(vec![file("other")], 20));
    assert_eq!(OpenFile::enter_directory("/home/user/docs", &mut tab, again, &natural()), Transition::Done);
    let curr = tab.curr_list.as_ref().unwrap();
    assert_eq!(names(curr), vec!["x", "y"]);
    assert_eq!(curr.index, 1);
    assert_eq!(tab.parent_list.as_ref().unwrap().path, "/home/user");
    assert_eq!(tab.history.paths(), vec!["/home".to_string()]);
}

#[test]
fn reenter_of_modified_directory_reads_again() {
    let mut tab = tab_at_home_user();
    let entered = ChdirOutcome::Entered(shown(vec![file("x"), file("y")], 20));
    OpenFile::enter_directory("/home/user/docs", &mut tab, entered, &natural());
    tab.curr_list.as_mut().unwrap().index = 1;
    tab.parent_directory(ChdirOutcome::Entered(shown(vec![dir("user")], 30)), &natural());
    let again = ChdirOutcome::Entered(shown(vec![file("w"), file("y"), file("z")], 21));
    assert_eq!(OpenFile::enter_directory("/home/user/docs", &mut tab, again, &natural()), Transition::Done);
    let curr = tab.curr_list.as_ref().unwrap();
    assert_eq!(names(curr), vec!["w", "y", "z"]);
    assert_eq!(curr.cursor_entry().unwrap().file_name, "y");
    assert_eq!(curr.modified, 21);
}

#[test]
fn entering_an_unreadable_directory_leaves_no_listing() {
    let mut tab = tab_at_home_user();
    let probe = DirProbe { marker: Some(1), read: Err(IoError::PermissionDenied) };
    let r = OpenFile::enter_directory("/home/user/docs", &mut tab, ChdirOutcome::Entered(probe), &natural());
    assert_eq!(r, Transition::Unlisted(IoError::PermissionDenied));
    assert_eq!(tab.curr_path, "/home/user/docs");
    assert!(tab.curr_list.is_none());
    assert_eq!(tab.parent_list.as_ref().unwrap().path, "/home/user");
    assert_eq!(tab.history.len(), 0);
}

#[test]
fn entering_demotes_the_parent_listing() {
    let mut tab = tab_at_home_user();
    let home = DirList::new(
        "/home".to_string(),
        Ok(DirSnapshot { entries: vec![dir("user")], modified: 3 }),
        &natural(),
    )
    .unwrap();
    tab.parent_list = Some(home);
    let entered = ChdirOutcome::Entered(shown(vec![], 20));
    assert_eq!(OpenFile::enter_directory("/home/user/docs", &mut tab, entered, &natural()), Transition::Done);
    assert_eq!(tab.history.paths(), vec!["/home".to_string()]);
    assert_eq!(tab.curr_list.as_ref().unwrap().index, -1);
    assert_eq!(tab.parent_list.as_ref().unwrap().path, "/home/user");
}

#[test]
fn entering_an_unrelated_directory_sets_the_path() {
    let mut tab = tab_at_home_user();
    let entered = ChdirOutcome::Entered(shown(vec![file("fstab")], 20));
    assert_eq!(OpenFile::enter_directory("/etc", &mut tab, entered, &natural()), Transition::Done);
    assert_eq!(tab.curr_path, "/etc");
    assert_eq!(tab.curr_list.as_ref().unwrap().path, "/etc");
}

#[test]
fn parent_directory_at_root_stays() {
    let mut tab = TabState::new("/".to_string());
    let r = tab.parent_directory(ChdirOutcome::Entered(shown(vec![], 1)), &natural());
    assert_eq!(r, Transition::Stayed);
    assert_eq!(tab.curr_path, "/");
    assert!(tab.curr_list.is_none());
    assert_eq!(tab.history.len(), 0);
}

#[test]
fn parent_directory_refused_changes_nothing() {
    let mut tab = tab_at_home_user();
    let r = tab.parent_directory(ChdirOutcome::Failed(IoError::NotFound), &natural());
    assert_eq!(r, Transition::Refused(IoError::NotFound));
    assert_eq!(tab.curr_path, "/home/user");
    assert_eq!(tab.curr_list.as_ref().unwrap().index, 1);
    assert_eq!(tab.history.len(), 0);
}

#[test]
fn parent_directory_into_root_has_no_parent_listing() {
    let mut tab = TabState::new("/home".to_string());
    let home = DirList::new(
        "/home".to_string(),
        Ok(DirSnapshot { entries: vec![dir("user")], modified: 3 }),
        &natural(),
    )
    .unwrap();
    let root = DirList::new(
        "/".to_string(),
        Ok(DirSnapshot { entries: vec![dir("home"), dir("etc")], modified: 3 }),
        &natural(),
    )
    .unwrap();
    tab.curr_list = Some(home);
    tab.parent_list = Some(root);
    let r = tab.parent_directory(ChdirOutcome::Entered(shown(vec![file("junk")], 1)), &natural());
    assert_eq!(r, Transition::Done);
    assert_eq!(tab.curr_path, "/");
    assert_eq!(tab.curr_list.as_ref().unwrap().path, "/");
    assert!(tab.parent_list.is_none());
    assert_eq!(tab.history.paths(), vec!["/home".to_string()]);
}

#[test]
fn parent_directory_with_unreadable_grandparent() {
    let mut tab = tab_at_home_user();
    let probe = DirProbe { marker: None, read: Err(IoError::Other) };
    let r = tab.parent_directory(ChdirOutcome::Entered(probe), &natural());
    assert_eq!(r, Transition::Unlisted(IoError::Other));
    assert_eq!(tab.curr_path, "/home");
    assert!(tab.curr_list.is_none());
    assert!(tab.parent_list.is_none());
    assert_eq!(tab.history.paths(), vec!["/home/user".to_string()]);
}
