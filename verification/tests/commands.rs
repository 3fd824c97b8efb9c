use joshuto::commands::collect_selected_paths;
use joshuto::commands::open_file::{Launch, OpenAction, OpenFile, OpenFileWith, OpenWith};
use joshuto::dirlist::{DirList, DirSnapshot, FileInfo};
use joshuto::entry::FileKind;
use joshuto::mimetype::{append_options, MimetypeEntry, MimetypeRule, MimetypeTable};
use joshuto::sort::{SortMethod, SortType};

fn order() -> SortType {
    SortType { method: SortMethod::Natural, directories_first: true, reverse: false }
}

fn listing() -> DirList {
    let entries = vec![
        FileInfo { file_name: "song.mp3".to_string(), kind: FileKind::File, size: 9, modified: 1 },
        FileInfo { file_name: "docs".to_string(), kind: FileKind::Dir, size: 0, modified: 2 },
        FileInfo { file_name: "a.txt".to_string(), kind: FileKind::File, size: 4, modified: 3 },
    ];
    DirList::new("/home/user".to_string(), Ok(DirSnapshot { entries, modified: 7 }), &order()).unwrap()
}

fn program(name: &str) -> MimetypeEntry {
    MimetypeEntry { program: name.to_string(), args: Vec::new(), fork: false, silent: false }
}

fn table() -> MimetypeTable {
    MimetypeTable {
        extension: vec![
            MimetypeRule { key: "txt".to_string(), options: vec![program("vim"), program("nano")] },
            MimetypeRule { key: "mp3".to_string(), options: vec![program("mpv")] },
            MimetypeRule { key: "txt".to_string(), options: vec![program("never")] },
        ],
        mimetype: vec![
            MimetypeRule { key: "text".to_string(), options: vec![program("less")] },
            MimetypeRule { key: "audio".to_string(), options: vec![program("mocp"), program("vlc")] },
        ],
    }
}

fn programs(options: &[&MimetypeEntry]) -> Vec<String> {
    options.iter().map(|o| o.program.clone()).collect()
}

#[test]
fn command_names() {
    assert_eq!(OpenFile::command(), "open_file");
    assert_eq!(OpenFileWith::command(), "open_file_with");
    let _ = OpenFile::new().clone();
    let _ = OpenFileWith::new().clone();
}

#[test]
fn options_by_extension_then_by_type() {
    let t = table();
    let r = OpenFile::get_options("/home/user/a.txt", Some("text"), &t);
    assert_eq!(programs(&r), vec!["vim", "nano", "less"]);
    let r = OpenFile::get_options("/home/user/song.mp3", Some("audio"), &t);
    assert_eq!(programs(&r), vec!["mpv", "mocp", "vlc"]);
}

#[test]
fn options_without_extension_or_type() {
    let t = table();
    assert_eq!(programs(&OpenFile::get_options("/home/user/README", Some("text"), &t)), vec!["less"]);
    assert_eq!(programs(&OpenFile::get_options("/home/user/a.txt", None, &t)), vec!["vim", "nano"]);
    assert!(OpenFile::get_options("/home/user/.txt", None, &t).is_empty());
    assert!(OpenFile::get_options("/home/user/x.png", Some("image"), &t).is_empty());
    assert!(OpenFile::get_options("/home/user/x.TXT", None, &t).is_empty());
}

#[test]
fn append_options_adds_behind() {
    let t = table();
    let first = program("first");
    let mut out: Vec<&MimetypeEntry> = vec![&first];
    append_options(&mut out, &t.extension, &"mp3".to_string());
    append_options(&mut out, &t.extension, &"none".to_string());
    assert_eq!(programs(&out), vec!["first", "mpv"]);
}

#[test]
fn open_file_takes_first_option() {
    let vim = program("vim");
    let nano = program("nano");
    assert_eq!(OpenFile::open_file(&vec![&vim, &nano]), Launch::With(&vim));
    assert_eq!(OpenFile::open_file(&Vec::new()), Launch::System);
}

#[test]
fn execute_enters_directory_under_cursor() {
    let list = listing();
    assert_eq!(list.cursor_entry().unwrap().file_name, "docs");
    assert_eq!(OpenFile::execute(Some(&list), true), OpenAction::Enter("/home/user/docs".to_string()));
}

#[test]
fn execute_opens_file_under_cursor() {
    let mut list = listing();
    list.index = 1;
    assert_eq!(OpenFile::execute(Some(&list), false), OpenAction::Open(vec!["/home/user/a.txt".to_string()]));
    list.index = 0;
    assert_eq!(OpenFile::execute(Some(&list), false), OpenAction::Open(vec!["/home/user/docs".to_string()]));
}

#[test]
fn execute_opens_the_marked_files() {
    let mut list = listing();
    list.index = 1;
    list.contents[2].selected = true;
    list.contents[0].selected = true;
    assert_eq!(
        OpenFile::execute(Some(&list), false),
        OpenAction::Open(vec!["/home/user/docs".to_string(), "/home/user/song.mp3".to_string()])
    );
}

#[test]
fn execute_without_anything_to_open() {
    assert_eq!(OpenFile::execute(None, false), OpenAction::NoSelection);
    assert_eq!(OpenFile::execute(None, true), OpenAction::NoSelection);
    let empty = DirList::new("/e".to_string(), Ok(DirSnapshot { entries: Vec::new(), modified: 0 }), &order()).unwrap();
    assert_eq!(OpenFile::execute(Some(&empty), false), OpenAction::NoSelection);
    assert_eq!(OpenFile::execute(Some(&empty), true), OpenAction::NoSelection);
}

#[test]
fn messages_of_reports() {
    assert_eq!(OpenAction::NoneSelected.message(), Some("No files selected: 0"));
    assert_eq!(OpenAction::NoSelection.message(), Some("No files selected: None"));
    assert_eq!(OpenAction::Enter("/x".to_string()).message(), None);
    assert_eq!(OpenAction::Open(Vec::new()).message(), None);
}

#[test]
fn selected_paths_fall_back_to_cursor() {
    let mut list = listing();
    assert_eq!(collect_selected_paths(&list), Some(vec!["/home/user/docs".to_string()]));
    list.contents[1].selected = true;
    assert_eq!(collect_selected_paths(&list), Some(vec!["/home/user/a.txt".to_string()]));
    list.index = 3;
    assert_eq!(collect_selected_paths(&list), None);
    list.index = -1;
    assert_eq!(collect_selected_paths(&list), None);
}

#[test]
fn open_with_number_picks_option() {
    assert_eq!(OpenFileWith::open_with(Some("0"), 2), OpenWith::Entry(0));
    assert_eq!(OpenFileWith::open_with(Some("1"), 2), OpenWith::Entry(1));
    assert_eq!(OpenFileWith::open_with(Some("+1"), 2), OpenWith::Entry(1));
    assert_eq!(OpenFileWith::open_with(Some("2"), 2), OpenWith::Nothing);
    assert_eq!(OpenFileWith::open_with(Some("0"), 0), OpenWith::Nothing);
}

#[test]
fn open_with_text_names_a_program() {
    assert_eq!(
        OpenFileWith::open_with(Some("vim -p"), 2),
        OpenWith::Args(vec!["vim".to_string(), "-p".to_string()])
    );
    assert_eq!(OpenFileWith::open_with(Some("1 "), 2), OpenWith::Args(vec!["1".to_string()]));
    assert_eq!(OpenFileWith::open_with(Some("-1"), 2), OpenWith::Args(vec!["-1".to_string()]));
    assert_eq!(OpenFileWith::open_with(Some("  "), 2), OpenWith::Args(Vec::new()));
    assert_eq!(
        OpenFileWith::open_with(Some("99999999999999999999999999"), 2),
        OpenWith::Args(vec!["99999999999999999999999999".to_string()])
    );
}

#[test]
fn open_with_no_answer_does_nothing() {
    assert_eq!(OpenFileWith::open_with(None, 2), OpenWith::Nothing);
    assert_eq!(OpenFileWith::open_with(Some(""), 2), OpenWith::Nothing);
}

#[test]
fn open_with_acts_on_the_selection() {
    let mut list = listing();
    list.contents[2].selected = true;
    assert_eq!(OpenFileWith::execute(Some(&list)), Some(vec!["/home/user/song.mp3".to_string()]));
    list.index = -1;
    assert_eq!(OpenFileWith::execute(Some(&list)), None);
    assert_eq!(OpenFileWith::execute(None), None);
}
