use joshuto::path::{
    ancestors, extension, file_name, is_normal, join, last_of, last_sep, parent, strip_prefix,
};

#[test]
fn parent_of_nested_path() {
    assert_eq!(parent("/home/user/docs"), Some("/home/user".to_string()));
    assert_eq!(parent("/home"), Some("/".to_string()));
}

#[test]
fn parent_of_root_and_of_bare_name() {
    assert_eq!(parent("/"), None);
    assert_eq!(parent("docs"), None);
    assert_eq!(parent(""), None);
}

#[test]
fn ancestors_nearest_first() {
    assert_eq!(ancestors("/a/b/c"), vec!["/a/b".to_string(), "/a".to_string(), "/".to_string()]);
    assert_eq!(ancestors("/a"), vec!["/".to_string()]);
    assert!(ancestors("/").is_empty());
}

#[test]
fn strip_prefix_of_descendant() {
    assert_eq!(strip_prefix("/home/user", "/home/user/docs"), Some("docs".to_string()));
    assert_eq!(strip_prefix("/home", "/home/user/docs"), Some("user/docs".to_string()));
    assert_eq!(strip_prefix("/", "/home"), Some("home".to_string()));
    assert_eq!(strip_prefix("/home", "/home"), Some(String::new()));
}

#[test]
fn strip_prefix_of_stranger() {
    assert_eq!(strip_prefix("/home/user", "/home/username"), None);
    assert_eq!(strip_prefix("/home/user", "/etc"), None);
    assert_eq!(strip_prefix("/home/user/docs", "/home/user"), None);
    assert_eq!(strip_prefix("/home", "/home/"), None);
}

#[test]
fn join_puts_one_separator() {
    assert_eq!(join("/home/user", "docs"), "/home/user/docs");
    assert_eq!(join("/", "home"), "/home");
    assert_eq!(join("/home", ""), "/home");
    assert_eq!(join("", "x"), "/x");
}

#[test]
fn join_undoes_strip_prefix() {
    let cases = [("/home", "/home/user/docs"), ("/", "/x"), ("/a/b", "/a/b"), ("/a", "/a/b")];
    for (base, path) in cases {
        let rest = strip_prefix(base, path).unwrap();
        assert_eq!(join(base, &rest), path);
    }
}

#[test]
fn normal_form() {
    assert!(is_normal("/"));
    assert!(is_normal("/home/user"));
    assert!(!is_normal(""));
    assert!(!is_normal("home"));
    assert!(!is_normal("/home/"));
    assert!(!is_normal("/home//user"));
    assert!(!is_normal("//"));
}

#[test]
fn last_separator() {
    assert_eq!(last_sep("/home/user"), Some(5));
    assert_eq!(last_sep("/"), Some(0));
    assert_eq!(last_sep("user"), None);
    assert_eq!(last_of("a.b.c", '.'), Some(3));
    assert_eq!(last_of("abc", '.'), None);
}

#[test]
fn file_name_is_last_component() {
    assert_eq!(file_name("/home/user/notes.txt"), "notes.txt");
    assert_eq!(file_name("notes.txt"), "notes.txt");
    assert_eq!(file_name("/home/"), "");
}

#[test]
fn extension_follows_last_dot() {
    assert_eq!(extension("/home/user/notes.txt"), Some("txt".to_string()));
    assert_eq!(extension("/home/user/archive.tar.gz"), Some("gz".to_string()));
    assert_eq!(extension("/home/user/name."), Some(String::new()));
    assert_eq!(extension("/home/user.d/notes"), None);
}

#[test]
fn extension_absent() {
    assert_eq!(extension("/home/user/notes"), None);
    assert_eq!(extension("/home/user/.bashrc"), None);
    assert_eq!(extension("/home/user/.."), None);
    assert_eq!(extension("/"), None);
    assert_eq!(extension(""), None);
}

#[test]
fn extension_agrees_with_std() {
    let cases = ["/a/b.txt", "/a/.hidden", "/a/.hidden.rc", "/a/b", "/a/b.", "/a/..", "x.y.z", "/a.b/c"];
    for p in cases {
        let expected = std::path::Path::new(p).extension().map(|e| e.to_str().unwrap().to_string());
        assert_eq!(extension(p), expected, "{}", p);
    }
}

#[test]
fn parent_agrees_with_std_on_normal_paths() {
    let cases = ["/", "/a", "/a/b", "/home/user/docs", "/x/y.z/w"];
    for p in cases {
        let expected = std::path::Path::new(p).parent().map(|e| e.to_str().unwrap().to_string());
        assert_eq!(parent(p), expected, "{}", p);
        let anc: Vec<String> = std::path::Path::new(p)
            .ancestors()
            .skip(1)
            .map(|e| e.to_str().unwrap().to_string())
            .collect();
        assert_eq!(ancestors(p), anc, "{}", p);
    }
}
