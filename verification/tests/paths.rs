use tyla::paths::{components, expand_home, home_user, push_component};

fn comps(p: &str) -> Vec<String> {
    components(p.as_bytes()).into_iter().map(|c| String::from_utf8(c).unwrap()).collect()
}

fn expand(p: &str, home: Option<&str>, user_home: Option<&str>) -> String {
    String::from_utf8(expand_home(p.as_bytes(), home.map(str::as_bytes), user_home.map(str::as_bytes))).unwrap()
}

#[test]
fn components_follow_std() {
    for p in ["", "/", "a", "/a/b", "a//b/", "./a/./b", ".", "./.", "../x", "/./a/..", "//x", "~/.local/share"] {
        let std: Vec<String> = std::path::Path::new(p)
            .components()
            .map(|c| c.as_os_str().to_str().unwrap().to_string())
            .collect();
        assert_eq!(comps(p), std, "path {p:?}");
    }
}

#[test]
fn push_follows_pathbuf() {
    for (base, part) in [("", "a"), ("a", "b"), ("a/", "b"), ("a", "/b"), ("/", "x"), ("a", ""), ("", "")] {
        let mut mine = base.as_bytes().to_vec();
        push_component(&mut mine, part.as_bytes());
        let mut std = std::path::PathBuf::from(base);
        std.push(part);
        assert_eq!(String::from_utf8(mine).unwrap(), std.to_str().unwrap(), "push {part:?} onto {base:?}");
    }
}

#[test]
fn tilde_becomes_the_home_directory() {
    assert_eq!(expand("~/.local/share/applications", Some("/home/ana"), None), "/home/ana/.local/share/applications");
    assert_eq!(expand("~", Some("/home/ana"), None), "/home/ana");
    assert_eq!(expand("~/x", Some("/home/ana/"), None), "/home/ana/x");
}

#[test]
fn tilde_user_becomes_that_users_home() {
    assert_eq!(expand("~bob/docs", Some("/home/ana"), Some("/home/bob")), "/home/bob/docs");
    assert_eq!(expand("~bob/docs", Some("/home/ana"), None), "~bob/docs");
}

#[test]
fn tilde_without_home_falls_back_to_the_lookup_of_the_empty_name() {
    assert_eq!(expand("~/x", None, Some("/root")), "/root/x");
    assert_eq!(expand("~/x", None, None), "~/x");
}

#[test]
fn other_paths_are_only_normalised() {
    assert_eq!(expand("/usr/share//applications/", Some("/h"), Some("/u")), "/usr/share/applications");
    assert_eq!(expand("./a/./b", Some("/h"), None), "./a/b");
    assert_eq!(expand("a~/b", Some("/h"), None), "a~/b");
    assert_eq!(expand("/~/b", Some("/h"), None), "/~/b");
    assert_eq!(expand("", Some("/h"), None), "");
}

#[test]
fn home_user_names_the_user() {
    assert_eq!(home_user(b"~/x"), Some(vec![]));
    assert_eq!(home_user(b"~bob/x"), Some(b"bob".to_vec()));
    assert_eq!(home_user(b"/home/x"), None);
    assert_eq!(home_user(b"x/~bob"), None);
    assert_eq!(home_user(b""), None);
}

#[test]
fn expanding_twice_keeps_the_components() {
    for (p, home, user_home) in [
        ("~/.local/share", Some("/home/ana"), None),
        ("~/x", Some("//home//ana/"), None),
        ("~bob/docs", None, Some("/home/bob/./")),
        ("./a/./b", Some("/h"), None),
        ("/usr//share/", Some("/h"), Some("/u")),
        ("", Some("/h"), None),
    ] {
        let once = expand(p, home, user_home);
        let twice = expand(&once, home, user_home);
        assert_eq!(comps(&twice), comps(&once), "path {p:?}");
    }
    assert_eq!(expand("~/x", Some("//home//ana/"), None), "//home//ana/x");
    assert_eq!(expand("//home//ana/x", Some("//home//ana/"), None), "/home/ana/x");
}
