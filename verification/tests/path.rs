use homux::path::FilePath;
use std::path::Path;

fn p(text: &str) -> FilePath {
    FilePath::parse(text)
}

#[test]
fn parse_and_render() {
    assert_eq!(p("/home/user").render(), "/home/user");
    assert_eq!(p("/home/user/.vimrc").render(), "/home/user/.vimrc");
    assert_eq!(p("a/b").render(), "a/b");
    assert_eq!(p("/").render(), "/");
    assert_eq!(p("..").render(), "..");
    assert_eq!(p("a/../b").render(), "a/../b");
    assert_eq!(p("...").render(), "...");
}

#[test]
fn names_that_say_nothing_are_left_out() {
    assert_eq!(p("a//b"), p("a/b"));
    assert_eq!(p("a/./b"), p("a/b"));
    assert_eq!(p("a/b/"), p("a/b"));
    assert_eq!(p("./a"), p("a"));
    assert_eq!(p("//a"), p("/a"));
    assert_eq!(p("/a/./b//c/").render(), "/a/b/c");
}

#[test]
fn the_empty_path_is_written_as_nothing() {
    assert_eq!(p("").render(), "");
    assert_eq!(p(".").render(), "");
    assert_eq!(p("./"), p(""));
    assert_ne!(p(""), p("/"));
}

#[test]
fn written_paths_read_back() {
    for text in ["/", "", "/a", "a", "/a/b/c", "a/b", "../x", "/home/user/.config/homux"] {
        assert_eq!(p(text).render(), text);
        assert_eq!(p(&p(text).render()), p(text));
    }
}

#[test]
fn absolute_and_relative() {
    assert!(p("/a").is_absolute());
    assert!(p("/").is_absolute());
    assert!(!p("a").is_absolute());
    assert!(!p("").is_absolute());
    assert_ne!(p("/a"), p("a"));
}

#[test]
fn join_appends_relative_paths() {
    assert_eq!(p("/home/user").join(&p(".vimrc")), p("/home/user/.vimrc"));
    assert_eq!(p("/srv").join(&p("a/b")), p("/srv/a/b"));
    assert_eq!(p("a").join(&p("b")), p("a/b"));
    assert_eq!(p("/a").join(&p("")), p("/a"));
    assert_eq!(p("").join(&p("a")), p("a"));
    assert_eq!(p("/").join(&p("a")), p("/a"));
}

#[test]
fn join_keeps_absolute_paths() {
    assert_eq!(p("/home/user").join(&p("/etc/hosts")), p("/etc/hosts"));
    assert_eq!(p("a").join(&p("/")), p("/"));
}

#[test]
fn starts_with_goes_name_by_name() {
    assert!(p("/home/user/.vimrc").starts_with(&p("/home/user")));
    assert!(p("/home/user").starts_with(&p("/home/user")));
    assert!(p("/home/user").starts_with(&p("/")));
    assert!(!p("/home/username").starts_with(&p("/home/user")));
    assert!(!p("/home").starts_with(&p("/home/user")));
    assert!(!p("home/user").starts_with(&p("/home")));
    assert!(!p("/home/user").starts_with(&p("home")));
    assert!(p("a/b").starts_with(&p("")));
}

#[test]
fn strip_prefix_leaves_the_rest() {
    assert_eq!(p("/home/user/.vimrc").strip_prefix(&p("/home/user")), Some(p(".vimrc")));
    assert_eq!(p("/a/b/c/d").strip_prefix(&p("/a/b")), Some(p("c/d")));
    assert_eq!(p("/a/b").strip_prefix(&p("/a/b")), Some(p("")));
    assert_eq!(p("/a/b").strip_prefix(&p("/")), Some(p("a/b")));
    assert_eq!(p("/home/username").strip_prefix(&p("/home/user")), None);
    assert_eq!(p("/etc/passwd").strip_prefix(&p("/home/user")), None);
    assert_eq!(p("a/b").strip_prefix(&p("/a")), None);
}

#[test]
fn stripped_paths_join_back() {
    let cases = [("/home/user/.vimrc", "/home/user"), ("/a/b/c", "/"), ("a/b", "a"), ("/x", "/x")];
    for (path, base) in cases {
        let rest = p(path).strip_prefix(&p(base)).unwrap();
        assert!(!rest.is_absolute());
        assert_eq!(p(base).join(&rest), p(path));
    }
}

#[test]
fn joined_paths_strip_back() {
    let cases = [("/tmp/homux.staging.x", "a/b.txt"), ("/", "etc"), ("base", "x/y/z"), ("/b", "")];
    for (base, rest) in cases {
        assert_eq!(p(base).join(&p(rest)).strip_prefix(&p(base)), Some(p(rest)));
    }
}

#[test]
fn parent_drops_the_last_name() {
    assert_eq!(p("/srv/dotfiles/.vimrc").parent(), Some(p("/srv/dotfiles")));
    assert_eq!(p("/a").parent(), Some(p("/")));
    assert_eq!(p("a").parent(), Some(p("")));
    assert_eq!(p("/").parent(), None);
    assert_eq!(p("").parent(), None);
}

#[test]
fn clone_is_equal() {
    let path = p("/home/user/.config");
    assert_eq!(path.clone(), path);
}

#[test]
fn paths_agree_with_the_standard_library_on_absolute_paths() {
    let bases = ["/", "/home", "/home/user", "/home/user/", "/home//user", "/srv/dotfiles"];
    let paths =
        ["/", "/home", "/home/user", "/home/username", "/home/user/.vimrc", "/home/./user/a/b/", "/etc"];
    for base in bases {
        for path in paths {
            let ours = p(path).strip_prefix(&p(base)).map(|rest| rest.render());
            let theirs = Path::new(path)
                .strip_prefix(base)
                .ok()
                .map(|rest| p(rest.to_str().unwrap()).render());
            assert_eq!(ours, theirs, "{path} behind {base}");
            assert_eq!(p(path).starts_with(&p(base)), Path::new(path).starts_with(base));
        }
    }
    for base in bases {
        for rest in ["a", "a/b", ".vimrc", "/abs/olute", ".config/homux/config.toml"] {
            let ours = p(base).join(&p(rest)).render();
            let theirs = Path::new(base).join(rest);
            assert_eq!(p(&ours), p(theirs.to_str().unwrap()), "{base} joined with {rest}");
        }
    }
    for path in ["/", "/a", "/a/b", "/a/b/", "/srv/dotfiles/.config/x"] {
        let ours = p(path).parent().map(|up| up.render());
        let theirs = Path::new(path).parent().map(|up| p(up.to_str().unwrap()).render());
        assert_eq!(ours, theirs, "parent of {path}");
    }
}
