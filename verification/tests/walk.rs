use homux::files::RecursiveDirContents;
use homux::path::FilePath;
use homux::walk::{walk_dir, Entry};

fn node(text: &str) -> FilePath {
    FilePath::parse(text)
}

fn leaf(text: &str) -> Entry {
    Entry { path: node(text), is_dir: false }
}

fn branch(text: &str) -> Entry {
    Entry { path: node(text), is_dir: true }
}

fn tree(path: &str) -> Vec<Entry> {
    match path {
        "/s" => vec![leaf("/s/a.txt"), branch("/s/d"), leaf("/s/z.txt"), branch("/s/e")],
        "/s/d" => vec![branch("/s/d/deep"), leaf("/s/d/b.bin")],
        "/s/d/deep" => vec![leaf("/s/d/deep/c")],
        "/s/e" => vec![],
        other => panic!("{other} is not a directory of the tree"),
    }
}

fn recursive(path: &str) -> RecursiveDirContents {
    let mut contents = RecursiveDirContents::default();
    for entry in tree(path) {
        if entry.is_dir {
            let mut below = recursive(&entry.path.render());
            contents.dirs.push(entry.path);
            contents.dirs.append(&mut below.dirs);
            contents.files.append(&mut below.files);
        } else {
            contents.files.push(entry.path);
        }
    }
    contents
}

fn walked(root: &str) -> (RecursiveDirContents, Vec<String>) {
    let mut asked = Vec::new();
    let mut walk = walk_dir(&node(root));
    while let Some(dir) = walk.next_dir() {
        asked.push(dir.render());
        walk = walk.listed(tree(&dir.render()));
    }
    (walk.into_contents(), asked)
}

#[test]
fn walk_asks_for_the_root_first() {
    let walk = walk_dir(&node("/s"));
    assert_eq!(walk.next_dir(), Some(node("/s")));
    assert_eq!(walk.into_contents(), RecursiveDirContents::default());
}

#[test]
fn walk_of_an_empty_directory_finds_nothing() {
    let walk = walk_dir(&node("/s")).listed(vec![]);
    assert_eq!(walk.next_dir(), None);
    assert_eq!(walk.into_contents(), RecursiveDirContents::default());
}

#[test]
fn walk_of_files_alone_asks_for_nothing_more() {
    let walk = walk_dir(&node("/s")).listed(vec![leaf("/s/a"), leaf("/s/b")]);
    assert_eq!(walk.next_dir(), None);
    assert_eq!(
        walk.into_contents(),
        RecursiveDirContents { dirs: vec![], files: vec![node("/s/a"), node("/s/b")] }
    );
}

#[test]
fn walk_enters_each_directory_as_it_is_met() {
    let walk = walk_dir(&node("/s")).listed(tree("/s"));
    assert_eq!(walk.next_dir(), Some(node("/s/d")));
    let walk = walk.listed(tree("/s/d"));
    assert_eq!(walk.next_dir(), Some(node("/s/d/deep")));
    let walk = walk.listed(tree("/s/d/deep"));
    assert_eq!(walk.next_dir(), Some(node("/s/e")));
    let walk = walk.listed(tree("/s/e"));
    assert_eq!(walk.next_dir(), None);
}

#[test]
fn walk_finds_the_tree_depth_first() {
    let (contents, asked) = walked("/s");
    assert_eq!(asked, vec!["/s", "/s/d", "/s/d/deep", "/s/e"]);
    assert_eq!(
        contents,
        RecursiveDirContents {
            dirs: vec![node("/s/d"), node("/s/d/deep"), node("/s/e")],
            files: vec![
                node("/s/a.txt"),
                node("/s/d/deep/c"),
                node("/s/d/b.bin"),
                node("/s/z.txt"),
            ],
        }
    );
}

#[test]
fn walk_finds_what_a_recursive_walk_finds() {
    for root in ["/s", "/s/d", "/s/d/deep", "/s/e"] {
        assert_eq!(walked(root).0, recursive(root));
    }
}

#[test]
fn walk_that_is_over_takes_nothing_in() {
    let walk = walk_dir(&node("/s")).listed(vec![leaf("/s/a")]);
    let walk = walk.listed(vec![leaf("/s/late"), branch("/s/later")]);
    assert_eq!(walk.next_dir(), None);
    assert_eq!(walk.into_contents(), RecursiveDirContents { dirs: vec![], files: vec![node("/s/a")] });
}
