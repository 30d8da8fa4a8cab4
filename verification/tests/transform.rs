use homux::config::{Matchpick, Secrets};
use homux::fault::Fault;
use homux::secrets::{insert_secrets, SecretInsertionResult};
use homux::transform::{complete_plain, complete_templated, transform_content, Content, Transformed};

fn table(list: &[(&str, &str)]) -> Secrets {
    Secrets::from_pairs(
        list.iter().map(|(key, value)| (key.to_string(), value.to_string())).collect(),
    )
}

fn markers(max_file_size: u64) -> Matchpick {
    Matchpick {
        max_file_size,
        start_pattern: "~>>>".to_string(),
        end_pattern: "~<<<".to_string(),
        ignore_pattern: None,
    }
}

fn tags(list: &[&str]) -> Vec<String> {
    list.iter().map(|tag| tag.to_string()).collect()
}

fn text(content: &str, templated: bool, inserted: bool) -> Transformed {
    Transformed { content: Content::Text(content.to_string()), templated, inserted }
}

const BLOCK: &str = "start\n~>>>\ndefault output\n~>>> eggs\nfoo, foo\n~>>> spam\nfoo? bar!\nfoo... baz.\n~<<<\nend";

#[test]
fn longer_key_is_replaced_first() {
    let secrets =
        Secrets::from_pairs(vec![("AB".to_string(), "x".to_string()), ("A".to_string(), "y".to_string())]);
    assert_eq!(
        insert_secrets("AB A".to_string(), &secrets),
        SecretInsertionResult { text: "x y".to_string(), inserted: true }
    );
    assert_eq!(insert_secrets("AB A".to_string(), &table(&[("A", "y"), ("AB", "x")])).text, "x y");
}

#[test]
fn secrets_are_put_in_everywhere() {
    let secrets = table(&[("{{user}}", "alice"), ("{{token}}", "t0k3n")]);
    let result = insert_secrets("name={{user}}\nkey={{token}}\nagain={{user}}\n".to_string(), &secrets);
    assert_eq!(result.text, "name=alice\nkey=t0k3n\nagain=alice\n");
    assert!(result.inserted);
}

#[test]
fn text_without_keys_is_left_alone() {
    let secrets = table(&[("{{user}}", "alice")]);
    let result = insert_secrets("nothing here".to_string(), &secrets);
    assert_eq!(result, SecretInsertionResult { text: "nothing here".to_string(), inserted: false });
    let result = insert_secrets("anything".to_string(), &Secrets::new());
    assert_eq!(result, SecretInsertionResult { text: "anything".to_string(), inserted: false });
}

#[test]
fn each_secret_sees_what_the_ones_before_left() {
    let secrets = table(&[("ab", "c"), ("c", "d")]);
    assert_eq!(insert_secrets("ab c".to_string(), &secrets).text, "d d");
    let secrets = table(&[("ab", "cd"), ("cd", "x")]);
    assert_eq!(insert_secrets("ab cd".to_string(), &secrets).text, "x x");
    let secrets = table(&[("cd", "x"), ("ab", "cd")]);
    assert_eq!(insert_secrets("ab cd".to_string(), &secrets).text, "cd x");
}

#[test]
fn inserting_twice_is_inserting_once_when_no_key_is_left() {
    let secrets = table(&[("{{host}}", "alpha"), ("{{port}}", "8080"), ("TOKEN", "abc.def")]);
    let once = insert_secrets("{{host}}:{{port}} TOKEN {{host}}".to_string(), &secrets).text;
    assert_eq!(once, "alpha:8080 abc.def alpha");
    let twice = insert_secrets(once.clone(), &secrets);
    assert_eq!(twice, SecretInsertionResult { text: once, inserted: false });
}

#[test]
fn inserting_twice_can_differ_when_a_key_is_left() {
    let secrets = table(&[("ab", "a")]);
    let once = insert_secrets("abb".to_string(), &secrets).text;
    assert_eq!(once, "ab");
    assert_eq!(insert_secrets(once, &secrets).text, "a");
}

#[test]
fn bytes_that_are_not_utf8_pass_unchanged() {
    let bytes = vec![0x00, 0xff, 0xfe, 0x7e, 0x3e, 0x3e, 0x3e, 0x80, 0x41];
    let secrets = table(&[("A", "y")]);
    let result = transform_content(bytes.clone(), 9, &markers(1000), &tags(&["host1"]), &secrets);
    assert_eq!(
        result,
        Ok(Transformed { content: Content::Binary(bytes.clone()), templated: false, inserted: false })
    );
    assert_eq!(result.unwrap().content.into_bytes(), bytes);
}

#[test]
fn truncated_and_overlong_encodings_are_binary() {
    for bytes in [vec![0xc3], vec![0xc0, 0x80], vec![0xed, 0xa0, 0x80], vec![0xf4, 0x90, 0x80, 0x80]] {
        let result = transform_content(bytes.clone(), 4, &markers(10), &tags(&[]), &Secrets::new());
        assert_eq!(result.unwrap().content, Content::Binary(bytes));
    }
}

#[test]
fn text_without_the_start_marker_is_unchanged() {
    let source = "plain text\nwith ~<<< but no start marker\n";
    let result = transform_content(
        source.as_bytes().to_vec(),
        source.len() as u64,
        &markers(1000),
        &tags(&["host1"]),
        &Secrets::new(),
    );
    assert_eq!(result, Ok(text(source, false, false)));
    assert_eq!(result.unwrap().content.into_bytes(), source.as_bytes());
}

#[test]
fn text_without_the_start_marker_still_gets_its_secrets() {
    let result = transform_content(
        "user = NAME\n".as_bytes().to_vec(),
        12,
        &markers(0),
        &tags(&[]),
        &table(&[("NAME", "alice")]),
    );
    assert_eq!(result, Ok(text("user = alice\n", false, true)));
}

#[test]
fn empty_file_passes_as_empty_text() {
    let result = transform_content(vec![], 0, &markers(1000), &tags(&["h"]), &table(&[("k", "v")]));
    assert_eq!(result, Ok(text("", false, false)));
}

#[test]
fn marked_text_is_templated_for_the_tag() {
    let size = BLOCK.len() as u64;
    let pick = |list: &[&str]| {
        transform_content(BLOCK.as_bytes().to_vec(), size, &markers(1000), &tags(list), &Secrets::new())
    };
    assert_eq!(pick(&["eggs"]), Ok(text("start\nfoo, foo\nend", true, false)));
    assert_eq!(pick(&["spam"]), Ok(text("start\nfoo? bar!\nfoo... baz.\nend", true, false)));
    assert_eq!(pick(&["other"]), Ok(text("start\ndefault output\nend", true, false)));
    assert_eq!(pick(&["other", "spam"]), Ok(text("start\nfoo? bar!\nfoo... baz.\nend", true, false)));
}

#[test]
fn file_at_the_size_limit_is_templated() {
    let size = BLOCK.len() as u64;
    let result =
        transform_content(BLOCK.as_bytes().to_vec(), size, &markers(size), &tags(&["eggs"]), &Secrets::new());
    assert_eq!(result, Ok(text("start\nfoo, foo\nend", true, false)));
}

#[test]
fn file_over_the_size_limit_is_not_templated() {
    let size = BLOCK.len() as u64;
    let result = transform_content(
        BLOCK.as_bytes().to_vec(),
        size,
        &markers(size - 1),
        &tags(&["eggs"]),
        &table(&[("eggs", "ham")]),
    );
    assert_eq!(result, Ok(text(&BLOCK.replace("eggs", "ham"), false, true)));
}

#[test]
fn secrets_go_in_after_templating() {
    let source = "~>>>\nuser = nobody\n~>>> host1\nuser = NAME\n~>>> host2\nNAME is elsewhere\n~<<<\n";
    let result = transform_content(
        source.as_bytes().to_vec(),
        source.len() as u64,
        &markers(1000),
        &tags(&["host1"]),
        &table(&[("NAME", "alice")]),
    );
    assert_eq!(result, Ok(text("user = alice", true, true)));
}

#[test]
fn ignore_marker_guards_marker_lines() {
    let source = "a\n~>>>\ndefault\n~>>> eggs\nfoo\n~>>> spam ###\nbar\n~<<<\nb";
    let mut settings = markers(1000);
    settings.ignore_pattern = Some("###".to_string());
    let size = source.len() as u64;
    let result =
        transform_content(source.as_bytes().to_vec(), size, &settings, &tags(&["eggs"]), &Secrets::new());
    assert_eq!(result, Ok(text("a\nfoo\n~>>> spam ###\nbar\nb", true, false)));
}

#[test]
fn engine_refusal_ends_the_transformation() {
    let source = "hello ~>>>host1\nsecret\n~<<<";
    let result = transform_content(
        source.as_bytes().to_vec(),
        source.len() as u64,
        &markers(1000),
        &tags(&["host1"]),
        &Secrets::new(),
    );
    assert_eq!(
        result,
        Err(Fault::Templating {
            message: "parse failed at line 1: cannot start new case: need default first".to_string()
        })
    );
    let unterminated = "~>>>\ndefault\n~<<<\n";
    let result = transform_content(
        unterminated.as_bytes().to_vec(),
        unterminated.len() as u64,
        &markers(1000),
        &tags(&[]),
        &Secrets::new(),
    );
    assert_eq!(
        result,
        Err(Fault::Templating {
            message: "parse failed at line 3: ended match without alternatives".to_string()
        })
    );
}

#[test]
fn staged_tree_scenario() {
    let kept_block: Result<String, anyhow::Error> = Ok("hello \nsecret\n".to_string());
    assert_eq!(
        complete_templated(kept_block, &Secrets::new()),
        Ok(text("hello \nsecret\n", true, false))
    );
    let binary = vec![0xde, 0xad, 0xbe, 0xef, 0xff];
    let staged = transform_content(binary.clone(), 5, &markers(1000), &tags(&["host1"]), &Secrets::new());
    assert_eq!(staged.unwrap().content.into_bytes(), binary);
}

#[test]
fn completing_a_templated_text() {
    let secrets = table(&[("secret", "hunter2")]);
    assert_eq!(
        complete_templated(Ok("hello \nsecret\n".to_string()), &secrets),
        Ok(text("hello \nhunter2\n", true, true))
    );
    assert_eq!(
        complete_templated(Err(anyhow::Error::msg("unterminated block")), &secrets),
        Err(Fault::Templating { message: "unterminated block".to_string() })
    );
}

#[test]
fn completing_a_plain_text() {
    assert_eq!(complete_plain("a KEY".to_string(), &table(&[("KEY", "b")])), text("a b", false, true));
    assert_eq!(complete_plain("a key".to_string(), &table(&[("KEY", "b")])), text("a key", false, false));
}

#[test]
fn content_as_bytes() {
    assert_eq!(Content::Text("hé".to_string()).into_bytes(), vec![0x68, 0xc3, 0xa9]);
    assert_eq!(Content::Binary(vec![1, 2, 255]).into_bytes(), vec![1, 2, 255]);
}
