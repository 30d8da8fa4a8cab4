use homux::apply::{
    apply, get_staging_dir, stage_source, Action, ApplyRun, Args, Event, State, STAGING_DIR_TEMPLATE,
};
use homux::config::{Config, Directories, Matchpick, Secrets};
use homux::fault::Fault;
use homux::files::{RecursiveDirContents, Step};
use homux::path::FilePath;
use homux::transform::{transform_content, Content};

fn dir(text: &str) -> FilePath {
    FilePath::parse(text)
}

fn config() -> Config {
    Config {
        hostname: "host1".to_string(),
        dirs: Directories {
            home: dir("/home/user"),
            source: dir("/home/user/.local/share/homux/source"),
            dry_run: dir("/tmp/homux-dry-run"),
        },
        matchpick: Matchpick {
            max_file_size: 1_000_000,
            start_pattern: "~>>>".to_string(),
            end_pattern: "~<<<".to_string(),
            ignore_pattern: None,
        },
        secrets: Secrets::from_pairs(vec![("TOKEN".to_string(), "t0k3n".to_string())]),
    }
}

fn args(select: &[&str], dry_run: bool) -> Args {
    Args { select: select.iter().map(|tag| tag.to_string()).collect(), dry_run, verbose: false }
}

fn io(message: &str) -> Fault {
    Fault::Io { message: message.to_string() }
}

fn started() -> ApplyRun {
    apply(&args(&[], false), &config())
}

fn staged() -> ApplyRun {
    started().advance(Event::Created(dir("/tmp/homux.staging.x1"))).advance(Event::Completed)
}

#[test]
fn apply_targets_the_home_directory() {
    let run = apply(&args(&[], false), &config());
    assert_eq!(run.target_dir, dir("/home/user"));
    assert_eq!(run.state, State::Preparing);
    assert!(!run.verbose);
}

#[test]
fn apply_targets_the_dry_run_directory() {
    let run = apply(&args(&[], true), &config());
    assert_eq!(run.target_dir, dir("/tmp/homux-dry-run"));
}

#[test]
fn apply_picks_by_the_host_name() {
    assert_eq!(apply(&args(&[], false), &config()).tags, vec!["host1".to_string()]);
}

#[test]
fn apply_picks_by_the_selected_tags() {
    let run = apply(&args(&["laptop", "work"], false), &config());
    assert_eq!(run.tags, vec!["laptop".to_string(), "work".to_string()]);
    let run = apply(&Args { select: vec![], dry_run: false, verbose: true }, &config());
    assert!(run.verbose);
}

#[test]
fn run_goes_through_stage_apply_clean() {
    let staging_dir = dir("/tmp/homux.staging.x1");
    let run = started();
    assert_eq!(run.next_action(), Action::CreateStaging);
    let run = run.advance(Event::Created(staging_dir.clone()));
    assert_eq!(run.next_action(), Action::Stage { staging_dir: staging_dir.clone() });
    let run = run.advance(Event::Completed);
    assert_eq!(
        run.next_action(),
        Action::Apply { staging_dir: staging_dir.clone(), target_dir: dir("/home/user") }
    );
    let run = run.advance(Event::Completed);
    assert_eq!(run.next_action(), Action::Clean { staging_dir });
    let run = run.advance(Event::Completed);
    assert_eq!(run.next_action(), Action::Finish { result: Ok(()) });
    assert_eq!(run.target_dir, dir("/home/user"));
    assert_eq!(run.tags, vec!["host1".to_string()]);
}

#[test]
fn run_without_a_staging_directory_ends_at_once() {
    let run = started().advance(Event::Failed(io("failed to get temporary directory")));
    assert_eq!(
        run.next_action(),
        Action::Finish { result: Err(io("failed to get temporary directory")) }
    );
}

#[test]
fn failed_staging_is_cleaned_and_not_applied() {
    let staging_dir = dir("/tmp/homux.staging.x1");
    let run = started()
        .advance(Event::Created(staging_dir.clone()))
        .advance(Event::Failed(io("failed to read file")));
    assert_eq!(run.next_action(), Action::Clean { staging_dir });
    let run = run.advance(Event::Completed);
    assert_eq!(run.next_action(), Action::Finish { result: Err(io("failed to read file")) });
}

#[test]
fn failed_copy_is_reported_after_cleaning() {
    let run = staged().advance(Event::Failed(io("failed to copy to /home/user/.bashrc")));
    assert_eq!(run.next_action(), Action::Clean { staging_dir: dir("/tmp/homux.staging.x1") });
    let run = run.advance(Event::Completed);
    assert_eq!(
        run.next_action(),
        Action::Finish { result: Err(io("failed to copy to /home/user/.bashrc")) }
    );
}

#[test]
fn failed_copy_is_reported_even_if_cleaning_fails_too() {
    let run = staged()
        .advance(Event::Failed(io("failed to copy to /home/user/.bashrc")))
        .advance(Event::Failed(io("failed to remove staging directory")));
    assert_eq!(
        run.state,
        State::Done { result: Err(io("failed to copy to /home/user/.bashrc")) }
    );
}

#[test]
fn failed_staging_is_reported_even_if_cleaning_fails_too() {
    let failure = Fault::Templating { message: "parse failed at line 2".to_string() };
    let run = started()
        .advance(Event::Created(dir("/tmp/homux.staging.x1")))
        .advance(Event::Failed(failure.clone()))
        .advance(Event::Failed(io("failed to remove staging directory")));
    assert_eq!(run.state, State::Done { result: Err(failure) });
}

#[test]
fn failed_cleaning_alone_is_reported() {
    let run = staged()
        .advance(Event::Completed)
        .advance(Event::Failed(io("failed to remove staging directory")));
    assert_eq!(
        run.next_action(),
        Action::Finish { result: Err(io("failed to remove staging directory")) }
    );
}

#[test]
fn events_that_answer_nothing_are_ignored() {
    assert_eq!(started().advance(Event::Completed).state, State::Preparing);
    let staging_dir = dir("/tmp/homux.staging.x1");
    let run = started().advance(Event::Created(staging_dir.clone()));
    let run = run.advance(Event::Created(dir("/tmp/other")));
    assert_eq!(run.state, State::Staging { staging_dir: staging_dir.clone() });
    let run = staged().advance(Event::Created(dir("/tmp/other")));
    assert_eq!(run.state, State::Applying { staging_dir: staging_dir.clone() });
    let run = staged().advance(Event::Completed).advance(Event::Created(dir("/tmp/other")));
    assert_eq!(run.state, State::Cleaning { staging_dir, failure: None });
    let done = staged().advance(Event::Completed).advance(Event::Completed);
    assert_eq!(done.state, State::Done { result: Ok(()) });
    assert_eq!(done.advance(Event::Failed(io("late"))).state, State::Done { result: Ok(()) });
}

#[test]
fn staging_directory_template() {
    assert_eq!(STAGING_DIR_TEMPLATE, "homux.staging.XXXXXXXXX");
    assert!(STAGING_DIR_TEMPLATE.starts_with("homux.staging."));
}

#[test]
fn staging_directory_is_read_from_the_output() {
    assert_eq!(get_staging_dir(b"/tmp/homux.staging.Qk3vT9xAb\n"), Ok(dir("/tmp/homux.staging.Qk3vT9xAb")));
    assert_eq!(get_staging_dir(b"  /var/tmp/x  "), Ok(dir("/var/tmp/x")));
}

#[test]
fn staging_directory_must_be_named() {
    assert_eq!(get_staging_dir(b""), Err(io("failed to get temporary directory")));
    assert_eq!(get_staging_dir(b" \n"), Err(io("failed to get temporary directory")));
}

#[test]
fn staging_directory_must_be_utf8() {
    assert_eq!(get_staging_dir(&[0x2f, 0xff, 0x0a]), Err(io("parse staging directory as utf8")));
}

#[test]
fn source_is_staged_at_the_same_relative_paths() {
    let contents = RecursiveDirContents {
        dirs: vec![dir("/home/user/.local/share/homux/source/.config")],
        files: vec![
            dir("/home/user/.local/share/homux/source/a.txt"),
            dir("/home/user/.local/share/homux/source/.config/b.bin"),
        ],
    };
    let staging_dir = dir("/tmp/homux.staging.x1");
    assert_eq!(
        stage_source(&config(), &staging_dir, &contents),
        Ok(vec![
            Step::MakeDir { path: dir("/tmp/homux.staging.x1/.config") },
            Step::WriteTransformed {
                from: dir("/home/user/.local/share/homux/source/a.txt"),
                to: dir("/tmp/homux.staging.x1/a.txt"),
            },
            Step::MirrorMode {
                from: dir("/home/user/.local/share/homux/source/a.txt"),
                to: dir("/tmp/homux.staging.x1/a.txt"),
            },
            Step::WriteTransformed {
                from: dir("/home/user/.local/share/homux/source/.config/b.bin"),
                to: dir("/tmp/homux.staging.x1/.config/b.bin"),
            },
            Step::MirrorMode {
                from: dir("/home/user/.local/share/homux/source/.config/b.bin"),
                to: dir("/tmp/homux.staging.x1/.config/b.bin"),
            },
        ])
    );
}

#[test]
fn source_entries_outside_the_source_are_refused() {
    let contents = RecursiveDirContents { dirs: vec![], files: vec![dir("/home/user/.bashrc")] };
    assert_eq!(
        stage_source(&config(), &dir("/tmp/s"), &contents),
        Err(Fault::PathNotUnderBase {
            path: dir("/home/user/.bashrc"),
            base: dir("/home/user/.local/share/homux/source"),
        })
    );
}

#[test]
fn staged_files_are_transformed_with_the_settings_of_the_run() {
    let config = config();
    let run = apply(&args(&[], false), &config);
    let source = "~>>>\nkey = none\n~>>> host1\nkey = TOKEN\n~<<<\n";
    let staged = transform_content(
        source.as_bytes().to_vec(),
        source.len() as u64,
        &config.matchpick,
        &run.tags,
        &config.secrets,
    )
    .unwrap();
    assert_eq!(staged.content, Content::Text("key = t0k3n".to_string()));
    assert!(staged.templated && staged.inserted);
}
