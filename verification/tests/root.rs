use homux::fault::Fault;
use homux::path::FilePath;
use homux::{get_default_source_directory, get_machine_hostname};

#[test]
fn default_source_directory_lies_under_home() {
    assert_eq!(
        get_default_source_directory(&FilePath::parse("/home/user")).render(),
        "/home/user/.local/share/homux/source"
    );
    assert_eq!(
        get_default_source_directory(&FilePath::parse("/")),
        FilePath::parse("/.local/share/homux/source")
    );
}

#[test]
fn hostname_is_the_trimmed_output() {
    assert_eq!(get_machine_hostname(b"host1\n"), Ok("host1".to_string()));
    assert_eq!(get_machine_hostname(b" my-laptop \r\n"), Ok("my-laptop".to_string()));
    assert_eq!(get_machine_hostname(b""), Ok(String::new()));
    assert_eq!(get_machine_hostname("hôte\n".as_bytes()), Ok("hôte".to_string()));
}

#[test]
fn hostname_must_be_utf8() {
    assert_eq!(
        get_machine_hostname(&[0x68, 0x6f, 0x73, 0x74, 0xff]),
        Err(Fault::Io { message: "parse machine hostname as utf8".to_string() })
    );
}
