use extfix::RuntimeErrors;
use extfix::paths::set_extension;

fn b(s: &str) -> Vec<u8> {
    s.as_bytes().to_vec()
}

#[test]
fn set_extension_adds_when_absent() {
    let r = set_extension(&b("photo"), &b("png"));
    assert_eq!(r, Ok(b("photo.png")));
}

#[test]
fn set_extension_replaces_existing() {
    let r = set_extension(&b("notes.txt"), &b("md"));
    assert_eq!(r, Ok(b("notes.md")));
}

#[test]
fn set_extension_replaces_only_last_component() {
    let r = set_extension(&b("archive.tar.gz"), &b("png"));
    assert_eq!(r, Ok(b("archive.tar.png")));
}

#[test]
fn set_extension_keeps_directory_part() {
    let r = set_extension(&b("some/dir/file.bin"), &b("png"));
    assert_eq!(r, Ok(b("some/dir/file.png")));
}

#[test]
fn set_extension_hidden_file_gets_appended() {
    let r = set_extension(&b(".gitignore"), &b("png"));
    assert_eq!(r, Ok(b(".gitignore.png")));
}

#[test]
fn set_extension_fails_on_trailing_slash() {
    let r = set_extension(&b("some/dir/"), &b("png"));
    assert_eq!(r, Err(RuntimeErrors::UnableToSetExtension));
}

#[test]
fn set_extension_fails_on_empty_path() {
    let r = set_extension(&b(""), &b("png"));
    assert_eq!(r, Err(RuntimeErrors::UnableToSetExtension));
}

#[test]
fn set_extension_fails_on_dot_components() {
    assert_eq!(
        set_extension(&b("a/."), &b("png")),
        Err(RuntimeErrors::UnableToSetExtension)
    );
    assert_eq!(
        set_extension(&b("a/.."), &b("png")),
        Err(RuntimeErrors::UnableToSetExtension)
    );
}

#[test]
fn strip_via_empty_extension() {
    let r = set_extension(&b("image.png"), &b(""));
    assert_eq!(r, Ok(b("image")));
}

#[test]
fn strip_without_extension_is_identity() {
    let r = set_extension(&b("README"), &b(""));
    assert_eq!(r, Ok(b("README")));
}

#[test]
fn strip_hidden_file_is_identity() {
    let r = set_extension(&b(".gitignore"), &b(""));
    assert_eq!(r, Ok(b(".gitignore")));
}

#[test]
fn strip_trailing_dot() {
    let r = set_extension(&b("foo."), &b(""));
    assert_eq!(r, Ok(b("foo")));
}

#[test]
fn strip_twice_is_once_on_single_extension() {
    let once = set_extension(&b("dir/photo.png"), &b("")).unwrap();
    assert_eq!(once, b("dir/photo"));
    let twice = set_extension(&once, &b("")).unwrap();
    assert_eq!(twice, once);
}
