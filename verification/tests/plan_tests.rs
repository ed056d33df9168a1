use extfix::RuntimeErrors;
use extfix::plan::{Entry, EntryAction, add_action, entry_action, plan_directory, strip_action};

fn b(s: &str) -> Vec<u8> {
    s.as_bytes().to_vec()
}

fn png_bytes() -> Vec<u8> {
    vec![0x89, 0x50, 0x4E, 0x47, 0x0D, 0x0A, 0x1A, 0x0A]
}

fn jpeg_bytes() -> Vec<u8> {
    vec![0xFF, 0xD8, 0xFF, 0xAA]
}

fn text_bytes() -> Vec<u8> {
    b("plain text notes, no magic signature")
}

#[test]
fn add_recognized_png_gets_png_extension() {
    let r = add_action(&b("photo"), &png_bytes());
    assert_eq!(r, Ok(EntryAction::Rename { to: b("photo.png") }));
}

#[test]
fn add_recognized_jpeg_gets_jpg_extension() {
    let r = add_action(&b("pic"), &jpeg_bytes());
    assert_eq!(r, Ok(EntryAction::Rename { to: b("pic.jpg") }));
}

#[test]
fn add_replaces_wrong_extension() {
    let r = add_action(&b("photo.txt"), &png_bytes());
    assert_eq!(r, Ok(EntryAction::Rename { to: b("photo.png") }));
}

#[test]
fn add_unrecognized_skips() {
    let r = add_action(&b("notes"), &text_bytes());
    assert_eq!(r, Ok(EntryAction::Skip));
}

#[test]
fn add_recognized_without_file_name_fails() {
    let r = add_action(&b("some/dir/"), &png_bytes());
    assert_eq!(r, Err(RuntimeErrors::UnableToSetExtension));
}

#[test]
fn add_twice_renames_to_same_name() {
    let first = add_action(&b("photo"), &png_bytes());
    let renamed = match first {
        Ok(EntryAction::Rename { to }) => to,
        _ => panic!("expected a rename"),
    };
    assert_eq!(renamed, b("photo.png"));
    let second = add_action(&renamed, &png_bytes());
    assert_eq!(second, Ok(EntryAction::Rename { to: b("photo.png") }));
}

#[test]
fn strip_removes_extension() {
    let r = strip_action(&b("image.png"));
    assert_eq!(r, Ok(EntryAction::Rename { to: b("image") }));
}

#[test]
fn strip_no_extension_renames_to_itself() {
    let r = strip_action(&b("image"));
    assert_eq!(r, Ok(EntryAction::Rename { to: b("image") }));
}

#[test]
fn strip_without_file_name_fails() {
    let r = strip_action(&b("dir/"));
    assert_eq!(r, Err(RuntimeErrors::UnableToSetExtension));
}

#[test]
fn entry_action_dispatches_on_mode() {
    let add = entry_action(false, &b("photo"), &png_bytes());
    assert_eq!(add, Ok(EntryAction::Rename { to: b("photo.png") }));
    let strip = entry_action(true, &b("photo.png"), &png_bytes());
    assert_eq!(strip, Ok(EntryAction::Rename { to: b("photo") }));
}

#[test]
fn add_pass_renames_png_and_skips_text() {
    let entries = vec![
        Entry { path: b("photo"), bytes: png_bytes() },
        Entry { path: b("notes"), bytes: text_bytes() },
    ];
    let report = plan_directory(false, &entries);
    assert_eq!(report.failed, None);
    assert_eq!(report.renames.len(), 1);
    assert_eq!(report.renames[0].from, b("photo"));
    assert_eq!(report.renames[0].to, b("photo.png"));
    assert_eq!(report.skips, vec![b("notes")]);
}

#[test]
fn strip_pass_on_png_file() {
    let entries = vec![Entry { path: b("image.png"), bytes: png_bytes() }];
    let report = plan_directory(true, &entries);
    assert_eq!(report.failed, None);
    assert_eq!(report.renames.len(), 1);
    assert_eq!(report.renames[0].from, b("image.png"));
    assert_eq!(report.renames[0].to, b("image"));
    assert_eq!(report.skips.len(), 0);
}

#[test]
fn pass_fails_fast_at_first_bad_entry() {
    let entries = vec![
        Entry { path: b("a/first.txt"), bytes: vec![] },
        Entry { path: b("a/"), bytes: vec![] },
        Entry { path: b("a/third.txt"), bytes: vec![] },
    ];
    let report = plan_directory(true, &entries);
    assert_eq!(report.failed, Some(1));
    assert_eq!(report.renames.len(), 1);
    assert_eq!(report.renames[0].from, b("a/first.txt"));
    assert_eq!(report.renames[0].to, b("a/first"));
    assert_eq!(report.skips.len(), 0);
}

#[test]
fn strip_pass_twice_second_is_identity() {
    let entries = vec![
        Entry { path: b("d/image.png"), bytes: vec![] },
        Entry { path: b("d/notes"), bytes: vec![] },
    ];
    let first = plan_directory(true, &entries);
    assert_eq!(first.failed, None);
    let again: Vec<Entry> = first
        .renames
        .iter()
        .map(|pr| Entry { path: pr.to.clone(), bytes: vec![] })
        .collect();
    let second = plan_directory(true, &again);
    assert_eq!(second.failed, None);
    assert_eq!(second.renames.len(), first.renames.len());
    for (pr, en) in second.renames.iter().zip(again.iter()) {
        assert_eq!(pr.from, en.path);
        assert_eq!(pr.to, en.path);
    }
}
