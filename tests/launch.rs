use notes_header::launch::{Editor, Profile};

#[test]
fn editor_commands() {
    assert_eq!(Editor::Vim.command(), "nvim");
    assert_eq!(Editor::Cursor.command(), "cursor");
    assert_eq!(Editor::VSCode.command(), "code");
}

#[test]
fn profile_file_names() {
    assert_eq!(Profile::from_private(false), Profile::Work);
    assert_eq!(Profile::from_private(true), Profile::Private);
    assert_eq!(Profile::Work.file_name(), "notes.txt");
    assert_eq!(Profile::Private.file_name(), "notes-personal.txt");
}
