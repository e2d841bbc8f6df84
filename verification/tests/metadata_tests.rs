use brr::{Extension, Metadata};

#[test]
fn extension_md_is_recognized() {
    assert_eq!(Metadata::get_extension("note.md"), Extension::Md);
    assert_eq!(Metadata::get_extension("dir/note.md"), Extension::Md);
}

#[test]
fn extension_txt_is_recognized() {
    assert_eq!(Metadata::get_extension("note.txt"), Extension::Txt);
    assert_eq!(Metadata::get_extension("a/b/note.txt"), Extension::Txt);
}

#[test]
fn unknown_extensions_are_other() {
    assert_eq!(Metadata::get_extension("note.rs"), Extension::Other);
    assert_eq!(Metadata::get_extension("note.markdown"), Extension::Other);
    assert_eq!(Metadata::get_extension("note."), Extension::Other);
}

#[test]
fn missing_extension_is_none() {
    assert_eq!(Metadata::get_extension("note"), Extension::NoExt);
    assert_eq!(Metadata::get_extension(""), Extension::NoExt);
    assert_eq!(Metadata::get_extension("dir.d/note"), Extension::NoExt);
}

#[test]
fn leading_dot_alone_is_no_extension() {
    assert_eq!(Metadata::get_extension(".txt"), Extension::NoExt);
    assert_eq!(Metadata::get_extension("dir/.txt"), Extension::NoExt);
    assert_eq!(Metadata::get_extension(".config.md"), Extension::Md);
}

#[test]
fn last_dot_decides() {
    assert_eq!(Metadata::get_extension("a.tar.md"), Extension::Md);
    assert_eq!(Metadata::get_extension("a.md.bak"), Extension::Other);
}
