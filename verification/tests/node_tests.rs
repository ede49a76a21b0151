use remarko::nodes::{
    clone_files, has_suffix, shown_for, AnyNode, AsAny, Directory, DirectoryNode, File, Metadata, Node, SystemDirectory,
    TimestampError,
};

fn named(name: &str, modified: &str) -> File {
    File::new(
        remarko::nodes::Hash::new("abc".to_string()),
        Metadata::new(
            name.to_string(),
            Some("parent-hash".to_string()),
            modified.to_string(),
            "DocumentType".to_string(),
        ),
    )
}

#[test]
fn stem_removes_one_document_extension() {
    assert_eq!(named("A.pdf", "0").get_file_stem(), "A");
    assert_eq!(named("A.epub", "0").get_file_stem(), "A");
    assert_eq!(named("A.txt", "0").get_file_stem(), "A.txt");
    assert_eq!(named("a.b.pdf", "0").get_file_stem(), "a.b");
    assert_eq!(named("x.pdf.pdf", "0").get_file_stem(), "x.pdf");
    assert_eq!(named("x.epub.pdf", "0").get_file_stem(), "x.epub");
    assert_eq!(named(".pdf", "0").get_file_stem(), "");
    assert_eq!(named(".epub", "0").get_file_stem(), "");
    assert_eq!(named("pdf", "0").get_file_stem(), "pdf");
    assert_eq!(named("A.PDF", "0").get_file_stem(), "A.PDF");
    assert_eq!(named("", "0").get_file_stem(), "");
    assert_eq!(named("résumé.pdf", "0").get_file_stem(), "résumé");
}

#[test]
fn suffix_test_matches_std() {
    assert!(has_suffix("abc.pdf", ".pdf"));
    assert!(has_suffix("abc", ""));
    assert!(has_suffix("", ""));
    assert!(!has_suffix("pdf", ".pdf"));
    assert!(!has_suffix("abc.pdx", ".pdf"));
    assert!(has_suffix("né.é", ".é"));
}

#[test]
fn file_getters_return_what_was_given() {
    let f = named("A.pdf", "17");
    assert_eq!(f.get_hash().as_str(), "abc");
    assert_eq!(f.get_visible_name(), "A.pdf");
    assert_eq!(f.get_parent(), Some(&"parent-hash".to_string()));
    assert_eq!(f.get_metadata().last_modified(), "17");
    assert_eq!(f.get_metadata().kind(), "DocumentType");
    assert_eq!(f.get_metadata().type_, "DocumentType");
    let g = f.clone();
    assert_eq!(g.get_hash().as_str(), "abc");
    assert_eq!(g.get_visible_name(), "A.pdf");
    assert_eq!(g.get_parent(), Some(&"parent-hash".to_string()));
}

#[test]
fn last_modified_is_shown_in_utc() {
    assert_eq!(named("a", "0").get_last_modified(), Ok("1970-01-01 00:00:00".to_string()));
    assert_eq!(
        named("a", "1431648000").get_last_modified(),
        Ok("2015-05-15 00:00:00".to_string())
    );
    assert_eq!(
        named("a", "1700000000").get_last_modified(),
        Ok("2023-11-14 22:13:20".to_string())
    );
    assert_eq!(named("a", "+60").get_last_modified(), Ok("1970-01-01 00:01:00".to_string()));
    assert_eq!(named("a", "-1").get_last_modified(), Ok("1969-12-31 23:59:59".to_string()));
}

#[test]
fn last_modified_rejects_what_is_no_number() {
    assert_eq!(named("a", "").get_last_modified(), Err(TimestampError::Malformed));
    assert_eq!(named("a", "abc").get_last_modified(), Err(TimestampError::Malformed));
    assert_eq!(named("a", "12 ").get_last_modified(), Err(TimestampError::Malformed));
    assert_eq!(named("a", "-").get_last_modified(), Err(TimestampError::Malformed));
    assert_eq!(named("a", "1.5").get_last_modified(), Err(TimestampError::Malformed));
    assert_eq!(
        named("a", "9223372036854775808").get_last_modified(),
        Err(TimestampError::Malformed)
    );
}

#[test]
fn last_modified_rejects_dates_out_of_range() {
    assert_eq!(
        named("a", "9223372036854775807").get_last_modified(),
        Err(TimestampError::OutOfRange)
    );
    assert_eq!(
        named("a", "-9223372036854775808").get_last_modified(),
        Err(TimestampError::OutOfRange)
    );
}

#[test]
fn directory_without_children_is_empty() {
    let d = Directory::new(
        remarko::nodes::Hash::new("h".to_string()),
        Metadata::new("d".to_string(), None, "0".to_string(), "CollectionType".to_string()),
        None,
        None,
    );
    assert!(d.get_files().is_empty());
    assert!(d.get_directories().is_empty());
    assert_eq!(d.get_visible_name(), "d");
    assert_eq!(d.get_hash().as_str(), "h");
    assert!(d.get_parent().is_none());
}

#[test]
fn directory_keeps_children_in_insertion_order() {
    let mut d = Directory::new(
        remarko::nodes::Hash::new("h".to_string()),
        Metadata::new("d".to_string(), None, "0".to_string(), "CollectionType".to_string()),
        Some(vec![named("first", "0")]),
        None,
    );
    d.add_file(named("second", "0"));
    d.add_file(named("third", "0"));
    let inner = Directory::new(
        remarko::nodes::Hash::new("i".to_string()),
        Metadata::new("inner".to_string(), None, "0".to_string(), "CollectionType".to_string()),
        None,
        None,
    );
    d.add_directory(inner);
    let names: Vec<&str> = d.get_files().iter().map(|f| f.get_visible_name().as_str()).collect();
    assert_eq!(names, vec!["first", "second", "third"]);
    assert_eq!(d.get_directories().len(), 1);
    assert_eq!(d.get_directories()[0].get_visible_name(), "inner");
    let copy = d.clone();
    assert_eq!(copy.get_files().len(), 3);
    assert_eq!(copy.get_directories()[0].get_hash().as_str(), "i");
    assert_eq!(copy.get_visible_name(), "d");
}

#[test]
fn system_directory_has_a_name_and_children() {
    let mut s = SystemDirectory::new("sys".to_string(), None, None);
    assert_eq!(s.get_visible_name(), "sys");
    assert!(s.get_parent().is_none());
    assert!(s.get_files().is_empty());
    s.add_file(named("f", "0"));
    s.add_directory(Directory::new(
        remarko::nodes::Hash::new("i".to_string()),
        Metadata::new("inner".to_string(), None, "0".to_string(), "CollectionType".to_string()),
        None,
        None,
    ));
    assert_eq!(s.get_files().len(), 1);
    assert_eq!(s.get_directories().len(), 1);
    let t = SystemDirectory::new("t".to_string(), Some(vec![named("g", "0")]), Some(vec![]));
    assert_eq!(t.get_files()[0].get_visible_name(), "g");
}

#[test]
fn cloned_files_keep_their_fields() {
    let files = vec![named("a", "1"), named("b", "2")];
    let copy = clone_files(&files);
    assert_eq!(copy.len(), 2);
    assert_eq!(copy[1].get_visible_name(), "b");
    assert_eq!(copy[1].get_metadata().last_modified(), "2");
}

#[test]
fn nodes_tell_their_kind() {
    let f = named("f", "0");
    let d = Directory::new(
        remarko::nodes::Hash::new("h".to_string()),
        Metadata::new("d".to_string(), None, "0".to_string(), "CollectionType".to_string()),
        None,
        None,
    );
    let s = SystemDirectory::new("s".to_string(), None, None);
    assert!(matches!(f.as_any(), AnyNode::File(x) if x.get_visible_name() == "f"));
    assert!(matches!(d.as_any(), AnyNode::Directory(x) if x.get_visible_name() == "d"));
    assert!(matches!(s.as_any(), AnyNode::System(x) if x.get_visible_name() == "s"));
}

#[test]
fn shown_time_follows_what_was_read() {
    assert_eq!(shown_for(None, None), Err(TimestampError::Malformed));
    assert_eq!(shown_for(None, Some("x".to_string())), Err(TimestampError::Malformed));
    assert_eq!(shown_for(Some(5), None), Err(TimestampError::OutOfRange));
    assert_eq!(shown_for(Some(5), Some("1970-01-01 00:00:05".to_string())), Ok("1970-01-01 00:00:05".to_string()));
}
