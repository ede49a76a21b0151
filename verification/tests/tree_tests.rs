use remarko::nodes::{Directory, DirectoryNode, Metadata, Node};
use remarko::remarkable_trees::{
    build_tree, is_directory_kind, same_text, Anomaly, Record,
};
use remarko::ssh_utils::{copy_directory_from_remote, SyncStep};

fn record(hash: &str, name: &str, parent: Option<&str>, kind: &str) -> Record {
    Record {
        hash: remarko::nodes::Hash::new(hash.to_string()),
        metadata: Some(Metadata::new(
            name.to_string(),
            parent.map(|p| p.to_string()),
            "0".to_string(),
            kind.to_string(),
        )),
    }
}

fn unreadable(hash: &str) -> Record {
    Record { hash: remarko::nodes::Hash::new(hash.to_string()), metadata: None }
}

fn outline(d: &Directory) -> String {
    let files: Vec<String> = d.get_files().iter().map(|f| f.get_hash().as_str().to_string()).collect();
    let dirs: Vec<String> = d.get_directories().iter().map(outline).collect();
    format!("{}({};{})", d.get_hash().as_str(), files.join(","), dirs.join(","))
}

fn told(anomalies: &Vec<Anomaly>) -> Vec<String> {
    anomalies
        .iter()
        .map(|a| match a {
            Anomaly::Unreadable(h) => format!("unreadable {}", h.as_str()),
            Anomaly::Orphan(h) => format!("orphan {}", h.as_str()),
            Anomaly::Cycle(h) => format!("cycle {}", h.as_str()),
        })
        .collect()
}

#[test]
fn tree_follows_parent_pointers() {
    let records = vec![
        record("f2", "inner.pdf", Some("d1"), "DocumentType"),
        record("d1", "Notes", None, "CollectionType"),
        record("f1", "top.pdf", Some(""), "DocumentType"),
        record("d2", "Deep", Some("d1"), "CollectionType"),
        record("f3", "deep.pdf", Some("d2"), "DocumentType"),
        record("t1", "gone.pdf", Some("trash"), "DocumentType"),
        record("t2", "Gone", Some("trash"), "CollectionType"),
        record("t3", "under gone", Some("t2"), "DocumentType"),
    ];
    let built = build_tree(&records);
    assert_eq!(outline(&built.root), "(f1;d1(f2;d2(f3;)))");
    assert_eq!(outline(&built.trash), "trash(t1;t2(t3;))");
    assert!(built.anomalies.is_empty());
    assert_eq!(built.root.get_visible_name(), "root");
    assert_eq!(built.trash.get_visible_name(), "trash");
    assert_eq!(built.root.get_directories()[0].get_visible_name(), "Notes");
    assert_eq!(built.root.get_directories()[0].get_files()[0].get_visible_name(), "inner.pdf");
}

#[test]
fn empty_listing_gives_two_empty_trees() {
    let built = build_tree(&vec![]);
    assert_eq!(outline(&built.root), "(;)");
    assert_eq!(outline(&built.trash), "trash(;)");
    assert!(built.anomalies.is_empty());
}

#[test]
fn cycle_of_two_ends_and_is_reported() {
    let records = vec![
        record("h1", "one", Some("h2"), "CollectionType"),
        record("h2", "two", Some("h1"), "CollectionType"),
        record("f", "file in the circle", Some("h1"), "DocumentType"),
        record("ok", "fine.pdf", None, "DocumentType"),
    ];
    let built = build_tree(&records);
    assert_eq!(outline(&built.root), "(ok;)");
    assert_eq!(outline(&built.trash), "trash(;)");
    assert_eq!(told(&built.anomalies), vec!["cycle h1", "cycle h2", "cycle f"]);
}

#[test]
fn directory_that_is_its_own_parent_is_reported() {
    let records = vec![record("h", "self", Some("h"), "CollectionType")];
    let built = build_tree(&records);
    assert_eq!(outline(&built.root), "(;)");
    assert_eq!(told(&built.anomalies), vec!["cycle h"]);
}

#[test]
fn orphan_hangs_under_the_root() {
    let records = vec![
        record("a", "a.pdf", Some("missing"), "DocumentType"),
        record("b", "B", Some("nowhere"), "CollectionType"),
        record("c", "c.pdf", Some("b"), "DocumentType"),
        record("r", "r.pdf", None, "DocumentType"),
        record("x", "x.pdf", Some("r"), "DocumentType"),
    ];
    let built = build_tree(&records);
    assert_eq!(outline(&built.root), "(r,a,x;b(c;))");
    assert_eq!(told(&built.anomalies), vec!["orphan a", "orphan b", "orphan x"]);
}

#[test]
fn unreadable_record_is_left_out_and_reported() {
    let records = vec![
        unreadable("bad"),
        record("f", "f.pdf", None, "DocumentType"),
        record("g", "g.pdf", Some("bad"), "DocumentType"),
    ];
    let built = build_tree(&records);
    assert_eq!(outline(&built.root), "(f,g;)");
    assert_eq!(told(&built.anomalies), vec!["unreadable bad", "orphan g"]);
}

#[test]
fn children_hang_under_the_first_directory_of_their_hash() {
    let records = vec![
        record("d", "D", None, "CollectionType"),
        record("d", "D again", None, "CollectionType"),
        record("f", "f", Some("d"), "DocumentType"),
    ];
    let built = build_tree(&records);
    assert_eq!(outline(&built.root), "(;d(f;),d(;))");
    assert!(built.anomalies.is_empty());
}

#[test]
fn long_chain_is_built_to_its_end() {
    let mut records = vec![record("n0", "n0", None, "CollectionType")];
    for i in 1..30 {
        let parent = format!("n{}", i - 1);
        records.push(record(&format!("n{}", i), "n", Some(parent.as_str()), "CollectionType"));
    }
    records.reverse();
    let built = build_tree(&records);
    let mut depth = 0;
    let mut cur = &built.root;
    while !cur.get_directories().is_empty() {
        assert_eq!(cur.get_directories().len(), 1);
        cur = &cur.get_directories()[0];
        depth += 1;
    }
    assert_eq!(depth, 30);
    assert!(built.anomalies.is_empty());
}

#[test]
fn kinds_and_texts_are_compared_exactly() {
    assert!(is_directory_kind("CollectionType"));
    assert!(is_directory_kind("directory"));
    assert!(!is_directory_kind("DocumentType"));
    assert!(!is_directory_kind("file"));
    assert!(!is_directory_kind("collectiontype"));
    assert!(same_text("trash", "trash"));
    assert!(!same_text("trash", "trasH"));
    assert!(!same_text("trash", "trash "));
    assert!(same_text("", ""));
}

fn steps_told(steps: &Vec<SyncStep>) -> Vec<String> {
    steps
        .iter()
        .map(|s| match s {
            SyncStep::EnsureDirectory { path } => format!("dir {}", path),
            SyncStep::CopyFile { remote_path, local_path, object, name } => {
                format!("copy {} -> {} ({}, {})", remote_path, local_path, object, name)
            }
        })
        .collect()
}

#[test]
fn plan_creates_directories_before_it_copies_into_them() {
    let records = vec![
        record("h1", "B.pdf", None, "DocumentType"),
        record("d1", "Notes", None, "CollectionType"),
        record("h2", "C.pdf", Some("d1"), "DocumentType"),
        record("d2", "Empty", Some("d1"), "CollectionType"),
    ];
    let built = build_tree(&records);
    let steps = copy_directory_from_remote(&built.root, "/home/me/docs", "/remote/store");
    assert_eq!(
        steps_told(&steps),
        vec![
            "dir /home/me/docs",
            "copy /remote/store/h1.pdf -> /home/me/docs/B.pdf (h1.pdf, B.pdf)",
            "dir /home/me/docs/Notes",
            "copy /remote/store/h2.pdf -> /home/me/docs/Notes/C.pdf (h2.pdf, C.pdf)",
            "dir /home/me/docs/Notes/Empty",
        ]
    );
}

#[test]
fn plan_of_an_empty_tree_only_ensures_the_destination() {
    let built = build_tree(&vec![]);
    let steps = copy_directory_from_remote(&built.root, "out", "store");
    assert_eq!(steps_told(&steps), vec!["dir out"]);
}

fn hashes_told(output: &str) -> Vec<String> {
    remarko::remarkable_trees::get_hashes_from_ls_output(output)
        .iter()
        .map(|h| h.as_str().to_string())
        .collect()
}

#[test]
fn listing_names_one_hash_for_each_metadata_file() {
    let output = "0a1b.content\n0a1b.metadata\n0a1b.pdf\n0a1b\nffee.metadata\nffee.thumbnails\n";
    assert_eq!(hashes_told(output), vec!["0a1b", "ffee"]);
}

#[test]
fn listing_without_final_line_feed_counts_its_last_line() {
    assert_eq!(hashes_told("a.metadata\nb.metadata"), vec!["a", "b"]);
    assert_eq!(hashes_told("only.metadata"), vec!["only"]);
}

#[test]
fn listing_keeps_lines_exactly() {
    assert_eq!(hashes_told(""), Vec::<String>::new());
    assert_eq!(hashes_told("\n\n"), Vec::<String>::new());
    assert_eq!(hashes_told(".metadata\n"), vec![""]);
    assert_eq!(hashes_told("a.metadata \nb.Metadata\nc.metadata.bak\n"), Vec::<String>::new());
    assert_eq!(hashes_told("x.metadata.metadata\n"), vec!["x.metadata"]);
    assert_eq!(hashes_told("é.metadata\n"), vec!["é"]);
}

fn occurrences(d: &Directory, hash: &str) -> usize {
    let here = d.get_files().iter().filter(|f| f.get_hash().as_str() == hash).count();
    let below: usize = d
        .get_directories()
        .iter()
        .map(|x| usize::from(x.get_hash().as_str() == hash) + occurrences(x, hash))
        .sum();
    here + below
}

#[test]
fn every_record_that_reaches_a_root_stands_exactly_once() {
    let records = vec![
        record("a", "A", None, "CollectionType"),
        record("b", "B", Some("a"), "CollectionType"),
        record("c", "c.pdf", Some("b"), "DocumentType"),
        record("d", "d.pdf", Some("a"), "DocumentType"),
        record("e", "E", Some("trash"), "CollectionType"),
        record("f", "f.pdf", Some("e"), "DocumentType"),
        record("g", "g.pdf", Some("gone"), "DocumentType"),
        record("x", "X", Some("y"), "CollectionType"),
        record("y", "Y", Some("x"), "CollectionType"),
        unreadable("z"),
    ];
    let built = build_tree(&records);
    for hash in ["a", "b", "c", "d", "g"] {
        assert_eq!(occurrences(&built.root, hash), 1, "{} in the document tree", hash);
        assert_eq!(occurrences(&built.trash, hash), 0, "{} in the trash", hash);
    }
    for hash in ["e", "f"] {
        assert_eq!(occurrences(&built.root, hash), 0, "{} in the document tree", hash);
        assert_eq!(occurrences(&built.trash, hash), 1, "{} in the trash", hash);
    }
    for hash in ["x", "y", "z"] {
        assert_eq!(occurrences(&built.root, hash) + occurrences(&built.trash, hash), 0);
    }
    assert_eq!(told(&built.anomalies), vec!["orphan g", "cycle x", "cycle y", "unreadable z"]);
}
