use remarko::local_fs::{
    build_local_directory, compare_directories, is_hidden, remove_common_files_and_directories,
    unique_to_first, LocalEntry,
};
use remarko::nodes::{Directory, DirectoryNode, File, Metadata, Node};

fn file(name: &str) -> File {
    File::new(
        remarko::nodes::Hash::new(format!("h-{}", name)),
        Metadata::new(name.to_string(), None, "0".to_string(), "DocumentType".to_string()),
    )
}

fn dir(name: &str, files: Vec<File>, dirs: Vec<Directory>) -> Directory {
    Directory::new(
        remarko::nodes::Hash::new(format!("d-{}", name)),
        Metadata::new(name.to_string(), None, "0".to_string(), "CollectionType".to_string()),
        Some(files),
        Some(dirs),
    )
}

fn shape(d: &Directory) -> String {
    let files: Vec<String> = d.get_files().iter().map(|f| f.get_visible_name().clone()).collect();
    let dirs: Vec<String> = d.get_directories().iter().map(shape).collect();
    format!("{}{{files:[{}],dirs:[{}]}}", d.get_visible_name(), files.join(","), dirs.join(","))
}

#[test]
fn stems_cancel_and_missing_directory_is_carried_whole() {
    let remote = dir(
        "remote",
        vec![file("A.pdf"), file("B.pdf")],
        vec![dir("Notes", vec![file("C.pdf")], vec![])],
    );
    let local = dir("local", vec![file("A.epub"), file("D.pdf")], vec![]);
    let (on_remote, on_local) = remove_common_files_and_directories(&remote, &local);
    assert_eq!(shape(&on_remote), "remote{files:[B.pdf],dirs:[Notes{files:[C.pdf],dirs:[]}]}");
    assert_eq!(shape(&on_local), "local{files:[D.pdf],dirs:[]}");
}

#[test]
fn diff_keeps_identity_of_each_side() {
    let a = dir("a", vec![file("x.pdf")], vec![]);
    let b = dir("b", vec![], vec![]);
    let (ua, ub) = remove_common_files_and_directories(&a, &b);
    assert_eq!(ua.get_hash().as_str(), "d-a");
    assert_eq!(ub.get_hash().as_str(), "d-b");
    assert_eq!(ua.get_visible_name(), "a");
    assert_eq!(ub.get_visible_name(), "b");
    assert_eq!(ua.get_files()[0].get_hash().as_str(), "h-x.pdf");
    assert_eq!(ua.get_metadata().kind(), "CollectionType");
}

#[test]
fn diff_of_a_tree_with_itself_is_empty() {
    let build = || {
        dir(
            "t",
            vec![file("a.pdf"), file("b.epub"), file("c")],
            vec![
                dir("x", vec![file("1.pdf")], vec![dir("deep", vec![file("2")], vec![])]),
                dir("y", vec![], vec![]),
            ],
        )
    };
    let (left, right) = remove_common_files_and_directories(&build(), &build());
    assert_eq!(shape(&left), "t{files:[],dirs:[]}");
    assert_eq!(shape(&right), "t{files:[],dirs:[]}");
}

#[test]
fn diff_swapped_gives_swapped_results() {
    let a = dir(
        "a",
        vec![file("one.pdf"), file("two.pdf")],
        vec![
            dir("x", vec![file("p.pdf")], vec![]),
            dir("y", vec![file("q.pdf")], vec![]),
        ],
    );
    let b = dir(
        "b",
        vec![file("two.epub"), file("three.pdf")],
        vec![
            dir("z", vec![], vec![]),
            dir("x", vec![file("p.pdf"), file("r.pdf")], vec![]),
        ],
    );
    let (ab_a, ab_b) = remove_common_files_and_directories(&a, &b);
    let (ba_b, ba_a) = remove_common_files_and_directories(&b, &a);
    assert_eq!(shape(&ab_a), shape(&ba_a));
    assert_eq!(shape(&ab_b), shape(&ba_b));
    assert_eq!(shape(&ab_a), "a{files:[one.pdf],dirs:[y{files:[q.pdf],dirs:[]}]}");
    assert_eq!(
        shape(&ab_b),
        "b{files:[three.pdf],dirs:[z{files:[],dirs:[]},x{files:[r.pdf],dirs:[]}]}"
    );
}

#[test]
fn matched_directories_without_difference_are_pruned() {
    let a = dir(
        "a",
        vec![],
        vec![dir("same", vec![file("f.pdf")], vec![dir("inner", vec![file("g.epub")], vec![])])],
    );
    let b = dir(
        "b",
        vec![],
        vec![dir("same", vec![file("f.epub")], vec![dir("inner", vec![file("g.pdf")], vec![])])],
    );
    let (ua, ub) = remove_common_files_and_directories(&a, &b);
    assert!(ua.get_directories().is_empty());
    assert!(ub.get_directories().is_empty());
}

#[test]
fn matched_directories_keep_only_what_differs() {
    let a = dir(
        "a",
        vec![],
        vec![dir(
            "docs",
            vec![file("keep.pdf"), file("both.pdf")],
            vec![dir("inner", vec![file("only.pdf")], vec![]), dir("equal", vec![file("e")], vec![])],
        )],
    );
    let b = dir(
        "b",
        vec![],
        vec![dir(
            "docs",
            vec![file("both.pdf")],
            vec![dir("inner", vec![], vec![]), dir("equal", vec![file("e")], vec![])],
        )],
    );
    let ua = unique_to_first(&a, &b);
    assert_eq!(
        shape(&ua),
        "a{files:[],dirs:[docs{files:[keep.pdf],dirs:[inner{files:[only.pdf],dirs:[]}]}]}"
    );
    let ub = unique_to_first(&b, &a);
    assert_eq!(shape(&ub), "b{files:[],dirs:[]}");
}

#[test]
fn empty_directory_on_one_side_only_is_kept_whole() {
    let a = dir("a", vec![], vec![dir("empty", vec![], vec![])]);
    let b = dir("b", vec![], vec![]);
    let (ua, ub) = remove_common_files_and_directories(&a, &b);
    assert_eq!(shape(&ua), "a{files:[],dirs:[empty{files:[],dirs:[]}]}");
    assert_eq!(shape(&ub), "b{files:[],dirs:[]}");
}

#[test]
fn files_are_common_exactly_when_stems_agree() {
    let cases = [
        ("n.pdf", "n.epub", true),
        ("n.pdf", "n", true),
        ("n.pdf", "n.pdf", true),
        ("n.pdf", "m.pdf", false),
        ("n.pdf.pdf", "n.pdf", false),
        ("n.pdf.pdf", "n.pdf.epub", true),
        ("n.txt", "n", false),
        ("N.pdf", "n.pdf", false),
    ];
    for (n1, n2, common) in cases {
        let a = dir("a", vec![file(n1)], vec![]);
        let b = dir("b", vec![file(n2)], vec![]);
        let (ua, ub) = remove_common_files_and_directories(&a, &b);
        assert_eq!(ua.get_files().is_empty(), common, "{} against {}", n1, n2);
        assert_eq!(ub.get_files().is_empty(), common, "{} against {}", n2, n1);
        assert_eq!(file(n1).get_file_stem() == file(n2).get_file_stem(), common);
    }
}

#[test]
fn report_names_what_each_side_lacks() {
    let a = dir(
        "left",
        vec![file("A.pdf"), file("B.pdf")],
        vec![
            dir("Notes", vec![file("C.pdf")], vec![]),
            dir("Shared", vec![file("s1")], vec![dir("OnlyLeft", vec![], vec![])]),
        ],
    );
    let b = dir(
        "right",
        vec![file("A.epub"), file("B.pdf")],
        vec![
            dir("Shared", vec![file("s2")], vec![]),
            dir("Extra", vec![], vec![]),
        ],
    );
    let report = compare_directories(&a, &b);
    assert_eq!(
        report,
        vec![
            "File A.pdf is missing in right.".to_string(),
            "File A.epub is missing in left.".to_string(),
            "Directory Notes is missing in right.".to_string(),
            "File s1 is missing in Shared.".to_string(),
            "File s2 is missing in Shared.".to_string(),
            "Directory OnlyLeft is missing in Shared.".to_string(),
            "Directory Extra is missing in left.".to_string(),
        ]
    );
}

#[test]
fn report_on_equal_trees_is_empty() {
    let a = dir("a", vec![file("x.pdf")], vec![dir("d", vec![file("y")], vec![])]);
    let b = dir("a", vec![file("x.pdf")], vec![dir("d", vec![file("y")], vec![])]);
    assert!(compare_directories(&a, &b).is_empty());
}

#[test]
fn report_compares_names_exactly_while_diff_compares_stems() {
    let a = dir("a", vec![file("doc.pdf")], vec![]);
    let b = dir("b", vec![file("doc.epub")], vec![]);
    assert_eq!(compare_directories(&a, &b).len(), 2);
    let (ua, ub) = remove_common_files_and_directories(&a, &b);
    assert!(ua.get_files().is_empty() && ub.get_files().is_empty());
}

fn entry(name: &str, is_file: bool, is_dir: bool, children: Vec<LocalEntry>) -> LocalEntry {
    LocalEntry { name: name.to_string(), is_file, is_dir, children }
}

#[test]
fn local_tree_skips_hidden_entries() {
    let entries = vec![
        entry("a.pdf", true, false, vec![]),
        entry(".hidden", true, false, vec![]),
        entry(".git", false, true, vec![entry("config", true, false, vec![])]),
        entry("sub", false, true, vec![
            entry("b.epub", true, false, vec![]),
            entry(".secret", true, false, vec![]),
            entry("deeper", false, true, vec![]),
        ]),
        entry("socket", false, false, vec![]),
    ];
    let tree = build_local_directory("top", &entries);
    assert_eq!(
        shape(&tree),
        "top{files:[a.pdf],dirs:[sub{files:[b.epub],dirs:[deeper{files:[],dirs:[]}]}]}"
    );
    assert_eq!(tree.get_hash().as_str(), "e11o-420-69");
    assert_eq!(tree.get_metadata().kind(), "directory");
    assert_eq!(tree.get_metadata().last_modified(), "420");
    assert!(tree.get_parent().is_none());
    assert_eq!(tree.get_files()[0].get_hash().as_str(), "3rr93jfierjf-9erijfe0");
    assert_eq!(tree.get_files()[0].get_metadata().kind(), "file");
}

#[test]
fn local_tree_of_nothing_is_empty() {
    let tree = build_local_directory("void", &vec![]);
    assert_eq!(shape(&tree), "void{files:[],dirs:[]}");
}

#[test]
fn hidden_names_start_with_a_dot() {
    assert!(is_hidden(".a"));
    assert!(is_hidden("."));
    assert!(!is_hidden("a.b"));
    assert!(!is_hidden(""));
}

#[test]
fn path_leads_to_the_named_directory() {
    let root = dir(
        "root",
        vec![],
        vec![
            dir("a", vec![file("in-a")], vec![dir("b", vec![file("in-b")], vec![])]),
            dir("c", vec![], vec![]),
        ],
    );
    let found = remarko::local_fs::find_subdirectory(&root, &vec!["a".to_string(), "b".to_string()]);
    assert_eq!(shape(&found.unwrap()), "b{files:[in-b],dirs:[]}");
    let whole = remarko::local_fs::find_subdirectory(&root, &vec![]);
    assert_eq!(
        shape(&whole.unwrap()),
        "root{files:[],dirs:[a{files:[in-a],dirs:[b{files:[in-b],dirs:[]}]},c{files:[],dirs:[]}]}"
    );
}

#[test]
fn path_names_the_segment_that_is_missing() {
    let root = dir("root", vec![file("x")], vec![dir("a", vec![], vec![])]);
    let missing = remarko::local_fs::find_subdirectory(
        &root,
        &vec!["a".to_string(), "nope".to_string(), "later".to_string()],
    );
    assert_eq!(missing.err(), Some("nope".to_string()));
    let file_is_no_directory = remarko::local_fs::find_subdirectory(&root, &vec!["x".to_string()]);
    assert_eq!(file_is_no_directory.err(), Some("x".to_string()));
}
