//! Comparing two trees: the pruning difference, which yields what is unique
//! to each side, and the descriptive report of what each side is missing.

use crate::nodes::{
    dirs_view, files_view, stem, Directory, DirectoryNode, DirectoryView, File, FileView,
    Metadata, MetadataView, Node,
};
use vstd::prelude::*;
use vstd::string::*;

verus! {

/// Some file of `files` has the stem `s`.
pub open spec fn has_stem(files: Seq<FileView>, s: Seq<char>) -> bool {
    exists|i: int| 0 <= i < files.len() && stem((#[trigger] files[i]).metadata.visible_name) == s
}

/// Two file names are common to both sides of a difference when their stems
/// agree.
pub open spec fn diff_common(n1: Seq<char>, n2: Seq<char>) -> bool {
    stem(n1) == stem(n2)
}

/// The files of `a`, in order, whose stem no file of `b` has.
pub open spec fn unique_files(a: Seq<FileView>, b: Seq<FileView>) -> Seq<FileView> {
    a.filter(|f: FileView| !has_stem(b, stem(f.metadata.visible_name)))
}

/// Some directory of `dirs` is called `name`.
pub open spec fn has_dir(dirs: Seq<DirectoryView>, name: Seq<char>) -> bool {
    exists|i: int| 0 <= i < dirs.len() && (#[trigger] dirs[i]).metadata.visible_name == name
}

/// `j` is the first position in `dirs` of a directory called `name`.
pub open spec fn is_first_dir(dirs: Seq<DirectoryView>, name: Seq<char>, j: int) -> bool {
    &&& 0 <= j < dirs.len()
    &&& dirs[j].metadata.visible_name == name
    &&& forall|i: int| 0 <= i < j ==> (#[trigger] dirs[i]).metadata.visible_name != name
}

/// The first position in `dirs` of a directory called `name`.
pub open spec fn first_dir(dirs: Seq<DirectoryView>, name: Seq<char>) -> int {
    choose|j: int| is_first_dir(dirs, name, j)
}

/// A directory with neither files nor sub-directories.
pub open spec fn is_empty_dir(d: DirectoryView) -> bool {
    d.files.len() == 0 && d.directories.len() == 0
}

/// What of `a` has no counterpart in `b`: the files whose stem `b` lacks,
/// and the sub-directories that `unique_dirs` keeps, under the identity of
/// `a`.
pub open spec fn unique_side(a: DirectoryView, b: DirectoryView) -> DirectoryView
    decreases a, 1nat, 0nat,
{
    DirectoryView {
        hash: a.hash,
        metadata: a.metadata,
        files: unique_files(a.files, b.files),
        directories: unique_dirs(a, b, a.directories.len()),
    }
}

/// What the first `n` sub-directories of `a` leave in the difference with
/// `b`, in order: one without a namesake in `b` stays whole; one with a
/// namesake is replaced by its own difference with the first namesake, and
/// dropped where that difference is empty.
pub open spec fn unique_dirs(a: DirectoryView, b: DirectoryView, n: nat) -> Seq<DirectoryView>
    decreases a, 0nat, n,
{
    if n == 0 || n > a.directories.len() {
        Seq::empty()
    } else {
        let rest = unique_dirs(a, b, (n - 1) as nat);
        let d = a.directories[n - 1];
        if !has_dir(b.directories, d.metadata.visible_name) {
            rest.push(d)
        } else {
            let sub = unique_side(
                d,
                b.directories[first_dir(b.directories, d.metadata.visible_name)],
            );
            if is_empty_dir(sub) {
                rest
            } else {
                rest.push(sub)
            }
        }
    }
}

/// The pruning difference of two trees: what is unique to the first, and
/// what is unique to the second.
pub open spec fn diff(a: DirectoryView, b: DirectoryView) -> (DirectoryView, DirectoryView) {
    (unique_side(a, b), unique_side(b, a))
}

/// The stems of the given files, in order.
fn stems_of(files: &Vec<File>) -> (res: Vec<String>)
    ensures
        res@.len() == files@.len(),
        forall|i: int|
            0 <= i < files@.len() ==> (#[trigger] res@[i])@ == stem(
                files@[i]@.metadata.visible_name,
            ),
{
    let mut out: Vec<String> = Vec::new();
    let mut i: usize = 0;
    while i < files.len()
        invariant
            i <= files.len(),
            out@.len() == i,
            forall|j: int|
                0 <= j < i ==> (#[trigger] out@[j])@ == stem(files@[j]@.metadata.visible_name),
        decreases files.len() - i,
    {
        out.push(files[i].get_file_stem());
        i += 1;
    }
    out
}

/// Tells whether one of `texts` equals `s`.
fn contains_text(texts: &Vec<String>, s: &String) -> (b: bool)
    ensures
        b == exists|i: int| 0 <= i < texts@.len() && (#[trigger] texts@[i])@ == s@,
{
    let mut i: usize = 0;
    while i < texts.len()
        invariant
            i <= texts.len(),
            forall|j: int| 0 <= j < i ==> (#[trigger] texts@[j])@ != s@,
        decreases texts.len() - i,
    {
        if texts[i] == *s {
            return true;
        }
        i += 1;
    }
    false
}

/// The files of `a` whose stem no file of `b` has, copied in order.
fn unique_files_of(a: &Vec<File>, b: &Vec<File>) -> (res: Vec<File>)
    ensures
        files_view(res@) == unique_files(files_view(a@), files_view(b@)),
{
    let b_stems = stems_of(b);
    let ghost av = files_view(a@);
    let ghost bv = files_view(b@);
    let ghost keep = |f: FileView| !has_stem(bv, stem(f.metadata.visible_name));
    let mut out: Vec<File> = Vec::new();
    let mut i: usize = 0;
    proof {
        assert(av.take(0) =~= Seq::<FileView>::empty());
        assert(files_view(out@) =~= av.take(0).filter(keep));
    }
    while i < a.len()
        invariant
            i <= a.len(),
            av == files_view(a@),
            bv == files_view(b@),
            keep == |f: FileView| !has_stem(bv, stem(f.metadata.visible_name)),
            b_stems@.len() == b@.len(),
            forall|j: int|
                0 <= j < b@.len() ==> (#[trigger] b_stems@[j])@ == stem(
                    b@[j]@.metadata.visible_name,
                ),
            files_view(out@) == av.take(i as int).filter(keep),
        decreases a.len() - i,
    {
        let s = a[i].get_file_stem();
        let found = contains_text(&b_stems, &s);
        proof {
            let f = av[i as int];
            assert(f == a@[i as int]@);
            if found {
                let j = choose|j: int| 0 <= j < b_stems@.len() && (#[trigger] b_stems@[j])@ == s@;
                assert(stem(bv[j].metadata.visible_name) == s@);
            }
            if has_stem(bv, s@) {
                let j = choose|j: int|
                    0 <= j < bv.len() && stem((#[trigger] bv[j]).metadata.visible_name) == s@;
                assert(b_stems@[j]@ == s@);
            }
            assert(found == has_stem(bv, s@));
            assert(av.take(i + 1).drop_last() =~= av.take(i as int));
            assert(av.take(i + 1).last() == f);
            reveal(Seq::filter);
            assert(av.take(i + 1).filter(keep) == if keep(f) {
                av.take(i as int).filter(keep).push(f)
            } else {
                av.take(i as int).filter(keep)
            });
        }
        if !found {
            let ghost before = out@;
            out.push(a[i].clone());
            proof {
                assert(files_view(out@) =~= files_view(before).push(av[i as int]));
            }
        }
        i += 1;
    }
    proof {
        assert(av.take(a@.len() as int) =~= av);
    }
    out
}

/// The first directory of `dirs` that is called `name`.
fn find_directory(dirs: &Vec<Directory>, name: &String) -> (r: Option<usize>)
    ensures
        r.is_some() == has_dir(dirs_view(dirs@), name@),
        r matches Some(j) ==> is_first_dir(dirs_view(dirs@), name@, j as int) && first_dir(
            dirs_view(dirs@),
            name@,
        ) == j,
{
    let ghost dv = dirs_view(dirs@);
    let mut i: usize = 0;
    while i < dirs.len()
        invariant
            i <= dirs.len(),
            dv == dirs_view(dirs@),
            forall|j: int| 0 <= j < i ==> (#[trigger] dv[j]).metadata.visible_name != name@,
        decreases dirs.len() - i,
    {
        if *dirs[i].get_visible_name() == *name {
            proof {
                assert(dv[i as int] == dirs@[i as int]@);
                assert(is_first_dir(dv, name@, i as int));
                lemma_first_dir(dv, name@, i as int);
            }
            return Some(i);
        }
        proof {
            assert(dv[i as int] == dirs@[i as int]@);
        }
        i += 1;
    }
    None
}

/// A first position is the only first position.
pub proof fn lemma_first_dir(dirs: Seq<DirectoryView>, name: Seq<char>, j: int)
    requires
        is_first_dir(dirs, name, j),
    ensures
        first_dir(dirs, name) == j,
        has_dir(dirs, name),
{
    let k = first_dir(dirs, name);
    assert(is_first_dir(dirs, name, k));
    if k < j {
        assert(dirs[k].metadata.visible_name != name);
    }
    if j < k {
        assert(dirs[j].metadata.visible_name != name);
    }
}

/// What of `dir1` has no counterpart in `dir2`, as a new tree under the
/// identity of `dir1`.
pub fn unique_to_first(dir1: &Directory, dir2: &Directory) -> (res: Directory)
    ensures
        res@ == unique_side(dir1@, dir2@),
    decreases dir1,
{
    let files = unique_files_of(dir1.get_files(), dir2.get_files());
    let subs1 = dir1.get_directories();
    let subs2 = dir2.get_directories();
    let ghost a = dir1@;
    let ghost b = dir2@;
    let mut out: Vec<Directory> = Vec::new();
    let mut i: usize = 0;
    proof {
        assert(dirs_view(out@) =~= unique_dirs(a, b, 0));
    }
    while i < subs1.len()
        invariant
            i <= subs1.len(),
            a == dir1@,
            b == dir2@,
            subs1@ == dir1.children(),
            dirs_view(subs1@) == a.directories,
            dirs_view(subs2@) == b.directories,
            dirs_view(out@) == unique_dirs(a, b, i as nat),
        decreases subs1.len() - i,
    {
        let sub1 = &subs1[i];
        proof {
            dir1.lemma_child(i as int);
            assert(a.directories[i as int] == sub1@);
        }
        let ghost before = out@;
        match find_directory(subs2, sub1.get_visible_name()) {
            Some(j) => {
                let sub2 = &subs2[j];
                proof {
                    assert(b.directories[j as int] == sub2@);
                }
                let sub = unique_to_first(sub1, sub2);
                if !sub.get_files().is_empty() || !sub.get_directories().is_empty() {
                    out.push(sub);
                    proof {
                        assert(dirs_view(out@) =~= dirs_view(before).push(sub@));
                    }
                }
            },
            None => {
                out.push(sub1.clone());
                proof {
                    assert(dirs_view(out@) =~= dirs_view(before).push(sub1@));
                }
            },
        }
        i += 1;
    }
    Directory::new(dir1.get_hash().clone(), dir1.get_metadata().clone(), Some(files), Some(out))
}

/// Removes from each of the two trees what the other also has. Files are
/// matched by stem, directories by name; a directory that only one side has
/// is kept whole, and a matched pair is kept only where something under it
/// differs. The first result is what is unique to `dir1`, the second what is
/// unique to `dir2`.
pub fn remove_common_files_and_directories(dir1: &Directory, dir2: &Directory) -> (res: (
    Directory,
    Directory,
))
    ensures
        (res.0@, res.1@) == diff(dir1@, dir2@),
{
    let first = unique_to_first(dir1, dir2);
    let second = unique_to_first(dir2, dir1);
    (first, second)
}

/// What a filter keeps was there before and meets the predicate.
proof fn lemma_filter_member<A>(s: Seq<A>, pred: spec_fn(A) -> bool, x: A)
    requires
        s.filter(pred).contains(x),
    ensures
        s.contains(x),
        pred(x),
    decreases s.len(),
{
    reveal(Seq::filter);
    if s.len() > 0 {
        let rest = s.drop_last().filter(pred);
        if pred(s.last()) && x == s.last() {
            assert(s[s.len() - 1] == x);
        } else {
            let k = choose|k: int| 0 <= k < s.filter(pred).len() && s.filter(pred)[k] == x;
            assert(rest[k] == x);
            lemma_filter_member(s.drop_last(), pred, x);
            let m = choose|m: int| 0 <= m < s.drop_last().len() && s.drop_last()[m] == x;
            assert(s[m] == x);
        }
    }
}

/// Where some directory is called `name`, there is a first one.
pub proof fn lemma_first_dir_exists(dirs: Seq<DirectoryView>, name: Seq<char>)
    requires
        has_dir(dirs, name),
    ensures
        is_first_dir(dirs, name, first_dir(dirs, name)),
{
    let k = choose|i: int| 0 <= i < dirs.len() && (#[trigger] dirs[i]).metadata.visible_name == name;
    lemma_first_dir_before(dirs, name, k);
}

proof fn lemma_first_dir_before(dirs: Seq<DirectoryView>, name: Seq<char>, k: int)
    requires
        0 <= k < dirs.len(),
        dirs[k].metadata.visible_name == name,
    ensures
        exists|j: int| is_first_dir(dirs, name, j),
    decreases k,
{
    if exists|i: int| 0 <= i < k && (#[trigger] dirs[i]).metadata.visible_name == name {
        let i = choose|i: int| 0 <= i < k && (#[trigger] dirs[i]).metadata.visible_name == name;
        lemma_first_dir_before(dirs, name, i);
    } else {
        assert(is_first_dir(dirs, name, k));
    }
}

/// Swapping the two trees swaps the two results: what is unique to the
/// first tree of one call is what is unique to the second tree of the other.
pub proof fn lemma_diff_symmetric(a: DirectoryView, b: DirectoryView)
    ensures
        diff(a, b).0 == diff(b, a).1,
        diff(a, b).1 == diff(b, a).0,
{
}

/// A file of `a` is left out of what is unique to `a` exactly when some file
/// of `b` has the same stem, whatever the extensions of the two.
pub proof fn lemma_stem_equivalence(a: DirectoryView, b: DirectoryView, i: int)
    requires
        0 <= i < a.files.len(),
    ensures
        !unique_side(a, b).files.contains(a.files[i]) <==> exists|j: int|
            0 <= j < b.files.len() && diff_common(
                a.files[i].metadata.visible_name,
                (#[trigger] b.files[j]).metadata.visible_name,
            ),
{
    let f = a.files[i];
    let keep = |g: FileView| !has_stem(b.files, stem(g.metadata.visible_name));
    if unique_side(a, b).files.contains(f) {
        lemma_filter_member(a.files, keep, f);
    }
    if keep(f) {
        a.files.lemma_filter_contains(keep, i);
    }
    assert(unique_side(a, b).files.contains(f) == keep(f));
    if has_stem(b.files, stem(f.metadata.visible_name)) {
        let j = choose|j: int|
            0 <= j < b.files.len() && stem((#[trigger] b.files[j]).metadata.visible_name) == stem(
                f.metadata.visible_name,
            );
        assert(diff_common(f.metadata.visible_name, b.files[j].metadata.visible_name));
    }
}

/// No file that is unique to `a` bears the name of a file directly in `b`:
/// copying the unique files into `b` replaces none of its files.
pub proof fn lemma_unique_files_are_new(a: DirectoryView, b: DirectoryView, i: int, j: int)
    requires
        0 <= i < unique_side(a, b).files.len(),
        0 <= j < b.files.len(),
    ensures
        unique_side(a, b).files[i].metadata.visible_name != b.files[j].metadata.visible_name,
{
    let keep = |g: FileView| !has_stem(b.files, stem(g.metadata.visible_name));
    a.files.lemma_filter_pred(keep, i);
}

/// Nothing in `u` would take the place of a file of `b`: no file of `u`
/// bears the name of a file directly in `b`, and the same holds between
/// each sub-directory of `u` and the directory of `b` that it would be
/// merged into, the first of its name.
pub open spec fn fresh_against(u: DirectoryView, b: DirectoryView) -> bool
    decreases u,
{
    &&& forall|i: int, j: int|
        0 <= i < u.files.len() && 0 <= j < b.files.len() ==> (
        #[trigger] u.files[i]).metadata.visible_name != (
        #[trigger] b.files[j]).metadata.visible_name
    &&& forall|k: int|
        0 <= k < u.directories.len() && has_dir(
            b.directories,
            (#[trigger] u.directories[k]).metadata.visible_name,
        ) ==> fresh_against(
            u.directories[k],
            b.directories[first_dir(b.directories, u.directories[k].metadata.visible_name)],
        )
}

/// Copying what is unique to `a` into `b` replaces no file of `b`, at any
/// depth.
pub proof fn lemma_unique_side_is_fresh(a: DirectoryView, b: DirectoryView)
    ensures
        fresh_against(unique_side(a, b), b),
    decreases a, 1nat, 0nat,
{
    let u = unique_side(a, b);
    assert forall|i: int, j: int|
        0 <= i < u.files.len() && 0 <= j < b.files.len() implies (
    #[trigger] u.files[i]).metadata.visible_name != (
    #[trigger] b.files[j]).metadata.visible_name by {
        lemma_unique_files_are_new(a, b, i, j);
    }
    lemma_unique_dirs_are_fresh(a, b, a.directories.len());
    assert(u.directories == unique_dirs(a, b, a.directories.len()));
}

proof fn lemma_unique_dirs_are_fresh(a: DirectoryView, b: DirectoryView, n: nat)
    requires
        n <= a.directories.len(),
    ensures
        forall|k: int|
            0 <= k < unique_dirs(a, b, n).len() && has_dir(
                b.directories,
                (#[trigger] unique_dirs(a, b, n)[k]).metadata.visible_name,
            ) ==> fresh_against(
                unique_dirs(a, b, n)[k],
                b.directories[first_dir(
                    b.directories,
                    unique_dirs(a, b, n)[k].metadata.visible_name,
                )],
            ),
    decreases a, 0nat, n,
{
    if n > 0 {
        lemma_unique_dirs_are_fresh(a, b, (n - 1) as nat);
        let rest = unique_dirs(a, b, (n - 1) as nat);
        let all = unique_dirs(a, b, n);
        let d = a.directories[n - 1];
        if has_dir(b.directories, d.metadata.visible_name) {
            lemma_unique_side_is_fresh(
                d,
                b.directories[first_dir(b.directories, d.metadata.visible_name)],
            );
        }
        assert forall|k: int|
            0 <= k < all.len() && has_dir(
                b.directories,
                (#[trigger] all[k]).metadata.visible_name,
            ) implies fresh_against(
            all[k],
            b.directories[first_dir(b.directories, all[k].metadata.visible_name)],
        ) by {
            if k < rest.len() {
                assert(all[k] == rest[k]);
            }
        }
    }
}

/// Sub-directories of one directory that share a name are equal, at every
/// depth.
pub open spec fn namesakes_agree(d: DirectoryView) -> bool
    decreases d,
{
    &&& forall|i: int, j: int|
        0 <= i < d.directories.len() && 0 <= j < d.directories.len() && (
        #[trigger] d.directories[i]).metadata.visible_name == (
        #[trigger] d.directories[j]).metadata.visible_name ==> d.directories[i]
            == d.directories[j]
    &&& forall|i: int|
        0 <= i < d.directories.len() ==> namesakes_agree(#[trigger] d.directories[i])
}

/// A tree compared with itself leaves nothing on either side, provided that
/// sub-directories of one directory that share a name are equal.
pub proof fn lemma_diff_self_empty(t: DirectoryView)
    requires
        namesakes_agree(t),
    ensures
        is_empty_dir(diff(t, t).0),
        is_empty_dir(diff(t, t).1),
    decreases t, 1nat, 0nat,
{
    let keep = |g: FileView| !has_stem(t.files, stem(g.metadata.visible_name));
    let kept = t.files.filter(keep);
    if kept.len() > 0 {
        let f = kept[0];
        assert(kept.contains(f));
        lemma_filter_member(t.files, keep, f);
        let k = choose|k: int| 0 <= k < t.files.len() && t.files[k] == f;
        assert(stem(t.files[k].metadata.visible_name) == stem(f.metadata.visible_name));
        assert(false);
    }
    lemma_self_dirs_empty(t, t.directories.len());
}

proof fn lemma_self_dirs_empty(t: DirectoryView, n: nat)
    requires
        namesakes_agree(t),
        n <= t.directories.len(),
    ensures
        unique_dirs(t, t, n).len() == 0,
    decreases t, 0nat, n,
{
    if n > 0 {
        lemma_self_dirs_empty(t, (n - 1) as nat);
        let d = t.directories[n - 1];
        assert(has_dir(t.directories, d.metadata.visible_name));
        lemma_first_dir_exists(t.directories, d.metadata.visible_name);
        let j = first_dir(t.directories, d.metadata.visible_name);
        assert(t.directories[j] == d);
        lemma_diff_self_empty(d);
    }
}

/// Neither the sub-directories of `d` nor any directory below them is empty.
pub open spec fn no_empty_below(d: DirectoryView) -> bool
    decreases d,
{
    forall|i: int|
        0 <= i < d.directories.len() ==> !is_empty_dir(#[trigger] d.directories[i])
            && no_empty_below(d.directories[i])
}

/// Every directory of `a` that the difference with `b` keeps whole is
/// neither empty nor holds an empty directory at any depth.
pub open spec fn whole_parts_nonempty(a: DirectoryView, b: DirectoryView) -> bool
    decreases a,
{
    forall|i: int|
        0 <= i < a.directories.len() ==> {
            let d = #[trigger] a.directories[i];
            if has_dir(b.directories, d.metadata.visible_name) {
                whole_parts_nonempty(
                    d,
                    b.directories[first_dir(b.directories, d.metadata.visible_name)],
                )
            } else {
                !is_empty_dir(d) && no_empty_below(d)
            }
        }
}

/// A matched sub-directory stays in the difference exactly when something
/// under it is unique; so no empty directory stands anywhere in what is
/// unique to `a`, provided that none stands in the parts of `a` that are
/// kept whole.
pub proof fn lemma_diff_prunes_empty(a: DirectoryView, b: DirectoryView)
    requires
        whole_parts_nonempty(a, b),
    ensures
        no_empty_below(unique_side(a, b)),
    decreases a, 1nat, 0nat,
{
    lemma_dirs_prune_empty(a, b, a.directories.len());
    let u = unique_side(a, b);
    assert(u.directories == unique_dirs(a, b, a.directories.len()));
    assert forall|i: int| 0 <= i < u.directories.len() implies !is_empty_dir(
        #[trigger] u.directories[i],
    ) && no_empty_below(u.directories[i]) by {
        assert(u.directories[i] == unique_dirs(a, b, a.directories.len())[i]);
    }
}

proof fn lemma_dirs_prune_empty(a: DirectoryView, b: DirectoryView, n: nat)
    requires
        whole_parts_nonempty(a, b),
        n <= a.directories.len(),
    ensures
        forall|k: int|
            0 <= k < unique_dirs(a, b, n).len() ==> !is_empty_dir(#[trigger] unique_dirs(a, b, n)[k])
                && no_empty_below(unique_dirs(a, b, n)[k]),
    decreases a, 0nat, n,
{
    if n > 0 {
        lemma_dirs_prune_empty(a, b, (n - 1) as nat);
        let rest = unique_dirs(a, b, (n - 1) as nat);
        let all = unique_dirs(a, b, n);
        let d = a.directories[n - 1];
        if has_dir(b.directories, d.metadata.visible_name) {
            lemma_first_dir_exists(b.directories, d.metadata.visible_name);
            let e = b.directories[first_dir(b.directories, d.metadata.visible_name)];
            assert(whole_parts_nonempty(d, e));
            lemma_diff_prunes_empty(d, e);
        } else {
            assert(!is_empty_dir(d) && no_empty_below(d));
        }
        assert forall|k: int| 0 <= k < all.len() implies !is_empty_dir(#[trigger] all[k])
            && no_empty_below(all[k]) by {
            if k < rest.len() {
                assert(all[k] == rest[k]);
            }
        }
    }
}

/// A sub-directory of `a` with a namesake in `b` contributes its own
/// difference with the first namesake when that difference is not empty.
pub proof fn lemma_matched_dir_kept(a: DirectoryView, b: DirectoryView, i: int)
    requires
        0 <= i < a.directories.len(),
        has_dir(b.directories, a.directories[i].metadata.visible_name),
        !is_empty_dir(
            unique_side(
                a.directories[i],
                b.directories[first_dir(b.directories, a.directories[i].metadata.visible_name)],
            ),
        ),
    ensures
        unique_side(a, b).directories.contains(
            unique_side(
                a.directories[i],
                b.directories[first_dir(b.directories, a.directories[i].metadata.visible_name)],
            ),
        ),
{
    lemma_dirs_grow(a, b, (i + 1) as nat, a.directories.len());
    let part = unique_dirs(a, b, (i + 1) as nat);
    assert(part[part.len() - 1] == part.last());
}

/// What the first `n` sub-directories leave is a prefix of what the first
/// `m` leave, for `n <= m`.
proof fn lemma_dirs_grow(a: DirectoryView, b: DirectoryView, n: nat, m: nat)
    requires
        n <= m <= a.directories.len(),
    ensures
        unique_dirs(a, b, n).len() <= unique_dirs(a, b, m).len(),
        forall|k: int|
            0 <= k < unique_dirs(a, b, n).len() ==> unique_dirs(a, b, m)[k] == #[trigger] unique_dirs(
                a,
                b,
                n,
            )[k],
    decreases m,
{
    if n < m {
        lemma_dirs_grow(a, b, n, (m - 1) as nat);
    }
}

/// The views of a sequence of strings, element by element.
pub open spec fn texts_view(v: Seq<String>) -> Seq<Seq<char>> {
    v.map_values(|s: String| s@)
}

/// The sentence that reports `name`, a file or a directory as `kind` says,
/// as missing in `side`.
pub open spec fn missing_text(kind: Seq<char>, name: Seq<char>, side: Seq<char>) -> Seq<char> {
    kind + name + " is missing in "@ + side + "."@
}

/// The sentence that reports the file `name` as missing in `side`.
pub open spec fn missing_file_text(name: Seq<char>, side: Seq<char>) -> Seq<char> {
    missing_text("File "@, name, side)
}

/// The sentence that reports the directory `name` as missing in `side`.
pub open spec fn missing_dir_text(name: Seq<char>, side: Seq<char>) -> Seq<char> {
    missing_text("Directory "@, name, side)
}

/// Some file of `files` is called exactly `name`.
pub open spec fn has_file_named(files: Seq<FileView>, name: Seq<char>) -> bool {
    exists|i: int| 0 <= i < files.len() && (#[trigger] files[i]).metadata.visible_name == name
}

/// One sentence for each file of `a`, in order, whose exact name no file of
/// `b` bears; `side` is the name of the directory that holds `b`.
pub open spec fn missing_files(a: Seq<FileView>, b: Seq<FileView>, side: Seq<char>) -> Seq<
    Seq<char>,
> {
    a.filter(|f: FileView| !has_file_named(b, f.metadata.visible_name)).map_values(
        |f: FileView| missing_file_text(f.metadata.visible_name, side),
    )
}

/// One sentence for each directory of `a`, in order, whose name no directory
/// of `b` bears; `side` is the name of the directory that holds `b`.
pub open spec fn missing_dirs(a: Seq<DirectoryView>, b: Seq<DirectoryView>, side: Seq<char>) -> Seq<
    Seq<char>,
> {
    a.filter(|d: DirectoryView| !has_dir(b, d.metadata.visible_name)).map_values(
        |d: DirectoryView| missing_dir_text(d.metadata.visible_name, side),
    )
}

/// The report on two trees: the files of `a` missing in `b`, the files of
/// `b` missing in `a`, then for each sub-directory of `a` either the report
/// on it and its first namesake in `b` or the sentence that `b` lacks it,
/// and last the sub-directories of `b` missing in `a`. Names are compared
/// exactly.
pub open spec fn describe(a: DirectoryView, b: DirectoryView) -> Seq<Seq<char>>
    decreases a, 1nat, 0nat,
{
    missing_files(a.files, b.files, b.metadata.visible_name) + missing_files(
        b.files,
        a.files,
        a.metadata.visible_name,
    ) + describe_dirs(a, b, a.directories.len()) + missing_dirs(
        b.directories,
        a.directories,
        a.metadata.visible_name,
    )
}

/// The part of the report that the first `n` sub-directories of `a` give.
pub open spec fn describe_dirs(a: DirectoryView, b: DirectoryView, n: nat) -> Seq<Seq<char>>
    decreases a, 0nat, n,
{
    if n == 0 || n > a.directories.len() {
        Seq::empty()
    } else {
        let rest = describe_dirs(a, b, (n - 1) as nat);
        let d = a.directories[n - 1];
        if has_dir(b.directories, d.metadata.visible_name) {
            rest + describe(d, b.directories[first_dir(b.directories, d.metadata.visible_name)])
        } else {
            rest.push(missing_dir_text(d.metadata.visible_name, b.metadata.visible_name))
        }
    }
}

/// Builds the sentence `kind`, `name`, " is missing in ", `side`, ".".
fn missing_sentence(kind: &str, name: &str, side: &str) -> (res: String)
    ensures
        res@ == missing_text(kind@, name@, side@),
{
    let mut text = String::from_str(kind);
    text.append(name);
    text.append(" is missing in ");
    text.append(side);
    text.append(".");
    text
}

/// Tells whether a file of `files` is called exactly `name`.
fn has_file(files: &Vec<File>, name: &String) -> (b: bool)
    ensures
        b == has_file_named(files_view(files@), name@),
{
    let ghost fv = files_view(files@);
    let mut i: usize = 0;
    while i < files.len()
        invariant
            i <= files.len(),
            fv == files_view(files@),
            forall|j: int| 0 <= j < i ==> (#[trigger] fv[j]).metadata.visible_name != name@,
        decreases files.len() - i,
    {
        assert(fv[i as int] == files@[i as int]@);
        if *files[i].get_visible_name() == *name {
            return true;
        }
        i += 1;
    }
    false
}

/// Appends to `out` the sentences for the files of `a` that `b` lacks.
fn append_missing_files(out: &mut Vec<String>, a: &Vec<File>, b: &Vec<File>, side: &String)
    ensures
        texts_view(final(out)@) == texts_view(old(out)@) + missing_files(
            files_view(a@),
            files_view(b@),
            side@,
        ),
{
    let ghost start = texts_view(out@);
    let ghost av = files_view(a@);
    let ghost bv = files_view(b@);
    let ghost keep = |f: FileView| !has_file_named(bv, f.metadata.visible_name);
    let ghost say = |f: FileView| missing_file_text(f.metadata.visible_name, side@);
    let mut i: usize = 0;
    proof {
        assert(av.take(0) =~= Seq::<FileView>::empty());
        assert(texts_view(out@) =~= start + av.take(0).filter(keep).map_values(say));
    }
    while i < a.len()
        invariant
            i <= a.len(),
            av == files_view(a@),
            bv == files_view(b@),
            keep == |f: FileView| !has_file_named(bv, f.metadata.visible_name),
            say == |f: FileView| missing_file_text(f.metadata.visible_name, side@),
            texts_view(out@) == start + av.take(i as int).filter(keep).map_values(say),
        decreases a.len() - i,
    {
        let name = a[i].get_visible_name();
        let found = has_file(b, name);
        proof {
            let f = av[i as int];
            assert(f == a@[i as int]@);
            assert(av.take(i + 1).drop_last() =~= av.take(i as int));
            assert(av.take(i + 1).last() == f);
            reveal(Seq::filter);
            assert(av.take(i + 1).filter(keep) == if keep(f) {
                av.take(i as int).filter(keep).push(f)
            } else {
                av.take(i as int).filter(keep)
            });
        }
        if !found {
            let ghost before = out@;
            let text = missing_sentence("File ", name.as_str(), side.as_str());
            out.push(text);
            proof {
                let kept = av.take(i as int).filter(keep);
                assert(kept.push(av[i as int]).map_values(say) =~= kept.map_values(say).push(
                    say(av[i as int]),
                ));
                assert(texts_view(out@) =~= texts_view(before).push(text@));
                assert(texts_view(out@) =~= start + kept.push(av[i as int]).map_values(say));
            }
        }
        i += 1;
    }
    proof {
        assert(av.take(a@.len() as int) =~= av);
    }
}

/// Appends to `out` the sentences for the directories of `a` that `b` lacks.
fn append_missing_dirs(
    out: &mut Vec<String>,
    a: &Vec<Directory>,
    b: &Vec<Directory>,
    side: &String,
)
    ensures
        texts_view(final(out)@) == texts_view(old(out)@) + missing_dirs(
            dirs_view(a@),
            dirs_view(b@),
            side@,
        ),
{
    let ghost start = texts_view(out@);
    let ghost av = dirs_view(a@);
    let ghost bv = dirs_view(b@);
    let ghost keep = |d: DirectoryView| !has_dir(bv, d.metadata.visible_name);
    let ghost say = |d: DirectoryView| missing_dir_text(d.metadata.visible_name, side@);
    let mut i: usize = 0;
    proof {
        assert(av.take(0) =~= Seq::<DirectoryView>::empty());
        assert(texts_view(out@) =~= start + av.take(0).filter(keep).map_values(say));
    }
    while i < a.len()
        invariant
            i <= a.len(),
            av == dirs_view(a@),
            bv == dirs_view(b@),
            keep == |d: DirectoryView| !has_dir(bv, d.metadata.visible_name),
            say == |d: DirectoryView| missing_dir_text(d.metadata.visible_name, side@),
            texts_view(out@) == start + av.take(i as int).filter(keep).map_values(say),
        decreases a.len() - i,
    {
        let name = a[i].get_visible_name();
        let found = find_directory(b, name);
        proof {
            let d = av[i as int];
            assert(d == a@[i as int]@);
            assert(av.take(i + 1).drop_last() =~= av.take(i as int));
            assert(av.take(i + 1).last() == d);
            reveal(Seq::filter);
            assert(av.take(i + 1).filter(keep) == if keep(d) {
                av.take(i as int).filter(keep).push(d)
            } else {
                av.take(i as int).filter(keep)
            });
        }
        if found.is_none() {
            let ghost before = out@;
            let text = missing_sentence("Directory ", name.as_str(), side.as_str());
            out.push(text);
            proof {
                let kept = av.take(i as int).filter(keep);
                assert(kept.push(av[i as int]).map_values(say) =~= kept.map_values(say).push(
                    say(av[i as int]),
                ));
                assert(texts_view(out@) =~= texts_view(before).push(text@));
                assert(texts_view(out@) =~= start + kept.push(av[i as int]).map_values(say));
            }
        }
        i += 1;
    }
    proof {
        assert(av.take(a@.len() as int) =~= av);
    }
}

/// Reports, one sentence each, the files and directories that one of the two
/// trees has and the other lacks. Names are compared exactly, extension
/// included; directories of the same name are compared in turn.
pub fn compare_directories(dir1: &Directory, dir2: &Directory) -> (diffs: Vec<String>)
    ensures
        texts_view(diffs@) == describe(dir1@, dir2@),
    decreases dir1,
{
    let ghost a = dir1@;
    let ghost b = dir2@;
    let name1 = dir1.get_visible_name();
    let name2 = dir2.get_visible_name();
    let subs1 = dir1.get_directories();
    let subs2 = dir2.get_directories();
    let mut diffs: Vec<String> = Vec::new();
    proof {
        assert(texts_view(diffs@) =~= Seq::<Seq<char>>::empty());
    }
    append_missing_files(&mut diffs, dir1.get_files(), dir2.get_files(), name2);
    append_missing_files(&mut diffs, dir2.get_files(), dir1.get_files(), name1);
    let ghost head = missing_files(a.files, b.files, b.metadata.visible_name) + missing_files(
        b.files,
        a.files,
        a.metadata.visible_name,
    );
    proof {
        assert(texts_view(diffs@) =~= head);
        assert(texts_view(diffs@) =~= head + describe_dirs(a, b, 0));
    }
    let mut i: usize = 0;
    while i < subs1.len()
        invariant
            i <= subs1.len(),
            a == dir1@,
            b == dir2@,
            subs1@ == dir1.children(),
            dirs_view(subs1@) == a.directories,
            dirs_view(subs2@) == b.directories,
            name2@ == b.metadata.visible_name,
            texts_view(diffs@) == head + describe_dirs(a, b, i as nat),
        decreases subs1.len() - i,
    {
        let sub1 = &subs1[i];
        proof {
            dir1.lemma_child(i as int);
            assert(a.directories[i as int] == sub1@);
        }
        let ghost before = diffs@;
        match find_directory(subs2, sub1.get_visible_name()) {
            Some(j) => {
                let sub2 = &subs2[j];
                proof {
                    assert(b.directories[j as int] == sub2@);
                }
                let mut below = compare_directories(sub1, sub2);
                let ghost added = below@;
                diffs.append(&mut below);
                proof {
                    assert(texts_view(diffs@) =~= texts_view(before) + texts_view(added));
                    assert(texts_view(diffs@) =~= head + (describe_dirs(a, b, i as nat)
                        + texts_view(added)));
                }
            },
            None => {
                let text = missing_sentence(
                    "Directory ",
                    sub1.get_visible_name().as_str(),
                    name2.as_str(),
                );
                diffs.push(text);
                proof {
                    assert(texts_view(diffs@) =~= texts_view(before).push(text@));
                    assert(texts_view(diffs@) =~= head + describe_dirs(a, b, i as nat).push(
                        text@,
                    ));
                }
            },
        }
        i += 1;
    }
    append_missing_dirs(&mut diffs, subs2, subs1, name1);
    proof {
        assert(texts_view(diffs@) =~= describe(a, b));
    }
    diffs
}

/// One entry of a directory on disk, as it was read: its name, what it is,
/// and, for a directory, its own entries.
#[derive(Debug)]
pub struct LocalEntry {
    pub name: String,
    pub is_file: bool,
    pub is_dir: bool,
    pub children: Vec<LocalEntry>,
}

/// What a `LocalEntry` holds.
pub struct LocalEntryView {
    pub name: Seq<char>,
    pub is_file: bool,
    pub is_dir: bool,
    pub children: Seq<LocalEntryView>,
}

/// The view of an entry, built from the views of its children.
pub open spec fn entry_view(e: LocalEntry) -> LocalEntryView
    decreases e,
{
    LocalEntryView {
        name: e.name@,
        is_file: e.is_file,
        is_dir: e.is_dir,
        children: Seq::new(
            e.children@.len(),
            |i: int|
                if 0 <= i < e.children@.len() {
                    entry_view(e.children@[i])
                } else {
                    arbitrary()
                },
        ),
    }
}

/// The views of a sequence of entries, element by element.
pub open spec fn entries_view(v: Seq<LocalEntry>) -> Seq<LocalEntryView> {
    v.map_values(|e: LocalEntry| entry_view(e))
}

/// A hidden name starts with a dot.
pub open spec fn is_hidden_name(name: Seq<char>) -> bool {
    name.len() > 0 && name[0] == '.'
}

/// The hash that every locally built file bears; it identifies nothing.
pub open spec fn local_file_hash() -> Seq<char> {
    "3rr93jfierjf-9erijfe0"@
}

/// The hash that every locally built directory bears; it identifies nothing.
pub open spec fn local_dir_hash() -> Seq<char> {
    "e11o-420-69"@
}

/// The metadata of a locally built node.
pub open spec fn local_metadata(name: Seq<char>, kind: Seq<char>) -> MetadataView {
    MetadataView { visible_name: name, parent: None, last_modified: "420"@, type_: kind }
}

/// The file node of a plain file called `name`.
pub open spec fn local_file(name: Seq<char>) -> FileView {
    FileView { hash: local_file_hash(), metadata: local_metadata(name, "file"@) }
}

/// The file nodes of the first `n` entries: one for each plain file that is
/// not hidden, in order.
pub open spec fn local_files(entries: Seq<LocalEntryView>, n: nat) -> Seq<FileView>
    decreases n,
{
    if n == 0 || n > entries.len() {
        Seq::empty()
    } else {
        let rest = local_files(entries, (n - 1) as nat);
        let e = entries[n - 1];
        if !is_hidden_name(e.name) && e.is_file {
            rest.push(local_file(e.name))
        } else {
            rest
        }
    }
}

/// The tree of a directory called `name` with the given entries: hidden
/// entries are left out, each plain file becomes a file node, and each
/// sub-directory the tree of its own entries.
pub open spec fn local_tree(name: Seq<char>, entries: Seq<LocalEntryView>) -> DirectoryView
    decreases entries, 1nat, 0nat,
{
    DirectoryView {
        hash: local_dir_hash(),
        metadata: local_metadata(name, "directory"@),
        files: local_files(entries, entries.len()),
        directories: local_dirs(entries, entries.len()),
    }
}

/// The directory nodes of the first `n` entries.
pub open spec fn local_dirs(entries: Seq<LocalEntryView>, n: nat) -> Seq<DirectoryView>
    decreases entries, 0nat, n,
{
    if n == 0 || n > entries.len() {
        Seq::empty()
    } else {
        let rest = local_dirs(entries, (n - 1) as nat);
        let e = entries[n - 1];
        if !is_hidden_name(e.name) && !e.is_file && e.is_dir {
            rest.push(local_tree(e.name, e.children))
        } else {
            rest
        }
    }
}

/// Tells whether a name marks a hidden entry.
pub fn is_hidden(name: &str) -> (b: bool)
    ensures
        b == is_hidden_name(name@),
{
    name.unicode_len() > 0 && name.get_char(0) == '.'
}

/// Builds the tree of a local directory called `name` from the entries that
/// were read in it. Hidden entries are skipped, and not descended into.
pub fn build_local_directory(name: &str, entries: &Vec<LocalEntry>) -> (res: Directory)
    ensures
        res@ == local_tree(name@, entries_view(entries@)),
    decreases entries,
{
    let ghost ev = entries_view(entries@);
    let mut file_nodes: Vec<File> = Vec::new();
    let mut dir_nodes: Vec<Directory> = Vec::new();
    let mut i: usize = 0;
    proof {
        assert(files_view(file_nodes@) =~= local_files(ev, 0));
        assert(dirs_view(dir_nodes@) =~= local_dirs(ev, 0));
    }
    while i < entries.len()
        invariant
            i <= entries.len(),
            ev == entries_view(entries@),
            files_view(file_nodes@) == local_files(ev, i as nat),
            dirs_view(dir_nodes@) == local_dirs(ev, i as nat),
        decreases entries.len() - i,
    {
        let entry = &entries[i];
        assert(ev[i as int] == entry_view(*entry));
        if !is_hidden(entry.name.as_str()) {
            if entry.is_file {
                let metadata = Metadata::new(
                    entry.name.clone(),
                    None,
                    String::from_str("420"),
                    String::from_str("file"),
                );
                let file = File::new(
                    crate::nodes::Hash::new(String::from_str("3rr93jfierjf-9erijfe0")),
                    metadata,
                );
                let ghost before = file_nodes@;
                file_nodes.push(file);
                proof {
                    assert(files_view(file_nodes@) =~= files_view(before).push(file@));
                }
            } else if entry.is_dir {
                proof {
                    assert(entry_view(*entry).children =~= entries_view(entry.children@));
                }
                let sub = build_local_directory(entry.name.as_str(), &entry.children);
                let ghost before = dir_nodes@;
                dir_nodes.push(sub);
                proof {
                    assert(dirs_view(dir_nodes@) =~= dirs_view(before).push(sub@));
                }
            }
        }
        i += 1;
    }
    Directory::new(
        crate::nodes::Hash::new(String::from_str("e11o-420-69")),
        Metadata::new(
            String::from_str(name),
            None,
            String::from_str("420"),
            String::from_str("directory"),
        ),
        Some(file_nodes),
        Some(dir_nodes),
    )
}

/// Where a path leads from `d`: each segment from position `k` on names a
/// sub-directory of the directory reached so far, the first of that name.
/// The error is the first segment that names none.
pub open spec fn walk(d: DirectoryView, segments: Seq<Seq<char>>, k: nat) -> Result<
    DirectoryView,
    Seq<char>,
>
    decreases segments.len() - k,
{
    if k >= segments.len() {
        Ok(d)
    } else if has_dir(d.directories, segments[k as int]) {
        walk(d.directories[first_dir(d.directories, segments[k as int])], segments, k + 1)
    } else {
        Err(segments[k as int])
    }
}

/// Follows a path of directory names down from `root` and returns a copy of
/// the directory it leads to, or the first segment that cannot be found.
pub fn find_subdirectory(root: &Directory, segments: &Vec<String>) -> (res: Result<
    Directory,
    String,
>)
    ensures
        match res {
            Ok(d) => walk(root@, texts_view(segments@), 0) == Ok::<DirectoryView, Seq<char>>(d@),
            Err(s) => walk(root@, texts_view(segments@), 0) == Err::<DirectoryView, Seq<char>>(
                s@,
            ),
        },
{
    let ghost segs = texts_view(segments@);
    let mut cur: &Directory = root;
    let mut k: usize = 0;
    while k < segments.len()
        invariant
            k <= segments.len(),
            segs == texts_view(segments@),
            walk(root@, segs, 0) == walk(cur@, segs, k as nat),
        decreases segments.len() - k,
    {
        assert(segs[k as int] == segments@[k as int]@);
        let subs = cur.get_directories();
        match find_directory(subs, &segments[k]) {
            Some(j) => {
                assert(cur@.directories[j as int] == subs@[j as int]@);
                cur = &subs[j];
            },
            None => {
                return Err(segments[k].clone());
            },
        }
        k += 1;
    }
    Ok(cur.clone())
}

} // verus!
