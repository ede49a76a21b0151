//! Counting how often a hash stands in a tree: the proof that the two trees
//! of a listing with distinct hashes hold no hash twice, and that a record
//! which reaches a root at all reaches it within the length of the listing.

use crate::nodes::{DirectoryView, FileView};
use crate::remarkable_trees::{
    chain_end, descends, dir_of, distinct_hashes, holds_dir, holds_file, is_dir_record,
    is_file_record, lemma_fate_stays, lemma_hash_origin_below, lemma_resolved_hash_present,
    lemma_under_in_range, level_dirs, level_files, root_tree, slot_of, trash_tree, tree_has_hash, tree_of, Fate,
    RecordView, Slot,
};
use vstd::prelude::*;
use vstd::set_lib::{lemma_int_range, lemma_len_subset, set_int_range};

verus! {

/// How many of the first `n` files bear the hash `h`.
pub open spec fn file_count(files: Seq<FileView>, h: Seq<char>, n: nat) -> nat
    decreases n,
{
    if n == 0 || n > files.len() {
        0
    } else {
        file_count(files, h, (n - 1) as nat) + if files[n - 1].hash == h {
            1nat
        } else {
            0nat
        }
    }
}

/// How many nodes of the tree `d`, below its root, bear the hash `h`.
pub open spec fn hash_count(d: DirectoryView, h: Seq<char>) -> nat
    decreases d, 0nat,
{
    file_count(d.files, h, d.files.len()) + dirs_count(d.directories, h, d.directories.len())
}

/// How many nodes bear the hash `h` among the first `n` of the given
/// directories and all that stands in them.
pub open spec fn dirs_count(dirs: Seq<DirectoryView>, h: Seq<char>, n: nat) -> nat
    decreases dirs, n,
{
    if n == 0 || n > dirs.len() {
        0
    } else {
        dirs_count(dirs, h, (n - 1) as nat) + (if dirs[n - 1].hash == h {
            1nat
        } else {
            0nat
        }) + hash_count(dirs[n - 1], h)
    }
}

/// How many parent pointers lead from the record at `i` to a root, following
/// at most `g` of them.
pub open spec fn depth(recs: Seq<RecordView>, i: int, g: nat) -> nat
    decreases g,
{
    match slot_of(recs, i) {
        Slot::Under(p) => if g == 0 {
            0
        } else {
            1 + depth(recs, p as int, (g - 1) as nat)
        },
        _ => 0,
    }
}

/// How many nodes bear the hash `h` among what the first `n` records hang
/// in `slot`, down to `fuel` further levels.
pub open spec fn level_count(recs: Seq<RecordView>, slot: Slot, fuel: nat, n: nat, h: Seq<char>) -> nat {
    file_count(level_files(recs, slot, n), h, level_files(recs, slot, n).len()) + dirs_count(
        level_dirs(recs, slot, fuel, n),
        h,
        level_dirs(recs, slot, fuel, n).len(),
    )
}

/// Every readable record that hangs in `slot` reaches a root within `g`
/// parent pointers.
pub open spec fn slot_resolves(recs: Seq<RecordView>, slot: Slot, g: nat) -> bool {
    match slot {
        Slot::Under(j) => g >= 1 && j < recs.len() && chain_end(recs, j as int, (g - 1) as nat)
            != Fate::Lost,
        _ => true,
    }
}

proof fn lemma_file_count_same(s1: Seq<FileView>, s2: Seq<FileView>, h: Seq<char>, k: nat)
    requires
        k <= s1.len(),
        k <= s2.len(),
        forall|x: int| 0 <= x < k ==> s1[x] == s2[x],
    ensures
        file_count(s1, h, k) == file_count(s2, h, k),
    decreases k,
{
    if k > 0 {
        lemma_file_count_same(s1, s2, h, (k - 1) as nat);
    }
}

proof fn lemma_dirs_count_same(s1: Seq<DirectoryView>, s2: Seq<DirectoryView>, h: Seq<char>, k: nat)
    requires
        k <= s1.len(),
        k <= s2.len(),
        forall|x: int| 0 <= x < k ==> s1[x] == s2[x],
    ensures
        dirs_count(s1, h, k) == dirs_count(s2, h, k),
    decreases k,
{
    if k > 0 {
        lemma_dirs_count_same(s1, s2, h, (k - 1) as nat);
    }
}

proof fn lemma_file_count_concat(a: Seq<FileView>, b: Seq<FileView>, h: Seq<char>, k: nat)
    requires
        k <= b.len(),
    ensures
        file_count(a + b, h, a.len() + k) == file_count(a, h, a.len()) + file_count(b, h, k),
    decreases k,
{
    if k == 0 {
        lemma_file_count_same(a + b, a, h, a.len());
    } else {
        lemma_file_count_concat(a, b, h, (k - 1) as nat);
        assert((a + b)[a.len() + k - 1] == b[k - 1]);
    }
}

proof fn lemma_dirs_count_concat(a: Seq<DirectoryView>, b: Seq<DirectoryView>, h: Seq<char>, k: nat)
    requires
        k <= b.len(),
    ensures
        dirs_count(a + b, h, a.len() + k) == dirs_count(a, h, a.len()) + dirs_count(b, h, k),
    decreases k,
{
    if k == 0 {
        lemma_dirs_count_same(a + b, a, h, a.len());
    } else {
        lemma_dirs_count_concat(a, b, h, (k - 1) as nat);
        assert((a + b)[a.len() + k - 1] == b[k - 1]);
    }
}

/// A count that is not zero has a file to show for it.
proof fn lemma_file_count_pos(files: Seq<FileView>, h: Seq<char>, n: nat) -> (k: int)
    requires
        file_count(files, h, n) >= 1,
    ensures
        0 <= k < files.len(),
        files[k].hash == h,
    decreases n,
{
    if files[n - 1].hash == h {
        n - 1
    } else {
        lemma_file_count_pos(files, h, (n - 1) as nat)
    }
}

/// A count that is not zero has a directory to show for it: one that bears
/// the hash, or one that holds it.
proof fn lemma_dirs_count_pos(dirs: Seq<DirectoryView>, h: Seq<char>, n: nat) -> (k: int)
    requires
        dirs_count(dirs, h, n) >= 1,
    ensures
        0 <= k < dirs.len(),
        dirs[k].hash == h || hash_count(dirs[k], h) >= 1,
    decreases n,
{
    if dirs[n - 1].hash == h || hash_count(dirs[n - 1], h) >= 1 {
        n - 1
    } else {
        lemma_dirs_count_pos(dirs, h, (n - 1) as nat)
    }
}

/// A hash that is counted in a tree stands in it.
pub proof fn lemma_counted_stands(d: DirectoryView, h: Seq<char>)
    requires
        hash_count(d, h) >= 1,
    ensures
        tree_has_hash(d, h),
    decreases d,
{
    if file_count(d.files, h, d.files.len()) >= 1 {
        let k = lemma_file_count_pos(d.files, h, d.files.len());
        assert(d.files.contains(d.files[k]));
        assert(holds_file(d, d.files[k]));
    } else {
        let k = lemma_dirs_count_pos(d.directories, h, d.directories.len());
        let x = d.directories[k];
        if x.hash == h {
            assert(d.directories.contains(x));
            assert(holds_dir(d, x));
        } else {
            lemma_counted_stands(x, h);
            if exists|f: FileView| holds_file(x, f) && f.hash == h {
                let f = choose|f: FileView| holds_file(x, f) && f.hash == h;
                assert(holds_file(d, f));
            } else {
                let y = choose|y: DirectoryView| holds_dir(x, y) && y.hash == h;
                assert(holds_dir(d, y));
            }
        }
    }
}

/// The depth of a record that reaches a root does not depend on how far one
/// is ready to follow.
proof fn lemma_depth_stays(recs: Seq<RecordView>, i: int, g: nat, g2: nat)
    requires
        g <= g2,
        chain_end(recs, i, g) != Fate::Lost,
    ensures
        depth(recs, i, g2) == depth(recs, i, g),
    decreases g,
{
    match slot_of(recs, i) {
        Slot::Under(p) => {
            lemma_depth_stays(recs, p as int, (g - 1) as nat, (g2 - 1) as nat);
        },
        _ => {},
    }
}

/// What hangs below a record that reaches a root reaches it too.
proof fn lemma_below_resolves(recs: Seq<RecordView>, i: int, c: int, m: nat, g: nat)
    requires
        descends(recs, i, c, m),
        chain_end(recs, c, g) != Fate::Lost,
    ensures
        chain_end(recs, i, g + m) != Fate::Lost,
    decreases m,
{
    match slot_of(recs, i) {
        Slot::Under(p) => {
            if p as int == c {
                lemma_fate_stays(recs, c, g, (g + m - 1) as nat);
            } else {
                lemma_below_resolves(recs, p as int, c, (m - 1) as nat, g);
            }
        },
        _ => {},
    }
}

/// A record lies deeper than every record that it hangs below.
proof fn lemma_below_is_deeper(recs: Seq<RecordView>, i: int, c: int, m: nat, big: nat)
    requires
        descends(recs, i, c, m),
        chain_end(recs, i, big) != Fate::Lost,
    ensures
        chain_end(recs, c, big) != Fate::Lost,
        depth(recs, c, big) < depth(recs, i, big),
    decreases m,
{
    match slot_of(recs, i) {
        Slot::Under(p) => {
            lemma_fate_stays(recs, p as int, (big - 1) as nat, big);
            lemma_depth_stays(recs, p as int, (big - 1) as nat, big);
            if p as int != c {
                lemma_below_is_deeper(recs, p as int, c, (m - 1) as nat, big);
            }
        },
        _ => {},
    }
}

/// A record hangs below one record only of any given depth.
proof fn lemma_one_ancestor(
    recs: Seq<RecordView>,
    i: int,
    c1: int,
    c2: int,
    m1: nat,
    m2: nat,
    big: nat,
)
    requires
        descends(recs, i, c1, m1),
        descends(recs, i, c2, m2),
        chain_end(recs, i, big) != Fate::Lost,
        depth(recs, c1, big) == depth(recs, c2, big),
    ensures
        c1 == c2,
    decreases m1,
{
    match slot_of(recs, i) {
        Slot::Under(p) => {
            lemma_fate_stays(recs, p as int, (big - 1) as nat, big);
            if p as int == c1 && p as int == c2 {
            } else if p as int == c1 {
                lemma_below_is_deeper(recs, p as int, c2, (m2 - 1) as nat, big);
            } else if p as int == c2 {
                lemma_below_is_deeper(recs, p as int, c1, (m1 - 1) as nat, big);
            } else {
                lemma_one_ancestor(
                    recs,
                    p as int,
                    c1,
                    c2,
                    (m1 - 1) as nat,
                    (m2 - 1) as nat,
                    big,
                );
            }
        },
        _ => {},
    }
}

/// A record is, or hangs below, one record only of any given depth.
proof fn lemma_one_place(recs: Seq<RecordView>, i: int, c1: int, c2: int, m: nat, big: nat)
    requires
        i == c1 || descends(recs, i, c1, m),
        i == c2 || descends(recs, i, c2, m),
        chain_end(recs, i, big) != Fate::Lost,
        depth(recs, c1, big) == depth(recs, c2, big),
    ensures
        c1 == c2,
{
    if i == c1 && i == c2 {
    } else if i == c1 {
        lemma_below_is_deeper(recs, i, c2, m, big);
    } else if i == c2 {
        lemma_below_is_deeper(recs, i, c1, m, big);
    } else {
        lemma_one_ancestor(recs, i, c1, c2, m, m, big);
    }
}

/// What the last of `n` records adds to the count of a level.
pub open spec fn last_adds(recs: Seq<RecordView>, slot: Slot, fuel: nat, n: nat, h: Seq<char>) -> nat {
    if slot_of(recs, n - 1) == slot && is_file_record(recs[n - 1]) {
        if recs[n - 1].hash == h {
            1nat
        } else {
            0nat
        }
    } else if slot_of(recs, n - 1) == slot && is_dir_record(recs[n - 1]) {
        (if recs[n - 1].hash == h {
            1nat
        } else {
            0nat
        }) + hash_count(dir_of(recs, n - 1, fuel), h)
    } else {
        0nat
    }
}

/// The count of a level grows record by record.
proof fn lemma_level_count_step(recs: Seq<RecordView>, slot: Slot, fuel: nat, n: nat, h: Seq<char>)
    requires
        0 < n <= recs.len(),
    ensures
        level_count(recs, slot, fuel, n, h) == level_count(recs, slot, fuel, (n - 1) as nat, h)
            + last_adds(recs, slot, fuel, n, h),
{
    let f0 = level_files(recs, slot, (n - 1) as nat);
    let f1 = level_files(recs, slot, n);
    let d0 = level_dirs(recs, slot, fuel, (n - 1) as nat);
    let d1 = level_dirs(recs, slot, fuel, n);
    if f1.len() > f0.len() {
        lemma_file_count_same(f1, f0, h, f0.len());
    }
    if d1.len() > d0.len() {
        lemma_dirs_count_same(d1, d0, h, d0.len());
    }
}

/// A hash that is counted in a level is the hash of a record that hangs in
/// the slot of that level, or below such a record.
proof fn lemma_level_witness(recs: Seq<RecordView>, slot: Slot, fuel: nat, n: nat, h: Seq<char>) -> (r:
    (int, int))
    requires
        n <= recs.len() <= usize::MAX,
        level_count(recs, slot, fuel, n, h) >= 1,
    ensures
        0 <= r.0 < recs.len(),
        0 <= r.1 < n,
        recs[r.0].hash == h,
        slot_of(recs, r.1) == slot,
        recs[r.1].metadata.is_some(),
        r.0 == r.1 || descends(recs, r.0, r.1, fuel),
    decreases n,
{
    if n == 0 {
        (0, 0)
    } else {
        lemma_level_count_step(recs, slot, fuel, n, h);
        if last_adds(recs, slot, fuel, n, h) >= 1 {
            if recs[n - 1].hash == h {
                (n - 1, n - 1)
            } else {
                lemma_counted_stands(dir_of(recs, n - 1, fuel), h);
                let i = lemma_hash_origin_below(recs, n - 1, fuel, h);
                (i, n - 1)
            }
        } else {
            lemma_level_witness(recs, slot, fuel, (n - 1) as nat, h)
        }
    }
}

/// A readable record that hangs in a slot whose records resolve reaches a
/// root, and so does all that hangs below it.
proof fn lemma_member_resolves(recs: Seq<RecordView>, slot: Slot, g: nat, fuel: nat, i: int, c: int)
    requires
        recs.len() <= usize::MAX,
        0 <= c < recs.len(),
        slot_of(recs, c) == slot,
        recs[c].metadata.is_some(),
        slot_resolves(recs, slot, g),
        g + fuel <= recs.len(),
        i == c || descends(recs, i, c, fuel),
    ensures
        chain_end(recs, c, g) != Fate::Lost,
        chain_end(recs, i, recs.len()) != Fate::Lost,
{
    if i == c {
        lemma_fate_stays(recs, c, g, recs.len());
    } else {
        lemma_below_resolves(recs, i, c, fuel, g);
        lemma_fate_stays(recs, i, g + fuel, recs.len());
    }
}

/// Below the directory of a record that reaches a root, no hash stands
/// twice.
proof fn lemma_dir_holds_once(recs: Seq<RecordView>, j: int, fuel: nat, g: nat, h: Seq<char>)
    requires
        distinct_hashes(recs),
        0 <= j < recs.len() <= usize::MAX,
        chain_end(recs, j, g) != Fate::Lost,
        g + fuel <= recs.len(),
    ensures
        hash_count(dir_of(recs, j, fuel), h) <= 1,
    decreases fuel, 0nat,
{
    if fuel > 0 {
        lemma_level_holds_once(
            recs,
            Slot::Under(j as usize),
            (fuel - 1) as nat,
            recs.len(),
            g + 1,
            h,
        );
    }
}

/// In one level, no hash stands twice.
proof fn lemma_level_holds_once(
    recs: Seq<RecordView>,
    slot: Slot,
    fuel: nat,
    n: nat,
    g: nat,
    h: Seq<char>,
)
    requires
        distinct_hashes(recs),
        n <= recs.len() <= usize::MAX,
        slot_resolves(recs, slot, g),
        g + fuel <= recs.len(),
    ensures
        level_count(recs, slot, fuel, n, h) <= 1,
    decreases fuel, 1nat + n,
{
    if n > 0 {
        let big = recs.len();
        let r = n - 1;
        lemma_level_holds_once(recs, slot, fuel, (n - 1) as nat, g, h);
        lemma_level_count_step(recs, slot, fuel, n, h);
        let added = last_adds(recs, slot, fuel, n, h);
        if added >= 1 {
            lemma_member_resolves(recs, slot, g, fuel, r, r);
            if is_dir_record(recs[r]) {
                lemma_dir_holds_once(recs, r, fuel, g, h);
                if hash_count(dir_of(recs, r, fuel), h) >= 1 {
                    lemma_counted_stands(dir_of(recs, r, fuel), h);
                    let i = lemma_hash_origin_below(recs, r, fuel, h);
                    if recs[r].hash == h {
                        lemma_same_hash(recs, i, r);
                        lemma_below_is_deeper(recs, r, r, fuel, big);
                    }
                }
            }
            if level_count(recs, slot, fuel, (n - 1) as nat, h) >= 1 {
                let w = lemma_level_witness(recs, slot, fuel, (n - 1) as nat, h);
                let i2 = if recs[r].hash == h {
                    r
                } else {
                    lemma_counted_stands(dir_of(recs, r, fuel), h);
                    lemma_hash_origin_below(recs, r, fuel, h)
                };
                lemma_same_hash(recs, w.0, i2);
                lemma_member_resolves(recs, slot, g, fuel, w.0, w.1);
                lemma_one_place(recs, w.0, w.1, r, fuel, big);
            }
        }
    }
}

/// Two records of a listing with distinct hashes that bear the same hash
/// are one record.
proof fn lemma_same_hash(recs: Seq<RecordView>, i: int, j: int)
    requires
        distinct_hashes(recs),
        0 <= i < recs.len(),
        0 <= j < recs.len(),
        recs[i].hash == recs[j].hash,
    ensures
        i == j,
{
    if i < j {
        assert(recs[i].hash != recs[j].hash);
    } else if j < i {
        assert(recs[j].hash != recs[i].hash);
    }
}

/// No hash is counted in the levels of two different roots.
proof fn lemma_roots_apart(recs: Seq<RecordView>, s1: Slot, s2: Slot, h: Seq<char>)
    requires
        distinct_hashes(recs),
        recs.len() <= usize::MAX,
        s1 != s2,
        s1 == Slot::Root || s1 == Slot::Orphan || s1 == Slot::Trash,
        s2 == Slot::Root || s2 == Slot::Orphan || s2 == Slot::Trash,
    ensures
        level_count(recs, s1, recs.len(), recs.len(), h) + level_count(
            recs,
            s2,
            recs.len(),
            recs.len(),
            h,
        ) <= 1,
{
    let n = recs.len();
    lemma_level_holds_once(recs, s1, n, n, 0, h);
    lemma_level_holds_once(recs, s2, n, n, 0, h);
    if level_count(recs, s1, n, n, h) >= 1 && level_count(recs, s2, n, n, h) >= 1 {
        let w1 = lemma_level_witness(recs, s1, n, n, h);
        let w2 = lemma_level_witness(recs, s2, n, n, h);
        lemma_same_hash(recs, w1.0, w2.0);
        lemma_fate_stays(recs, w1.1, 0, n);
        if w1.0 != w1.1 {
            lemma_below_resolves(recs, w1.0, w1.1, n, 0);
            lemma_fate_stays(recs, w1.0, n, n);
        }
        lemma_one_place(recs, w1.0, w1.1, w2.1, n, n);
    }
}

/// Where the hashes of a listing are distinct, every hash stands at most
/// once in the two trees taken together.
pub proof fn lemma_trees_hold_once(recs: Seq<RecordView>, h: Seq<char>)
    requires
        distinct_hashes(recs),
        recs.len() <= usize::MAX,
    ensures
        hash_count(root_tree(recs), h) + hash_count(trash_tree(recs), h) <= 1,
{
    let n = recs.len();
    lemma_file_count_concat(
        level_files(recs, Slot::Root, n),
        level_files(recs, Slot::Orphan, n),
        h,
        level_files(recs, Slot::Orphan, n).len(),
    );
    lemma_dirs_count_concat(
        level_dirs(recs, Slot::Root, n, n),
        level_dirs(recs, Slot::Orphan, n, n),
        h,
        level_dirs(recs, Slot::Orphan, n, n).len(),
    );
    assert(hash_count(root_tree(recs), h) == level_count(recs, Slot::Root, n, n, h) + level_count(
        recs,
        Slot::Orphan,
        n,
        n,
        h,
    ));
    assert(hash_count(trash_tree(recs), h) == level_count(recs, Slot::Trash, n, n, h));
    lemma_roots_apart(recs, Slot::Root, Slot::Orphan, h);
    lemma_roots_apart(recs, Slot::Root, Slot::Trash, h);
    lemma_roots_apart(recs, Slot::Orphan, Slot::Trash, h);
}

/// A file that bears the hash is counted.
proof fn lemma_file_counted(files: Seq<FileView>, h: Seq<char>, k: int, n: nat)
    requires
        0 <= k < n <= files.len(),
        files[k].hash == h,
    ensures
        file_count(files, h, n) >= 1,
    decreases n,
{
    if k < n - 1 {
        lemma_file_counted(files, h, k, (n - 1) as nat);
    }
}

/// A directory that bears the hash, or holds it, is counted.
proof fn lemma_dir_counted(dirs: Seq<DirectoryView>, h: Seq<char>, k: int, n: nat)
    requires
        0 <= k < n <= dirs.len(),
        dirs[k].hash == h || hash_count(dirs[k], h) >= 1,
    ensures
        dirs_count(dirs, h, n) >= 1,
    decreases n,
{
    if k < n - 1 {
        lemma_dir_counted(dirs, h, k, (n - 1) as nat);
    }
}

proof fn lemma_held_file_counted(d: DirectoryView, f: FileView)
    requires
        holds_file(d, f),
    ensures
        hash_count(d, f.hash) >= 1,
    decreases d,
{
    if d.files.contains(f) {
        let k = choose|k: int| 0 <= k < d.files.len() && d.files[k] == f;
        lemma_file_counted(d.files, f.hash, k, d.files.len());
    } else {
        let k = choose|k: int|
            0 <= k < d.directories.len() && holds_file(#[trigger] d.directories[k], f);
        lemma_held_file_counted(d.directories[k], f);
        lemma_dir_counted(d.directories, f.hash, k, d.directories.len());
    }
}

proof fn lemma_held_dir_counted(d: DirectoryView, x: DirectoryView)
    requires
        holds_dir(d, x),
    ensures
        hash_count(d, x.hash) >= 1,
    decreases d,
{
    if d.directories.contains(x) {
        let k = choose|k: int| 0 <= k < d.directories.len() && d.directories[k] == x;
        lemma_dir_counted(d.directories, x.hash, k, d.directories.len());
    } else {
        let k = choose|k: int|
            0 <= k < d.directories.len() && holds_dir(#[trigger] d.directories[k], x);
        lemma_held_dir_counted(d.directories[k], x);
        lemma_dir_counted(d.directories, x.hash, k, d.directories.len());
    }
}

/// A hash that stands in a tree is counted in it.
pub proof fn lemma_stands_counted(d: DirectoryView, h: Seq<char>)
    requires
        tree_has_hash(d, h),
    ensures
        hash_count(d, h) >= 1,
{
    if exists|f: FileView| holds_file(d, f) && f.hash == h {
        let f = choose|f: FileView| holds_file(d, f) && f.hash == h;
        lemma_held_file_counted(d, f);
    } else {
        let x = choose|x: DirectoryView| holds_dir(d, x) && x.hash == h;
        lemma_held_dir_counted(d, x);
    }
}

/// Where the hashes of a listing are distinct, the hash of every record
/// whose parent pointers reach a root stands exactly once in the tree of
/// that root, and not at all in the other tree.
pub proof fn lemma_resolved_stands_once(recs: Seq<RecordView>, i: int)
    requires
        distinct_hashes(recs),
        0 <= i < recs.len() <= usize::MAX,
        chain_end(recs, i, recs.len()) != Fate::Lost,
    ensures
        hash_count(tree_of(recs, chain_end(recs, i, recs.len())), recs[i].hash) == 1,
        hash_count(root_tree(recs), recs[i].hash) + hash_count(trash_tree(recs), recs[i].hash)
            == 1,
{
    lemma_resolved_hash_present(recs, i);
    lemma_stands_counted(tree_of(recs, chain_end(recs, i, recs.len())), recs[i].hash);
    lemma_trees_hold_once(recs, recs[i].hash);
}

/// The record at `i` and the records that its parent pointers pass, following
/// at most `g` of them.
pub open spec fn way_up(recs: Seq<RecordView>, i: int, g: nat) -> Set<int>
    decreases g,
{
    match slot_of(recs, i) {
        Slot::Under(p) => if g == 0 {
            set![i]
        } else {
            way_up(recs, p as int, (g - 1) as nat).insert(i)
        },
        _ => set![i],
    }
}

/// The way up from a record that reaches a root passes as many records of
/// the listing as the record is deep, and one more; none of them lies deeper.
proof fn lemma_way_up(recs: Seq<RecordView>, i: int, g: nat)
    requires
        0 <= i < recs.len() <= usize::MAX,
        chain_end(recs, i, g) != Fate::Lost,
    ensures
        way_up(recs, i, g).finite(),
        way_up(recs, i, g).len() == depth(recs, i, g) + 1,
        forall|x: int| #[trigger]
            way_up(recs, i, g).contains(x) ==> 0 <= x < recs.len() && chain_end(recs, x, g)
                != Fate::Lost && depth(recs, x, g) <= depth(recs, i, g),
    decreases g,
{
    match slot_of(recs, i) {
        Slot::Under(p) => {
            lemma_under_in_range(recs, i);
            lemma_way_up(recs, p as int, (g - 1) as nat);
            let below = way_up(recs, p as int, (g - 1) as nat);
            assert forall|x: int| #[trigger] below.contains(x) implies chain_end(recs, x, g)
                != Fate::Lost && depth(recs, x, g) <= depth(recs, p as int, (g - 1) as nat) by {
                lemma_fate_stays(recs, x, (g - 1) as nat, g);
                lemma_depth_stays(recs, x, (g - 1) as nat, g);
            }
            assert(!below.contains(i));
        },
        _ => {},
    }
}

/// A record that reaches a root at all reaches it within as many parent
/// pointers as the listing has records: a record that does not, never does.
pub proof fn lemma_reaches_within_length(recs: Seq<RecordView>, i: int, g: nat)
    requires
        0 <= i < recs.len() <= usize::MAX,
        chain_end(recs, i, g) != Fate::Lost,
    ensures
        chain_end(recs, i, recs.len()) == chain_end(recs, i, g),
{
    let n = recs.len();
    lemma_way_up(recs, i, g);
    lemma_int_range(0, n as int);
    assert(way_up(recs, i, g).subset_of(set_int_range(0, n as int)));
    lemma_len_subset(way_up(recs, i, g), set_int_range(0, n as int));
    lemma_depth_suffices(recs, i, g);
    lemma_fate_stays(recs, i, depth(recs, i, g), n);
}

/// A record that reaches a root reaches it within as many parent pointers
/// as it is deep.
proof fn lemma_depth_suffices(recs: Seq<RecordView>, i: int, g: nat)
    requires
        chain_end(recs, i, g) != Fate::Lost,
    ensures
        chain_end(recs, i, depth(recs, i, g)) == chain_end(recs, i, g),
    decreases g,
{
    match slot_of(recs, i) {
        Slot::Under(p) => {
            lemma_depth_suffices(recs, p as int, (g - 1) as nat);
        },
        _ => {},
    }
}

} // verus!
