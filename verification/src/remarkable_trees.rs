//! Rebuilding the document tree and the trash tree from a flat listing of
//! records that are linked by parent pointers only.

use crate::nodes::{
    dirs_view, ends_with, files_view, has_suffix, Directory, DirectoryView, File, FileView, Metadata,
    MetadataView,
};
use vstd::prelude::*;
use vstd::std_specs::iter::IteratorSpec;
use vstd::string::*;

verus! {

/// One entry of the flat listing: a hash, and its metadata where it could be
/// read.
#[derive(Debug)]
pub struct Record {
    pub hash: crate::nodes::Hash,
    pub metadata: Option<Metadata>,
}

/// What a `Record` holds.
pub struct RecordView {
    pub hash: Seq<char>,
    pub metadata: Option<MetadataView>,
}

impl View for Record {
    type V = RecordView;

    open spec fn view(&self) -> RecordView {
        RecordView {
            hash: self.hash@,
            metadata: match self.metadata {
                Some(m) => Some(m@),
                None => None,
            },
        }
    }
}

/// The views of a sequence of records, element by element.
pub open spec fn records_view(v: Seq<Record>) -> Seq<RecordView> {
    v.map_values(|r: Record| r@)
}

/// Where a record of the listing hangs.
#[derive(Debug, Clone, Copy, PartialEq, Eq, Structural)]
pub enum Slot {
    /// Directly under the document root: the record names no parent.
    Root,
    /// Directly under the trash root.
    Trash,
    /// Under the directory at this position of the listing.
    Under(usize),
    /// Directly under the document root, because the parent it names is no
    /// directory of the listing.
    Orphan,
    /// Nowhere: its metadata could not be read.
    Nowhere,
}

/// Where following the parent pointers from a record ends.
#[derive(Debug, Clone, Copy, PartialEq, Eq, Structural)]
pub enum Fate {
    /// In the document tree.
    Rooted,
    /// In the trash tree.
    Trashed,
    /// In neither: the pointers lead round in a circle, or the record is
    /// unreadable.
    Lost,
}

/// Something irregular that the reconstruction met, with the hash concerned.
#[derive(Debug)]
pub enum Anomaly {
    /// The metadata of this hash could not be read; the hash is left out.
    Unreadable(crate::nodes::Hash),
    /// The parent of this hash is no directory of the listing; the node
    /// hangs under the document root instead.
    Orphan(crate::nodes::Hash),
    /// The parent pointers from this hash never reach a root; the node is
    /// left out.
    Cycle(crate::nodes::Hash),
}

/// What an `Anomaly` holds.
pub enum AnomalyView {
    Unreadable(Seq<char>),
    Orphan(Seq<char>),
    Cycle(Seq<char>),
}

impl View for Anomaly {
    type V = AnomalyView;

    open spec fn view(&self) -> AnomalyView {
        match self {
            Anomaly::Unreadable(h) => AnomalyView::Unreadable(h@),
            Anomaly::Orphan(h) => AnomalyView::Orphan(h@),
            Anomaly::Cycle(h) => AnomalyView::Cycle(h@),
        }
    }
}

/// The views of a sequence of anomalies, element by element.
pub open spec fn anomalies_view(v: Seq<Anomaly>) -> Seq<AnomalyView> {
    v.map_values(|a: Anomaly| a@)
}

/// The two trees that a listing describes, and what was irregular in it.
#[derive(Debug)]
pub struct Reconstruction {
    pub root: Directory,
    pub trash: Directory,
    pub anomalies: Vec<Anomaly>,
}

/// The kind that marks a directory in the records of the device.
pub open spec fn collection_kind() -> Seq<char> {
    "CollectionType"@
}

/// The kind that marks a directory in locally built records.
pub open spec fn directory_kind() -> Seq<char> {
    "directory"@
}

/// The parent value that marks the trash.
pub open spec fn trash_marker() -> Seq<char> {
    "trash"@
}

/// A kind that denotes a directory; every other kind denotes a file.
pub open spec fn is_dir_kind(kind: Seq<char>) -> bool {
    kind == collection_kind() || kind == directory_kind()
}

/// A readable record of a directory.
pub open spec fn is_dir_record(r: RecordView) -> bool {
    r.metadata matches Some(m) && is_dir_kind(m.type_)
}

/// A readable record of a file.
pub open spec fn is_file_record(r: RecordView) -> bool {
    r.metadata matches Some(m) && !is_dir_kind(m.type_)
}

/// The first position at or after `from` of a directory record with the
/// hash `h`.
pub open spec fn find_parent(recs: Seq<RecordView>, h: Seq<char>, from: int) -> Option<int>
    decreases recs.len() - from,
{
    if from < 0 || from >= recs.len() {
        None
    } else if is_dir_record(recs[from]) && recs[from].hash == h {
        Some(from)
    } else {
        find_parent(recs, h, from + 1)
    }
}

/// Where the record at position `i` hangs: under a root when it names no
/// parent (or the empty one) or the trash marker, under the first directory
/// record that bears the hash it names, and under the document root as an
/// orphan when there is no such record.
pub open spec fn slot_of(recs: Seq<RecordView>, i: int) -> Slot {
    match recs[i].metadata {
        None => Slot::Nowhere,
        Some(m) => match m.parent {
            None => Slot::Root,
            Some(p) => if p.len() == 0 {
                Slot::Root
            } else if p == trash_marker() {
                Slot::Trash
            } else {
                match find_parent(recs, p, 0) {
                    Some(j) => Slot::Under(j as usize),
                    None => Slot::Orphan,
                }
            },
        },
    }
}

/// Where the parent pointers from the record at `i` end, following at most
/// `fuel` of them.
pub open spec fn chain_end(recs: Seq<RecordView>, i: int, fuel: nat) -> Fate
    decreases fuel,
{
    match slot_of(recs, i) {
        Slot::Root => Fate::Rooted,
        Slot::Orphan => Fate::Rooted,
        Slot::Trash => Fate::Trashed,
        Slot::Nowhere => Fate::Lost,
        Slot::Under(j) => if fuel == 0 {
            Fate::Lost
        } else {
            chain_end(recs, j as int, (fuel - 1) as nat)
        },
    }
}

/// The file that a readable record stands for.
pub open spec fn file_of(r: RecordView) -> FileView {
    FileView { hash: r.hash, metadata: r.metadata.unwrap() }
}

/// The files among the first `n` records that hang in `slot`, in listing
/// order.
pub open spec fn level_files(recs: Seq<RecordView>, slot: Slot, n: nat) -> Seq<FileView>
    decreases n,
{
    if n == 0 || n > recs.len() {
        Seq::empty()
    } else {
        let rest = level_files(recs, slot, (n - 1) as nat);
        if slot_of(recs, n - 1) == slot && is_file_record(recs[n - 1]) {
            rest.push(file_of(recs[n - 1]))
        } else {
            rest
        }
    }
}

/// The directory that the record at `i` stands for, with what hangs under
/// it down to `fuel` further levels.
pub open spec fn dir_of(recs: Seq<RecordView>, i: int, fuel: nat) -> DirectoryView
    decreases fuel, 0nat,
{
    DirectoryView {
        hash: recs[i].hash,
        metadata: recs[i].metadata.unwrap(),
        files: if fuel == 0 {
            Seq::empty()
        } else {
            level_files(recs, Slot::Under(i as usize), recs.len())
        },
        directories: if fuel == 0 {
            Seq::empty()
        } else {
            level_dirs(recs, Slot::Under(i as usize), (fuel - 1) as nat, recs.len())
        },
    }
}

/// The directories among the first `n` records that hang in `slot`, in
/// listing order, each with its own content down to `fuel` further levels.
pub open spec fn level_dirs(recs: Seq<RecordView>, slot: Slot, fuel: nat, n: nat) -> Seq<
    DirectoryView,
>
    decreases fuel, 1nat + n,
{
    if n == 0 || n > recs.len() {
        Seq::empty()
    } else {
        let rest = level_dirs(recs, slot, fuel, (n - 1) as nat);
        if slot_of(recs, n - 1) == slot && is_dir_record(recs[n - 1]) {
            rest.push(dir_of(recs, n - 1, fuel))
        } else {
            rest
        }
    }
}

/// The metadata of a root that stands for no record.
pub open spec fn root_metadata(name: Seq<char>) -> MetadataView {
    MetadataView {
        visible_name: name,
        parent: None,
        last_modified: Seq::empty(),
        type_: collection_kind(),
    }
}

/// The document tree of a listing: what names no parent, then the orphans,
/// each with all that hangs under it.
pub open spec fn root_tree(recs: Seq<RecordView>) -> DirectoryView {
    DirectoryView {
        hash: Seq::empty(),
        metadata: root_metadata("root"@),
        files: level_files(recs, Slot::Root, recs.len()) + level_files(
            recs,
            Slot::Orphan,
            recs.len(),
        ),
        directories: level_dirs(recs, Slot::Root, recs.len(), recs.len()) + level_dirs(
            recs,
            Slot::Orphan,
            recs.len(),
            recs.len(),
        ),
    }
}

/// The trash tree of a listing.
pub open spec fn trash_tree(recs: Seq<RecordView>) -> DirectoryView {
    DirectoryView {
        hash: trash_marker(),
        metadata: root_metadata(trash_marker()),
        files: level_files(recs, Slot::Trash, recs.len()),
        directories: level_dirs(recs, Slot::Trash, recs.len(), recs.len()),
    }
}

/// What is irregular about the record at `i`, if anything.
pub open spec fn anomaly_of(recs: Seq<RecordView>, i: int) -> Option<AnomalyView> {
    match slot_of(recs, i) {
        Slot::Nowhere => Some(AnomalyView::Unreadable(recs[i].hash)),
        Slot::Orphan => Some(AnomalyView::Orphan(recs[i].hash)),
        _ => if chain_end(recs, i, recs.len()) == Fate::Lost {
            Some(AnomalyView::Cycle(recs[i].hash))
        } else {
            None
        },
    }
}

/// The anomalies of the first `n` records, in listing order.
pub open spec fn anomalies_of(recs: Seq<RecordView>, n: nat) -> Seq<AnomalyView>
    decreases n,
{
    if n == 0 || n > recs.len() {
        Seq::empty()
    } else {
        let rest = anomalies_of(recs, (n - 1) as nat);
        match anomaly_of(recs, n - 1) {
            Some(a) => rest.push(a),
            None => rest,
        }
    }
}

/// Tells whether two texts are the same.
pub fn same_text(a: &str, b: &str) -> (r: bool)
    ensures
        r == (a@ == b@),
{
    if a.unicode_len() != b.unicode_len() {
        return false;
    }
    let r = has_suffix(a, b);
    proof {
        assert(a@.subrange(0, a@.len() as int) =~= a@);
    }
    r
}

/// Tells whether a kind denotes a directory.
pub fn is_directory_kind(kind: &str) -> (r: bool)
    ensures
        r == is_dir_kind(kind@),
{
    same_text(kind, "CollectionType") || same_text(kind, "directory")
}

/// Tells whether a record is readable and stands for a directory.
fn record_is_dir(r: &Record) -> (b: bool)
    ensures
        b == is_dir_record(r@),
{
    match &r.metadata {
        Some(m) => is_directory_kind(m.kind().as_str()),
        None => false,
    }
}

/// The first directory record with the hash `h`.
fn find_parent_record(records: &Vec<Record>, h: &String) -> (r: Option<usize>)
    ensures
        match r {
            Some(j) => find_parent(records_view(records@), h@, 0) == Some(j as int)
                && j < records@.len(),
            None => find_parent(records_view(records@), h@, 0).is_none(),
        },
{
    let ghost rv = records_view(records@);
    let mut i: usize = 0;
    while i < records.len()
        invariant
            i <= records.len(),
            rv == records_view(records@),
            find_parent(rv, h@, 0) == find_parent(rv, h@, i as int),
        decreases records.len() - i,
    {
        assert(rv[i as int] == records@[i as int]@);
        if *records[i].hash.text() == *h && record_is_dir(&records[i]) {
            return Some(i);
        }
        i += 1;
    }
    None
}

/// Where each record of the listing hangs.
fn slots_of(records: &Vec<Record>) -> (res: Vec<Slot>)
    ensures
        res@.len() == records@.len(),
        forall|i: int|
            0 <= i < res@.len() ==> #[trigger] res@[i] == slot_of(records_view(records@), i),
{
    let ghost rv = records_view(records@);
    let mut out: Vec<Slot> = Vec::new();
    let mut i: usize = 0;
    while i < records.len()
        invariant
            i <= records.len(),
            rv == records_view(records@),
            out@.len() == i,
            forall|k: int| 0 <= k < i ==> #[trigger] out@[k] == slot_of(rv, k),
        decreases records.len() - i,
    {
        assert(rv[i as int] == records@[i as int]@);
        let slot = match &records[i].metadata {
            None => Slot::Nowhere,
            Some(m) => match m.parent() {
                None => Slot::Root,
                Some(p) => {
                    if p.as_str().unicode_len() == 0 {
                        Slot::Root
                    } else if same_text(p.as_str(), "trash") {
                        Slot::Trash
                    } else {
                        match find_parent_record(records, p) {
                            Some(j) => Slot::Under(j),
                            None => Slot::Orphan,
                        }
                    }
                },
            },
        };
        out.push(slot);
        i += 1;
    }
    out
}

/// Where the parent pointers from the record at `i` end.
fn fate_of(records: &Vec<Record>, slots: &Vec<Slot>, i: usize) -> (res: Fate)
    requires
        i < records@.len(),
        slots@.len() == records@.len(),
        forall|k: int|
            0 <= k < slots@.len() ==> #[trigger] slots@[k] == slot_of(records_view(records@), k),
    ensures
        res == chain_end(records_view(records@), i as int, records@.len() as nat),
{
    let ghost rv = records_view(records@);
    let mut cur: usize = i;
    let mut fuel: usize = records.len();
    loop
        invariant
            rv == records_view(records@),
            slots@.len() == records@.len(),
            forall|k: int| 0 <= k < slots@.len() ==> #[trigger] slots@[k] == slot_of(rv, k),
            fuel <= records@.len(),
            rv.len() == records@.len() <= usize::MAX,
            chain_end(rv, i as int, records@.len() as nat) == chain_end(
                rv,
                cur as int,
                fuel as nat,
            ),
            cur < records@.len(),
        decreases fuel,
    {
        match slots[cur] {
            Slot::Root => {
                return Fate::Rooted;
            },
            Slot::Orphan => {
                return Fate::Rooted;
            },
            Slot::Trash => {
                return Fate::Trashed;
            },
            Slot::Nowhere => {
                return Fate::Lost;
            },
            Slot::Under(j) => {
                if fuel == 0 {
                    return Fate::Lost;
                }
                proof {
                    lemma_under_in_range(rv, cur as int);
                }
                cur = j;
                fuel = fuel - 1;
            },
        }
    }
}

/// A record hangs only under a position of the listing.
pub proof fn lemma_under_in_range(recs: Seq<RecordView>, i: int)
    requires
        0 <= i < recs.len() <= usize::MAX,
    ensures
        slot_of(recs, i) matches Slot::Under(j) ==> j < recs.len() && is_dir_record(
            recs[j as int],
        ),
{
    match recs[i].metadata {
        Some(m) => match m.parent {
            Some(p) => {
                lemma_find_parent(recs, p, 0);
            },
            None => {},
        },
        None => {},
    }
}

/// What `find_parent` returns is the position of a directory record with
/// the hash looked for, and no earlier position from `from` on holds one.
pub proof fn lemma_find_parent(recs: Seq<RecordView>, h: Seq<char>, from: int)
    requires
        0 <= from,
    ensures
        match find_parent(recs, h, from) {
            Some(j) => from <= j < recs.len() && is_dir_record(recs[j]) && recs[j].hash == h
                && forall|k: int|
                from <= k < j ==> !(is_dir_record(#[trigger] recs[k]) && recs[k].hash == h),
            None => forall|k: int|
                from <= k < recs.len() ==> !(is_dir_record(#[trigger] recs[k]) && recs[k].hash
                    == h),
        },
    decreases recs.len() - from,
{
    if from < recs.len() && !(is_dir_record(recs[from]) && recs[from].hash == h) {
        lemma_find_parent(recs, h, from + 1);
    }
}

/// The files and the directories that hang in `slot`, each directory with
/// its own content down to `fuel` further levels.
fn level(records: &Vec<Record>, slots: &Vec<Slot>, slot: Slot, fuel: usize) -> (res: (
    Vec<File>,
    Vec<Directory>,
))
    requires
        slots@.len() == records@.len(),
        forall|k: int|
            0 <= k < slots@.len() ==> #[trigger] slots@[k] == slot_of(records_view(records@), k),
    ensures
        files_view(res.0@) == level_files(
            records_view(records@),
            slot,
            records_view(records@).len(),
        ),
        dirs_view(res.1@) == level_dirs(
            records_view(records@),
            slot,
            fuel as nat,
            records_view(records@).len(),
        ),
    decreases fuel,
{
    let ghost rv = records_view(records@);
    let mut files: Vec<File> = Vec::new();
    let mut dirs: Vec<Directory> = Vec::new();
    let mut i: usize = 0;
    proof {
        assert(files_view(files@) =~= level_files(rv, slot, 0));
        assert(dirs_view(dirs@) =~= level_dirs(rv, slot, fuel as nat, 0));
    }
    while i < records.len()
        invariant
            i <= records.len(),
            rv == records_view(records@),
            rv.len() == records@.len(),
            slots@.len() == records@.len(),
            forall|k: int| 0 <= k < slots@.len() ==> #[trigger] slots@[k] == slot_of(rv, k),
            files_view(files@) == level_files(rv, slot, i as nat),
            dirs_view(dirs@) == level_dirs(rv, slot, fuel as nat, i as nat),
        decreases records.len() - i,
    {
        assert(rv[i as int] == records@[i as int]@);
        if slots[i] == slot {
            match &records[i].metadata {
                Some(m) => {
                    if is_directory_kind(m.kind().as_str()) {
                        let below = if fuel > 0 {
                            level(records, slots, Slot::Under(i), fuel - 1)
                        } else {
                            (Vec::new(), Vec::new())
                        };
                        proof {
                            if fuel == 0 {
                                assert(files_view(below.0@) =~= Seq::<FileView>::empty());
                                assert(dirs_view(below.1@) =~= Seq::<DirectoryView>::empty());
                            }
                        }
                        let dir = Directory::new(
                            records[i].hash.clone(),
                            m.clone(),
                            Some(below.0),
                            Some(below.1),
                        );
                        let ghost before = dirs@;
                        proof {
                            assert(dir@ == dir_of(rv, i as int, fuel as nat));
                        }
                        dirs.push(dir);
                        proof {
                            assert(dirs_view(dirs@) =~= dirs_view(before).push(dir@));
                        }
                    } else {
                        let file = File::new(records[i].hash.clone(), m.clone());
                        let ghost before = files@;
                        files.push(file);
                        proof {
                            assert(files_view(files@) =~= files_view(before).push(file@));
                        }
                    }
                },
                None => {},
            }
        }
        i += 1;
    }
    (files, dirs)
}

/// The anomalies of the listing, in listing order.
fn anomalies_in(records: &Vec<Record>, slots: &Vec<Slot>) -> (res: Vec<Anomaly>)
    requires
        slots@.len() == records@.len(),
        forall|k: int|
            0 <= k < slots@.len() ==> #[trigger] slots@[k] == slot_of(records_view(records@), k),
    ensures
        anomalies_view(res@) == anomalies_of(
            records_view(records@),
            records_view(records@).len(),
        ),
{
    let ghost rv = records_view(records@);
    let mut out: Vec<Anomaly> = Vec::new();
    let mut i: usize = 0;
    proof {
        assert(anomalies_view(out@) =~= anomalies_of(rv, 0));
    }
    while i < records.len()
        invariant
            i <= records.len(),
            rv == records_view(records@),
            rv.len() == records@.len(),
            slots@.len() == records@.len(),
            forall|k: int| 0 <= k < slots@.len() ==> #[trigger] slots@[k] == slot_of(rv, k),
            anomalies_view(out@) == anomalies_of(rv, i as nat),
        decreases records.len() - i,
    {
        assert(rv[i as int] == records@[i as int]@);
        let ghost before = out@;
        match slots[i] {
            Slot::Nowhere => {
                let a = Anomaly::Unreadable(records[i].hash.clone());
                out.push(a);
                proof {
                    assert(anomalies_view(out@) =~= anomalies_view(before).push(a@));
                }
            },
            Slot::Orphan => {
                let a = Anomaly::Orphan(records[i].hash.clone());
                out.push(a);
                proof {
                    assert(anomalies_view(out@) =~= anomalies_view(before).push(a@));
                }
            },
            _ => {
                if fate_of(records, slots, i) == Fate::Lost {
                    let a = Anomaly::Cycle(records[i].hash.clone());
                    out.push(a);
                    proof {
                        assert(anomalies_view(out@) =~= anomalies_view(before).push(a@));
                    }
                }
            },
        }
        i += 1;
    }
    out
}

/// Rebuilds the document tree and the trash tree from a flat listing.
///
/// A record without a parent hangs under the document root, one whose
/// parent is the trash marker under the trash root, and every other one
/// under the first directory of the listing that bears the hash it names.
/// A record whose parent is no directory of the listing hangs under the
/// document root and is reported as an orphan. A record whose metadata is
/// missing, or whose parent pointers never reach a root, is left out and
/// reported. The function ends on every listing.
pub fn build_tree(records: &Vec<Record>) -> (res: Reconstruction)
    ensures
        res.root@ == root_tree(records_view(records@)),
        res.trash@ == trash_tree(records_view(records@)),
        anomalies_view(res.anomalies@) == anomalies_of(
            records_view(records@),
            records_view(records@).len(),
        ),
{
    let ghost rv = records_view(records@);
    let slots = slots_of(records);
    let n: usize = records.len();
    let rooted = level(records, &slots, Slot::Root, n);
    let mut orphaned = level(records, &slots, Slot::Orphan, n);
    let trashed = level(records, &slots, Slot::Trash, n);
    let mut root_files = rooted.0;
    let mut root_dirs = rooted.1;
    let ghost f0 = root_files@;
    let ghost d0 = root_dirs@;
    let ghost f1 = orphaned.0@;
    let ghost d1 = orphaned.1@;
    root_files.append(&mut orphaned.0);
    root_dirs.append(&mut orphaned.1);
    proof {
        assert(files_view(root_files@) =~= files_view(f0) + files_view(f1));
        assert(dirs_view(root_dirs@) =~= dirs_view(d0) + dirs_view(d1));
    }
    let root = Directory::new(
        crate::nodes::Hash::new(String::new()),
        Metadata::new(
            String::from_str("root"),
            None,
            String::new(),
            String::from_str("CollectionType"),
        ),
        Some(root_files),
        Some(root_dirs),
    );
    let trash = Directory::new(
        crate::nodes::Hash::new(String::from_str("trash")),
        Metadata::new(
            String::from_str("trash"),
            None,
            String::new(),
            String::from_str("CollectionType"),
        ),
        Some(trashed.0),
        Some(trashed.1),
    );
    let anomalies = anomalies_in(records, &slots);
    Reconstruction { root, trash, anomalies }
}

/// Every readable record hangs where its slot says: a file among the files
/// of that slot, a directory among its directories.
pub proof fn lemma_record_placed(recs: Seq<RecordView>, i: int, fuel: nat, n: nat)
    requires
        0 <= i < n <= recs.len(),
    ensures
        is_file_record(recs[i]) ==> level_files(recs, slot_of(recs, i), n).contains(
            file_of(recs[i]),
        ),
        is_dir_record(recs[i]) ==> level_dirs(recs, slot_of(recs, i), fuel, n).contains(
            dir_of(recs, i, fuel),
        ),
    decreases n,
{
    let slot = slot_of(recs, i);
    let files = level_files(recs, slot, n);
    let dirs = level_dirs(recs, slot, fuel, n);
    if i == n - 1 {
        if is_file_record(recs[i]) {
            assert(files[files.len() - 1] == file_of(recs[i]));
        }
        if is_dir_record(recs[i]) {
            assert(dirs[dirs.len() - 1] == dir_of(recs, i, fuel));
        }
    } else {
        lemma_record_placed(recs, i, fuel, (n - 1) as nat);
        if is_file_record(recs[i]) {
            let rest = level_files(recs, slot, (n - 1) as nat);
            let k = choose|k: int| 0 <= k < rest.len() && rest[k] == file_of(recs[i]);
            assert(files[k] == file_of(recs[i]));
        }
        if is_dir_record(recs[i]) {
            let rest = level_dirs(recs, slot, fuel, (n - 1) as nat);
            let k = choose|k: int| 0 <= k < rest.len() && rest[k] == dir_of(recs, i, fuel);
            assert(dirs[k] == dir_of(recs, i, fuel));
        }
    }
}

/// A record whose parent is no directory of the listing is not dropped: it
/// stands directly under the document root, a directory with all that hangs
/// under it.
pub proof fn lemma_orphan_attached(recs: Seq<RecordView>, i: int)
    requires
        0 <= i < recs.len(),
        slot_of(recs, i) == Slot::Orphan,
    ensures
        is_file_record(recs[i]) ==> root_tree(recs).files.contains(file_of(recs[i])),
        is_dir_record(recs[i]) ==> root_tree(recs).directories.contains(
            dir_of(recs, i, recs.len()),
        ),
        is_file_record(recs[i]) || is_dir_record(recs[i]),
        anomalies_of(recs, recs.len()).contains(AnomalyView::Orphan(recs[i].hash)),
{
    lemma_record_placed(recs, i, recs.len(), recs.len());
    lemma_anomaly_listed(recs, i, recs.len());
    let first_files = level_files(recs, Slot::Root, recs.len());
    let more_files = level_files(recs, Slot::Orphan, recs.len());
    let first_dirs = level_dirs(recs, Slot::Root, recs.len(), recs.len());
    let more_dirs = level_dirs(recs, Slot::Orphan, recs.len(), recs.len());
    if is_file_record(recs[i]) {
        let k = choose|k: int| 0 <= k < more_files.len() && more_files[k] == file_of(recs[i]);
        assert((first_files + more_files)[first_files.len() + k] == file_of(recs[i]));
    }
    if is_dir_record(recs[i]) {
        let k = choose|k: int|
            0 <= k < more_dirs.len() && more_dirs[k] == dir_of(recs, i, recs.len());
        assert((first_dirs + more_dirs)[first_dirs.len() + k] == dir_of(recs, i, recs.len()));
    }
}

/// What is irregular about a record stands in the list of anomalies.
pub proof fn lemma_anomaly_listed(recs: Seq<RecordView>, i: int, n: nat)
    requires
        0 <= i < n <= recs.len(),
        anomaly_of(recs, i).is_some(),
    ensures
        anomalies_of(recs, n).contains(anomaly_of(recs, i).unwrap()),
    decreases n,
{
    let all = anomalies_of(recs, n);
    let a = anomaly_of(recs, i).unwrap();
    if i == n - 1 {
        assert(all[all.len() - 1] == a);
    } else {
        lemma_anomaly_listed(recs, i, (n - 1) as nat);
        let rest = anomalies_of(recs, (n - 1) as nat);
        let k = choose|k: int| 0 <= k < rest.len() && rest[k] == a;
        assert(all[k] == a);
    }
}

/// Parent pointers that lead round in a circle never reach a root: where
/// every record of a set hangs under a record of the same set, following the
/// pointers from any of them ends nowhere, however far one follows.
pub proof fn lemma_circle_is_lost(
    recs: Seq<RecordView>,
    inside: spec_fn(int) -> bool,
    i: int,
    fuel: nat,
)
    requires
        inside(i),
        forall|k: int| #[trigger]
            inside(k) ==> (slot_of(recs, k) matches Slot::Under(j) && inside(j as int)),
    ensures
        chain_end(recs, i, fuel) == Fate::Lost,
    decreases fuel,
{
    if fuel > 0 {
        match slot_of(recs, i) {
            Slot::Under(j) => {
                lemma_circle_is_lost(recs, inside, j as int, (fuel - 1) as nat);
            },
            _ => {},
        }
    }
}

/// Two readable records that name each other as parent are both reported as
/// lying on a circle.
pub proof fn lemma_two_cycle_reported(recs: Seq<RecordView>, i: int, j: int)
    requires
        0 <= i < recs.len() <= usize::MAX,
        0 <= j < recs.len(),
        slot_of(recs, i) == Slot::Under(j as usize),
        slot_of(recs, j) == Slot::Under(i as usize),
    ensures
        anomalies_of(recs, recs.len()).contains(AnomalyView::Cycle(recs[i].hash)),
        anomalies_of(recs, recs.len()).contains(AnomalyView::Cycle(recs[j].hash)),
{
    let inside = |k: int| k == i || k == j;
    lemma_circle_is_lost(recs, inside, i, recs.len());
    lemma_circle_is_lost(recs, inside, j, recs.len());
    lemma_anomaly_listed(recs, i, recs.len());
    lemma_anomaly_listed(recs, j, recs.len());
}

/// The file `f` stands somewhere in the tree `d`.
pub open spec fn holds_file(d: DirectoryView, f: FileView) -> bool
    decreases d,
{
    d.files.contains(f) || exists|k: int|
        0 <= k < d.directories.len() && holds_file(#[trigger] d.directories[k], f)
}

/// The directory `x` stands somewhere below the root of the tree `d`.
pub open spec fn holds_dir(d: DirectoryView, x: DirectoryView) -> bool
    decreases d,
{
    d.directories.contains(x) || exists|k: int|
        0 <= k < d.directories.len() && holds_dir(#[trigger] d.directories[k], x)
}

/// The tree in which a record with the given fate stands.
pub open spec fn tree_of(recs: Seq<RecordView>, fate: Fate) -> DirectoryView {
    if fate == Fate::Trashed {
        trash_tree(recs)
    } else {
        root_tree(recs)
    }
}

/// What stands directly in a directory of a tree stands in the tree.
proof fn lemma_holds_below(t: DirectoryView, x: DirectoryView)
    requires
        holds_dir(t, x),
    ensures
        forall|y: DirectoryView| x.directories.contains(y) ==> holds_dir(t, y),
        forall|f: FileView| x.files.contains(f) ==> holds_file(t, f),
    decreases t,
{
    if t.directories.contains(x) {
        let k = choose|k: int| 0 <= k < t.directories.len() && t.directories[k] == x;
        assert forall|y: DirectoryView| x.directories.contains(y) implies holds_dir(t, y) by {
            assert(holds_dir(t.directories[k], y));
        }
        assert forall|f: FileView| x.files.contains(f) implies holds_file(t, f) by {
            assert(holds_file(t.directories[k], f));
        }
    } else {
        let k = choose|k: int|
            0 <= k < t.directories.len() && holds_dir(#[trigger] t.directories[k], x);
        lemma_holds_below(t.directories[k], x);
        assert forall|y: DirectoryView| x.directories.contains(y) implies holds_dir(t, y) by {
            assert(holds_dir(t.directories[k], y));
        }
        assert forall|f: FileView| x.files.contains(f) implies holds_file(t, f) by {
            assert(holds_file(t.directories[k], f));
        }
    }
}

/// A record that hangs directly under a root stands directly in the tree of
/// that root.
proof fn lemma_top_level(recs: Seq<RecordView>, i: int)
    requires
        0 <= i < recs.len(),
        slot_of(recs, i) == Slot::Root || slot_of(recs, i) == Slot::Orphan || slot_of(recs, i)
            == Slot::Trash,
    ensures
        is_file_record(recs[i]) ==> tree_of(recs, chain_end(recs, i, 0)).files.contains(
            file_of(recs[i]),
        ),
        is_dir_record(recs[i]) ==> tree_of(recs, chain_end(recs, i, 0)).directories.contains(
            dir_of(recs, i, recs.len()),
        ),
{
    let n = recs.len();
    lemma_record_placed(recs, i, n, n);
    if slot_of(recs, i) == Slot::Root {
        let first_files = level_files(recs, Slot::Root, n);
        let more_files = level_files(recs, Slot::Orphan, n);
        let first_dirs = level_dirs(recs, Slot::Root, n, n);
        let more_dirs = level_dirs(recs, Slot::Orphan, n, n);
        if is_file_record(recs[i]) {
            let k = choose|k: int| 0 <= k < first_files.len() && first_files[k] == file_of(recs[i]);
            assert((first_files + more_files)[k] == file_of(recs[i]));
        }
        if is_dir_record(recs[i]) {
            let k = choose|k: int| 0 <= k < first_dirs.len() && first_dirs[k] == dir_of(recs, i, n);
            assert((first_dirs + more_dirs)[k] == dir_of(recs, i, n));
        }
    } else if slot_of(recs, i) == Slot::Orphan {
        lemma_orphan_attached(recs, i);
    }
}

/// A directory record whose parent pointers reach a root within `g` steps
/// stands in the tree of that root, with its own content down to the
/// returned number of further levels, which is at least the length of the
/// listing less `g`.
proof fn lemma_dir_present(recs: Seq<RecordView>, i: int, g: nat) -> (f: nat)
    requires
        0 <= i < recs.len() <= usize::MAX,
        g <= recs.len(),
        is_dir_record(recs[i]),
        chain_end(recs, i, g) != Fate::Lost,
    ensures
        f + g >= recs.len(),
        holds_dir(tree_of(recs, chain_end(recs, i, g)), dir_of(recs, i, f)),
    decreases g,
{
    let n = recs.len();
    match slot_of(recs, i) {
        Slot::Under(p) => {
            lemma_under_in_range(recs, i);
            let fp = lemma_dir_present(recs, p as int, (g - 1) as nat);
            let t = tree_of(recs, chain_end(recs, i, g));
            let parent = dir_of(recs, p as int, fp);
            lemma_holds_below(t, parent);
            lemma_record_placed(recs, i, (fp - 1) as nat, n);
            assert(parent.directories.contains(dir_of(recs, i, (fp - 1) as nat)));
            (fp - 1) as nat
        },
        _ => {
            lemma_top_level(recs, i);
            n
        },
    }
}

/// No readable record whose parent pointers reach a root is dropped: a file
/// stands in the document tree when they reach the document root, and in the
/// trash tree when they reach the trash.
pub proof fn lemma_file_present(recs: Seq<RecordView>, i: int)
    requires
        0 <= i < recs.len() <= usize::MAX,
        is_file_record(recs[i]),
        chain_end(recs, i, recs.len()) != Fate::Lost,
    ensures
        holds_file(tree_of(recs, chain_end(recs, i, recs.len())), file_of(recs[i])),
{
    let n = recs.len();
    match slot_of(recs, i) {
        Slot::Under(p) => {
            lemma_under_in_range(recs, i);
            let fp = lemma_dir_present(recs, p as int, (n - 1) as nat);
            let t = tree_of(recs, chain_end(recs, i, n));
            let parent = dir_of(recs, p as int, fp);
            lemma_holds_below(t, parent);
            lemma_record_placed(recs, i, 0, n);
            assert(parent.files.contains(file_of(recs[i])));
        },
        _ => {
            lemma_top_level(recs, i);
        },
    }
}

/// No readable record whose parent pointers reach a root is dropped: a
/// directory stands in the tree of that root, under its own hash and
/// metadata.
pub proof fn lemma_directory_present(recs: Seq<RecordView>, i: int) -> (x: DirectoryView)
    requires
        0 <= i < recs.len() <= usize::MAX,
        is_dir_record(recs[i]),
        chain_end(recs, i, recs.len()) != Fate::Lost,
    ensures
        x.hash == recs[i].hash,
        Some(x.metadata) == recs[i].metadata,
        holds_dir(tree_of(recs, chain_end(recs, i, recs.len())), x),
{
    let f = lemma_dir_present(recs, i, recs.len());
    dir_of(recs, i, f)
}

/// The record at `i` hangs below the directory record at `j`, at most `m`
/// levels down.
pub open spec fn descends(recs: Seq<RecordView>, i: int, j: int, m: nat) -> bool
    decreases m,
{
    m > 0 && 0 <= i < recs.len() && match slot_of(recs, i) {
        Slot::Under(p) => p as int == j || descends(recs, p as int, j, (m - 1) as nat),
        _ => false,
    }
}

/// A file of a level is the file of a record that hangs in that slot.
proof fn lemma_level_file_origin(recs: Seq<RecordView>, slot: Slot, n: nat, f: FileView) -> (i:
    int)
    requires
        n <= recs.len(),
        level_files(recs, slot, n).contains(f),
    ensures
        0 <= i < n,
        slot_of(recs, i) == slot,
        is_file_record(recs[i]),
        file_of(recs[i]) == f,
    decreases n,
{
    let all = level_files(recs, slot, n);
    let k = choose|k: int| 0 <= k < all.len() && all[k] == f;
    let rest = level_files(recs, slot, (n - 1) as nat);
    if slot_of(recs, n - 1) == slot && is_file_record(recs[n - 1]) && k == rest.len() {
        n - 1
    } else {
        assert(rest[k] == f);
        lemma_level_file_origin(recs, slot, (n - 1) as nat, f)
    }
}

/// A directory of a level is the directory of a record that hangs in that
/// slot.
proof fn lemma_level_dir_origin(
    recs: Seq<RecordView>,
    slot: Slot,
    fuel: nat,
    n: nat,
    x: DirectoryView,
) -> (i: int)
    requires
        n <= recs.len(),
        level_dirs(recs, slot, fuel, n).contains(x),
    ensures
        0 <= i < n,
        slot_of(recs, i) == slot,
        is_dir_record(recs[i]),
        dir_of(recs, i, fuel) == x,
    decreases n,
{
    let all = level_dirs(recs, slot, fuel, n);
    let k = choose|k: int| 0 <= k < all.len() && all[k] == x;
    let rest = level_dirs(recs, slot, fuel, (n - 1) as nat);
    if slot_of(recs, n - 1) == slot && is_dir_record(recs[n - 1]) && k == rest.len() {
        n - 1
    } else {
        assert(rest[k] == x);
        lemma_level_dir_origin(recs, slot, fuel, (n - 1) as nat, x)
    }
}

/// What hangs below a record that hangs under `j` hangs below `j`, one
/// level further down.
proof fn lemma_descends_further(recs: Seq<RecordView>, i: int, c: int, j: int, m: nat)
    requires
        descends(recs, i, c, m),
        0 <= c < recs.len(),
        0 <= j <= usize::MAX,
        slot_of(recs, c) == Slot::Under(j as usize),
    ensures
        descends(recs, i, j, m + 1),
    decreases m,
{
    match slot_of(recs, i) {
        Slot::Under(p) => {
            if p as int == c {
                assert(descends(recs, c, j, m));
            } else {
                lemma_descends_further(recs, p as int, c, j, (m - 1) as nat);
            }
        },
        _ => {},
    }
}

/// What hangs below a record that hangs directly under a root shares the
/// fate of that record.
proof fn lemma_descends_fate(recs: Seq<RecordView>, i: int, j: int, m: nat)
    requires
        descends(recs, i, j, m),
        0 <= j < recs.len(),
        slot_of(recs, j) == Slot::Root || slot_of(recs, j) == Slot::Orphan || slot_of(recs, j)
            == Slot::Trash,
    ensures
        chain_end(recs, i, m) == chain_end(recs, j, 0),
    decreases m,
{
    match slot_of(recs, i) {
        Slot::Under(p) => {
            if p as int != j {
                lemma_descends_fate(recs, p as int, j, (m - 1) as nat);
            }
        },
        _ => {},
    }
}

/// Following more parent pointers does not change where a record ends, once
/// it has reached a root.
pub proof fn lemma_fate_stays(recs: Seq<RecordView>, i: int, g: nat, h: nat)
    requires
        g <= h,
        chain_end(recs, i, g) != Fate::Lost,
    ensures
        chain_end(recs, i, h) == chain_end(recs, i, g),
    decreases g,
{
    match slot_of(recs, i) {
        Slot::Under(p) => {
            lemma_fate_stays(recs, p as int, (g - 1) as nat, (h - 1) as nat);
        },
        _ => {},
    }
}

/// A file below the directory of the record at `j` is the file of a record
/// that hangs below `j`.
proof fn lemma_file_origin_below(recs: Seq<RecordView>, j: int, fuel: nat, f: FileView) -> (i:
    int)
    requires
        0 <= j < recs.len() <= usize::MAX,
        holds_file(dir_of(recs, j, fuel), f),
    ensures
        0 <= i < recs.len(),
        is_file_record(recs[i]),
        file_of(recs[i]) == f,
        descends(recs, i, j, fuel),
    decreases fuel,
{
    let d = dir_of(recs, j, fuel);
    let n = recs.len();
    if fuel == 0 {
        assert(false);
        0
    } else if d.files.contains(f) {
        lemma_level_file_origin(recs, Slot::Under(j as usize), n, f)
    } else {
        let k = choose|k: int|
            0 <= k < d.directories.len() && holds_file(#[trigger] d.directories[k], f);
        let x = d.directories[k];
        assert(d.directories.contains(x));
        let c = lemma_level_dir_origin(recs, Slot::Under(j as usize), (fuel - 1) as nat, n, x);
        let i = lemma_file_origin_below(recs, c, (fuel - 1) as nat, f);
        lemma_descends_further(recs, i, c, j, (fuel - 1) as nat);
        i
    }
}

/// A directory below the directory of the record at `j` is the directory of
/// a record that hangs below `j`.
proof fn lemma_dir_origin_below(recs: Seq<RecordView>, j: int, fuel: nat, x: DirectoryView) -> (r:
    (int, nat))
    requires
        0 <= j < recs.len() <= usize::MAX,
        holds_dir(dir_of(recs, j, fuel), x),
    ensures
        0 <= r.0 < recs.len(),
        is_dir_record(recs[r.0]),
        dir_of(recs, r.0, r.1) == x,
        descends(recs, r.0, j, fuel),
    decreases fuel,
{
    let d = dir_of(recs, j, fuel);
    let n = recs.len();
    if fuel == 0 {
        assert(false);
        (0, 0)
    } else if d.directories.contains(x) {
        let i = lemma_level_dir_origin(recs, Slot::Under(j as usize), (fuel - 1) as nat, n, x);
        (i, (fuel - 1) as nat)
    } else {
        let k = choose|k: int|
            0 <= k < d.directories.len() && holds_dir(#[trigger] d.directories[k], x);
        let y = d.directories[k];
        assert(d.directories.contains(y));
        let c = lemma_level_dir_origin(recs, Slot::Under(j as usize), (fuel - 1) as nat, n, y);
        let r = lemma_dir_origin_below(recs, c, (fuel - 1) as nat, x);
        lemma_descends_further(recs, r.0, c, j, (fuel - 1) as nat);
        r
    }
}

/// A directory directly under the root of a tree is the directory of a
/// record that hangs directly under that root.
proof fn lemma_top_dir_origin(recs: Seq<RecordView>, fate: Fate, x: DirectoryView) -> (j: int)
    requires
        fate != Fate::Lost,
        tree_of(recs, fate).directories.contains(x),
    ensures
        0 <= j < recs.len(),
        is_dir_record(recs[j]),
        dir_of(recs, j, recs.len()) == x,
        slot_of(recs, j) == Slot::Root || slot_of(recs, j) == Slot::Orphan || slot_of(recs, j)
            == Slot::Trash,
        chain_end(recs, j, 0) == fate,
{
    let n = recs.len();
    let t = tree_of(recs, fate);
    if fate == Fate::Trashed {
        lemma_level_dir_origin(recs, Slot::Trash, n, n, x)
    } else {
        let first = level_dirs(recs, Slot::Root, n, n);
        let more = level_dirs(recs, Slot::Orphan, n, n);
        let k = choose|k: int| 0 <= k < t.directories.len() && t.directories[k] == x;
        if k < first.len() {
            assert(first[k] == x);
            lemma_level_dir_origin(recs, Slot::Root, n, n, x)
        } else {
            assert(more[k - first.len()] == x);
            lemma_level_dir_origin(recs, Slot::Orphan, n, n, x)
        }
    }
}

/// Nothing is invented and nothing is misplaced: every file of the document
/// tree is the file of a record whose parent pointers reach the document
/// root, and every file of the trash tree that of a record whose pointers
/// reach the trash.
pub proof fn lemma_file_in_tree_is_record(recs: Seq<RecordView>, fate: Fate, f: FileView) -> (i:
    int)
    requires
        recs.len() <= usize::MAX,
        fate != Fate::Lost,
        holds_file(tree_of(recs, fate), f),
    ensures
        0 <= i < recs.len(),
        is_file_record(recs[i]),
        file_of(recs[i]) == f,
        chain_end(recs, i, recs.len()) == fate,
{
    let n = recs.len();
    let t = tree_of(recs, fate);
    if t.files.contains(f) {
        if fate == Fate::Trashed {
            lemma_level_file_origin(recs, Slot::Trash, n, f)
        } else {
            let first = level_files(recs, Slot::Root, n);
            let more = level_files(recs, Slot::Orphan, n);
            let k = choose|k: int| 0 <= k < t.files.len() && t.files[k] == f;
            if k < first.len() {
                assert(first[k] == f);
                lemma_level_file_origin(recs, Slot::Root, n, f)
            } else {
                assert(more[k - first.len()] == f);
                lemma_level_file_origin(recs, Slot::Orphan, n, f)
            }
        }
    } else {
        let k = choose|k: int|
            0 <= k < t.directories.len() && holds_file(#[trigger] t.directories[k], f);
        let x = t.directories[k];
        assert(t.directories.contains(x));
        let j = lemma_top_dir_origin(recs, fate, x);
        let i = lemma_file_origin_below(recs, j, n, f);
        lemma_descends_fate(recs, i, j, n);
        i
    }
}

/// Every directory of the document tree is the directory of a record whose
/// parent pointers reach the document root, and every directory of the
/// trash tree that of a record whose pointers reach the trash.
pub proof fn lemma_dir_in_tree_is_record(recs: Seq<RecordView>, fate: Fate, x: DirectoryView) -> (i:
    int)
    requires
        recs.len() <= usize::MAX,
        fate != Fate::Lost,
        holds_dir(tree_of(recs, fate), x),
    ensures
        0 <= i < recs.len(),
        is_dir_record(recs[i]),
        x.hash == recs[i].hash,
        Some(x.metadata) == recs[i].metadata,
        chain_end(recs, i, recs.len()) == fate,
{
    let n = recs.len();
    let t = tree_of(recs, fate);
    if t.directories.contains(x) {
        let j = lemma_top_dir_origin(recs, fate, x);
        lemma_fate_stays(recs, j, 0, n);
        j
    } else {
        let k = choose|k: int|
            0 <= k < t.directories.len() && holds_dir(#[trigger] t.directories[k], x);
        let y = t.directories[k];
        assert(t.directories.contains(y));
        let j = lemma_top_dir_origin(recs, fate, y);
        let r = lemma_dir_origin_below(recs, j, n, x);
        lemma_descends_fate(recs, r.0, j, n);
        r.0
    }
}

/// No two records of the listing bear the same hash.
pub open spec fn distinct_hashes(recs: Seq<RecordView>) -> bool {
    forall|i: int, j: int| 0 <= i < j < recs.len() ==> recs[i].hash != recs[j].hash
}

/// A node with the hash `h`, file or directory, stands somewhere in the
/// tree `d`.
pub open spec fn tree_has_hash(d: DirectoryView, h: Seq<char>) -> bool {
    (exists|f: FileView| holds_file(d, f) && f.hash == h) || (exists|x: DirectoryView|
        holds_dir(d, x) && x.hash == h)
}

/// A hash that stands below the directory of the record at `j` is the hash
/// of a readable record that hangs below `j`.
pub proof fn lemma_hash_origin_below(recs: Seq<RecordView>, j: int, fuel: nat, h: Seq<char>) -> (i:
    int)
    requires
        0 <= j < recs.len() <= usize::MAX,
        tree_has_hash(dir_of(recs, j, fuel), h),
    ensures
        0 <= i < recs.len(),
        recs[i].hash == h,
        descends(recs, i, j, fuel),
{
    let t = dir_of(recs, j, fuel);
    if exists|f: FileView| holds_file(t, f) && f.hash == h {
        let f = choose|f: FileView| holds_file(t, f) && f.hash == h;
        lemma_file_origin_below(recs, j, fuel, f)
    } else {
        let x = choose|x: DirectoryView| holds_dir(t, x) && x.hash == h;
        let r = lemma_dir_origin_below(recs, j, fuel, x);
        r.0
    }
}

/// A hash that stands in a tree is the hash of a readable record whose
/// parent pointers reach the root of that tree.
pub proof fn lemma_hash_origin(recs: Seq<RecordView>, fate: Fate, h: Seq<char>) -> (i: int)
    requires
        recs.len() <= usize::MAX,
        fate != Fate::Lost,
        tree_has_hash(tree_of(recs, fate), h),
    ensures
        0 <= i < recs.len(),
        recs[i].hash == h,
        recs[i].metadata.is_some(),
        chain_end(recs, i, recs.len()) == fate,
{
    let t = tree_of(recs, fate);
    if exists|f: FileView| holds_file(t, f) && f.hash == h {
        let f = choose|f: FileView| holds_file(t, f) && f.hash == h;
        lemma_file_in_tree_is_record(recs, fate, f)
    } else {
        let x = choose|x: DirectoryView| holds_dir(t, x) && x.hash == h;
        lemma_dir_in_tree_is_record(recs, fate, x)
    }
}

/// The hash of every readable record whose parent pointers reach a root
/// stands in the tree of that root.
pub proof fn lemma_resolved_hash_present(recs: Seq<RecordView>, i: int)
    requires
        0 <= i < recs.len() <= usize::MAX,
        chain_end(recs, i, recs.len()) != Fate::Lost,
    ensures
        tree_has_hash(tree_of(recs, chain_end(recs, i, recs.len())), recs[i].hash),
{
    let t = tree_of(recs, chain_end(recs, i, recs.len()));
    assert(recs[i].metadata.is_some());
    if is_file_record(recs[i]) {
        lemma_file_present(recs, i);
        assert(holds_file(t, file_of(recs[i])));
    } else {
        let x = lemma_directory_present(recs, i);
        assert(holds_dir(t, x));
    }
}

/// Where the hashes of a listing are distinct, no hash stands in both
/// trees.
pub proof fn lemma_hash_in_one_tree(recs: Seq<RecordView>, h: Seq<char>)
    requires
        recs.len() <= usize::MAX,
        distinct_hashes(recs),
    ensures
        !(tree_has_hash(root_tree(recs), h) && tree_has_hash(trash_tree(recs), h)),
{
    if tree_has_hash(root_tree(recs), h) && tree_has_hash(trash_tree(recs), h) {
        let i = lemma_hash_origin(recs, Fate::Rooted, h);
        let j = lemma_hash_origin(recs, Fate::Trashed, h);
        if i < j {
            assert(recs[i].hash != recs[j].hash);
        } else if j < i {
            assert(recs[j].hash != recs[i].hash);
        }
    }
}

/// Where the hashes of a listing are distinct, a record whose parent
/// pointers reach no root, or whose metadata is missing, stands in neither
/// tree.
pub proof fn lemma_lost_hash_left_out(recs: Seq<RecordView>, i: int)
    requires
        0 <= i < recs.len() <= usize::MAX,
        distinct_hashes(recs),
        chain_end(recs, i, recs.len()) == Fate::Lost,
    ensures
        !tree_has_hash(root_tree(recs), recs[i].hash),
        !tree_has_hash(trash_tree(recs), recs[i].hash),
{
    if tree_has_hash(root_tree(recs), recs[i].hash) {
        let j = lemma_hash_origin(recs, Fate::Rooted, recs[i].hash);
        if i < j {
            assert(recs[i].hash != recs[j].hash);
        } else if j < i {
            assert(recs[j].hash != recs[i].hash);
        }
    }
    if tree_has_hash(trash_tree(recs), recs[i].hash) {
        let j = lemma_hash_origin(recs, Fate::Trashed, recs[i].hash);
        if i < j {
            assert(recs[i].hash != recs[j].hash);
        } else if j < i {
            assert(recs[j].hash != recs[i].hash);
        }
    }
}

/// The ending of the name of a metadata file.
pub open spec fn metadata_ext() -> Seq<char> {
    ".metadata"@
}

/// The lines of a text: what stands between its line feeds, before the
/// first and after the last. A text without line feed is one line.
pub open spec fn split_lines(text: Seq<char>) -> Seq<Seq<char>>
    decreases text.len(),
{
    if text.len() == 0 {
        seq![Seq::empty()]
    } else {
        let before = split_lines(text.drop_last());
        if text.last() == '\n' {
            before.push(Seq::empty())
        } else {
            before.drop_last().push(before.last().push(text.last()))
        }
    }
}

/// The hashes that the given lines name: each line that ends like the name
/// of a metadata file, without that ending, in order.
pub open spec fn listed_hashes(lines: Seq<Seq<char>>) -> Seq<Seq<char>> {
    lines.filter(|l: Seq<char>| ends_with(l, metadata_ext())).map_values(
        |l: Seq<char>| l.subrange(0, l.len() - metadata_ext().len()),
    )
}

/// The views of a sequence of hashes, element by element.
pub open spec fn hashes_view(v: Seq<crate::nodes::Hash>) -> Seq<Seq<char>> {
    v.map_values(|h: crate::nodes::Hash| h@)
}

/// Calls `String::push` of the standard library, which appends one
/// character to the text.
#[verifier::external_body]
fn push_char(text: &mut String, c: char)
    ensures
        final(text)@ == old(text)@.push(c),
{
    text.push(c)
}

/// One more line adds its hash, if it names one.
proof fn lemma_listed_push(lines: Seq<Seq<char>>, l: Seq<char>)
    ensures
        listed_hashes(lines.push(l)) == if ends_with(l, metadata_ext()) {
            listed_hashes(lines).push(l.subrange(0, l.len() - metadata_ext().len()))
        } else {
            listed_hashes(lines)
        },
{
    let keep = |l: Seq<char>| ends_with(l, metadata_ext());
    let cut = |l: Seq<char>| l.subrange(0, l.len() - metadata_ext().len());
    reveal(Seq::filter);
    assert(lines.push(l).drop_last() =~= lines);
    assert(lines.push(l).filter(keep) == if keep(l) {
        lines.filter(keep).push(l)
    } else {
        lines.filter(keep)
    });
    if keep(l) {
        assert(lines.filter(keep).push(l).map_values(cut) =~= lines.filter(keep).map_values(
            cut,
        ).push(cut(l)));
    }
}

/// Adds to `done` the hash that the line `line` names, if it names one.
fn take_line(done: &mut Vec<crate::nodes::Hash>, line: &str)
    ensures
        hashes_view(final(done)@) == if ends_with(line@, metadata_ext()) {
            hashes_view(old(done)@).push(line@.subrange(0, line@.len() - metadata_ext().len()))
        } else {
            hashes_view(old(done)@)
        },
{
    if has_suffix(line, ".metadata") {
        let n: usize = line.unicode_len();
        let m: usize = ".metadata".unicode_len();
        let hash = crate::nodes::Hash::new(String::from_str(line.substring_char(0, n - m)));
        let ghost before = done@;
        done.push(hash);
        proof {
            assert(hashes_view(done@) =~= hashes_view(before).push(hash@));
        }
    }
}

/// The hashes that a listing of the store names: one for each line that
/// ends in `.metadata`, in order.
pub fn get_hashes_from_ls_output(output: &str) -> (res: Vec<crate::nodes::Hash>)
    ensures
        hashes_view(res@) == listed_hashes(split_lines(output@)),
{
    broadcast use vstd::string::next_postcondition, vstd::string::axiom_spec_iter;

    let mut done: Vec<crate::nodes::Hash> = Vec::new();
    let mut line = String::new();
    let mut chars = output.chars();
    let ghost mut seen: Seq<char> = Seq::empty();
    proof {
        assert(seen + chars.remaining() =~= output@);
        assert(split_lines(seen).drop_last() =~= Seq::<Seq<char>>::empty());
        assert(hashes_view(done@) =~= listed_hashes(Seq::<Seq<char>>::empty())) by {
            reveal(Seq::filter);
        }
    }
    loop
        invariant
            chars.obeys_prophetic_iter_laws(),
            chars.decrease() is Some,
            seen + chars.remaining() == output@,
            split_lines(seen).len() > 0,
            split_lines(seen).last() == line@,
            hashes_view(done@) == listed_hashes(split_lines(seen).drop_last()),
        ensures
            seen == output@,
        decreases chars.decrease()->0,
    {
        match chars.next() {
            None => {
                proof {
                    assert(seen =~= output@);
                }
                break ;
            },
            Some(c) => {
                let ghost lines = split_lines(seen);
                proof {
                    assert(seen.push(c).drop_last() =~= seen);
                    assert(seen.push(c) + chars.remaining() =~= output@);
                }
                if c == '\n' {
                    take_line(&mut done, line.as_str());
                    line = String::new();
                    proof {
                        lemma_listed_push(lines.drop_last(), lines.last());
                        assert(lines.drop_last().push(lines.last()) =~= lines);
                        assert(split_lines(seen.push(c)).drop_last() =~= lines);
                    }
                } else {
                    push_char(&mut line, c);
                    proof {
                        assert(split_lines(seen.push(c)).drop_last() =~= lines.drop_last());
                    }
                }
                proof {
                    seen = seen.push(c);
                }
            },
        }
    }
    take_line(&mut done, line.as_str());
    proof {
        let lines = split_lines(output@);
        lemma_listed_push(lines.drop_last(), lines.last());
        assert(lines.drop_last().push(lines.last()) =~= lines);
    }
    done
}

} // verus!
