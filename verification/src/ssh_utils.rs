//! Planning the one-way copy of what is unique on the remote side into a
//! local directory. The plan only creates directories and fetches files; it
//! is carried out by whoever holds the connection.

use crate::nodes::{dirs_view, files_view, Directory, DirectoryNode, DirectoryView, File, FileView, Node};
use vstd::prelude::*;
use vstd::string::*;

verus! {

/// One step of a copy.
#[derive(Debug)]
pub enum SyncStep {
    /// Make sure that the local directory `path` exists, creating it and its
    /// parents where it does not.
    EnsureDirectory { path: String },
    /// Fetch the remote object at `remote_path` into the local file
    /// `local_path`, unless the remote object does not exist: then the file
    /// is skipped, and the copy goes on. `object` is the name of the remote
    /// object and `name` the visible name of the file.
    CopyFile { remote_path: String, local_path: String, object: String, name: String },
}

/// What a `SyncStep` holds.
pub enum SyncStepView {
    EnsureDirectory { path: Seq<char> },
    CopyFile { remote_path: Seq<char>, local_path: Seq<char>, object: Seq<char>, name: Seq<char> },
}

impl View for SyncStep {
    type V = SyncStepView;

    open spec fn view(&self) -> SyncStepView {
        match self {
            SyncStep::EnsureDirectory { path } => SyncStepView::EnsureDirectory { path: path@ },
            SyncStep::CopyFile { remote_path, local_path, object, name } => SyncStepView::CopyFile {
                remote_path: remote_path@,
                local_path: local_path@,
                object: object@,
                name: name@,
            },
        }
    }
}

/// The views of a sequence of steps, element by element.
pub open spec fn steps_view(v: Seq<SyncStep>) -> Seq<SyncStepView> {
    v.map_values(|s: SyncStep| s@)
}

/// The name of the remote object that holds the content of a hash, in the
/// primary document format.
pub open spec fn remote_object(hash: Seq<char>) -> Seq<char> {
    hash + ".pdf"@
}

/// The path of `name` inside the directory `dir`.
pub open spec fn join_path(dir: Seq<char>, name: Seq<char>) -> Seq<char> {
    dir + "/"@ + name
}

/// The step that copies one file into the local directory `local`.
pub open spec fn file_step(f: FileView, local: Seq<char>, remote_dir: Seq<char>) -> SyncStepView {
    SyncStepView::CopyFile {
        remote_path: join_path(remote_dir, remote_object(f.hash)),
        local_path: join_path(local, f.metadata.visible_name),
        object: remote_object(f.hash),
        name: f.metadata.visible_name,
    }
}

/// The plan for a tree: the local directory first, then one step for each
/// file, in order, then the plan of each sub-directory, in order, inside the
/// local directory of its name.
pub open spec fn copy_plan(dir: DirectoryView, local: Seq<char>, remote_dir: Seq<char>) -> Seq<
    SyncStepView,
>
    decreases dir, 1nat, 0nat,
{
    seq![SyncStepView::EnsureDirectory { path: local }] + dir.files.map_values(
        |f: FileView| file_step(f, local, remote_dir),
    ) + sub_plans(dir, local, remote_dir, dir.directories.len())
}

/// The plans of the first `n` sub-directories of `dir`, one after the other.
pub open spec fn sub_plans(dir: DirectoryView, local: Seq<char>, remote_dir: Seq<char>, n: nat) -> Seq<
    SyncStepView,
>
    decreases dir, 0nat, n,
{
    if n == 0 || n > dir.directories.len() {
        Seq::empty()
    } else {
        sub_plans(dir, local, remote_dir, (n - 1) as nat) + copy_plan(
            dir.directories[n - 1],
            join_path(local, dir.directories[n - 1].metadata.visible_name),
            remote_dir,
        )
    }
}

/// Joins a directory and a name with a slash.
fn joined(dir: &str, name: &str) -> (res: String)
    ensures
        res@ == join_path(dir@, name@),
{
    let mut path = String::from_str(dir);
    path.append("/");
    path.append(name);
    path
}

/// The step that copies `file` into the local directory `local`.
fn step_for(file: &File, local: &str, remote_dir: &str) -> (res: SyncStep)
    ensures
        res@ == file_step(file@, local@, remote_dir@),
{
    let mut object = String::from_str(file.get_hash().as_str());
    object.append(".pdf");
    let remote_path = joined(remote_dir, object.as_str());
    let local_path = joined(local, file.get_visible_name().as_str());
    SyncStep::CopyFile { remote_path, local_path, object, name: file.get_visible_name().clone() }
}

/// Plans the copy of `directory`, a tree of what is unique on the remote
/// side, into the local directory `local_path`; `remote_dir` is the remote
/// directory that holds the objects. The steps are to be carried out in
/// order. No step removes anything.
pub fn copy_directory_from_remote(directory: &Directory, local_path: &str, remote_dir: &str) -> (res:
    Vec<SyncStep>)
    ensures
        steps_view(res@) == copy_plan(directory@, local_path@, remote_dir@),
    decreases directory,
{
    let ghost d = directory@;
    let files = directory.get_files();
    let subs = directory.get_directories();
    let mut steps: Vec<SyncStep> = Vec::new();
    steps.push(SyncStep::EnsureDirectory { path: String::from_str(local_path) });
    let ghost head = seq![SyncStepView::EnsureDirectory { path: local_path@ }];
    let ghost say = |f: FileView| file_step(f, local_path@, remote_dir@);
    proof {
        assert(steps_view(steps@) =~= head + d.files.take(0).map_values(say));
    }
    let mut i: usize = 0;
    while i < files.len()
        invariant
            i <= files.len(),
            d == directory@,
            files_view(files@) == d.files,
            say == |f: FileView| file_step(f, local_path@, remote_dir@),
            steps_view(steps@) == head + d.files.take(i as int).map_values(say),
        decreases files.len() - i,
    {
        let step = step_for(&files[i], local_path, remote_dir);
        let ghost before = steps@;
        proof {
            assert(d.files[i as int] == files@[i as int]@);
        }
        steps.push(step);
        proof {
            assert(steps_view(steps@) =~= steps_view(before).push(step@));
            assert(d.files.take(i + 1).map_values(say) =~= d.files.take(i as int).map_values(
                say,
            ).push(say(d.files[i as int])));
            assert(steps_view(steps@) =~= head + d.files.take(i + 1).map_values(say));
        }
        i += 1;
    }
    let ghost first = head + d.files.map_values(say);
    proof {
        assert(d.files.take(files@.len() as int) =~= d.files);
        assert(steps_view(steps@) =~= first + sub_plans(d, local_path@, remote_dir@, 0));
    }
    let mut k: usize = 0;
    while k < subs.len()
        invariant
            k <= subs.len(),
            d == directory@,
            subs@ == directory.children(),
            dirs_view(subs@) == d.directories,
            steps_view(steps@) == first + sub_plans(d, local_path@, remote_dir@, k as nat),
        decreases subs.len() - k,
    {
        let sub = &subs[k];
        proof {
            directory.lemma_child(k as int);
            assert(d.directories[k as int] == sub@);
        }
        let sub_path = joined(local_path, sub.get_visible_name().as_str());
        let mut below = copy_directory_from_remote(sub, sub_path.as_str(), remote_dir);
        let ghost before = steps@;
        let ghost added = below@;
        steps.append(&mut below);
        proof {
            assert(steps_view(steps@) =~= steps_view(before) + steps_view(added));
            assert(steps_view(steps@) =~= first + (sub_plans(d, local_path@, remote_dir@, k as nat)
                + steps_view(added)));
        }
        k += 1;
    }
    steps
}

} // verus!
