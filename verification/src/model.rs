//! The repository as a mathematical value, and what each operation makes of
//! it. The contracts of `Repository` are stated over this model.

use crate::codec::{blob_of, commit_text, text_of, tree_line, tree_of_commit};
use crate::diff::text_diff;
use crate::hash::object_id;
use crate::path::name_of;
use crate::time::Timestamp;
use vstd::prelude::*;
use vstd::utf8::*;

verus! {

/// Why an operation did not give a result.
#[derive(Clone, Copy, Debug, PartialEq, Eq, Structural)]
pub enum RepoError {
    /// No branch of that name, or no object under that id.
    NotFound,
    /// The object under a branch's head is not the text of a commit.
    Corrupt,
    /// The moment given for a commit has no RFC 3339 text.
    InvalidTimestamp,
}

/// A named pointer to a commit. An empty head means that the branch has no
/// commit yet.
#[derive(Clone, Debug, PartialEq, Eq)]
pub struct Branch {
    pub name: String,
    pub head: String,
}

/// A branch as a mathematical value.
pub struct BranchView {
    pub name: Seq<char>,
    pub head: Seq<char>,
}

impl View for Branch {
    type V = BranchView;

    open spec fn view(&self) -> BranchView {
        BranchView { name: self.name@, head: self.head@ }
    }
}

/// What the registry keeps of a commit.
#[derive(Clone, Debug, PartialEq, Eq)]
pub struct Commit {
    pub id: String,
    pub message: String,
    pub timestamp: Timestamp,
    pub parent: Option<String>,
}

/// A commit as a mathematical value.
pub struct CommitView {
    pub id: Seq<char>,
    pub message: Seq<char>,
    pub timestamp: Timestamp,
    pub parent: Option<Seq<char>>,
}

impl View for Commit {
    type V = CommitView;

    open spec fn view(&self) -> CommitView {
        CommitView {
            id: self.id@,
            message: self.message@,
            timestamp: self.timestamp,
            parent: match self.parent {
                Some(p) => Some(p@),
                None => None,
            },
        }
    }
}

/// A file of the working directory as it is at the moment of a commit.
#[derive(Clone, Debug, PartialEq, Eq)]
pub struct WorkingFile {
    pub path: String,
    pub content: Vec<u8>,
}

/// A working file as a mathematical value.
pub struct WorkingFileView {
    pub path: Seq<char>,
    pub content: Seq<u8>,
}

impl View for WorkingFile {
    type V = WorkingFileView;

    open spec fn view(&self) -> WorkingFileView {
        WorkingFileView { path: self.path@, content: self.content@ }
    }
}

/// The files of a list as mathematical values.
pub open spec fn file_views(files: Seq<WorkingFile>) -> Seq<WorkingFileView> {
    files.map_values(|f: WorkingFile| f@)
}

/// The commits of a list as mathematical values.
pub open spec fn commit_views(list: Seq<&Commit>) -> Seq<CommitView> {
    list.map_values(|c: &Commit| c@)
}

/// The content of the first file of the list that has this path.
pub open spec fn content_of(files: Seq<WorkingFileView>, path: Seq<char>) -> Option<Seq<u8>>
    decreases files.len(),
{
    if files.len() == 0 {
        None
    } else if files[0].path == path {
        Some(files[0].content)
    } else {
        content_of(files.drop_first(), path)
    }
}

/// What a store holds after the object with these bytes was written to it.
pub open spec fn stored(objects: Map<Seq<char>, Seq<u8>>, bytes: Seq<u8>) -> Map<
    Seq<char>,
    Seq<u8>,
> {
    objects.insert(object_id(bytes), bytes)
}

/// The store and the text of the tree after the first `n` staged paths were
/// taken: each path that has a file among `files` gives a blob and a line,
/// the others give nothing.
pub open spec fn snapshot(
    objects: Map<Seq<char>, Seq<u8>>,
    staged: Seq<Seq<char>>,
    files: Seq<WorkingFileView>,
    n: nat,
) -> (Map<Seq<char>, Seq<u8>>, Seq<char>)
    decreases n,
{
    if n == 0 {
        (objects, Seq::empty())
    } else {
        let before = snapshot(objects, staged, files, (n - 1) as nat);
        let path = staged[n - 1];
        match content_of(files, path) {
            Some(content) => (
                stored(before.0, content),
                before.1 + tree_line(object_id(content), name_of(path)),
            ),
            None => before,
        }
    }
}

/// Among the first `n` staged paths, the place of the first one that has a
/// file among `files` and whose file name is `name`.
pub open spec fn first_named(
    staged: Seq<Seq<char>>,
    files: Seq<WorkingFileView>,
    name: Seq<char>,
    n: nat,
) -> Option<int>
    decreases n,
{
    if n == 0 {
        None
    } else {
        match first_named(staged, files, name, (n - 1) as nat) {
            Some(j) => Some(j),
            None => if content_of(files, staged[n - 1]).is_some() && name_of(staged[n - 1])
                == name {
                Some(n - 1)
            } else {
                None
            },
        }
    }
}

/// The content that a snapshot records under a file name: that of the first
/// staged path that has a file and ends in this name.
pub open spec fn snapshot_content(
    staged: Seq<Seq<char>>,
    files: Seq<WorkingFileView>,
    name: Seq<char>,
) -> Option<Seq<u8>> {
    match first_named(staged, files, name, staged.len()) {
        Some(j) => content_of(files, staged[j]),
        None => None,
    }
}

/// Every object of the store lies under the id that its content gives it.
pub open spec fn content_addressed(objects: Map<Seq<char>, Seq<u8>>) -> bool {
    forall|id: Seq<char>| #[trigger] objects.dom().contains(id) ==> object_id(objects[id]) == id
}

/// The store holds these bytes under the id that their content gives them.
pub open spec fn holds(objects: Map<Seq<char>, Seq<u8>>, bytes: Seq<u8>) -> bool {
    objects.dom().contains(object_id(bytes)) && objects[object_id(bytes)] == bytes
}

/// The commits from `at` back along the parents, newest first: the walk
/// ends at a commit without a parent, at an id that the registry does not
/// hold, and after `fuel` commits.
pub open spec fn history(commits: Map<Seq<char>, CommitView>, at: Seq<char>, fuel: nat) -> Seq<
    CommitView,
>
    decreases fuel,
{
    if fuel == 0 || !commits.dom().contains(at) {
        Seq::empty()
    } else {
        match commits[at].parent {
            Some(p) => seq![commits[at]] + history(commits, p, (fuel - 1) as nat),
            None => seq![commits[at]],
        }
    }
}

/// Whether the walk from `at` along the parents comes, within `fuel`
/// commits, to a commit without a parent.
pub open spec fn ends_at_root(commits: Map<Seq<char>, CommitView>, at: Seq<char>, fuel: nat) -> bool
    decreases fuel,
{
    fuel > 0 && commits.dom().contains(at) && match commits[at].parent {
        Some(p) => ends_at_root(commits, p, (fuel - 1) as nat),
        None => true,
    }
}

/// The parents of a registry run in no circle: from every commit the walk
/// along the parents comes to a commit without a parent, and it meets no
/// more commits than the registry holds.
pub open spec fn rooted(commits: Map<Seq<char>, CommitView>) -> bool {
    forall|id: Seq<char>| #[trigger]
        commits.dom().contains(id) ==> ends_at_root(commits, id, commits.dom().len())
}

/// The state of a repository.
pub struct RepositoryView {
    /// The name of the active branch.
    pub current_branch: Seq<char>,
    /// The branches, by name.
    pub branches: Map<Seq<char>, BranchView>,
    /// The registry of commits, by id.
    pub commits: Map<Seq<char>, CommitView>,
    /// The staged paths, in the order in which they were added.
    pub staged: Seq<Seq<char>>,
    /// The stored objects, by id.
    pub objects: Map<Seq<char>, Seq<u8>>,
}

impl RepositoryView {
    /// What holds of every repository: the active branch exists; a branch is
    /// kept under its name and its head is empty or a registered commit; a
    /// commit is kept under its id, which is not empty, and its parent is a
    /// registered commit; no path is staged twice; every object lies under
    /// the id that its content gives it.
    pub open spec fn wf(self) -> bool {
        &&& self.branches.dom().finite()
        &&& self.commits.dom().finite()
        &&& self.objects.dom().finite()
        &&& content_addressed(self.objects)
        &&& self.branches.dom().contains(self.current_branch)
        &&& forall|name: Seq<char>| #[trigger]
            self.branches.dom().contains(name) ==> self.branches[name].name == name && (
            self.branches[name].head.len() == 0 || self.commits.dom().contains(
                self.branches[name].head,
            ))
        &&& forall|id: Seq<char>| #[trigger]
            self.commits.dom().contains(id) ==> id.len() > 0 && self.commits[id].id == id && (
            match self.commits[id].parent {
                Some(p) => self.commits.dom().contains(p),
                None => true,
            })
        &&& self.staged.no_duplicates()
    }

    /// The history is a forest: no commit is its own ancestor. Every
    /// operation keeps this but a commit under an id that is registered
    /// already, which puts the new record in the place of the old one.
    pub open spec fn acyclic(self) -> bool {
        rooted(self.commits)
    }

    /// A new repository: the one branch `master`, without a commit.
    pub open spec fn initial() -> RepositoryView {
        RepositoryView {
            current_branch: "master"@,
            branches: Map::empty().insert(
                "master"@,
                BranchView { name: "master"@, head: Seq::empty() },
            ),
            commits: Map::empty(),
            staged: Seq::empty(),
            objects: Map::empty(),
        }
    }

    /// The head of the active branch.
    pub open spec fn head(self) -> Seq<char> {
        self.branches[self.current_branch].head
    }

    /// The parent that a commit made now would get.
    pub open spec fn next_parent(self) -> Option<Seq<char>> {
        if self.head().len() == 0 {
            None
        } else {
            Some(self.head())
        }
    }

    /// With `path` staged.
    pub open spec fn add(self, path: Seq<char>) -> RepositoryView {
        RepositoryView {
            staged: if self.staged.contains(path) {
                self.staged
            } else {
                self.staged.push(path)
            },
            ..self
        }
    }

    /// With these paths staged, one after the other.
    pub open spec fn add_all(self, paths: Seq<Seq<char>>) -> RepositoryView
        decreases paths.len(),
    {
        if paths.len() == 0 {
            self
        } else {
            self.add_all(paths.drop_last()).add(paths.last())
        }
    }

    /// With the object of these bytes written.
    pub open spec fn write_object(self, bytes: Seq<u8>) -> RepositoryView {
        RepositoryView { objects: stored(self.objects, bytes), ..self }
    }

    /// With the objects of these byte sequences written, one after the
    /// other.
    pub open spec fn write_all(self, objects: Seq<Seq<u8>>) -> RepositoryView
        decreases objects.len(),
    {
        if objects.len() == 0 {
            self
        } else {
            self.write_all(objects.drop_last()).write_object(objects.last())
        }
    }

    /// The text of the tree that a snapshot of `files` gives.
    pub open spec fn tree_text(self, files: Seq<WorkingFileView>) -> Seq<char> {
        snapshot(self.objects, self.staged, files, self.staged.len()).1
    }

    /// The id of the tree that a snapshot of `files` gives.
    pub open spec fn tree_id(self, files: Seq<WorkingFileView>) -> Seq<char> {
        object_id(encode_utf8(self.tree_text(files)))
    }

    /// With the blobs and the tree of a snapshot of `files` written.
    pub open spec fn write_tree(self, files: Seq<WorkingFileView>) -> RepositoryView {
        RepositoryView {
            objects: stored(
                snapshot(self.objects, self.staged, files, self.staged.len()).0,
                encode_utf8(self.tree_text(files)),
            ),
            ..self
        }
    }

    /// With a commit registered under `id` as the child of the active
    /// branch's head, that branch moved to it, and nothing staged.
    pub open spec fn record_commit(
        self,
        id: Seq<char>,
        message: Seq<char>,
        timestamp: Timestamp,
    ) -> RepositoryView {
        RepositoryView {
            commits: self.commits.insert(
                id,
                CommitView { id, message, timestamp, parent: self.next_parent() },
            ),
            branches: self.branches.insert(
                self.current_branch,
                BranchView { name: self.current_branch, head: id },
            ),
            staged: Seq::empty(),
            ..self
        }
    }

    /// The bytes of the commit object that a commit made now would write.
    pub open spec fn commit_bytes(
        self,
        message: Seq<char>,
        timestamp_text: Seq<char>,
        files: Seq<WorkingFileView>,
    ) -> Seq<u8> {
        encode_utf8(commit_text(self.tree_id(files), self.head(), message, timestamp_text))
    }

    /// The id that a commit made now would get.
    pub open spec fn commit_id(
        self,
        message: Seq<char>,
        timestamp_text: Seq<char>,
        files: Seq<WorkingFileView>,
    ) -> Seq<char> {
        object_id(self.commit_bytes(message, timestamp_text, files))
    }

    /// After a commit: the snapshot's blobs and tree and the commit object
    /// are written, and the commit is registered.
    pub open spec fn commit_with(
        self,
        message: Seq<char>,
        timestamp: Timestamp,
        timestamp_text: Seq<char>,
        files: Seq<WorkingFileView>,
    ) -> RepositoryView {
        self.write_tree(files).write_object(
            self.commit_bytes(message, timestamp_text, files),
        ).record_commit(self.commit_id(message, timestamp_text, files), message, timestamp)
    }

    /// The history of the active branch, newest commit first. The walk is
    /// cut off after as many commits as the registry holds.
    pub open spec fn log(self) -> Seq<CommitView> {
        history(self.commits, self.head(), self.commits.dom().len())
    }

    /// With a branch `name` whose head is the active branch's head. A branch
    /// that had this name is replaced.
    pub open spec fn branch(self, name: Seq<char>) -> RepositoryView {
        RepositoryView {
            branches: self.branches.insert(name, BranchView { name, head: self.head() }),
            ..self
        }
    }

    /// With `name` as the active branch.
    pub open spec fn checkout(self, name: Seq<char>) -> RepositoryView {
        RepositoryView { current_branch: name, ..self }
    }

    /// The bytes that the tree of the active branch's head records for the
    /// file that `path` names: `None` inside where the tree has no line for
    /// that name.
    pub open spec fn recorded(self, path: Seq<char>) -> Result<Option<Seq<u8>>, RepoError> {
        if !self.objects.dom().contains(self.head()) {
            Err(RepoError::NotFound)
        } else {
            match tree_of_commit(text_of(self.objects[self.head()])) {
                None => Err(RepoError::Corrupt),
                Some(tree) => if !self.objects.dom().contains(tree) {
                    Err(RepoError::NotFound)
                } else {
                    match blob_of(text_of(self.objects[tree]), name_of(path)) {
                        None => Ok(None),
                        Some(blob) => if !self.objects.dom().contains(blob) {
                            Err(RepoError::NotFound)
                        } else {
                            Ok(Some(self.objects[blob]))
                        },
                    }
                },
            }
        }
    }

    /// What `diff` answers for the file that `path` names, when its text is
    /// now `current`.
    pub open spec fn diff(self, path: Seq<char>, current: Seq<char>) -> Result<
        Seq<char>,
        RepoError,
    > {
        match self.recorded(path) {
            Err(e) => Err(e),
            Ok(None) => Ok("File not found in the previous commit"@),
            Ok(Some(bytes)) => Ok(text_diff(text_of(bytes), current)),
        }
    }
}

} // verus!
