//! The repository engine: staging, snapshots, commits, branches, history
//! and the diff against the last commit.
//!
//! The engine keeps its state, the stored objects included, in memory. It
//! reads no file and no clock but the one behind `commit`: a caller hands it
//! the content of the working files and takes the objects from it to where
//! they are kept.

use crate::codec::{decode_text, encode_commit, find_blob, parse_commit_tree, push_tree_line};
use crate::diff::diff_strings;
use crate::hash::{is_hex_char, object_id};
use crate::laws::{
    lemma_add_twice, lemma_branch_wf, lemma_initial_is_acyclic, lemma_log_after_commit,
    lemma_log_to_the_root, lemma_record_commit_keeps_acyclic, lemma_record_commit_wf,
};
use crate::model::{
    commit_views, content_of, file_views, history, snapshot, Branch, Commit, CommitView,
    RepoError, RepositoryView, WorkingFile, WorkingFileView,
};
use crate::path::file_name;
use crate::store::ObjectStore;
use crate::table::{find_text, Table};
use crate::text::text_eq;
use crate::time::{utc_now, Timestamp};
use vstd::prelude::*;
use vstd::slice::slice_to_vec;

verus! {

/// The content of the first file of the list that has this path.
fn find_file<'a>(files: &'a Vec<WorkingFile>, path: &str) -> (content: Option<&'a Vec<u8>>)
    ensures
        match content {
            Some(c) => content_of(file_views(files@), path@) == Some(c@),
            None => content_of(file_views(files@), path@).is_none(),
        },
{
    let ghost all = file_views(files@);
    let mut i: usize = 0;
    assert(all.subrange(0, all.len() as int) =~= all);
    while i < files.len()
        invariant
            i <= files@.len(),
            all == file_views(files@),
            content_of(all, path@) == content_of(all.subrange(i as int, all.len() as int), path@),
        decreases files@.len() - i,
    {
        let ghost rest = all.subrange(i as int, all.len() as int);
        assert(rest[0] == files@[i as int]@);
        assert(rest.drop_first() =~= all.subrange(i + 1, all.len() as int));
        if text_eq(files[i].path.as_str(), path) {
            return Some(&files[i].content);
        }
        i += 1;
    }
    None
}

/// What `commit_at` leaves behind and answers, for a given moment.
pub open spec fn commit_outcome(
    before: RepositoryView,
    after: RepositoryView,
    answer: Result<String, RepoError>,
    message: Seq<char>,
    timestamp: Timestamp,
    files: Seq<WorkingFileView>,
) -> bool {
    match timestamp.text() {
        Some(text) => {
            &&& after == before.commit_with(message, timestamp, text, files)
            &&& answer is Ok
            &&& answer->Ok_0@ == before.commit_id(message, text, files)
        },
        None => {
            &&& after == before
            &&& answer == Err::<String, RepoError>(RepoError::InvalidTimestamp)
        },
    }
}

/// A commit that was made under the new id `id` stands first in the
/// history, and the history as it was follows it.
pub open spec fn log_grows(before: RepositoryView, after: RepositoryView, id: Seq<char>) -> bool {
    !before.commits.dom().contains(id) ==> after.log() == seq![after.commits[id]] + before.log()
}

/// A repository: branches, the registry of commits, the staged paths and
/// the stored objects.
#[derive(Clone)]
pub struct Repository {
    current_branch: String,
    branches: Table<Branch>,
    commits: Table<Commit>,
    staging_area: Vec<String>,
    objects: ObjectStore,
}

impl View for Repository {
    type V = RepositoryView;

    closed spec fn view(&self) -> RepositoryView {
        RepositoryView {
            current_branch: self.current_branch@,
            branches: self.branches@,
            commits: self.commits@,
            staged: self.staging_area.deep_view(),
            objects: self.objects@,
        }
    }
}

impl Repository {
    /// The repository is in a state that its operations can leave behind.
    pub closed spec fn wf(&self) -> bool {
        &&& self.branches.wf()
        &&& self.commits.wf()
        &&& self.objects.wf()
        &&& self@.wf()
    }

    /// A repository that is well formed has a well-formed model.
    pub proof fn lemma_wf(&self)
        requires
            self.wf(),
        ensures
            self@.wf(),
    {
    }

    /// A new repository: the one branch `master`, active and without a
    /// commit; nothing staged, nothing stored.
    pub fn new() -> (repo: Self)
        ensures
            repo.wf(),
            repo@ == RepositoryView::initial(),
            repo@.acyclic(),
    {
        let mut branches: Table<Branch> = Table::new();
        branches.put(
            "master".to_owned(),
            Branch { name: "master".to_owned(), head: String::new() },
        );
        let repo = Repository {
            current_branch: "master".to_owned(),
            branches,
            commits: Table::new(),
            staging_area: Vec::new(),
            objects: ObjectStore::new(),
        };
        proof {
            assert(repo.staging_area.deep_view() =~= Seq::<Seq<char>>::empty());
            assert(repo@.branches =~= RepositoryView::initial().branches);
            repo.branches.lemma_entries();
            repo.commits.lemma_entries();
            repo.objects.lemma_ids();
            lemma_initial_is_acyclic();
        }
        repo
    }

    /// The name of the active branch.
    pub fn current_branch(&self) -> (name: &String)
        ensures
            name@ == self@.current_branch,
    {
        &self.current_branch
    }

    /// The head of the active branch: the id of its last commit, or the
    /// empty text where it has none.
    pub fn head(&self) -> (head: &String)
        requires
            self.wf(),
        ensures
            head@ == self@.head(),
    {
        let branch = self.branches.get(self.current_branch.as_str());
        &branch.unwrap().head
    }

    /// All branches, each of them once.
    pub fn branches(&self) -> (list: Vec<&Branch>)
        requires
            self.wf(),
        ensures
            list@.len() == self@.branches.dom().len(),
            forall|i: int|
                0 <= i < list@.len() ==> self@.branches.dom().contains(#[trigger] list@[i]@.name)
                    && self@.branches[list@[i]@.name] == list@[i]@,
            forall|i: int, j: int|
                0 <= i < list@.len() && 0 <= j < list@.len() && i != j ==> list@[i]@.name
                    != list@[j]@.name,
    {
        let mut list: Vec<&Branch> = Vec::new();
        let n = self.branches.len();
        let mut i: usize = 0;
        proof {
            self.branches.lemma_entries();
        }
        while i < n
            invariant
                self.wf(),
                n == self.branches.key_seq().len(),
                i <= n,
                list@.len() == i,
                forall|k: int|
                    0 <= k < i ==> (#[trigger] list@[k])@ == self@.branches[self.branches.key_seq()[k]]
                        && list@[k]@.name == self.branches.key_seq()[k],
            decreases n - i,
        {
            proof {
                self.branches.lemma_entries();
            }
            let b = self.branches.value_at(i);
            list.push(b);
            i += 1;
        }
        proof {
            self.branches.lemma_entries();
        }
        list
    }

    /// The commit registered under `id`, if there is one.
    pub fn find_commit(&self, id: &str) -> (commit: Option<&Commit>)
        requires
            self.wf(),
        ensures
            match commit {
                Some(c) => self@.commits.dom().contains(id@) && c@ == self@.commits[id@],
                None => !self@.commits.dom().contains(id@),
            },
    {
        self.commits.get(id)
    }

    /// The staged paths, in the order in which they were added.
    pub fn staged(&self) -> (paths: &Vec<String>)
        ensures
            paths.deep_view() == self@.staged,
    {
        &self.staging_area
    }

    /// The stored objects.
    pub fn objects(&self) -> (store: &ObjectStore)
        requires
            self.wf(),
        ensures
            store.wf(),
            store@ == self@.objects,
    {
        &self.objects
    }

    /// The id that an object with these bytes is stored under.
    pub fn hash_object(&self, data: &[u8]) -> (id: String)
        ensures
            id@ == object_id(data@),
            id@.len() == 64,
            forall|i: int| 0 <= i < 64 ==> is_hex_char(#[trigger] id@[i]),
    {
        crate::hash::hash_object(data)
    }

    /// Stores `data` under the id that its content gives it, and returns the
    /// id. Bytes that are stored already stay as they are.
    pub fn write_object(&mut self, data: &[u8]) -> (id: String)
        requires
            old(self).wf(),
        ensures
            final(self).wf(),
            final(self)@ == old(self)@.write_object(data@),
            id@ == object_id(data@),
            id@.len() == 64,
    {
        let id = self.objects.write(data);
        proof {
            self.objects.lemma_ids();
        }
        id
    }

    /// The bytes stored under `hash`; `NotFound` where there are none.
    pub fn read_object(&self, hash: &str) -> (bytes: Result<Vec<u8>, RepoError>)
        requires
            self.wf(),
        ensures
            match bytes {
                Ok(b) => self@.objects.dom().contains(hash@) && b@ == self@.objects[hash@],
                Err(e) => e == RepoError::NotFound && !self@.objects.dom().contains(hash@),
            },
    {
        match self.objects.read(hash) {
            Some(b) => Ok(slice_to_vec(b.as_slice())),
            None => Err(RepoError::NotFound),
        }
    }

    /// Stages the path of a file. A path that is staged already stays where
    /// it is.
    pub fn add(&mut self, path: &str)
        requires
            old(self).wf(),
        ensures
            final(self).wf(),
            final(self)@ == old(self)@.add(path@),
    {
        let ghost staged = self.staging_area.deep_view();
        match find_text(&self.staging_area, path) {
            Some(_) => {},
            None => {
                self.staging_area.push(path.to_owned());
                proof {
                    assert(self.staging_area.deep_view() =~= staged.push(path@));
                    lemma_add_twice(old(self)@, path@);
                }
            },
        }
    }

    /// Takes a snapshot of the staged paths: for each of them that has a
    /// file among `files`, in the order of staging, the file's content is
    /// stored as a blob and a line is written to the tree; then the tree is
    /// stored. Returns the id of the tree.
    pub fn write_tree(&mut self, files: &Vec<WorkingFile>) -> (tree: String)
        requires
            old(self).wf(),
        ensures
            final(self).wf(),
            final(self)@ == old(self)@.write_tree(file_views(files@)),
            tree@ == old(self)@.tree_id(file_views(files@)),
            tree@.len() == 64,
    {
        let ghost before = self@;
        let ghost all = file_views(files@);
        let mut manifest = String::new();
        let mut i: usize = 0;
        while i < self.staging_area.len()
            invariant
                self.wf(),
                before == old(self)@,
                all == file_views(files@),
                i <= before.staged.len(),
                self@ == (RepositoryView {
                    objects: snapshot(before.objects, before.staged, all, i as nat).0,
                    ..before
                }),
                manifest@ == snapshot(before.objects, before.staged, all, i as nat).1,
            decreases before.staged.len() - i,
        {
            assert(self.staging_area.deep_view()[i as int] == self.staging_area@[i as int]@);
            match find_file(files, self.staging_area[i].as_str()) {
                Some(content) => {
                    let id = self.objects.write(content.as_slice());
                    let name = file_name(self.staging_area[i].as_str());
                    push_tree_line(&mut manifest, id.as_str(), name.as_str());
                    proof {
                        self.objects.lemma_ids();
                    }
                },
                None => {},
            }
            i += 1;
        }
        let tree = self.objects.write(manifest.as_str().as_bytes());
        proof {
            self.objects.lemma_ids();
        }
        tree
    }

    /// Registers a commit under `id` as the child of the active branch's
    /// head, moves that branch to it, and empties the staging area. A commit
    /// that was registered under `id` before is replaced. The id must not be
    /// empty: an empty head stands for a branch without a commit.
    pub fn record_commit(&mut self, id: String, message: &str, timestamp: Timestamp)
        requires
            old(self).wf(),
            id@.len() > 0,
        ensures
            final(self).wf(),
            final(self)@ == old(self)@.record_commit(id@, message@, timestamp),
            old(self)@.acyclic() && !old(self)@.commits.dom().contains(id@) ==> final(self)@.acyclic(),
    {
        let ghost before = self@;
        let head = self.head().clone();
        let parent = if head.as_str().is_empty() {
            None
        } else {
            Some(head)
        };
        let record = Commit { id: id.clone(), message: message.to_owned(), timestamp, parent };
        assert(record@ == (CommitView {
            id: id@,
            message: message@,
            timestamp,
            parent: before.next_parent(),
        }));
        self.commits.put(id.clone(), record);
        let name = self.current_branch.clone();
        self.branches.put(name.clone(), Branch { name, head: id });
        self.staging_area = Vec::new();
        proof {
            assert(self.staging_area.deep_view() =~= Seq::<Seq<char>>::empty());
            self.branches.lemma_entries();
            self.commits.lemma_entries();
            assert(self@ == before.record_commit(id@, message@, timestamp));
            lemma_record_commit_wf(before, id@, message@, timestamp);
            if before.acyclic() && !before.commits.dom().contains(id@) {
                lemma_record_commit_keeps_acyclic(before, id@, message@, timestamp);
            }
        }
    }

    /// Makes a commit with a moment and its text as given: snapshot, commit
    /// object, registration. Returns the id of the commit.
    pub fn commit_with(
        &mut self,
        message: &str,
        timestamp: Timestamp,
        timestamp_text: &str,
        files: &Vec<WorkingFile>,
    ) -> (id: String)
        requires
            old(self).wf(),
        ensures
            final(self).wf(),
            final(self)@ == old(self)@.commit_with(
                message@,
                timestamp,
                timestamp_text@,
                file_views(files@),
            ),
            id@ == old(self)@.commit_id(message@, timestamp_text@, file_views(files@)),
            id@.len() == 64,
            old(self)@.acyclic() && !old(self)@.commits.dom().contains(id@) ==> final(self)@.acyclic(),
            log_grows(old(self)@, final(self)@, id@),
    {
        let parent = self.head().clone();
        let tree = self.write_tree(files);
        let text = encode_commit(tree.as_str(), parent.as_str(), message, timestamp_text);
        let id = self.write_object(text.as_str().as_bytes());
        self.record_commit(id.clone(), message, timestamp);
        proof {
            if !old(self)@.commits.dom().contains(id@) {
                lemma_log_after_commit(
                    old(self)@,
                    message@,
                    timestamp,
                    timestamp_text@,
                    file_views(files@),
                );
            }
        }
        id
    }

    /// Makes a commit at the given moment. A moment without an RFC 3339
    /// text is refused, and the repository stays as it was.
    pub fn commit_at(&mut self, message: &str, timestamp: Timestamp, files: &Vec<WorkingFile>) -> (id:
        Result<String, RepoError>)
        requires
            old(self).wf(),
        ensures
            final(self).wf(),
            commit_outcome(old(self)@, final(self)@, id, message@, timestamp, file_views(files@)),
            old(self)@.acyclic() && (id is Ok ==> !old(self)@.commits.dom().contains(
                id->Ok_0@,
            )) ==> final(self)@.acyclic(),
            id is Ok ==> log_grows(old(self)@, final(self)@, id->Ok_0@),
    {
        match timestamp.to_rfc3339() {
            Some(text) => Ok(self.commit_with(message, timestamp, text.as_str(), files)),
            None => Err(RepoError::InvalidTimestamp),
        }
    }

    /// Makes a commit at the moment that the clock shows: what `commit_at`
    /// does for that moment. Every moment of the clock has an RFC 3339 text,
    /// so the commit is always made.
    pub fn commit(&mut self, message: &str, files: &Vec<WorkingFile>) -> (id: Result<
        String,
        RepoError,
    >)
        requires
            old(self).wf(),
        ensures
            final(self).wf(),
            id is Ok,
            exists|now: Timestamp|
                now.text().is_some() && commit_outcome(
                    old(self)@,
                    final(self)@,
                    id,
                    message@,
                    now,
                    file_views(files@),
                ),
            old(self)@.acyclic() && !old(self)@.commits.dom().contains(id->Ok_0@) ==> final(self)@.acyclic(),
            log_grows(old(self)@, final(self)@, id->Ok_0@),
    {
        let now = utc_now();
        self.commit_at(message, now, files)
    }

    /// The history of the active branch, newest commit first.
    pub fn log(&self) -> (list: Vec<&Commit>)
        requires
            self.wf(),
        ensures
            commit_views(list@) == self@.log(),
            self@.acyclic() && list@.len() > 0 ==> list@[0]@.id == self@.head() && list@.last()@.parent
                is None,
    {
        let mut list: Vec<&Commit> = Vec::new();
        let mut fuel: usize = self.commits.len();
        let mut current: &String = self.head();
        let mut done = false;
        assert(commit_views(list@) + self@.log() =~= self@.log());
        while fuel > 0 && !done
            invariant
                self.wf(),
                self@.log() == if done {
                    commit_views(list@)
                } else {
                    commit_views(list@) + history(self@.commits, current@, fuel as nat)
                },
            decreases fuel,
        {
            let ghost so_far = commit_views(list@);
            match self.commits.get(current.as_str()) {
                None => {
                    done = true;
                    assert(so_far + Seq::<CommitView>::empty() =~= so_far);
                },
                Some(c) => {
                    list.push(c);
                    assert(commit_views(list@) =~= so_far.push(c@));
                    match &c.parent {
                        Some(p) => {
                            assert(so_far.push(c@) + history(
                                self@.commits,
                                p@,
                                (fuel - 1) as nat,
                            ) =~= so_far + (seq![c@] + history(
                                self@.commits,
                                p@,
                                (fuel - 1) as nat,
                            )));
                            current = p;
                        },
                        None => {
                            done = true;
                            assert(so_far.push(c@) =~= so_far + seq![c@]);
                        },
                    }
                },
            }
            fuel -= 1;
        }
        proof {
            if !done {
                assert(commit_views(list@) + Seq::<CommitView>::empty() =~= commit_views(list@));
            }
            if self@.acyclic() && list@.len() > 0 {
                lemma_log_to_the_root(self@);
                assert(commit_views(list@)[0] == list@[0]@);
                assert(commit_views(list@).last() == list@.last()@);
            }
        }
        list
    }

    /// Makes a branch `name` that points where the active branch points
    /// now. A branch that had this name is replaced.
    pub fn branch(&mut self, name: &str) -> (done: Result<(), RepoError>)
        requires
            old(self).wf(),
        ensures
            final(self).wf(),
            done is Ok,
            final(self)@ == old(self)@.branch(name@),
    {
        let ghost before = self@;
        let head = self.head().clone();
        self.branches.put(name.to_owned(), Branch { name: name.to_owned(), head });
        proof {
            self.branches.lemma_entries();
            assert(self@ == before.branch(name@));
            lemma_branch_wf(before, name@);
        }
        Ok(())
    }

    /// Makes `name` the active branch. Where there is no such branch, the
    /// answer is `NotFound` and the active branch stays.
    pub fn checkout(&mut self, name: &str) -> (done: Result<(), RepoError>)
        requires
            old(self).wf(),
        ensures
            final(self).wf(),
            match done {
                Ok(_) => old(self)@.branches.dom().contains(name@) && final(self)@ == old(
                    self,
                )@.checkout(name@),
                Err(e) => e == RepoError::NotFound && !old(self)@.branches.dom().contains(name@)
                    && final(self)@ == old(self)@,
            },
    {
        if !self.branches.contains_key(name) {
            return Err(RepoError::NotFound);
        }
        self.current_branch = name.to_owned();
        Ok(())
    }

    /// Holds the text of a file as it is now against what the last commit
    /// of the active branch recorded for it, and reports the lines that
    /// differ. A file that the commit's tree does not name is answered with
    /// a sentence that says so.
    pub fn diff(&self, file_path: &str, current: &str) -> (report: Result<String, RepoError>)
        requires
            self.wf(),
        ensures
            match report {
                Ok(text) => self@.diff(file_path@, current@) == Ok::<Seq<char>, RepoError>(text@),
                Err(e) => self@.diff(file_path@, current@) == Err::<Seq<char>, RepoError>(e),
            },
    {
        let commit_bytes = match self.objects.read(self.head().as_str()) {
            Some(b) => b,
            None => {
                return Err(RepoError::NotFound);
            },
        };
        let commit = decode_text(commit_bytes.as_slice());
        let tree_id = match parse_commit_tree(commit.as_str()) {
            Some(id) => id,
            None => {
                return Err(RepoError::Corrupt);
            },
        };
        let tree_bytes = match self.objects.read(tree_id.as_str()) {
            Some(b) => b,
            None => {
                return Err(RepoError::NotFound);
            },
        };
        let manifest = decode_text(tree_bytes.as_slice());
        let name = file_name(file_path);
        match find_blob(manifest.as_str(), name.as_str()) {
            None => Ok("File not found in the previous commit".to_owned()),
            Some(blob_id) => {
                match self.objects.read(blob_id.as_str()) {
                    Some(old_bytes) => {
                        let old_text = decode_text(old_bytes.as_slice());
                        Ok(diff_strings(old_text.as_str(), current))
                    },
                    None => Err(RepoError::NotFound),
                }
            },
        }
    }
}

} // verus!
