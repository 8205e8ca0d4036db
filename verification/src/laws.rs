//! What holds of the operations taken together, proved over the model.

use crate::codec::{
    blob_in_lines, blob_of, commit_text, is_plain_id, is_plain_name, lemma_blob_in_lines_concat,
    lemma_lines_of_tree_line, lemma_parent_of_commit_text, lemma_text_of_encoded,
    lemma_tree_entry_of_record, lemma_tree_of_commit_text, tree_line, tree_record,
};
use crate::diff::{lemma_diff_of_same_text_is_empty, text_diff};
use crate::hash::{is_hex_char, lemma_hex_is_injective, lemma_hex_shape, object_id, sha256};
use crate::model::{
    content_addressed, content_of, ends_at_root, first_named, history, holds, snapshot,
    snapshot_content, stored, CommitView, RepoError, RepositoryView, WorkingFileView,
};
use crate::path::name_of;
use crate::text::{lemma_encoding_is_injective, lemma_lines_of_concat, lines_of};
use crate::time::Timestamp;
use vstd::prelude::*;
use vstd::utf8::*;

verus! {

/// Writing the same bytes a second time changes nothing: the store is what
/// it was after the first time, with one object under the id of the bytes.
pub proof fn lemma_second_write_changes_nothing(objects: Map<Seq<char>, Seq<u8>>, bytes: Seq<u8>)
    requires
        objects.dom().finite(),
    ensures
        stored(stored(objects, bytes), bytes) == stored(objects, bytes),
        stored(objects, bytes)[object_id(bytes)] == bytes,
        stored(objects, bytes).dom() == objects.dom().insert(object_id(bytes)),
        stored(stored(objects, bytes), bytes).dom().len() == stored(objects, bytes).dom().len(),
        stored(objects, bytes).dom().len() == if objects.dom().contains(object_id(bytes)) {
            objects.dom().len()
        } else {
            objects.dom().len() + 1
        },
{
    assert(stored(stored(objects, bytes), bytes) =~= stored(objects, bytes));
}

/// The same for a repository: the second `write_object` of the same bytes
/// leaves it as the first one did.
pub proof fn lemma_write_object_twice(v: RepositoryView, bytes: Seq<u8>)
    requires
        v.wf(),
    ensures
        v.write_object(bytes).write_object(bytes) == v.write_object(bytes),
        v.write_object(bytes).wf(),
{
    lemma_second_write_changes_nothing(v.objects, bytes);
}

/// The staging area is a set: a path that is staged a second time stands in
/// it once, where it stood.
pub proof fn lemma_add_twice(v: RepositoryView, path: Seq<char>)
    requires
        v.wf(),
    ensures
        v.add(path).wf(),
        v.add(path).staged.contains(path),
        v.add(path).add(path) == v.add(path),
{
    let staged = v.add(path).staged;
    if !v.staged.contains(path) {
        assert(staged[v.staged.len() as int] == path);
        assert forall|i: int, j: int|
            0 <= i < staged.len() && 0 <= j < staged.len() && i != j implies staged[i]
            != staged[j] by {
            if i < v.staged.len() {
                assert(v.staged.contains(staged[i]));
            }
            if j < v.staged.len() {
                assert(v.staged.contains(staged[j]));
            }
        }
    }
}

/// A snapshot leaves the store finite, with every object under the id of
/// its content.
pub proof fn lemma_snapshot_store_is_sound(
    objects: Map<Seq<char>, Seq<u8>>,
    staged: Seq<Seq<char>>,
    files: Seq<WorkingFileView>,
    n: nat,
)
    requires
        objects.dom().finite(),
        content_addressed(objects),
    ensures
        snapshot(objects, staged, files, n).0.dom().finite(),
        content_addressed(snapshot(objects, staged, files, n).0),
    decreases n,
{
    if n > 0 {
        lemma_snapshot_store_is_sound(objects, staged, files, (n - 1) as nat);
    }
}

/// Registering a commit under an id that is not empty leaves the repository
/// well formed.
pub proof fn lemma_record_commit_wf(
    v: RepositoryView,
    id: Seq<char>,
    message: Seq<char>,
    timestamp: Timestamp,
)
    requires
        v.wf(),
        id.len() > 0,
    ensures
        v.record_commit(id, message, timestamp).wf(),
{
    let after = v.record_commit(id, message, timestamp);
    assert(v.branches.dom().contains(v.current_branch));
    assert forall|n: Seq<char>| #[trigger] after.branches.dom().contains(n) implies
        after.branches[n].name == n && (after.branches[n].head.len() == 0
        || after.commits.dom().contains(after.branches[n].head)) by {
        if n != v.current_branch {
            assert(v.branches.dom().contains(n));
        }
    }
    assert forall|c: Seq<char>| #[trigger] after.commits.dom().contains(c) implies c.len() > 0
        && after.commits[c].id == c && (match after.commits[c].parent {
        Some(p) => after.commits.dom().contains(p),
        None => true,
    }) by {
        if c != id {
            assert(v.commits.dom().contains(c));
        }
    }
}

/// Making a branch leaves the repository well formed.
pub proof fn lemma_branch_wf(v: RepositoryView, name: Seq<char>)
    requires
        v.wf(),
    ensures
        v.branch(name).wf(),
{
    let made = v.branch(name);
    assert(v.branches.dom().contains(v.current_branch));
    assert forall|n: Seq<char>| #[trigger] made.branches.dom().contains(n) implies
        made.branches[n].name == n && (made.branches[n].head.len() == 0
        || made.commits.dom().contains(made.branches[n].head)) by {
        if n != name {
            assert(v.branches.dom().contains(n));
        }
    }
}

/// A branch that was just made and made active has the history of the
/// branch it was made from.
pub proof fn lemma_new_branch_has_the_history(v: RepositoryView, name: Seq<char>)
    requires
        v.wf(),
    ensures
        v.branch(name).checkout(name).wf(),
        v.branch(name).checkout(name).log() == v.log(),
{
    lemma_branch_wf(v, name);
}

/// A commit leaves the repository well formed, if its id is not empty.
pub proof fn lemma_commit_wf(
    v: RepositoryView,
    message: Seq<char>,
    timestamp: Timestamp,
    timestamp_text: Seq<char>,
    files: Seq<WorkingFileView>,
)
    requires
        v.wf(),
        v.commit_id(message, timestamp_text, files).len() > 0,
    ensures
        v.commit_with(message, timestamp, timestamp_text, files).wf(),
{
    lemma_snapshot_store_is_sound(v.objects, v.staged, files, v.staged.len());
    let written = v.write_tree(files).write_object(
        v.commit_bytes(message, timestamp_text, files),
    );
    assert(written.wf());
    lemma_record_commit_wf(
        written,
        v.commit_id(message, timestamp_text, files),
        message,
        timestamp,
    );
}

/// A walk through the registry does not meet a commit that is registered
/// under a new id.
pub proof fn lemma_history_without_new_commit(
    commits: Map<Seq<char>, CommitView>,
    id: Seq<char>,
    commit: CommitView,
    at: Seq<char>,
    fuel: nat,
)
    requires
        !commits.dom().contains(id),
        at != id,
        forall|c: Seq<char>| #[trigger]
            commits.dom().contains(c) ==> match commits[c].parent {
                Some(p) => commits.dom().contains(p),
                None => true,
            },
    ensures
        history(commits.insert(id, commit), at, fuel) == history(commits, at, fuel),
    decreases fuel,
{
    if fuel > 0 && commits.dom().contains(at) {
        match commits[at].parent {
            Some(p) => {
                lemma_history_without_new_commit(commits, id, commit, p, (fuel - 1) as nat);
            },
            None => {},
        }
    }
}

/// A walk that ends at a commit without a parent ends there with more fuel
/// too.
pub proof fn lemma_ends_at_root_with_more(
    commits: Map<Seq<char>, CommitView>,
    at: Seq<char>,
    fuel: nat,
    more: nat,
)
    requires
        ends_at_root(commits, at, fuel),
    ensures
        ends_at_root(commits, at, fuel + more),
    decreases fuel,
{
    match commits[at].parent {
        Some(p) => {
            lemma_ends_at_root_with_more(commits, p, (fuel - 1) as nat, more);
        },
        None => {},
    }
}

/// A walk that ends at a commit without a parent ends there just so after
/// a commit was registered under a new id.
pub proof fn lemma_ends_at_root_with_new_commit(
    commits: Map<Seq<char>, CommitView>,
    id: Seq<char>,
    commit: CommitView,
    at: Seq<char>,
    fuel: nat,
)
    requires
        !commits.dom().contains(id),
        ends_at_root(commits, at, fuel),
    ensures
        ends_at_root(commits.insert(id, commit), at, fuel),
    decreases fuel,
{
    match commits[at].parent {
        Some(p) => {
            lemma_ends_at_root_with_new_commit(commits, id, commit, p, (fuel - 1) as nat);
        },
        None => {},
    }
}

/// A new repository has no commit, so its history runs in no circle.
pub proof fn lemma_initial_is_acyclic()
    ensures
        RepositoryView::initial().wf(),
        RepositoryView::initial().acyclic(),
{
    let v = RepositoryView::initial();
    assert(v.branches.dom() =~= set!["master"@]);
    assert(v.branches.dom().finite());
}

/// Registering a commit under a new id keeps the history free of circles.
pub proof fn lemma_record_commit_keeps_acyclic(
    v: RepositoryView,
    id: Seq<char>,
    message: Seq<char>,
    timestamp: Timestamp,
)
    requires
        v.wf(),
        v.acyclic(),
        !v.commits.dom().contains(id),
    ensures
        v.record_commit(id, message, timestamp).acyclic(),
{
    let after = v.record_commit(id, message, timestamp);
    let c = new_commit(v, id, message, timestamp);
    let n = v.commits.dom().len();
    assert(after.commits == v.commits.insert(id, c));
    assert(after.commits.dom() =~= v.commits.dom().insert(id));
    assert(after.commits.dom().len() == n + 1);
    assert(v.branches.dom().contains(v.current_branch));
    assert forall|x: Seq<char>| #[trigger] after.commits.dom().contains(x) implies ends_at_root(
        after.commits,
        x,
        after.commits.dom().len(),
    ) by {
        if x == id {
            if v.head().len() > 0 {
                assert(v.commits.dom().contains(v.head()));
                lemma_ends_at_root_with_new_commit(v.commits, id, c, v.head(), n);
            }
        } else {
            assert(v.commits.dom().contains(x));
            lemma_ends_at_root_with_new_commit(v.commits, id, c, x, n);
            lemma_ends_at_root_with_more(after.commits, x, n, 1);
        }
    }
}

/// A commit under a new id keeps the history free of circles.
pub proof fn lemma_commit_keeps_acyclic(
    v: RepositoryView,
    message: Seq<char>,
    timestamp: Timestamp,
    timestamp_text: Seq<char>,
    files: Seq<WorkingFileView>,
)
    requires
        v.wf(),
        v.acyclic(),
        !v.commits.dom().contains(v.commit_id(message, timestamp_text, files)),
    ensures
        v.commit_with(message, timestamp, timestamp_text, files).acyclic(),
{
    lemma_snapshot_store_is_sound(v.objects, v.staged, files, v.staged.len());
    let written = v.write_tree(files).write_object(
        v.commit_bytes(message, timestamp_text, files),
    );
    assert(written.wf());
    lemma_record_commit_keeps_acyclic(
        written,
        v.commit_id(message, timestamp_text, files),
        message,
        timestamp,
    );
}

/// A walk that ends at a commit without a parent is not cut short: it
/// begins with the commit it starts from, each of its commits is registered
/// and is followed by its parent, and the last one has no parent.
pub proof fn lemma_history_to_the_root(
    commits: Map<Seq<char>, CommitView>,
    at: Seq<char>,
    fuel: nat,
)
    requires
        ends_at_root(commits, at, fuel),
        forall|c: Seq<char>| #[trigger] commits.dom().contains(c) ==> commits[c].id == c,
    ensures
        history(commits, at, fuel).len() >= 1,
        history(commits, at, fuel)[0] == commits[at],
        history(commits, at, fuel).last().parent is None,
        forall|i: int|
            0 <= i < history(commits, at, fuel).len() ==> commits.dom().contains(
                (#[trigger] history(commits, at, fuel)[i]).id,
            ) && commits[history(commits, at, fuel)[i].id] == history(commits, at, fuel)[i],
        forall|i: int|
            0 <= i < history(commits, at, fuel).len() - 1 ==> (#[trigger] history(
                commits,
                at,
                fuel,
            )[i]).parent == Some(history(commits, at, fuel)[i + 1].id),
    decreases fuel,
{
    let h = history(commits, at, fuel);
    match commits[at].parent {
        Some(p) => {
            lemma_history_to_the_root(commits, p, (fuel - 1) as nat);
            let rest = history(commits, p, (fuel - 1) as nat);
            assert(h =~= seq![commits[at]] + rest);
            assert(h.last() == rest.last());
            assert forall|i: int| 0 <= i < h.len() implies commits.dom().contains(
                (#[trigger] h[i]).id,
            ) && commits[h[i].id] == h[i] by {
                if i > 0 {
                    assert(h[i] == rest[i - 1]);
                }
            }
            assert forall|i: int| 0 <= i < h.len() - 1 implies (#[trigger] h[i]).parent == Some(
                h[i + 1].id,
            ) by {
                assert(h[i + 1] == rest[i]);
                if i > 0 {
                    assert(h[i] == rest[i - 1]);
                }
            }
        },
        None => {
            assert(h =~= seq![commits[at]]);
        },
    }
}

/// Where the history runs in no circle, the log of a branch is its whole
/// history: empty for a branch without a commit, and else from the head to
/// a commit without a parent, each commit followed by its parent.
pub proof fn lemma_log_to_the_root(v: RepositoryView)
    requires
        v.wf(),
        v.acyclic(),
    ensures
        v.log().len() == 0 <==> v.head().len() == 0,
        v.log().len() > 0 ==> v.log()[0].id == v.head() && v.log().last().parent is None,
        forall|i: int|
            0 <= i < v.log().len() ==> v.commits.dom().contains((#[trigger] v.log()[i]).id)
                && v.commits[v.log()[i].id] == v.log()[i],
        forall|i: int|
            0 <= i < v.log().len() - 1 ==> (#[trigger] v.log()[i]).parent == Some(
                v.log()[i + 1].id,
            ),
{
    assert(v.branches.dom().contains(v.current_branch));
    if v.head().len() == 0 {
        assert(!v.commits.dom().contains(v.head()));
    } else {
        assert(v.commits.dom().contains(v.head()));
        lemma_history_to_the_root(v.commits, v.head(), v.commits.dom().len());
    }
}

/// The record that a commit made now leaves in the registry.
pub open spec fn new_commit(
    v: RepositoryView,
    id: Seq<char>,
    message: Seq<char>,
    timestamp: Timestamp,
) -> CommitView {
    CommitView { id, message, timestamp, parent: v.next_parent() }
}

/// A commit registered under a new id stands first in the history of the
/// active branch, and the history as it was follows it.
pub proof fn lemma_log_after_record(
    v: RepositoryView,
    id: Seq<char>,
    message: Seq<char>,
    timestamp: Timestamp,
)
    requires
        v.wf(),
        id.len() > 0,
        !v.commits.dom().contains(id),
    ensures
        v.record_commit(id, message, timestamp).log() == seq![
            new_commit(v, id, message, timestamp),
        ] + v.log(),
{
    let after = v.record_commit(id, message, timestamp);
    let c = new_commit(v, id, message, timestamp);
    let n = v.commits.dom().len();
    assert(after.commits.dom() =~= v.commits.dom().insert(id));
    assert(after.commits.dom().len() == n + 1);
    assert(after.head() == id);
    assert(v.branches.dom().contains(v.current_branch));
    if v.head().len() == 0 {
        assert(!v.commits.dom().contains(v.head()));
        assert(v.log() =~= Seq::<CommitView>::empty());
        assert(after.log() =~= seq![c] + v.log());
    } else {
        lemma_history_without_new_commit(v.commits, id, c, v.head(), n);
    }
}

/// The same for a whole commit, which writes objects before it registers.
pub proof fn lemma_log_after_commit(
    v: RepositoryView,
    message: Seq<char>,
    timestamp: Timestamp,
    timestamp_text: Seq<char>,
    files: Seq<WorkingFileView>,
)
    requires
        v.wf(),
        v.commit_id(message, timestamp_text, files).len() > 0,
        !v.commits.dom().contains(v.commit_id(message, timestamp_text, files)),
    ensures
        v.commit_with(message, timestamp, timestamp_text, files).log() == seq![
            new_commit(v, v.commit_id(message, timestamp_text, files), message, timestamp),
        ] + v.log(),
{
    lemma_snapshot_store_is_sound(v.objects, v.staged, files, v.staged.len());
    let written = v.write_tree(files).write_object(
        v.commit_bytes(message, timestamp_text, files),
    );
    assert(written.wf());
    assert(written.log() == v.log());
    assert(written.next_parent() == v.next_parent());
    lemma_log_after_record(
        written,
        v.commit_id(message, timestamp_text, files),
        message,
        timestamp,
    );
}

/// Staging paths changes the staging area and nothing else, and leaves the
/// repository well formed.
pub proof fn lemma_add_all_keeps(v: RepositoryView, paths: Seq<Seq<char>>)
    requires
        v.wf(),
    ensures
        v.add_all(paths).wf(),
        v.add_all(paths) == (RepositoryView { staged: v.add_all(paths).staged, ..v }),
    decreases paths.len(),
{
    if paths.len() > 0 {
        lemma_add_all_keeps(v, paths.drop_last());
        lemma_add_twice(v.add_all(paths.drop_last()), paths.last());
    }
}

/// Writing objects changes the store and nothing else, and leaves the
/// repository well formed.
pub proof fn lemma_write_all_keeps(v: RepositoryView, objects: Seq<Seq<u8>>)
    requires
        v.wf(),
    ensures
        v.write_all(objects).wf(),
        v.write_all(objects) == (RepositoryView { objects: v.write_all(objects).objects, ..v }),
    decreases objects.len(),
{
    if objects.len() > 0 {
        lemma_write_all_keeps(v, objects.drop_last());
    }
}

/// What one commit of a series is made from: the objects that are written
/// and the paths that are staged since the commit before it, the message,
/// the moment and its text, and the working files as they are when the
/// commit is made.
pub struct CommitInput {
    pub objects: Seq<Seq<u8>>,
    pub paths: Seq<Seq<char>>,
    pub message: Seq<char>,
    pub timestamp: Timestamp,
    pub timestamp_text: Seq<char>,
    pub files: Seq<WorkingFileView>,
}

impl CommitInput {
    /// The repository with the objects of this commit written and its
    /// paths staged.
    pub open spec fn ready(self, v: RepositoryView) -> RepositoryView {
        v.write_all(self.objects).add_all(self.paths)
    }

    /// The bytes of the commit object that this commit writes.
    pub open spec fn bytes(self, v: RepositoryView) -> Seq<u8> {
        self.ready(v).commit_bytes(self.message, self.timestamp_text, self.files)
    }

    /// The id that this commit gets.
    pub open spec fn id(self, v: RepositoryView) -> Seq<char> {
        object_id(self.bytes(v))
    }

    /// The repository after the objects were written, the paths were staged
    /// and the commit was made.
    pub open spec fn apply(self, v: RepositoryView) -> RepositoryView {
        self.ready(v).commit_with(self.message, self.timestamp, self.timestamp_text, self.files)
    }
}

/// Getting ready for a commit changes the store and the staging area and
/// nothing else, and leaves the repository well formed.
pub proof fn lemma_ready_keeps(v: RepositoryView, input: CommitInput)
    requires
        v.wf(),
    ensures
        input.ready(v).wf(),
        input.ready(v) == (RepositoryView {
            objects: input.ready(v).objects,
            staged: input.ready(v).staged,
            ..v
        }),
{
    lemma_write_all_keeps(v, input.objects);
    lemma_add_all_keeps(v.write_all(input.objects), input.paths);
}

/// What one commit does, made under a new id after its paths were staged:
/// it stands first in the history, with the history as it was behind it;
/// the branch points to it; no other branch moves; the registry has one
/// record more; and the history stays free of circles.
pub proof fn lemma_step(v: RepositoryView, input: CommitInput)
    requires
        v.wf(),
        input.id(v).len() > 0,
        !v.commits.dom().contains(input.id(v)),
    ensures
        input.apply(v).wf(),
        input.apply(v).log() == seq![
            new_commit(v, input.id(v), input.message, input.timestamp),
        ] + v.log(),
        input.apply(v).head() == input.id(v),
        input.apply(v).current_branch == v.current_branch,
        input.apply(v).branches.dom() == v.branches.dom(),
        forall|name: Seq<char>|
            name != v.current_branch ==> #[trigger] input.apply(v).branches[name]
                == v.branches[name],
        input.apply(v).commits == v.commits.insert(
            input.id(v),
            new_commit(v, input.id(v), input.message, input.timestamp),
        ),
        v.acyclic() ==> input.apply(v).acyclic(),
{
    let ready = input.ready(v);
    lemma_ready_keeps(v, input);
    assert(ready.log() == v.log());
    assert(ready.next_parent() == v.next_parent());
    lemma_commit_wf(ready, input.message, input.timestamp, input.timestamp_text, input.files);
    lemma_log_after_commit(
        ready,
        input.message,
        input.timestamp,
        input.timestamp_text,
        input.files,
    );
    if v.acyclic() {
        lemma_commit_keeps_acyclic(
            ready,
            input.message,
            input.timestamp,
            input.timestamp_text,
            input.files,
        );
    }
    assert(v.branches.dom().contains(v.current_branch));
    assert(input.apply(v).branches.dom() =~= v.branches.dom());
}

/// The repository after a series of commits, made one after the other, each
/// after its objects were written and its paths were staged.
pub open spec fn commit_all(v: RepositoryView, inputs: Seq<CommitInput>) -> RepositoryView
    decreases inputs.len(),
{
    if inputs.len() == 0 {
        v
    } else {
        inputs.last().apply(commit_all(v, inputs.drop_last()))
    }
}

/// Every commit of the series gets an id that is not empty and that the
/// registry does not hold when the commit is made.
pub open spec fn all_new(v: RepositoryView, inputs: Seq<CommitInput>) -> bool
    decreases inputs.len(),
{
    inputs.len() == 0 || {
        let before = commit_all(v, inputs.drop_last());
        let id = inputs.last().id(before);
        &&& all_new(v, inputs.drop_last())
        &&& id.len() > 0
        &&& !before.commits.dom().contains(id)
    }
}

/// A series of commits leaves the repository well formed and on the branch
/// it was on, touches no other branch, and keeps the history free of
/// circles.
pub proof fn lemma_commit_all_keeps(v: RepositoryView, inputs: Seq<CommitInput>)
    requires
        v.wf(),
        all_new(v, inputs),
    ensures
        commit_all(v, inputs).wf(),
        commit_all(v, inputs).current_branch == v.current_branch,
        commit_all(v, inputs).branches.dom() == v.branches.dom(),
        forall|name: Seq<char>|
            name != v.current_branch ==> #[trigger] commit_all(v, inputs).branches[name]
                == v.branches[name],
        v.acyclic() ==> commit_all(v, inputs).acyclic(),
    decreases inputs.len(),
{
    if inputs.len() > 0 {
        lemma_commit_all_keeps(v, inputs.drop_last());
        lemma_step(commit_all(v, inputs.drop_last()), inputs.last());
    }
}

/// After `n` commits in a row on one branch, each under a new id, the
/// history of that branch begins with these `n` commits, the newest first,
/// each with the id, the message and the moment it was made with and each
/// the parent of the one before it in the list, and goes on with the history
/// as it was before. The branch points to the first of the list. On a branch
/// that had no commit the history holds these `n` commits and no other, and
/// the oldest has no parent.
pub proof fn lemma_log_after_commits(v: RepositoryView, inputs: Seq<CommitInput>)
    requires
        v.wf(),
        all_new(v, inputs),
    ensures
        commit_all(v, inputs).log().len() == inputs.len() + v.log().len(),
        forall|i: int|
            0 <= i < inputs.len() ==> (#[trigger] commit_all(v, inputs).log()[i]).message
                == inputs[inputs.len() - 1 - i].message && commit_all(v, inputs).log()[i].timestamp
                == inputs[inputs.len() - 1 - i].timestamp && commit_all(v, inputs).log()[i].id
                == inputs[inputs.len() - 1 - i].id(
                commit_all(v, inputs.subrange(0, inputs.len() - 1 - i)),
            ),
        forall|i: int|
            0 <= i < inputs.len() - 1 ==> (#[trigger] commit_all(v, inputs).log()[i]).parent
                == Some(commit_all(v, inputs).log()[i + 1].id),
        inputs.len() > 0 ==> commit_all(v, inputs).log()[0].id == commit_all(v, inputs).head()
            && commit_all(v, inputs).head().len() > 0,
        commit_all(v, inputs).log().subrange(
            inputs.len() as int,
            commit_all(v, inputs).log().len() as int,
        ) == v.log(),
        v.head().len() == 0 ==> commit_all(v, inputs).log().len() == inputs.len(),
        v.head().len() == 0 && inputs.len() > 0 ==> commit_all(v, inputs).log().last().parent
            is None,
    decreases inputs.len(),
{
    let n = inputs.len() as int;
    if n == 0 {
        assert(v.log().subrange(0, v.log().len() as int) =~= v.log());
        assert(v.branches.dom().contains(v.current_branch));
        if v.head().len() == 0 {
            assert(!v.commits.dom().contains(v.head()));
        }
    } else {
        let last = inputs.last();
        let rest = inputs.drop_last();
        let before = commit_all(v, rest);
        lemma_commit_all_keeps(v, rest);
        lemma_log_after_commits(v, rest);
        lemma_step(before, last);
        let id = last.id(before);
        let c = new_commit(before, id, last.message, last.timestamp);
        let log = commit_all(v, inputs).log();
        assert(log == seq![c] + before.log());
        assert forall|i: int| 0 <= i < n implies (#[trigger] log[i]).message == inputs[n - 1
            - i].message && log[i].timestamp == inputs[n - 1 - i].timestamp && log[i].id
            == inputs[n - 1 - i].id(commit_all(v, inputs.subrange(0, n - 1 - i))) by {
            if i > 0 {
                assert(log[i] == before.log()[i - 1]);
                assert(rest[n - 1 - i] == inputs[n - 1 - i]);
                assert(rest.subrange(0, n - 1 - i) =~= inputs.subrange(0, n - 1 - i));
            } else {
                assert(inputs.subrange(0, n - 1) =~= rest);
            }
        }
        assert(log.subrange(n, log.len() as int) =~= before.log().subrange(
            n - 1,
            before.log().len() as int,
        ));
        assert forall|i: int| 0 <= i < n - 1 implies (#[trigger] log[i]).parent == Some(
            log[i + 1].id,
        ) by {
            assert(log[i + 1] == before.log()[i]);
            if i > 0 {
                assert(log[i] == before.log()[i - 1]);
            }
        }
        if v.head().len() == 0 {
            if n == 1 {
                assert(before == v);
                assert(log =~= seq![c]);
            } else {
                assert(log.last() == before.log().last());
            }
        }
    }
}

/// Commits with different parents have different commit objects.
pub proof fn lemma_commit_bytes_differ(
    tree1: Seq<char>,
    parent1: Seq<char>,
    message1: Seq<char>,
    timestamp1: Seq<char>,
    tree2: Seq<char>,
    parent2: Seq<char>,
    message2: Seq<char>,
    timestamp2: Seq<char>,
)
    requires
        is_plain_id(tree1),
        is_plain_id(tree2),
        is_plain_id(parent1),
        is_plain_id(parent2),
        parent1 != parent2,
    ensures
        encode_utf8(commit_text(tree1, parent1, message1, timestamp1)) != encode_utf8(
            commit_text(tree2, parent2, message2, timestamp2),
        ),
{
    let text1 = commit_text(tree1, parent1, message1, timestamp1);
    let text2 = commit_text(tree2, parent2, message2, timestamp2);
    lemma_parent_of_commit_text(tree1, parent1, message1, timestamp1);
    lemma_parent_of_commit_text(tree2, parent2, message2, timestamp2);
    if encode_utf8(text1) == encode_utf8(text2) {
        lemma_encoding_is_injective(text1, text2);
    }
}

/// The repository after the first `k` commits of a series.
pub open spec fn state_at(v: RepositoryView, inputs: Seq<CommitInput>, k: int) -> RepositoryView {
    commit_all(v, inputs.subrange(0, k))
}

/// The commit object that the `k`-th commit of a series writes.
pub open spec fn bytes_at(v: RepositoryView, inputs: Seq<CommitInput>, k: int) -> Seq<u8> {
    inputs[k].bytes(state_at(v, inputs, k))
}

/// The id that the `k`-th commit of a series gets.
pub open spec fn id_at(v: RepositoryView, inputs: Seq<CommitInput>, k: int) -> Seq<char> {
    object_id(bytes_at(v, inputs, k))
}

/// SHA-256 gives each commit object of the series a digest that is not
/// empty, and gives no two different commit objects of the series one
/// digest.
pub open spec fn digests_tell_commits_apart(v: RepositoryView, inputs: Seq<CommitInput>) -> bool {
    &&& forall|k: int|
        0 <= k < inputs.len() ==> sha256(#[trigger] bytes_at(v, inputs, k)).len() > 0
    &&& forall|j: int, k: int|
        0 <= j < k < inputs.len() && sha256(#[trigger] bytes_at(v, inputs, j)) == sha256(
            #[trigger] bytes_at(v, inputs, k),
        ) ==> bytes_at(v, inputs, j) == bytes_at(v, inputs, k)
}

/// The registry after the series holds the commits of the series and no
/// other.
pub open spec fn registry_is_series(v: RepositoryView, inputs: Seq<CommitInput>) -> bool {
    forall|id: Seq<char>| #[trigger]
        commit_all(v, inputs).commits.dom().contains(id) ==> exists|k: int|
            0 <= k < inputs.len() && id == #[trigger] id_at(v, inputs, k)
}

/// After each commit of the series the branch points to it; before the
/// first it points nowhere.
pub open spec fn heads_follow(v: RepositoryView, inputs: Seq<CommitInput>) -> bool {
    forall|k: int|
        0 <= k <= inputs.len() ==> (#[trigger] state_at(v, inputs, k)).head() == if k == 0 {
            Seq::<char>::empty()
        } else {
            id_at(v, inputs, k - 1)
        }
}

/// No two commits of the series have one id.
pub open spec fn ids_differ(v: RepositoryView, inputs: Seq<CommitInput>) -> bool {
    forall|j: int, k: int|
        0 <= j < k < inputs.len() ==> #[trigger] id_at(v, inputs, j) != #[trigger] id_at(
            v,
            inputs,
            k,
        )
}

/// What holds of a series of commits made in a repository that had none:
/// every commit gets a new id; the registry holds the commits of the series
/// and no other; after each commit the branch points to it; and no two
/// commits of the series have one id.
pub open spec fn in_a_row(v: RepositoryView, inputs: Seq<CommitInput>) -> bool {
    &&& all_new(v, inputs)
    &&& registry_is_series(v, inputs)
    &&& heads_follow(v, inputs)
    &&& ids_differ(v, inputs)
}

/// The first commits of a series are the same commits, whether the series
/// is taken whole or without its last commit.
pub proof fn lemma_series_without_last(v: RepositoryView, inputs: Seq<CommitInput>)
    requires
        inputs.len() > 0,
    ensures
        forall|k: int|
            0 <= k < inputs.len() ==> #[trigger] state_at(v, inputs.drop_last(), k) == state_at(
                v,
                inputs,
                k,
            ),
        forall|k: int|
            0 <= k < inputs.len() - 1 ==> #[trigger] bytes_at(v, inputs.drop_last(), k)
                == bytes_at(v, inputs, k),
        forall|k: int|
            0 <= k < inputs.len() - 1 ==> #[trigger] id_at(v, inputs.drop_last(), k) == id_at(
                v,
                inputs,
                k,
            ),
        state_at(v, inputs, inputs.len() - 1) == commit_all(v, inputs.drop_last()),
        state_at(v, inputs, inputs.len() as int) == commit_all(v, inputs),
        digests_tell_commits_apart(v, inputs) ==> digests_tell_commits_apart(
            v,
            inputs.drop_last(),
        ),
{
    let rest = inputs.drop_last();
    let n = inputs.len() as int;
    assert forall|k: int| 0 <= k < n implies #[trigger] state_at(v, rest, k) == state_at(
        v,
        inputs,
        k,
    ) by {
        assert(rest.subrange(0, k) =~= inputs.subrange(0, k));
    }
    assert(inputs.subrange(0, n - 1) =~= rest);
    assert(inputs.subrange(0, n) =~= inputs);
    if digests_tell_commits_apart(v, inputs) {
        assert forall|k: int| 0 <= k < rest.len() implies sha256(
            #[trigger] bytes_at(v, rest, k),
        ).len() > 0 by {
            assert(bytes_at(v, rest, k) == bytes_at(v, inputs, k));
        }
        assert forall|j: int, k: int|
            0 <= j < k < rest.len() && sha256(#[trigger] bytes_at(v, rest, j)) == sha256(
                #[trigger] bytes_at(v, rest, k),
            ) implies bytes_at(v, rest, j) == bytes_at(v, rest, k) by {
            assert(bytes_at(v, rest, j) == bytes_at(v, inputs, j));
            assert(bytes_at(v, rest, k) == bytes_at(v, inputs, k));
        }
    }
}

/// Two commits made on different heads get different ids, unless SHA-256
/// gives their different objects one digest.
pub proof fn lemma_ids_differ(
    a: RepositoryView,
    x: CommitInput,
    b: RepositoryView,
    y: CommitInput,
)
    requires
        a.wf(),
        b.wf(),
        is_plain_id(a.head()),
        is_plain_id(b.head()),
        a.head() != b.head(),
        sha256(x.bytes(a)) == sha256(y.bytes(b)) ==> x.bytes(a) == y.bytes(b),
    ensures
        x.id(a) != y.id(b),
{
    lemma_ready_keeps(a, x);
    lemma_ready_keeps(b, y);
    let ready_a = x.ready(a);
    let ready_b = y.ready(b);
    assert(ready_a.head() == a.head());
    assert(ready_b.head() == b.head());
    lemma_object_id_is_plain(encode_utf8(ready_a.tree_text(x.files)));
    lemma_object_id_is_plain(encode_utf8(ready_b.tree_text(y.files)));
    lemma_commit_bytes_differ(
        ready_a.tree_id(x.files),
        a.head(),
        x.message,
        x.timestamp_text,
        ready_b.tree_id(y.files),
        b.head(),
        y.message,
        y.timestamp_text,
    );
    assert(x.bytes(a) != y.bytes(b));
    if x.id(a) == y.id(b) {
        lemma_hex_is_injective(sha256(x.bytes(a)), sha256(y.bytes(b)));
    }
}

/// The last commit of a series in a row gets an id that none of the commits
/// before it has.
proof fn lemma_last_id_differs(v: RepositoryView, inputs: Seq<CommitInput>, k: int)
    requires
        v.wf(),
        inputs.len() > 0,
        0 <= k < inputs.len() - 1,
        in_a_row(v, inputs.drop_last()),
        digests_tell_commits_apart(v, inputs),
    ensures
        id_at(v, inputs, k) != id_at(v, inputs, inputs.len() - 1),
{
    let n = inputs.len() as int;
    let rest = inputs.drop_last();
    lemma_series_without_last(v, inputs);
    let a = state_at(v, inputs, k);
    let b = state_at(v, inputs, n - 1);
    assert(a == state_at(v, rest, k));
    assert(b == state_at(v, rest, n - 1));
    lemma_all_new_of_prefix(v, rest, k);
    lemma_commit_all_keeps(v, rest.subrange(0, k));
    lemma_commit_all_keeps(v, rest);
    assert(rest.subrange(0, n - 1) =~= rest);
    assert(a.wf());
    assert(b.wf());
    assert(b.head() == id_at(v, rest, n - 2));
    lemma_object_id_is_plain(bytes_at(v, rest, n - 2));
    lemma_hex_shape(sha256(bytes_at(v, rest, n - 2)));
    assert(bytes_at(v, rest, n - 2) == bytes_at(v, inputs, n - 2));
    assert(sha256(bytes_at(v, inputs, n - 2)).len() > 0);
    assert(b.head().len() > 0);
    if k > 0 {
        assert(a.head() == id_at(v, rest, k - 1));
        lemma_object_id_is_plain(bytes_at(v, rest, k - 1));
        assert(id_at(v, rest, k - 1) != id_at(v, rest, n - 2));
    } else {
        assert(a.head().len() == 0);
    }
    assert(sha256(bytes_at(v, inputs, k)) == sha256(bytes_at(v, inputs, n - 1)) ==> bytes_at(
        v,
        inputs,
        k,
    ) == bytes_at(v, inputs, n - 1));
    lemma_ids_differ(a, inputs[k], b, inputs[n - 1]);
}

/// In a repository without a commit, the commits of a series made in a row
/// all get new ids, as long as SHA-256 tells their objects apart: each
/// commit names the one before it as its parent, so no two of their objects
/// are the same.
pub proof fn lemma_commits_are_new(v: RepositoryView, inputs: Seq<CommitInput>)
    requires
        v.wf(),
        forall|id: Seq<char>| !v.commits.dom().contains(id),
        digests_tell_commits_apart(v, inputs),
    ensures
        in_a_row(v, inputs),
    decreases inputs.len(),
{
    let n = inputs.len() as int;
    assert(v.branches.dom().contains(v.current_branch));
    assert(v.head() =~= Seq::<char>::empty());
    if n == 0 {
        assert(inputs.subrange(0, 0) =~= inputs);
    } else {
        let rest = inputs.drop_last();
        let last = inputs.last();
        let before = commit_all(v, rest);
        lemma_series_without_last(v, inputs);
        lemma_commits_are_new(v, rest);
        lemma_commit_all_keeps(v, rest);
        let id = id_at(v, inputs, n - 1);
        assert(id == last.id(before));
        lemma_hex_shape(sha256(bytes_at(v, inputs, n - 1)));
        assert(id.len() > 0);
        assert forall|k: int| 0 <= k < n - 1 implies #[trigger] id_at(v, inputs, k) != id by {
            lemma_last_id_differs(v, inputs, k);
        }
        assert(!before.commits.dom().contains(id)) by {
            if before.commits.dom().contains(id) {
                let k = choose|k: int| 0 <= k < rest.len() && id == #[trigger] id_at(v, rest, k);
                assert(id_at(v, rest, k) == id_at(v, inputs, k));
            }
        }
        lemma_step(before, last);
        let after = commit_all(v, inputs);
        assert(after.commits.dom() =~= before.commits.dom().insert(id));
        lemma_registry_grows(v, inputs);
        lemma_heads_grow(v, inputs);
        lemma_ids_grow(v, inputs);
    }
}

/// One step for `registry_is_series`.
proof fn lemma_registry_grows(v: RepositoryView, inputs: Seq<CommitInput>)
    requires
        inputs.len() > 0,
        registry_is_series(v, inputs.drop_last()),
        commit_all(v, inputs).commits.dom() == commit_all(
            v,
            inputs.drop_last(),
        ).commits.dom().insert(id_at(v, inputs, inputs.len() - 1)),
    ensures
        registry_is_series(v, inputs),
{
    let n = inputs.len() as int;
    let rest = inputs.drop_last();
    let before = commit_all(v, rest);
    let after = commit_all(v, inputs);
    let id = id_at(v, inputs, n - 1);
    lemma_series_without_last(v, inputs);
    assert forall|x: Seq<char>| #[trigger] after.commits.dom().contains(x) implies exists|k: int|
        0 <= k < inputs.len() && x == #[trigger] id_at(v, inputs, k) by {
        if x == id {
            assert(x == id_at(v, inputs, n - 1));
        } else {
            assert(before.commits.dom().contains(x));
            let k = choose|k: int| 0 <= k < rest.len() && x == #[trigger] id_at(v, rest, k);
            assert(x == id_at(v, inputs, k));
        }
    }
}

/// One step for `heads_follow`.
proof fn lemma_heads_grow(v: RepositoryView, inputs: Seq<CommitInput>)
    requires
        inputs.len() > 0,
        heads_follow(v, inputs.drop_last()),
        commit_all(v, inputs).head() == id_at(v, inputs, inputs.len() - 1),
    ensures
        heads_follow(v, inputs),
{
    let n = inputs.len() as int;
    let rest = inputs.drop_last();
    lemma_series_without_last(v, inputs);
    assert forall|k: int| 0 <= k <= n implies (#[trigger] state_at(v, inputs, k)).head() == if k
        == 0 {
        Seq::<char>::empty()
    } else {
        id_at(v, inputs, k - 1)
    } by {
        if k < n {
            assert(state_at(v, inputs, k) == state_at(v, rest, k));
            if k > 0 {
                assert(id_at(v, rest, k - 1) == id_at(v, inputs, k - 1));
            }
        }
    }
}

/// One step for `ids_differ`.
proof fn lemma_ids_grow(v: RepositoryView, inputs: Seq<CommitInput>)
    requires
        inputs.len() > 0,
        ids_differ(v, inputs.drop_last()),
        forall|k: int|
            0 <= k < inputs.len() - 1 ==> #[trigger] id_at(v, inputs, k) != id_at(
                v,
                inputs,
                inputs.len() - 1,
            ),
    ensures
        ids_differ(v, inputs),
{
    let n = inputs.len() as int;
    let rest = inputs.drop_last();
    lemma_series_without_last(v, inputs);
    assert forall|j: int, k: int| 0 <= j < k < n implies #[trigger] id_at(v, inputs, j)
        != #[trigger] id_at(v, inputs, k) by {
        if k < n - 1 {
            assert(id_at(v, rest, j) == id_at(v, inputs, j));
            assert(id_at(v, rest, k) == id_at(v, inputs, k));
        }
    }
}

/// Where every commit of a series gets a new id, so does every commit of a
/// part of the series from its start.
pub proof fn lemma_all_new_of_prefix(v: RepositoryView, inputs: Seq<CommitInput>, k: int)
    requires
        all_new(v, inputs),
        0 <= k <= inputs.len(),
    ensures
        all_new(v, inputs.subrange(0, k)),
    decreases inputs.len(),
{
    if k == inputs.len() {
        assert(inputs.subrange(0, k) =~= inputs);
    } else {
        lemma_all_new_of_prefix(v, inputs.drop_last(), k);
        assert(inputs.drop_last().subrange(0, k) =~= inputs.subrange(0, k));
    }
}

/// After `n` commits in a row in a repository that had no commit, the
/// history of the branch holds these `n` commits and no other, the newest
/// first, each with its id and message and each the parent of the one
/// before it; the oldest has no parent, and the history runs in no circle.
/// This holds as long as SHA-256 tells the `n` commit objects apart.
pub proof fn lemma_log_in_a_new_repository(v: RepositoryView, inputs: Seq<CommitInput>)
    requires
        v.wf(),
        forall|id: Seq<char>| !v.commits.dom().contains(id),
        digests_tell_commits_apart(v, inputs),
    ensures
        commit_all(v, inputs).wf(),
        commit_all(v, inputs).acyclic(),
        commit_all(v, inputs).log().len() == inputs.len(),
        forall|i: int|
            0 <= i < inputs.len() ==> (#[trigger] commit_all(v, inputs).log()[i]).message
                == inputs[inputs.len() - 1 - i].message && commit_all(v, inputs).log()[i].id
                == id_at(v, inputs, inputs.len() - 1 - i),
        forall|i: int|
            0 <= i < inputs.len() - 1 ==> (#[trigger] commit_all(v, inputs).log()[i]).parent
                == Some(commit_all(v, inputs).log()[i + 1].id),
        inputs.len() > 0 ==> commit_all(v, inputs).log().last().parent is None,
{
    lemma_commits_are_new(v, inputs);
    lemma_commit_all_keeps(v, inputs);
    lemma_log_after_commits(v, inputs);
    assert(v.branches.dom().contains(v.current_branch));
    assert(v.head().len() == 0);
    assert(v.acyclic());
}

/// A branch made from the active branch gets that branch's head, and keeps
/// it through every later commit on the branch it was made from.
pub proof fn lemma_branch_keeps_its_head(
    v: RepositoryView,
    name: Seq<char>,
    inputs: Seq<CommitInput>,
)
    requires
        v.wf(),
        name != v.current_branch,
        all_new(v.branch(name), inputs),
    ensures
        v.branch(name).wf(),
        v.branch(name).branches[name].head == v.head(),
        commit_all(v.branch(name), inputs).branches[name].head == v.head(),
        commit_all(v.branch(name), inputs).current_branch == v.current_branch,
{
    lemma_branch_wf(v, name);
    lemma_commit_all_keeps(v.branch(name), inputs);
}

/// An object id holds neither a space nor a line feed.
pub proof fn lemma_object_id_is_plain(bytes: Seq<u8>)
    ensures
        is_plain_id(object_id(bytes)),
{
    lemma_hex_shape(sha256(bytes));
    assert forall|i: int| 0 <= i < object_id(bytes).len() implies object_id(bytes)[i] != ' '
        && object_id(bytes)[i] != '\n' by {
        assert(is_hex_char(object_id(bytes)[i]));
    }
}

/// The tree that a snapshot writes gives back, for a file name, the id of
/// the content that the snapshot recorded under it.
pub proof fn lemma_snapshot_tree(
    objects: Map<Seq<char>, Seq<u8>>,
    staged: Seq<Seq<char>>,
    files: Seq<WorkingFileView>,
    name: Seq<char>,
    n: nat,
)
    requires
        n <= staged.len(),
        forall|j: int|
            0 <= j < n && content_of(files, staged[j]).is_some() ==> is_plain_name(
                #[trigger] name_of(staged[j]),
            ),
    ensures
        snapshot(objects, staged, files, n).1.len() == 0 || snapshot(
            objects,
            staged,
            files,
            n,
        ).1.last() == '\n',
        match first_named(staged, files, name, n) {
            Some(j) => 0 <= j < n && content_of(files, staged[j]).is_some() && name_of(staged[j])
                == name && blob_of(snapshot(objects, staged, files, n).1, name) == Some(
                object_id(content_of(files, staged[j]).unwrap()),
            ),
            None => blob_of(snapshot(objects, staged, files, n).1, name).is_none(),
        },
    decreases n,
{
    if n == 0 {
        assert(lines_of(Seq::<char>::empty()) =~= Seq::<Seq<char>>::empty());
    } else {
        let before = snapshot(objects, staged, files, (n - 1) as nat);
        lemma_snapshot_tree(objects, staged, files, name, (n - 1) as nat);
        let path = staged[n - 1];
        match content_of(files, path) {
            Some(content) => {
                let id = object_id(content);
                let file = name_of(path);
                let line = tree_line(id, file);
                lemma_object_id_is_plain(content);
                lemma_lines_of_tree_line(id, file);
                lemma_tree_entry_of_record(id, file);
                lemma_lines_of_concat(before.1, line);
                let record = tree_record(id, file);
                lemma_blob_in_lines_concat(lines_of(before.1), seq![record], name);
                assert(seq![record].drop_first() =~= Seq::<Seq<char>>::empty());
                assert(blob_in_lines(seq![record].drop_first(), name).is_none());
                assert((before.1 + line).last() == line.last());
            },
            None => {},
        }
    }
}

/// A snapshot holds on to the objects that were there, and every blob it
/// writes is in the store afterwards.
pub proof fn lemma_snapshot_store(
    objects: Map<Seq<char>, Seq<u8>>,
    staged: Seq<Seq<char>>,
    files: Seq<WorkingFileView>,
    n: nat,
)
    requires
        n <= staged.len(),
    ensures
        forall|id: Seq<char>|
            objects.dom().contains(id) ==> #[trigger] snapshot(
                objects,
                staged,
                files,
                n,
            ).0.dom().contains(id),
        forall|j: int|
            0 <= j < n && content_of(files, staged[j]).is_some() ==> snapshot(
                objects,
                staged,
                files,
                n,
            ).0.dom().contains(#[trigger] object_id(content_of(files, staged[j]).unwrap())),
    decreases n,
{
    if n > 0 {
        lemma_snapshot_store(objects, staged, files, (n - 1) as nat);
        let before = snapshot(objects, staged, files, (n - 1) as nat).0;
        let after = snapshot(objects, staged, files, n).0;
        assert forall|id: Seq<char>| objects.dom().contains(id) implies after.dom().contains(
            id,
        ) by {
            assert(before.dom().contains(id));
        }
        assert forall|j: int|
            0 <= j < n && content_of(files, staged[j]).is_some() implies after.dom().contains(
            #[trigger] object_id(content_of(files, staged[j]).unwrap()),
        ) by {
            if j < n - 1 {
                assert(before.dom().contains(object_id(content_of(files, staged[j]).unwrap())));
            }
        }
    }
}

/// A commit takes no object out of the store and leaves each one with the
/// digest it had; the commit's own object is in the store, under the id that
/// the branch now points to.
pub proof fn lemma_commit_keeps_objects(
    v: RepositoryView,
    message: Seq<char>,
    timestamp: Timestamp,
    timestamp_text: Seq<char>,
    files: Seq<WorkingFileView>,
)
    requires
        v.wf(),
    ensures
        forall|id: Seq<char>|
            v.objects.dom().contains(id) ==> #[trigger] v.commit_with(
                message,
                timestamp,
                timestamp_text,
                files,
            ).objects.dom().contains(id) && sha256(
                v.commit_with(message, timestamp, timestamp_text, files).objects[id],
            ) == sha256(v.objects[id]),
        holds(
            v.commit_with(message, timestamp, timestamp_text, files).objects,
            v.commit_bytes(message, timestamp_text, files),
        ),
        v.commit_with(message, timestamp, timestamp_text, files).head() == v.commit_id(
            message,
            timestamp_text,
            files,
        ),
{
    let after = v.commit_with(message, timestamp, timestamp_text, files);
    lemma_snapshot_store(v.objects, v.staged, files, v.staged.len());
    lemma_snapshot_store_is_sound(v.objects, v.staged, files, v.staged.len());
    assert(content_addressed(after.objects));
    assert forall|id: Seq<char>| v.objects.dom().contains(id) implies #[trigger]
        after.objects.dom().contains(id) && sha256(after.objects[id]) == sha256(
        v.objects[id],
    ) by {
        assert(after.objects.dom().contains(id));
        lemma_hex_is_injective(sha256(after.objects[id]), sha256(v.objects[id]));
    }
}

/// After a commit, the branch's head records for a file name what the
/// snapshot took under it. This is stated for file names that hold no line
/// feed and do not end in a carriage return, and as long as the tree and
/// that content still lie under their ids: they do unless two of the objects
/// that the commit wrote have one id.
pub proof fn lemma_recorded_after_commit(
    v: RepositoryView,
    message: Seq<char>,
    timestamp: Timestamp,
    timestamp_text: Seq<char>,
    files: Seq<WorkingFileView>,
    path: Seq<char>,
)
    requires
        v.wf(),
        forall|j: int|
            0 <= j < v.staged.len() && content_of(files, v.staged[j]).is_some() ==> is_plain_name(
                #[trigger] name_of(v.staged[j]),
            ),
        holds(
            v.commit_with(message, timestamp, timestamp_text, files).objects,
            encode_utf8(v.tree_text(files)),
        ),
        match snapshot_content(v.staged, files, name_of(path)) {
            Some(content) => holds(
                v.commit_with(message, timestamp, timestamp_text, files).objects,
                content,
            ),
            None => true,
        },
    ensures
        v.commit_with(message, timestamp, timestamp_text, files).recorded(path) == Ok::<
            Option<Seq<u8>>,
            RepoError,
        >(snapshot_content(v.staged, files, name_of(path))),
{
    let after = v.commit_with(message, timestamp, timestamp_text, files);
    let tree = v.tree_id(files);
    let text = crate::codec::commit_text(tree, v.head(), message, timestamp_text);
    lemma_commit_keeps_objects(v, message, timestamp, timestamp_text, files);
    lemma_text_of_encoded(text);
    lemma_object_id_is_plain(encode_utf8(v.tree_text(files)));
    lemma_tree_of_commit_text(tree, v.head(), message, timestamp_text);
    lemma_text_of_encoded(v.tree_text(files));
    lemma_snapshot_tree(v.objects, v.staged, files, name_of(path), v.staged.len());
}

/// Right after a commit, the diff of a file is the diff against the content
/// that the commit took for it: empty where the text is that content, and
/// the sentence for an unknown file where the commit took none. The same
/// conditions apply.
pub proof fn lemma_diff_after_commit(
    v: RepositoryView,
    message: Seq<char>,
    timestamp: Timestamp,
    timestamp_text: Seq<char>,
    files: Seq<WorkingFileView>,
    path: Seq<char>,
    current: Seq<char>,
)
    requires
        v.wf(),
        forall|j: int|
            0 <= j < v.staged.len() && content_of(files, v.staged[j]).is_some() ==> is_plain_name(
                #[trigger] name_of(v.staged[j]),
            ),
        holds(
            v.commit_with(message, timestamp, timestamp_text, files).objects,
            encode_utf8(v.tree_text(files)),
        ),
        match snapshot_content(v.staged, files, name_of(path)) {
            Some(content) => holds(
                v.commit_with(message, timestamp, timestamp_text, files).objects,
                content,
            ),
            None => true,
        },
    ensures
        v.commit_with(message, timestamp, timestamp_text, files).diff(path, current) == match
            snapshot_content(v.staged, files, name_of(path)) {
            Some(content) => Ok::<Seq<char>, RepoError>(
                text_diff(crate::codec::text_of(content), current),
            ),
            None => Ok::<Seq<char>, RepoError>("File not found in the previous commit"@),
        },
        snapshot_content(v.staged, files, name_of(path)) == Some(encode_utf8(current)) ==> v.commit_with(
            message,
            timestamp,
            timestamp_text,
            files,
        ).diff(path, current) == Ok::<Seq<char>, RepoError>(Seq::empty()),
{
    lemma_recorded_after_commit(v, message, timestamp, timestamp_text, files, path);
    lemma_text_of_encoded(current);
    lemma_diff_of_same_text_is_empty(current);
}

/// Where the last commit recorded for a file the very bytes of its present
/// text, the diff is empty.
pub proof fn lemma_diff_of_recorded_text_is_empty(
    v: RepositoryView,
    path: Seq<char>,
    current: Seq<char>,
)
    requires
        v.recorded(path) == Ok::<Option<Seq<u8>>, crate::model::RepoError>(
            Some(encode_utf8(current)),
        ),
    ensures
        v.diff(path, current) == Ok::<Seq<char>, crate::model::RepoError>(Seq::empty()),
{
    lemma_text_of_encoded(current);
    lemma_diff_of_same_text_is_empty(current);
}

} // verus!
