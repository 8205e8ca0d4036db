use rust_git::{Branch, Commit, RepoError, Repository, Timestamp, WorkingFile};

const V1_ID: &str = "3bfc269594ef649228e9a74bab00f042efc91d5acc6fbee31a382e80d42388fe";
const TREE1_ID: &str = "ca3fdaf58c53b0d9750684e2084d6fa2301ba0fa2134dbaa0ea3170aa1980387";
const COMMIT1_ID: &str = "04962f07a015227e8b996171c1c821b220245c4d7d9dfed835a0deb60ce789f2";
const TREE2_ID: &str = "fbcf4b151498ab562e6bd8f7955dd6dc853b8daadd683c91b149fed61f7974bc";
const COMMIT2_ID: &str = "071cbe840eb0bd48fa52341eddc74c4451d3a4e4daee9d3f1e91cb2647f4a63a";

fn file(path: &str, content: &str) -> WorkingFile {
    WorkingFile { path: path.to_string(), content: content.as_bytes().to_vec() }
}

fn at(secs: i64) -> Timestamp {
    Timestamp { secs, nanos: 0 }
}

fn messages(repo: &Repository) -> Vec<String> {
    repo.log().iter().map(|c| c.message.clone()).collect()
}

fn head_of(repo: &Repository, name: &str) -> String {
    let list = repo.branches();
    let found: Vec<&&Branch> = list.iter().filter(|b| b.name == name).collect();
    assert_eq!(found.len(), 1);
    found[0].head.clone()
}

#[test]
fn new_repository_has_one_unborn_branch() {
    let repo = Repository::new();
    assert_eq!(repo.current_branch(), "master");
    assert_eq!(repo.head(), "");
    let branches = repo.branches();
    assert_eq!(branches.len(), 1);
    assert_eq!(branches[0], &Branch { name: "master".to_string(), head: "".to_string() });
    assert!(repo.log().is_empty());
    assert!(repo.staged().is_empty());
    assert_eq!(repo.objects().len(), 0);
}

#[test]
fn staging_is_a_set_in_the_order_of_adding() {
    let mut repo = Repository::new();
    repo.add("b.txt");
    repo.add("a.txt");
    repo.add("b.txt");
    assert_eq!(repo.staged(), &vec!["b.txt".to_string(), "a.txt".to_string()]);
}

#[test]
fn tree_has_a_line_for_each_staged_file() {
    let mut repo = Repository::new();
    repo.add("dir/f");
    repo.add("gone");
    repo.add("g.txt");
    let files = vec![file("g.txt", "v2"), file("dir/f", "v1"), file("unstaged", "x")];
    let tree = repo.write_tree(&files);
    let text = String::from_utf8(repo.read_object(&tree).unwrap()).unwrap();
    assert_eq!(
        text,
        "blob 3bfc269594ef649228e9a74bab00f042efc91d5acc6fbee31a382e80d42388fe f\n\
         blob fb04dcb6970e4c3d1873de51fd5a50d7bb46b3383113602665c350ec40b5f990 g.txt\n"
    );
    assert_eq!(repo.read_object(V1_ID), Ok(b"v1".to_vec()));
    assert_eq!(repo.objects().len(), 3);
    assert_eq!(repo.staged().len(), 3);
}

#[test]
fn tree_of_nothing_is_the_empty_object() {
    let mut repo = Repository::new();
    let tree = repo.write_tree(&vec![]);
    assert_eq!(tree, "e3b0c44298fc1c149afbf4c8996fb92427ae41e4649b934ca495991b7852b855");
    assert_eq!(repo.read_object(&tree), Ok(vec![]));
}

#[test]
fn commit_object_names_tree_parent_message_and_moment() {
    let mut repo = Repository::new();
    repo.add("f");
    let first = repo.commit_at("first", at(1431648000), &vec![file("f", "v1")]).unwrap();
    assert_eq!(first, COMMIT1_ID);
    let text = String::from_utf8(repo.read_object(&first).unwrap()).unwrap();
    assert_eq!(
        text,
        format!("tree {}\nparent \nmessage first\ntimestamp 2015-05-15T00:00:00+00:00", TREE1_ID)
    );
    repo.add("f");
    let later = Timestamp { secs: 1431648001, nanos: 500_000_000 };
    let second = repo.commit_at("second", later, &vec![file("f", "v2")]).unwrap();
    assert_eq!(second, COMMIT2_ID);
    let text = String::from_utf8(repo.read_object(&second).unwrap()).unwrap();
    assert_eq!(
        text,
        format!(
            "tree {}\nparent {}\nmessage second\ntimestamp 2015-05-15T00:00:01.500+00:00",
            TREE2_ID, COMMIT1_ID
        )
    );
}

#[test]
fn commit_registers_moves_the_head_and_clears_the_staging_area() {
    let mut repo = Repository::new();
    repo.add("f");
    let id = repo.commit_at("first", at(1431648000), &vec![file("f", "v1")]).unwrap();
    assert_eq!(repo.head(), &id);
    assert!(repo.staged().is_empty());
    assert_eq!(
        repo.find_commit(&id),
        Some(&Commit {
            id: id.clone(),
            message: "first".to_string(),
            timestamp: at(1431648000),
            parent: None,
        })
    );
    assert_eq!(repo.find_commit("no such id"), None);
}

#[test]
fn commit_with_takes_the_text_of_the_moment_as_given() {
    let mut repo = Repository::new();
    let id = repo.commit_with("m", at(0), "some day", &vec![]);
    let text = String::from_utf8(repo.read_object(&id).unwrap()).unwrap();
    assert_eq!(
        text,
        "tree e3b0c44298fc1c149afbf4c8996fb92427ae41e4649b934ca495991b7852b855\n\
         parent \nmessage m\ntimestamp some day"
    );
    assert_eq!(repo.find_commit(&id).unwrap().timestamp, at(0));
}

#[test]
fn record_commit_links_to_the_head() {
    let mut repo = Repository::new();
    repo.add("f");
    repo.record_commit("c1".to_string(), "one", at(1));
    repo.record_commit("c2".to_string(), "two", at(2));
    assert_eq!(repo.head(), "c2");
    assert!(repo.staged().is_empty());
    assert_eq!(repo.find_commit("c1").unwrap().parent, None);
    assert_eq!(repo.find_commit("c2").unwrap().parent, Some("c1".to_string()));
    assert_eq!(messages(&repo), vec!["two", "one"]);
}

#[test]
fn history_ends_when_it_comes_round() {
    let mut repo = Repository::new();
    repo.record_commit("c1".to_string(), "one", at(1));
    repo.record_commit("c2".to_string(), "two", at(2));
    repo.record_commit("c1".to_string(), "one again", at(3));
    assert_eq!(messages(&repo), vec!["one again", "two"]);
}

#[test]
fn commit_at_a_moment_without_text_is_refused() {
    let mut repo = Repository::new();
    repo.add("f");
    let never = Timestamp { secs: i64::MAX, nanos: 0 };
    assert_eq!(repo.commit_at("m", never, &vec![file("f", "v1")]), Err(RepoError::InvalidTimestamp));
    assert_eq!(repo.head(), "");
    assert_eq!(repo.staged().len(), 1);
    assert_eq!(repo.objects().len(), 0);
    assert!(repo.log().is_empty());
}

#[test]
fn commit_reads_the_clock() {
    let mut repo = Repository::new();
    repo.add("f");
    let id = repo.commit("now", &vec![file("f", "v1")]).unwrap();
    let commit = repo.find_commit(&id).unwrap();
    assert!(commit.timestamp.secs > 1_600_000_000);
    assert!(commit.timestamp.nanos < 2_000_000_000);
    let text = String::from_utf8(repo.read_object(&id).unwrap()).unwrap();
    let moment = commit.timestamp.to_rfc3339().unwrap();
    assert_eq!(
        text,
        format!("tree {}\nparent \nmessage now\ntimestamp {}", TREE1_ID, moment)
    );
    assert_eq!(messages(&repo), vec!["now"]);
}

#[test]
fn log_lists_the_commits_of_a_branch_newest_first() {
    let mut repo = Repository::new();
    let mut ids = Vec::new();
    for i in 0..5 {
        repo.add("f");
        let content = format!("v{}", i);
        let id = repo
            .commit_at(&format!("commit {}", i), at(1431648000 + i), &vec![file("f", &content)])
            .unwrap();
        ids.push(id);
    }
    let log = repo.log();
    assert_eq!(log.len(), 5);
    for k in 0..5 {
        assert_eq!(log[k].id, ids[4 - k]);
        assert_eq!(log[k].message, format!("commit {}", 4 - k));
        assert_eq!(log[k].timestamp, at(1431648000 + 4 - k as i64));
    }
    for k in 0..4 {
        assert_eq!(log[k].parent, Some(ids[3 - k].clone()));
    }
    assert_eq!(log[4].parent, None);
}

#[test]
fn branch_keeps_the_head_it_was_made_with() {
    let mut repo = Repository::new();
    repo.add("f");
    let first = repo.commit_at("first", at(1), &vec![file("f", "v1")]).unwrap();
    assert_eq!(repo.branch("feature"), Ok(()));
    assert_eq!(head_of(&repo, "feature"), first);
    repo.add("f");
    let second = repo.commit_at("second", at(2), &vec![file("f", "v2")]).unwrap();
    assert_eq!(head_of(&repo, "master"), second);
    assert_eq!(head_of(&repo, "feature"), first);
    assert_eq!(repo.branches().len(), 2);
}

#[test]
fn branch_of_an_existing_name_is_made_anew() {
    let mut repo = Repository::new();
    repo.branch("feature").unwrap();
    assert_eq!(head_of(&repo, "feature"), "");
    let first = repo.commit_at("first", at(1), &vec![]).unwrap();
    repo.branch("feature").unwrap();
    assert_eq!(head_of(&repo, "feature"), first);
    assert_eq!(repo.branches().len(), 2);
}

#[test]
fn checkout_of_a_missing_branch_is_not_found() {
    let mut repo = Repository::new();
    repo.branch("feature").unwrap();
    assert_eq!(repo.checkout("nothing"), Err(RepoError::NotFound));
    assert_eq!(repo.current_branch(), "master");
    assert_eq!(repo.checkout("feature"), Ok(()));
    assert_eq!(repo.current_branch(), "feature");
    assert_eq!(repo.checkout(""), Err(RepoError::NotFound));
    assert_eq!(repo.current_branch(), "feature");
}

#[test]
fn each_branch_has_its_own_history() {
    let mut repo = Repository::new();
    repo.commit_at("base", at(1), &vec![]).unwrap();
    repo.branch("feature").unwrap();
    repo.checkout("feature").unwrap();
    repo.commit_at("on feature", at(2), &vec![]).unwrap();
    assert_eq!(messages(&repo), vec!["on feature", "base"]);
    repo.checkout("master").unwrap();
    assert_eq!(messages(&repo), vec!["base"]);
    repo.commit_at("on master", at(3), &vec![]).unwrap();
    assert_eq!(messages(&repo), vec!["on master", "base"]);
}

#[test]
fn diff_of_unchanged_content_is_empty() {
    let mut repo = Repository::new();
    repo.add("notes.txt");
    repo.commit_at("first", at(1), &vec![file("notes.txt", "one\ntwo\n")]).unwrap();
    assert_eq!(repo.diff("notes.txt", "one\ntwo\n"), Ok("".to_string()));
}

#[test]
fn diff_reports_against_the_last_commit() {
    let mut repo = Repository::new();
    repo.add("work/notes.txt");
    repo.commit_at("first", at(1), &vec![file("work/notes.txt", "a\nb\nc")]).unwrap();
    assert_eq!(repo.diff("work/notes.txt", "a\nX\nc"), Ok("Line 2: \n- b\n+ X\n".to_string()));
    assert_eq!(repo.diff("elsewhere/notes.txt", "a\nb"), Ok("Line 3: \n- c\n".to_string()));
}

#[test]
fn diff_of_a_file_outside_the_last_commit_says_so() {
    let mut repo = Repository::new();
    repo.add("f");
    repo.commit_at("first", at(1), &vec![file("f", "v1")]).unwrap();
    assert_eq!(
        repo.diff("g", "v1"),
        Ok("File not found in the previous commit".to_string())
    );
    repo.commit_at("empty", at(2), &vec![]).unwrap();
    assert_eq!(
        repo.diff("f", "v1"),
        Ok("File not found in the previous commit".to_string())
    );
}

#[test]
fn diff_without_a_commit_is_not_found() {
    let repo = Repository::new();
    assert_eq!(repo.diff("f", "v1"), Err(RepoError::NotFound));
}

#[test]
fn diff_of_a_head_that_is_no_commit_is_corrupt() {
    let mut repo = Repository::new();
    let blob = repo.write_object(b"just bytes");
    repo.record_commit(blob, "odd", at(1));
    assert_eq!(repo.diff("f", "v1"), Err(RepoError::Corrupt));
}

#[test]
fn diff_of_a_head_whose_tree_is_missing_is_not_found() {
    let mut repo = Repository::new();
    let odd = repo.write_object(b"tree 0123\nparent \nmessage m\ntimestamp t");
    repo.record_commit(odd, "odd", at(1));
    assert_eq!(repo.diff("f", "v1"), Err(RepoError::NotFound));
}

#[test]
fn diff_of_a_tree_whose_blob_is_missing_is_not_found() {
    let mut repo = Repository::new();
    let tree = repo.write_object(b"blob 0123 f\n");
    let text = format!("tree {}\nparent \nmessage m\ntimestamp t", tree);
    let odd = repo.write_object(text.as_bytes());
    repo.record_commit(odd, "odd", at(1));
    assert_eq!(repo.diff("f", "v1"), Err(RepoError::NotFound));
    assert_eq!(
        repo.diff("g", "v1"),
        Ok("File not found in the previous commit".to_string())
    );
}

#[test]
fn files_of_one_name_are_told_by_the_first_line() {
    let mut repo = Repository::new();
    repo.add("a/f");
    repo.add("b/f");
    repo.commit_at("both", at(1), &vec![file("a/f", "from a"), file("b/f", "from b")]).unwrap();
    assert_eq!(repo.diff("a/f", "from a"), Ok("".to_string()));
    assert_eq!(repo.diff("b/f", "from a"), Ok("".to_string()));
    assert_eq!(repo.diff("b/f", "from b"), Ok("Line 1: \n- from a\n+ from b\n".to_string()));
}

#[test]
fn file_names_may_hold_spaces() {
    let mut repo = Repository::new();
    repo.add("my notes.txt");
    repo.commit_at("first", at(1), &vec![file("my notes.txt", "v1")]).unwrap();
    assert_eq!(repo.diff("my notes.txt", "v1"), Ok("".to_string()));
    assert_eq!(
        repo.diff("my", "v1"),
        Ok("File not found in the previous commit".to_string())
    );
}

#[test]
fn content_that_is_not_text_is_read_with_replacement_characters() {
    let mut repo = Repository::new();
    repo.add("f");
    let odd = WorkingFile { path: "f".to_string(), content: vec![b'a', 0xff, b'\n', b'b'] };
    repo.commit_at("first", at(1), &vec![odd]).unwrap();
    assert_eq!(repo.diff("f", "a\u{fffd}\nb"), Ok("".to_string()));
    assert_eq!(
        repo.diff("f", "a\nb"),
        Ok("Line 1: \n- a\u{fffd}\n+ a\n".to_string())
    );
}

#[test]
fn content_is_taken_as_it_is_when_the_commit_is_made() {
    let mut repo = Repository::new();
    repo.add("f");
    repo.commit_at("first", at(1), &vec![file("f", "later content")]).unwrap();
    assert_eq!(repo.diff("f", "later content"), Ok("".to_string()));
}

#[test]
fn two_commits_from_start_to_end() {
    let mut repo = Repository::new();
    repo.add("f");
    let first = repo.commit_at("first", at(1431648000), &vec![file("f", "v1")]).unwrap();
    repo.add("f");
    let second = repo.commit_at("second", at(1431648060), &vec![file("f", "v2")]).unwrap();
    assert_eq!(messages(&repo), vec!["second", "first"]);
    assert_eq!(repo.diff("f", "v2"), Ok("".to_string()));
    assert_eq!(repo.diff("f", "v1"), Ok("Line 1: \n- v2\n+ v1\n".to_string()));
    let shown = repo.find_commit(&first).unwrap();
    assert_eq!(shown.message, "first");
    assert_eq!(shown.parent, None);
    assert_eq!(repo.find_commit(&second).unwrap().parent, Some(first));
}

#[test]
fn commits_by_the_clock_follow_one_another() {
    let mut repo = Repository::new();
    repo.add("f");
    let first = repo.commit("first", &vec![file("f", "v1")]).unwrap();
    repo.add("f");
    let second = repo.commit("second", &vec![file("f", "v2")]).unwrap();
    assert_ne!(first, second);
    let log = repo.log();
    assert_eq!(log.len(), 2);
    assert_eq!(log[0].id, second);
    assert_eq!(log[0].message, "second");
    assert_eq!(log[0].parent, Some(first.clone()));
    assert_eq!(log[1].id, first);
    assert_eq!(log[1].parent, None);
    assert!(log[0].timestamp.to_rfc3339().is_some());
    assert!(log[1].timestamp.to_rfc3339().is_some());
}

#[test]
fn same_commit_on_two_branches_is_one_commit() {
    let mut repo = Repository::new();
    repo.commit_at("base", at(1), &vec![]).unwrap();
    repo.branch("feature").unwrap();
    let on_master = repo.commit_at("same", at(2), &vec![]).unwrap();
    repo.checkout("feature").unwrap();
    let on_feature = repo.commit_at("same", at(2), &vec![]).unwrap();
    assert_eq!(on_master, on_feature);
    assert_eq!(messages(&repo), vec!["same", "base"]);
    assert_eq!(head_of(&repo, "master"), head_of(&repo, "feature"));
}

#[test]
fn repository_can_be_copied() {
    let mut repo = Repository::new();
    repo.add("f");
    let copy = repo.clone();
    repo.commit_at("first", at(1), &vec![file("f", "v1")]).unwrap();
    assert_eq!(copy.head(), "");
    assert_eq!(copy.staged().len(), 1);
    assert_eq!(copy.objects().len(), 0);
    assert_eq!(messages(&repo), vec!["first"]);
}
