use mygit::MyGitError;
use mygit::commit_tree;
use mygit::hash;

const TREE: &str = "4b825dc642cb6eb9a060e54bf8d69288fbee4904";
const PARENT: &str = "3b18e512dba79e4c8300dd08aeb37f8e728b8dad";

#[test]
fn commit_record_names_tree_and_parent() {
    let rec = commit_tree(TREE, PARENT, "first commit").unwrap();
    let text = String::from_utf8(rec.data.clone()).unwrap();
    let payload = format!(
        "tree {}\nparent {}\nauthor John Doe <john@doe.com> 1710605448 +0100\ncommitter John Doe <john@doe.com> 1710605448 +0100\n\nfirst commit\n",
        TREE, PARENT
    );
    assert_eq!(text, format!("commit {}\0{}", payload.len(), payload));
    assert_eq!(rec.id, hash(&rec.data));
}

#[test]
fn malformed_tree_id_is_invalid_hash() {
    assert_eq!(
        commit_tree("abc", PARENT, "msg").unwrap_err(),
        MyGitError::InvalidHash
    );
}

#[test]
fn malformed_parent_id_is_invalid_hash() {
    assert_eq!(
        commit_tree(TREE, "nope", "msg").unwrap_err(),
        MyGitError::InvalidHash
    );
}
