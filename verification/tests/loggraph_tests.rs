use gitloggraph::loggraph::{gitloggraph, CommitNode};

#[test]
fn empty() {
    let out = gitloggraph(Vec::<CommitNode<&'static str>>::new());
    assert!(out.includes.is_empty());
    assert!(out.excludes.is_empty());
}

#[test]
fn one() {
    let a = CommitNode { id: "A", parents: vec![], interesting: false };
    let b = CommitNode { id: "B", parents: vec![0], interesting: true };
    let out = gitloggraph(vec![a, b]);
    assert_eq!(out.includes, vec!["B"]);
    assert_eq!(out.excludes, vec!["A"]);
}

#[test]
fn two_tips_one_dominating() {
    // M is interesting and also an ancestor of tip T: only T is included.
    let m = CommitNode { id: "M", parents: vec![], interesting: true };
    let t = CommitNode { id: "T", parents: vec![0], interesting: true };
    let out = gitloggraph(vec![m, t]);
    assert_eq!(out.includes, vec!["T"]);
    assert!(out.excludes.is_empty());
}

#[test]
fn merge_base_cutoff() {
    // Two tips meeting at a merge base M with an older parent O: O is the
    // invisible parent of the visible merge base, so O is excluded.
    let o = CommitNode { id: "O", parents: vec![], interesting: false };
    let m = CommitNode { id: "M", parents: vec![0], interesting: false };
    let t1 = CommitNode { id: "T1", parents: vec![1], interesting: true };
    let t2 = CommitNode { id: "T2", parents: vec![1], interesting: true };
    let out = gitloggraph(vec![o, m, t1, t2]);
    assert_eq!(out.includes, vec!["T1", "T2"]);
    assert_eq!(out.excludes, vec!["O"]);
}
