use gitloggraph::branches::{classify_ref, interesting_branches, RefName};

fn b(s: &str) -> Vec<u8> {
    s.as_bytes().to_vec()
}

#[test]
fn classifies_local_refs() {
    match classify_ref(&b("refs/heads/main")) {
        RefName::Local(name) => assert_eq!(name, b("main")),
        _ => panic!("expected a local ref"),
    }
}

#[test]
fn classifies_remote_refs() {
    match classify_ref(&b("refs/remotes/origin/main")) {
        RefName::Remote(rest) => assert_eq!(rest, b("origin/main")),
        _ => panic!("expected a remote ref"),
    }
}

#[test]
fn classifies_other_refs() {
    assert!(matches!(classify_ref(&b("refs/tags/v1")), RefName::Other));
    assert!(matches!(classify_ref(&b("HEAD")), RefName::Other));
    assert!(matches!(classify_ref(&b("refs/heads")), RefName::Other));
}

#[test]
fn remotes_matching_a_local_name_are_interesting() {
    let locals = vec![b("main"), b("dev")];
    let remotes = vec![b("origin/main"), b("origin/feature"), b("upstream/dev")];
    let out = interesting_branches(locals, remotes);
    assert_eq!(
        out,
        vec![b("origin/main"), b("upstream/dev"), b("main"), b("dev")]
    );
}

#[test]
fn remote_without_slash_is_never_interesting() {
    let locals = vec![b("odd")];
    let remotes = vec![b("odd")];
    let out = interesting_branches(locals, remotes);
    assert_eq!(out, vec![b("odd")]);
}
