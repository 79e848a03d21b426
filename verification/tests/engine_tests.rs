use gitloggraph::engine::{includes_excludes, Engine};
use gitloggraph::record::parse_record;

fn b(s: &str) -> Vec<u8> {
    s.as_bytes().to_vec()
}

fn lines(ls: &[&str]) -> Vec<Vec<u8>> {
    ls.iter().map(|l| b(l)).collect()
}

#[test]
fn single_base_equals_single_tip() {
    // B = {H}, F = {H}: the stream is empty; H is visible by seeding but
    // never appears in the stream to be classified into includes.
    let (inc, exc) = includes_excludes(vec![b("H")], &lines(&[])).unwrap();
    assert!(inc.is_empty());
    assert!(exc.is_empty());
}

#[test]
fn diamond_fully_visible() {
    let (inc, exc) = includes_excludes(
        vec![b("B")],
        &lines(&["P1 B", "P2 B", "T P1 P2"]),
    )
    .unwrap();
    assert_eq!(inc, vec![b("T")]);
    assert!(exc.is_empty());
}

#[test]
fn dead_branch_pruning() {
    // R is classified invisible and then forgotten when Q, also invisible,
    // references it; only Q remains as the excluded boundary.
    let (inc, exc) = includes_excludes(
        vec![b("Base")],
        &lines(&["R", "Q R", "P Base", "T P Q"]),
    )
    .unwrap();
    assert_eq!(inc, vec![b("T")]);
    assert_eq!(exc, vec![b("Q")]);
}

#[test]
fn empty_frontier() {
    let (inc, exc) = includes_excludes(vec![b("B1"), b("B2")], &lines(&[])).unwrap();
    assert!(inc.is_empty());
    assert!(exc.is_empty());
}

#[test]
fn octopus_independent_bases() {
    let (inc, exc) = includes_excludes(
        vec![b("B1"), b("B2")],
        &lines(&["C1 B1", "C2 B2", "T C1 C2"]),
    )
    .unwrap();
    assert_eq!(inc, vec![b("T")]);
    assert!(exc.is_empty());
}

#[test]
fn unknown_parent_contributes_nothing() {
    // A parent never streamed and not a base is treated as non-visible,
    // not as an error.
    let (inc, exc) = includes_excludes(vec![b("B")], &lines(&["A stranger"])).unwrap();
    assert!(inc.is_empty());
    assert_eq!(exc, vec![b("A")]);
}

#[test]
fn malformed_record_is_fatal() {
    assert!(includes_excludes(vec![b("B")], &lines(&["A B", ""])).is_err());
    assert!(includes_excludes(vec![b("B")], &lines(&[" A"])).is_err());
}

#[test]
fn determinism_under_base_order() {
    let ls = lines(&["C1 B1", "C2 B2", "T C1 C2"]);
    let (i1, e1) = includes_excludes(vec![b("B1"), b("B2")], &ls).unwrap();
    let (i2, e2) = includes_excludes(vec![b("B2"), b("B1")], &ls).unwrap();
    assert_eq!(i1, i2);
    assert_eq!(e1, e2);
}

#[test]
fn engine_stepwise_matches_whole_run() {
    let mut eng = Engine::new(vec![b("B")]);
    for l in ["P1 B", "P2 B", "T P1 P2"] {
        let rec = parse_record(l.as_bytes()).unwrap();
        eng.process(rec);
    }
    let (inc, exc) = eng.finish();
    assert_eq!(inc, vec![b("T")]);
    assert!(exc.is_empty());
}

#[test]
fn pruned_slots_are_reused() {
    // The dead branch R is forgotten when Q references it, and Q reuses
    // R's slot: the arena stays at the peak concurrent width (four), not at
    // the number of commits ever tracked (five).
    let mut eng = Engine::new(vec![b("Base")]);
    for l in ["R", "Q R", "P Base", "T P Q"] {
        eng.process(parse_record(l.as_bytes()).unwrap());
    }
    assert_eq!(eng.width(), 4);
    assert_eq!(eng.slots_allocated(), 4);
}

#[test]
fn interior_commits_are_omitted() {
    // A chain: base B, then M, then T.  M is interior and appears in
    // neither list.
    let (inc, exc) = includes_excludes(vec![b("B")], &lines(&["M B", "T M"])).unwrap();
    assert_eq!(inc, vec![b("T")]);
    assert!(exc.is_empty());
}
