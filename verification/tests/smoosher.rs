use smoosher::errors::StackError;
use smoosher::frame::Frame;
use smoosher::stk_env::Smoosher;

fn root(pairs: &[(&str, u64)]) -> Smoosher {
    let mut f = Frame::new();
    for (k, v) in pairs {
        f.set(k, *v);
    }
    Smoosher::new(f)
}

#[test]
fn set_then_get_returns_value() {
    let mut st = root(&[]);
    st.set("a", 3);
    assert_eq!(st.get("a"), Some(3));
    st.set("a", 4);
    assert_eq!(st.get("a"), Some(4));
    st.set("b", 0);
    assert_eq!(st.get("b"), Some(0));
    assert_eq!(st.get("a"), Some(4));
    assert_eq!(st.get("missing"), None);
}

#[test]
fn shadowing_and_smoosh_keep_lookup() {
    let mut st = root(&[("k", 0)]);
    st.new_scope();
    st.set("k", 1);
    assert_eq!(st.get("k"), Some(1));
    assert_eq!(st.num_scopes(), 2);
    st.smoosh(0, 1);
    assert_eq!(st.get("k"), Some(1));
    assert_eq!(st.num_scopes(), 1);
}

#[test]
fn fork_isolation() {
    let mut st = root(&[("r", 0)]);
    let mut a = st.fork();
    let b = st.fork();
    a.set("r", 5);
    assert_eq!(a.get("r"), Some(5));
    assert_eq!(b.get("r"), Some(0));
    assert_eq!(st.get("r"), Some(0));
}

#[test]
fn merge_disjoint_writes() {
    let mut st = root(&[("r", 0)]);
    let mut a = st.fork();
    let mut b = st.fork();
    a.set("r", 5);
    b.set("flag", 1);
    let merged = a.merge(b).unwrap();
    assert_eq!(merged.get("r"), Some(5));
    assert_eq!(merged.get("flag"), Some(1));
}

#[test]
fn merge_conflicting_writes() {
    let mut st = root(&[("r", 0)]);
    let mut a = st.fork();
    let mut b = st.fork();
    a.set("r", 5);
    b.set("r", 7);
    match a.merge(b) {
        Err(StackError::MergeConflict(key)) => assert_eq!(key, "r"),
        other => panic!("expected a merge conflict, got {:?}", other.map(|m| m.num_scopes())),
    }
}

#[test]
fn merge_same_value_is_not_a_conflict() {
    let mut st = root(&[("r", 0)]);
    let mut a = st.fork();
    let mut b = st.fork();
    a.set("r", 5);
    b.set("r", 5);
    let merged = a.merge(b).unwrap();
    assert_eq!(merged.get("r"), Some(5));
}

#[test]
fn merge_order_does_not_matter() {
    let mut st = root(&[("r", 0), ("q", 9)]);
    let mut a = st.fork();
    let mut b = st.fork();
    a.set("x", 1);
    b.set("y", 2);
    let mut a2 = st.fork();
    let mut b2 = st.fork();
    a2.set("x", 1);
    b2.set("y", 2);
    let ab = a.merge(b).unwrap();
    let ba = b2.merge(a2).unwrap();
    for k in ["r", "q", "x", "y", "z"] {
        assert_eq!(ab.get(k), ba.get(k));
    }
    assert_eq!(ab.num_scopes(), ba.num_scopes());
}

#[test]
fn merge_unrelated_stacks_is_incompatible() {
    let a = root(&[("r", 0)]);
    let b = root(&[("s", 1)]);
    match a.merge(b) {
        Err(StackError::IncompatibleFork) => {}
        other => panic!("expected an incompatible fork, got {:?}", other.map(|m| m.num_scopes())),
    }
}

#[test]
fn merge_after_branch_work() {
    // A driver-like run: each branch pushes a scope, works, folds it back.
    let mut st = root(&[("state", 0)]);
    let mut a = st.fork();
    let mut b = st.fork();
    a.new_scope();
    a.set("left", 10);
    a.smoosh(0, 1);
    b.new_scope();
    b.set("right", 20);
    b.smoosh(0, 1);
    let merged = a.merge(b).unwrap();
    assert_eq!(merged.get("state"), Some(0));
    assert_eq!(merged.get("left"), Some(10));
    assert_eq!(merged.get("right"), Some(20));
}

#[test]
fn smoosh_same_index_is_noop() {
    let mut st = root(&[("k", 0)]);
    st.new_scope();
    st.set("k", 1);
    st.set("m", 2);
    st.new_scope();
    st.set("n", 3);
    let scopes = st.num_scopes();
    let bindings = st.num_bindings();
    let k = st.get("k");
    let m = st.get("m");
    let n = st.get("n");
    st.smoosh(1, 1);
    assert_eq!(st.num_scopes(), scopes);
    assert_eq!(st.num_bindings(), bindings);
    assert_eq!(st.get("k"), k);
    assert_eq!(st.get("m"), m);
    assert_eq!(st.get("n"), n);
}

#[test]
fn smoosh_folds_range_shallower_wins() {
    let mut st = root(&[("a", 1)]);
    st.new_scope();
    st.set("b", 2);
    st.new_scope();
    st.set("b", 3);
    st.new_scope();
    st.set("c", 4);
    assert_eq!(st.num_scopes(), 4);
    st.smoosh(0, 2);
    assert_eq!(st.num_scopes(), 2);
    assert_eq!(st.get("a"), Some(1));
    assert_eq!(st.get("b"), Some(3));
    assert_eq!(st.get("c"), Some(4));
}

#[test]
fn num_bindings_counts_distinct_keys() {
    let mut st = root(&[("k", 0), ("m", 1)]);
    assert_eq!(st.num_bindings(), 2);
    st.new_scope();
    st.set("k", 9);
    st.set("n", 5);
    assert_eq!(st.num_bindings(), 3);
}

#[test]
fn diff_empty_after_no_writes() {
    let mut st = root(&[("x", 1)]);
    st.new_scope();
    let d = st.diff(0, 1);
    assert_eq!(d.len(), 0);
}

#[test]
fn diff_reports_exactly_the_writes() {
    let mut st = root(&[("a", 7)]);
    st.new_scope();
    st.set("x", 9);
    let d = st.diff(0, 1);
    assert_eq!(d.len(), 1);
    assert_eq!(d.get("x"), Some(9));
    assert_eq!(d.get("a"), None);
}

#[test]
fn diff_skips_rewrites_of_the_same_value() {
    let mut st = root(&[("a", 7)]);
    st.new_scope();
    st.set("a", 7);
    st.set("b", 8);
    let d = st.diff(0, 1);
    assert_eq!(d.get("a"), None);
    assert_eq!(d.get("b"), Some(8));
    assert_eq!(d.len(), 1);
}

#[test]
fn list_bound_vars_clamps_bottom_index() {
    let mut st = root(&[("a", 1)]);
    st.new_scope();
    st.set("b", 2);
    let n = st.num_scopes();
    let mut with_exact: Vec<String> = st.list_bound_vars(0, n);
    let mut with_huge: Vec<String> = st.list_bound_vars(0, usize::MAX);
    with_exact.sort();
    with_huge.sort();
    assert_eq!(with_exact, with_huge);
    assert_eq!(with_exact, vec!["a".to_string(), "b".to_string()]);
}

#[test]
fn list_bound_vars_respects_range() {
    let mut st = root(&[("a", 1)]);
    st.new_scope();
    st.set("b", 2);
    let top_only = st.list_bound_vars(0, 1);
    assert_eq!(top_only, vec!["b".to_string()]);
    let root_only = st.list_bound_vars(1, 2);
    assert_eq!(root_only, vec!["a".to_string()]);
    let empty = st.list_bound_vars(1, 1);
    assert!(empty.is_empty());
}

#[test]
fn top_sees_only_the_innermost_scope() {
    let mut st = root(&[("a", 1)]);
    st.new_scope();
    st.set("b", 2);
    let top = st.top();
    assert_eq!(top.get("b"), Some(2));
    assert_eq!(top.get("a"), None);
}

#[test]
fn new_stack_has_one_scope() {
    let st = root(&[("a", 1), ("b", 2)]);
    assert_eq!(st.num_scopes(), 1);
    assert_eq!(st.num_bindings(), 2);
}

#[test]
fn three_branches_merge_pairwise() {
    let mut st = root(&[("base", 0)]);
    let mut a = st.fork();
    let mut b = st.fork();
    let mut c = st.fork();
    a.set("a", 1);
    b.set("b", 2);
    c.set("c", 3);
    let ab = a.merge(b).unwrap();
    let abc = ab.merge(c).unwrap();
    assert_eq!(abc.get("base"), Some(0));
    assert_eq!(abc.get("a"), Some(1));
    assert_eq!(abc.get("b"), Some(2));
    assert_eq!(abc.get("c"), Some(3));
}

#[test]
fn smoosh_everything_into_the_root() {
    let mut st = root(&[("a", 1)]);
    st.new_scope();
    st.set("a", 2);
    st.new_scope();
    st.set("b", 3);
    st.smoosh(0, 2);
    assert_eq!(st.num_scopes(), 1);
    assert_eq!(st.get("a"), Some(2));
    assert_eq!(st.get("b"), Some(3));
    assert_eq!(st.num_bindings(), 2);
}

#[test]
fn merge_detects_race_hidden_behind_equal_frames() {
    // Fork A rebinds k twice across its own scopes; fork B writes the value
    // A's inner scope happens to hold.  The race on k must still surface.
    let mut st = root(&[("base", 0)]);
    let mut a = st.fork();
    let mut b = st.fork();
    a.set("k", 7);
    a.new_scope();
    a.set("k", 5);
    b.set("k", 7);
    match a.merge(b) {
        Err(StackError::MergeConflict(key)) => assert_eq!(key, "k"),
        other => panic!("expected a merge conflict, got {:?}", other.map(|m| m.num_scopes())),
    }
}

#[test]
fn merge_of_lookalike_lineages_is_incompatible() {
    // Two stacks with equal bindings but separate histories share no scope.
    let mut s1 = root(&[("r", 0)]);
    let mut s2 = root(&[("r", 0)]);
    let a = s1.fork();
    let b = s2.fork();
    match a.merge(b) {
        Err(StackError::IncompatibleFork) => {}
        other => panic!("expected an incompatible fork, got {:?}", other.map(|m| m.num_scopes())),
    }
}

#[test]
fn conflict_is_reported_in_every_merge_order() {
    // Branches a and c race on k; b is disjoint.  Whichever pair merges
    // first, the conflict surfaces before the join completes.
    let run = |first_pair_is_ac: bool| -> Result<(), String> {
        let mut st = root(&[("base", 0)]);
        let mut a = st.fork();
        let mut b = st.fork();
        let mut c = st.fork();
        a.set("k", 1);
        b.set("other", 2);
        c.set("k", 3);
        if first_pair_is_ac {
            match a.merge(c) {
                Err(StackError::MergeConflict(key)) => Err(key),
                Ok(m) => m.merge(b).map(|_| ()).map_err(|_| "late".to_string()),
                Err(_) => panic!("unexpected incompatible fork"),
            }
        } else {
            match a.merge(b) {
                Ok(ab) => match ab.merge(c) {
                    Err(StackError::MergeConflict(key)) => Err(key),
                    Ok(_) => Ok(()),
                    Err(_) => panic!("unexpected incompatible fork"),
                },
                Err(_) => panic!("first merge should succeed"),
            }
        }
    };
    assert_eq!(run(true), Err("k".to_string()));
    assert_eq!(run(false), Err("k".to_string()));
}

#[test]
fn list_bound_vars_clamps_top_index() {
    let mut st = root(&[("a", 1)]);
    st.new_scope();
    st.set("b", 2);
    let past_the_end = st.list_bound_vars(usize::MAX, usize::MAX);
    assert!(past_the_end.is_empty());
    let clamped_inverted = st.list_bound_vars(7, 9);
    assert!(clamped_inverted.is_empty());
}
