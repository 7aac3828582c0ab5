use folder_tree::{Budget, Folder};

fn names_under(t: &Folder, at: usize) -> Vec<String> {
    let mut v: Vec<String> = t.children(at).iter().map(|c| t.name(*c).clone()).collect();
    v.sort();
    v
}

#[test]
fn attach_grafts_whole_subtree() {
    let mut t = Folder::new("R");
    let a = t.add_child(0, "a");
    let mut sub = Folder::new("s");
    let s1 = sub.add_child(0, "s1");
    sub.add_child(s1, "s2");
    let r = t.attach(a, sub);
    assert_eq!(r, 2);
    assert_eq!(t.len(), 5);
    assert_eq!(t.parent(r), Some(a));
    assert_eq!(t.children(a), &vec![r]);
    assert_eq!(t.children(r), &vec![3]);
    assert_eq!(t.children(3), &vec![4]);
    assert_eq!(t.parent(4), Some(3));
    assert_eq!(t.get_path_rec(4), "path: R/a/s/s1/s2");
}

#[test]
fn failed_entry_is_left_out() {
    let mut t = Folder::new("R");
    assert_eq!(t.adopt(0, None), None);
    assert_eq!(t.len(), 1);
    assert!(t.children(0).is_empty());
    assert_eq!(t.adopt(0, Some(Folder::new("a"))), Some(1));
    assert_eq!(t.len(), 2);
    assert_eq!(t.children(0), &vec![1]);
}

#[test]
fn node_count_sums_subtrees() {
    let mut t = Folder::new("R");
    for k in 0..3 {
        let mut sub = Folder::new("d");
        for _ in 0..k {
            sub.add_child(0, "f");
        }
        t.adopt(0, Some(sub));
    }
    t.adopt(0, None);
    assert_eq!(t.len(), 1 + 1 + 2 + 3);
    assert_eq!(t.children(0).len(), 3);
}

#[test]
fn sibling_order_does_not_change_child_set() {
    let mut one = Folder::new("R");
    for n in ["a", "b", "c"] {
        one.attach(0, Folder::new(n));
    }
    let mut two = Folder::new("R");
    for n in ["c", "a", "b"] {
        two.attach(0, Folder::new(n));
    }
    assert_eq!(names_under(&one, 0), vec!["a", "b", "c"]);
    assert_eq!(names_under(&one, 0), names_under(&two, 0));
    assert_eq!(one.len(), two.len());
}

#[test]
fn zero_budget_never_starts_a_worker() {
    let mut b = Budget::new(0);
    assert!(!b.try_acquire());
    assert_eq!(b.in_use(), 0);
}

#[test]
fn budget_caps_live_workers() {
    let mut b = Budget::new(2);
    assert!(b.try_acquire());
    assert!(b.try_acquire());
    assert!(!b.try_acquire());
    assert_eq!(b.in_use(), 2);
    b.release();
    assert_eq!(b.in_use(), 1);
    assert!(b.try_acquire());
    assert!(!b.try_acquire());
    b.release();
    b.release();
    assert_eq!(b.in_use(), 0);
}

#[test]
fn assemble_counts_built_entries_only() {
    let mut a = Folder::new("a");
    a.add_child(0, "inner");
    let outs = vec![Some(a), None, Some(Folder::new("b")), None];
    let t = Folder::assemble("R", outs);
    assert_eq!(t.name(0).as_str(), "R");
    assert_eq!(t.parent(0), None);
    assert_eq!(t.len(), 1 + 2 + 1);
    let kids: Vec<String> = t.children(0).iter().map(|c| t.name(*c).clone()).collect();
    assert_eq!(kids, vec!["a", "b"]);
    assert_eq!(t.navigate(0, "a/inner/../.."), Ok(0));
}

#[test]
fn assemble_with_no_entries_is_a_lone_node() {
    let t = Folder::assemble("leaf", Vec::new());
    assert_eq!(t.len(), 1);
    assert!(t.children(0).is_empty());
}

#[test]
fn assemble_in_any_order_gives_same_child_set() {
    let one = Folder::assemble(
        "R",
        vec![Some(Folder::new("a")), Some(Folder::new("b")), Some(Folder::new("c"))],
    );
    let two = Folder::assemble(
        "R",
        vec![Some(Folder::new("b")), Some(Folder::new("c")), Some(Folder::new("a"))],
    );
    assert_eq!(names_under(&one, 0), vec!["a", "b", "c"]);
    assert_eq!(names_under(&one, 0), names_under(&two, 0));
    assert_eq!(one.len(), two.len());
}
