use folder_tree::Folder;

/// R contains x (which contains y, which contains w) and z.
fn deep() -> Folder {
    let mut t = Folder::new("R");
    let x = t.add_child(0, "x");
    let y = t.add_child(x, "y");
    t.add_child(y, "w");
    t.add_child(0, "z");
    t
}

#[test]
fn full_path_walks_up_to_root() {
    let t = deep();
    assert_eq!(t.get_path_rec(0), "path: R");
    assert_eq!(t.get_path_rec(1), "path: R/x");
    assert_eq!(t.get_path_rec(3), "path: R/x/y/w");
}

#[test]
fn tree_uses_branch_glyphs() {
    let t = deep();
    assert_eq!(
        t.print_tree(0, None),
        vec!["R", "├──x", "│  └──y", "│     └──w", "└──z"]
    );
}

#[test]
fn depth_limit_cuts_deeper_levels() {
    let t = deep();
    assert_eq!(t.print_tree(0, Some(1)), vec!["R", "├──x", "└──z"]);
    assert_eq!(t.print_tree(0, Some(0)), vec!["R"]);
    assert_eq!(t.print_tree(0, Some(2)), vec!["R", "├──x", "│  └──y", "└──z"]);
}

#[test]
fn subtree_render_starts_at_node() {
    let t = deep();
    assert_eq!(t.print_tree(1, None), vec!["x", "└──y", "   └──w"]);
}

#[test]
fn summary_has_path_blank_and_tree() {
    let t = deep();
    assert_eq!(
        t.summarize(1, Some(1)),
        vec!["path: R/x", "", "x", "└──y"]
    );
}
