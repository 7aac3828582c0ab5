use folder_tree::{Folder, NavError};

/// R contains x (which contains y) and z.
fn sample() -> (Folder, usize, usize, usize) {
    let mut t = Folder::new("R");
    let x = t.add_child(0, "x");
    let y = t.add_child(x, "y");
    let z = t.add_child(0, "z");
    (t, x, y, z)
}

#[test]
fn new_folder_is_a_lone_root() {
    let t = Folder::new("R");
    assert_eq!(t.len(), 1);
    assert_eq!(t.name(0).as_str(), "R");
    assert_eq!(t.parent(0), None);
    assert!(t.children(0).is_empty());
}

#[test]
fn dot_stays_everywhere() {
    let (t, x, y, z) = sample();
    for n in [0, x, y, z] {
        assert_eq!(t.navigate(n, "."), Ok(n));
    }
}

#[test]
fn up_from_root_has_no_parent() {
    let (t, _, _, _) = sample();
    assert_eq!(t.navigate(0, ".."), Err(NavError::NoParent("R".to_string())));
}

#[test]
fn up_goes_to_parent() {
    let (t, x, y, z) = sample();
    assert_eq!(t.navigate(x, ".."), Ok(0));
    assert_eq!(t.navigate(y, ".."), Ok(x));
    assert_eq!(t.navigate(z, ".."), Ok(0));
}

#[test]
fn down_then_up_returns() {
    let (t, x, _, _) = sample();
    for (n, a) in [(0, "x"), (0, "z"), (x, "y")] {
        let c = t.navigate(n, a).unwrap();
        assert_eq!(t.name(c).as_str(), a);
        assert_eq!(t.navigate(c, ".."), Ok(n));
    }
}

#[test]
fn end_to_end_paths() {
    let (t, x, y, _) = sample();
    let got = t.navigate(0, "x/y").unwrap();
    assert_eq!(got, y);
    assert_eq!(t.name(got).as_str(), "y");
    assert_eq!(t.navigate(0, "x/y/.."), Ok(x));
    assert_eq!(
        t.navigate(0, "q"),
        Err(NavError::NoSuchChild("R".to_string(), "q".to_string()))
    );
}

#[test]
fn empty_expression_keeps_start() {
    let (t, x, _, _) = sample();
    assert_eq!(t.navigate(x, ""), Ok(x));
    assert_eq!(t.navigate(0, "x/"), Ok(x));
}

#[test]
fn failure_stops_at_first_bad_component() {
    let (t, _, _, _) = sample();
    assert_eq!(
        t.navigate(0, "x/q/y"),
        Err(NavError::NoSuchChild("x".to_string(), "q".to_string()))
    );
    assert_eq!(
        t.navigate(0, "x//y"),
        Err(NavError::NoSuchChild("x".to_string(), "".to_string()))
    );
    assert_eq!(t.navigate(0, "x/y/../../.."), Err(NavError::NoParent("R".to_string())));
}

#[test]
fn child_names_are_case_sensitive_and_first_match_wins() {
    let mut t = Folder::new("R");
    let a1 = t.add_child(0, "a");
    let _a2 = t.add_child(0, "a");
    assert_eq!(t.navigate(0, "a"), Ok(a1));
    assert_eq!(
        t.navigate(0, "A"),
        Err(NavError::NoSuchChild("R".to_string(), "A".to_string()))
    );
}

#[test]
fn nav_logic_single_steps() {
    let (t, x, _, _) = sample();
    assert_eq!(t.nav_logic(".", x), Ok(x));
    assert_eq!(t.nav_logic("..", x), Ok(0));
    assert_eq!(t.nav_logic("x", 0), Ok(x));
}

#[test]
fn error_descriptions() {
    assert_eq!(
        NavError::NoParent("R".to_string()).describe(),
        "the folder named R doesn't have a parent"
    );
    assert_eq!(
        NavError::NoSuchChild("R".to_string(), "q".to_string()).describe(),
        "the folder named R doesn't have a child named q"
    );
}
