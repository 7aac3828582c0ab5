use vstd::prelude::*;
use crate::folder::Folder;
use crate::text::{components, lemma_single_component, same_text, split_path};

verus! {

/// Why a navigation step failed, as plain text values.
pub enum NavFailure {
    /// `..` was asked of the node with this name, which has no parent.
    NoParent(Seq<char>),
    /// The node with the first name has no child with the second name.
    NoSuchChild(Seq<char>, Seq<char>),
}

/// Why a navigation failed.
#[derive(Debug, PartialEq, Eq)]
pub enum NavError {
    /// `..` was asked of the node with this name, which has no parent.
    NoParent(String),
    /// The node with the first name has no child with the second name.
    NoSuchChild(String, String),
}

impl View for NavError {
    type V = NavFailure;

    open spec fn view(&self) -> NavFailure {
        match self {
            NavError::NoParent(n) => NavFailure::NoParent(n@),
            NavError::NoSuchChild(n, c) => NavFailure::NoSuchChild(n@, c@),
        }
    }
}

/// The outcome of a navigation, with the error taken to its view.
pub open spec fn nav_view(r: Result<usize, NavError>) -> Result<usize, NavFailure> {
    match r {
        Ok(i) => Ok(i),
        Err(e) => Err(e@),
    }
}

impl NavError {
    /// A sentence that tells the user what went wrong.
    pub fn describe(&self) -> (r: String)
        ensures
            r@ == match self@ {
                NavFailure::NoParent(n) => "the folder named "@ + n + " doesn't have a parent"@,
                NavFailure::NoSuchChild(n, c) => "the folder named "@ + n + " doesn't have a child named "@
                    + c,
            },
    {
        let mut r = String::from_str("the folder named ");
        match self {
            NavError::NoParent(n) => {
                r.append(n.as_str());
                r.append(" doesn't have a parent");
            },
            NavError::NoSuchChild(n, c) => {
                r.append(n.as_str());
                r.append(" doesn't have a child named ");
                r.append(c.as_str());
            },
        }
        r
    }
}

impl Folder {
    /// The first of `kids` whose name is `c`, if any.
    pub open spec fn first_named(&self, kids: Seq<usize>, c: Seq<char>) -> Option<usize>
        decreases kids.len(),
    {
        if kids.len() == 0 {
            None
        } else if self.name_of(kids[0] as int) == c {
            Some(kids[0])
        } else {
            self.first_named(kids.drop_first(), c)
        }
    }

    /// Where one component `c` leads from node `at`: `.` stays, `..` goes to
    /// the parent, any other text to the first child of that name.
    pub open spec fn step(&self, at: usize, c: Seq<char>) -> Result<usize, NavFailure> {
        if c == seq!['.'] {
            Ok(at)
        } else if c == seq!['.', '.'] {
            match self.parent_of(at as int) {
                Some(p) => Ok(p),
                None => Err(NavFailure::NoParent(self.name_of(at as int))),
            }
        } else {
            match self.first_named(self.children_of(at as int), c) {
                Some(k) => Ok(k),
                None => Err(NavFailure::NoSuchChild(self.name_of(at as int), c)),
            }
        }
    }

    /// Where the components `cs`, taken left to right, lead from node `at`;
    /// the first failing component decides the error.
    pub open spec fn walk(&self, at: usize, cs: Seq<Seq<char>>) -> Result<usize, NavFailure>
        decreases cs.len(),
    {
        if cs.len() == 0 {
            Ok(at)
        } else {
            match self.step(at, cs[0]) {
                Ok(n) => self.walk(n, cs.drop_first()),
                Err(e) => Err(e),
            }
        }
    }

    /// Where the path expression `direction` leads from node `at`.
    pub open spec fn navigate_spec(&self, at: usize, direction: Seq<char>) -> Result<usize, NavFailure> {
        self.walk(at, components(direction))
    }

    /// A child found by name is one of the node's children.
    proof fn lemma_first_named_in(&self, kids: Seq<usize>, c: Seq<char>)
        ensures
            self.first_named(kids, c) matches Some(k) ==> kids.contains(k),
        decreases kids.len(),
    {
        if kids.len() > 0 && self.name_of(kids[0] as int) != c {
            self.lemma_first_named_in(kids.drop_first(), c);
            if let Some(k) = self.first_named(kids.drop_first(), c) {
                let j = choose|j: int| 0 <= j < kids.drop_first().len() && kids.drop_first()[j] == k;
                assert(kids[j + 1] == k);
            }
        }
    }

    /// A step that succeeds ends on a node of the tree.
    pub proof fn lemma_step_in_tree(&self, at: usize, c: Seq<char>)
        requires
            self.wf(),
            self.has(at as int),
        ensures
            self.step(at, c) matches Ok(n) ==> self.has(n as int),
    {
        if c != seq!['.'] && c != seq!['.', '.'] {
            self.lemma_first_named_in(self.children_of(at as int), c);
            if let Some(k) = self.first_named(self.children_of(at as int), c) {
                let j = choose|j: int|
                    0 <= j < self.children_of(at as int).len() && self.children_of(at as int)[j] == k;
                assert(self.children_of(at as int)[j] == k);
            }
        } else if at > 0 {
            assert(self.parent_of(at as int) is Some);
        }
    }

    /// A path of one component goes where that component's step goes.
    proof fn lemma_walk_one(&self, at: usize, c: Seq<char>)
        ensures
            self.walk(at, seq![c]) == self.step(at, c),
    {
        assert(seq![c][0] == c);
        assert(seq![c].drop_first() =~= Seq::<Seq<char>>::empty());
        if let Ok(m) = self.step(at, c) {
            assert(self.walk(m, Seq::<Seq<char>>::empty()) == Ok::<usize, NavFailure>(m));
        }
    }

    /// `.` leads from every node to itself.
    pub proof fn lemma_navigate_dot(&self, n: usize)
        requires
            self.wf(),
            self.has(n as int),
        ensures
            self.navigate_spec(n, seq!['.']) == Ok::<usize, NavFailure>(n),
    {
        lemma_single_component(seq!['.']);
        self.lemma_walk_one(n, seq!['.']);
    }

    /// `..` fails with `NoParent` on the root and leads from every other node
    /// to its parent.
    pub proof fn lemma_navigate_up(&self, n: usize)
        requires
            self.wf(),
            self.has(n as int),
        ensures
            n == 0 ==> self.navigate_spec(n, seq!['.', '.']) == Err::<usize, NavFailure>(
                NavFailure::NoParent(self.name_of(n as int)),
            ),
            self.parent_of(n as int) matches Some(p) ==> self.navigate_spec(n, seq!['.', '.'])
                == Ok::<usize, NavFailure>(p),
    {
        let up = seq!['.', '.'];
        lemma_single_component(up);
        assert(up != seq!['.']) by {
            assert(up.len() != seq!['.'].len());
        }
        self.lemma_walk_one(n, up);
        if n > 0 {
            assert(self.parent_of(n as int) is Some);
        }
    }

    /// Going down to an existing child by its name and then up with `..`
    /// comes back to the start. The name is an entry name: not empty, without
    /// `/`, and neither `.` nor `..`.
    pub proof fn lemma_down_then_up(&self, n: usize, a: Seq<char>)
        requires
            self.wf(),
            self.has(n as int),
            a.len() > 0,
            forall|i: int| 0 <= i < a.len() ==> a[i] != '/',
            a != seq!['.'],
            a != seq!['.', '.'],
            self.first_named(self.children_of(n as int), a) is Some,
        ensures
            self.navigate_spec(n, a) matches Ok(c) && self.navigate_spec(c, seq!['.', '.'])
                == Ok::<usize, NavFailure>(n),
    {
        lemma_single_component(a);
        self.lemma_walk_one(n, a);
        let c = self.first_named(self.children_of(n as int), a)->0;
        self.lemma_first_named_in(self.children_of(n as int), a);
        let j = choose|j: int|
            0 <= j < self.children_of(n as int).len() && self.children_of(n as int)[j] == c;
        assert(self.children_of(n as int)[j] == c);
        assert(self.navigate_spec(n, a) == Ok::<usize, NavFailure>(c));
        self.lemma_navigate_up(c);
    }

    /// Resolves one component `dir` from node `current`.
    pub fn nav_logic(&self, dir: &str, current: usize) -> (r: Result<usize, NavError>)
        requires
            self.wf(),
            self.has(current as int),
        ensures
            nav_view(r) == self.step(current, dir@),
            r matches Ok(n) ==> self.has(n as int),
    {
        proof {
            self.lemma_step_in_tree(current, dir@);
        }
        let n = dir.unicode_len();
        let dot = n >= 1 && n <= 2 && dir.get_char(0) == '.' && (n == 1 || dir.get_char(1) == '.');
        proof {
            if n == 1 {
                assert(dot == (dir@ =~= seq!['.']));
            } else if n == 2 {
                assert(dot == (dir@ =~= seq!['.', '.']));
            }
        }
        if dot && n == 1 {
            Ok(current)
        } else if dot {
            match self.parent(current) {
                Some(p) => Ok(p),
                None => Err(NavError::NoParent(self.name(current).clone())),
            }
        } else {
            proof {
                assert(seq!['.'].len() == 1 && seq!['.', '.'].len() == 2);
                assert(dir@ != seq!['.'] && dir@ != seq!['.', '.']);
            }
            let kids = self.children(current);
            let mut j: usize = 0;
            proof {
                assert(kids@.subrange(0, kids@.len() as int) =~= kids@);
            }
            while j < kids.len()
                invariant
                    self.wf(),
                    self.has(current as int),
                    kids@ == self.children_of(current as int),
                    dir@ != seq!['.'],
                    dir@ != seq!['.', '.'],
                    j <= kids@.len(),
                    self.first_named(kids@, dir@) == self.first_named(kids@.subrange(j as int, kids@.len() as int), dir@),
                decreases kids@.len() - j,
            {
                let k = kids[j];
                proof {
                    let rest = kids@.subrange(j as int, kids@.len() as int);
                    assert(rest[0] == k);
                    assert(rest.drop_first() =~= kids@.subrange(j + 1, kids@.len() as int));
                    assert(self.has(k as int));
                }
                if same_text(self.name(k).as_str(), dir) {
                    proof {
                        let rest = kids@.subrange(j as int, kids@.len() as int);
                        assert(self.name_of(k as int) == dir@);
                        assert(self.first_named(rest, dir@) == Some(k));
                        assert(self.first_named(kids@, dir@) == Some(k));
                        assert(self.step(current, dir@) == Ok::<usize, NavFailure>(k));
                    }
                    return Ok(k);
                }
                j += 1;
            }
            proof {
                assert(kids@.subrange(j as int, kids@.len() as int) =~= Seq::<usize>::empty());
            }
            Err(NavError::NoSuchChild(self.name(current).clone(), String::from_str(dir)))
        }
    }

    /// Follows the path expression `direction` from node `from`, component by
    /// component. Either every component resolves and the node reached is
    /// returned, or the first one that does not resolve gives the error.
    pub fn navigate(&self, from: usize, direction: &str) -> (r: Result<usize, NavError>)
        requires
            self.wf(),
            self.has(from as int),
        ensures
            nav_view(r) == self.navigate_spec(from, direction@),
            r matches Ok(n) ==> self.has(n as int),
    {
        let parts = split_path(direction);
        let ghost cs = components(direction@);
        let mut cur = from;
        let mut i: usize = 0;
        proof {
            assert(cs.subrange(0, cs.len() as int) =~= cs);
        }
        while i < parts.len()
            invariant
                self.wf(),
                self.has(cur as int),
                cs == components(direction@),
                parts@.len() == cs.len(),
                forall|k: int| 0 <= k < parts@.len() ==> #[trigger] parts@[k]@ == cs[k],
                i <= cs.len(),
                self.walk(from, cs) == self.walk(cur, cs.subrange(i as int, cs.len() as int)),
            decreases cs.len() - i,
        {
            let ghost rest = cs.subrange(i as int, cs.len() as int);
            proof {
                assert(rest[0] == parts@[i as int]@);
                assert(rest.drop_first() =~= cs.subrange(i + 1, cs.len() as int));
            }
            match self.nav_logic(parts[i].as_str(), cur) {
                Ok(n) => {
                    cur = n;
                },
                Err(e) => {
                    proof {
                        assert(self.step(cur, rest[0]) == Err::<usize, NavFailure>(e@));
                        assert(self.walk(cur, rest) == Err::<usize, NavFailure>(e@));
                        assert(self.walk(from, cs) == Err::<usize, NavFailure>(e@));
                        assert(nav_view(Err(e)) == Err::<usize, NavFailure>(e@));
                    }
                    return Err(e);
                },
            }
            i += 1;
        }
        proof {
            assert(cs.subrange(i as int, cs.len() as int) =~= Seq::<Seq<char>>::empty());
        }
        Ok(cur)
    }
}

} // verus!
