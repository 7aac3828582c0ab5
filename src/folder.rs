use vstd::prelude::*;

verus! {

/// One entry of the tree: its base name, the index of its parent (none for
/// the root) and the indices of its children, in the order they were added.
struct Node {
    name: String,
    parent: Option<usize>,
    children: Vec<usize>,
}

/// A tree of named folders kept in an arena. Node `0` is the root; every other
/// node has exactly one parent, which stands before it in the arena and lists
/// it among its children. Parent links are indices, so they never own a node.
pub struct Folder {
    nodes: Vec<Node>,
}

/// The child list `s` with every index moved up by `d`.
pub open spec fn shifted(s: Seq<usize>, d: int) -> Seq<usize> {
    s.map_values(|c: usize| (c + d) as usize)
}

/// `after` is `before` with the tree `sub` grafted as the last child of `at`:
/// the old nodes keep their names and parents, `at` gains the new root as its
/// last child, and the nodes of `sub` follow in order, their indices moved up
/// by the old size and the root of `sub` hanging under `at`.
pub open spec fn grafted(before: Folder, at: int, sub: Folder, after: Folder) -> bool {
    let n = before.size();
    &&& after.size() == n + sub.size()
    &&& forall|i: int| 0 <= i < n ==> #[trigger] after.name_of(i) == before.name_of(i)
    &&& forall|i: int| 0 <= i < n ==> #[trigger] after.parent_of(i) == before.parent_of(i)
    &&& forall|i: int| 0 <= i < n && i != at ==> #[trigger] after.children_of(i) == before.children_of(i)
    &&& after.children_of(at) == before.children_of(at).push(n as usize)
    &&& forall|k: int| 0 <= k < sub.size() ==> after.name_of(n + k) == #[trigger] sub.name_of(k)
    &&& forall|k: int|
        0 <= k < sub.size() ==> after.parent_of(n + k) == if k == 0 {
            Some(at as usize)
        } else {
            match #[trigger] sub.parent_of(k) {
                Some(p) => Some((p + n) as usize),
                None => None,
            }
        }
    &&& forall|k: int| 0 <= k < sub.size() ==> after.children_of(n + k) == shifted(#[trigger] sub.children_of(k), n)
}

/// Nodes in all the subtrees that were built among `outs`.
pub open spec fn built_size(outs: Seq<Option<Folder>>) -> int
    decreases outs.len(),
{
    if outs.len() == 0 {
        0
    } else {
        built_size(outs.drop_last()) + match outs.last() {
            Some(f) => f.size(),
            None => 0,
        }
    }
}

/// Root names of the subtrees that were built among `outs`, in order.
pub open spec fn built_names(outs: Seq<Option<Folder>>) -> Seq<Seq<char>>
    decreases outs.len(),
{
    if outs.len() == 0 {
        Seq::<Seq<char>>::empty()
    } else {
        let before = built_names(outs.drop_last());
        match outs.last() {
            Some(f) => before.push(f.name_of(0)),
            None => before,
        }
    }
}

impl Folder {
    /// Number of nodes in the tree.
    pub closed spec fn size(&self) -> int {
        self.nodes@.len() as int
    }

    /// Name of node `i`.
    pub closed spec fn name_of(&self, i: int) -> Seq<char> {
        self.nodes@[i].name@
    }

    /// Parent of node `i`, none for the root.
    pub closed spec fn parent_of(&self, i: int) -> Option<usize> {
        self.nodes@[i].parent
    }

    /// Children of node `i`, in order.
    pub closed spec fn children_of(&self, i: int) -> Seq<usize> {
        self.nodes@[i].children@
    }

    /// `i` names a node of this tree.
    pub open spec fn has(&self, i: int) -> bool {
        0 <= i < self.size()
    }

    /// The tree is well formed: node `0` alone has no parent; each other node's
    /// parent comes before it and lists it as a child; each listed child comes
    /// after its parent, names that parent as its own, and is listed once.
    pub open spec fn wf(&self) -> bool {
        &&& self.size() >= 1
        &&& self.parent_of(0) is None
        &&& forall|i: int|
            0 < i < self.size() ==> match #[trigger] self.parent_of(i) {
                Some(p) => p < i && self.children_of(p as int).contains(i as usize),
                None => false,
            }
        &&& forall|i: int, j: int|
            0 <= i < self.size() && 0 <= j < self.children_of(i).len() ==> {
                let c = #[trigger] self.children_of(i)[j];
                &&& i < c < self.size()
                &&& self.parent_of(c as int) == Some(i as usize)
            }
        &&& forall|i: int| 0 <= i < self.size() ==> #[trigger] self.children_of(i).no_duplicates()
    }

    /// A tree holding one parentless, childless node called `name`.
    pub fn new(name: &str) -> (r: Folder)
        ensures
            r.wf(),
            r.size() == 1,
            r.name_of(0) == name@,
            r.parent_of(0) is None,
            r.children_of(0) == Seq::<usize>::empty(),
    {
        let root = Node { name: String::from_str(name), parent: None, children: Vec::new() };
        let mut nodes: Vec<Node> = Vec::new();
        nodes.push(root);
        Folder { nodes }
    }

    /// Number of nodes in the tree.
    pub fn len(&self) -> (r: usize)
        ensures
            r == self.size(),
    {
        self.nodes.len()
    }

    /// Name of node `i`.
    pub fn name(&self, i: usize) -> (r: &String)
        requires
            self.has(i as int),
        ensures
            r@ == self.name_of(i as int),
    {
        &self.nodes[i].name
    }

    /// Parent of node `i`, none for the root.
    pub fn parent(&self, i: usize) -> (r: Option<usize>)
        requires
            self.has(i as int),
        ensures
            r == self.parent_of(i as int),
    {
        self.nodes[i].parent
    }

    /// Children of node `i`, in order.
    pub fn children(&self, i: usize) -> (r: &Vec<usize>)
        requires
            self.has(i as int),
        ensures
            r@ == self.children_of(i as int),
    {
        &self.nodes[i].children
    }

    /// Grafts the whole tree `sub` under node `at`, as its last child. The
    /// nodes of `sub` are appended to the arena in their order, each index
    /// moved up by the old size; the root of `sub` gets `at` as its parent.
    /// Returns the new index of the root of `sub`.
    pub fn attach(&mut self, at: usize, sub: Folder) -> (r: usize)
        requires
            old(self).wf(),
            sub.wf(),
            old(self).has(at as int),
            old(self).size() + sub.size() <= usize::MAX,
        ensures
            final(self).wf(),
            r == old(self).size(),
            grafted(*old(self), at as int, sub, *final(self)),
    {
        let n = self.nodes.len();
        let ghost pre = *self;
        self.nodes[at].children.push(n);
        let mut k: usize = 0;
        while k < sub.nodes.len()
            invariant
                sub.wf(),
                pre.wf(),
                n == pre.size(),
                0 <= at < n,
                n + sub.size() <= usize::MAX,
                k <= sub.size(),
                self.size() == n + k,
                forall|i: int| 0 <= i < n ==> #[trigger] self.name_of(i) == pre.name_of(i),
                forall|i: int| 0 <= i < n ==> #[trigger] self.parent_of(i) == pre.parent_of(i),
                forall|i: int| 0 <= i < n && i != at ==> #[trigger] self.children_of(i) == pre.children_of(i),
                self.children_of(at as int) == pre.children_of(at as int).push(n),
                forall|m: int| 0 <= m < k ==> self.name_of(n + m) == #[trigger] sub.name_of(m),
                forall|m: int|
                    0 <= m < k ==> self.parent_of(n + m) == if m == 0 {
                        Some(at)
                    } else {
                        match #[trigger] sub.parent_of(m) {
                            Some(p) => Some((p + n) as usize),
                            None => None,
                        }
                    },
                forall|m: int| 0 <= m < k ==> self.children_of(n + m) == shifted(#[trigger] sub.children_of(m), n as int),
            decreases sub.size() - k,
        {
            let src = &sub.nodes[k];
            let mut kids: Vec<usize> = Vec::new();
            let mut j: usize = 0;
            while j < src.children.len()
                invariant
                    sub.wf(),
                    k < sub.size(),
                    *src == sub.nodes@[k as int],
                    n + sub.size() <= usize::MAX,
                    j <= src.children@.len(),
                    kids@ == shifted(src.children@.take(j as int), n as int),
                decreases src.children@.len() - j,
            {
                proof {
                    assert(sub.children_of(k as int)[j as int] == src.children@[j as int]);
                }
                kids.push(src.children[j] + n);
                j += 1;
                proof {
                    assert(src.children@.take(j as int) =~= src.children@.take(j - 1 as int).push(src.children@[j - 1]));
                    assert(kids@ =~= shifted(src.children@.take(j as int), n as int));
                }
            }
            proof {
                assert(src.children@.take(j as int) =~= src.children@);
            }
            let parent = if k == 0 {
                Some(at)
            } else {
                match src.parent {
                    Some(p) => {
                        proof {
                            assert(sub.parent_of(k as int) == src.parent);
                        }
                        Some(p + n)
                    },
                    None => None,
                }
            };
            let ghost before = *self;
            self.nodes.push(Node { name: src.name.clone(), parent, children: kids });
            proof {
                assert forall|i: int| 0 <= i < n + k implies self.nodes@[i] == before.nodes@[i] by {}
                assert forall|i: int| 0 <= i < n implies #[trigger] self.name_of(i) == pre.name_of(i) by {
                    assert(before.name_of(i) == pre.name_of(i));
                }
                assert forall|i: int| 0 <= i < n implies #[trigger] self.parent_of(i) == pre.parent_of(i) by {
                    assert(before.parent_of(i) == pre.parent_of(i));
                }
                assert forall|i: int| 0 <= i < n && i != at implies #[trigger] self.children_of(i) == pre.children_of(i) by {
                    assert(before.children_of(i) == pre.children_of(i));
                }
                assert(self.children_of(at as int) == before.children_of(at as int));
            }
            k += 1;
        }
        proof {
            self.lemma_attach_wf(pre, at as int, sub);
        }
        n
    }

    proof fn lemma_attach_wf(&self, pre: Folder, at: int, sub: Folder)
        requires
            pre.wf(),
            sub.wf(),
            pre.has(at),
            pre.size() + sub.size() <= usize::MAX,
            self.size() == pre.size() + sub.size(),
            forall|i: int| 0 <= i < pre.size() ==> #[trigger] self.parent_of(i) == pre.parent_of(i),
            forall|i: int| 0 <= i < pre.size() && i != at ==> #[trigger] self.children_of(i) == pre.children_of(i),
            self.children_of(at) == pre.children_of(at).push(pre.size() as usize),
            forall|m: int|
                0 <= m < sub.size() ==> self.parent_of(pre.size() + m) == if m == 0 {
                    Some(at as usize)
                } else {
                    match #[trigger] sub.parent_of(m) {
                        Some(p) => Some((p + pre.size()) as usize),
                        None => None,
                    }
                },
            forall|m: int| 0 <= m < sub.size() ==> self.children_of(pre.size() + m) == shifted(#[trigger] sub.children_of(m), pre.size()),
        ensures
            self.wf(),
    {
        let n = pre.size();
        assert forall|i: int| 0 < i < self.size() implies match #[trigger] self.parent_of(i) {
            Some(p) => p < i && self.children_of(p as int).contains(i as usize),
            None => false,
        } by {
            if i < n {
                assert(self.parent_of(i) == pre.parent_of(i));
                assert(pre.parent_of(i) is Some);
                let p = pre.parent_of(i)->0;
                assert(p < i);
                assert(pre.children_of(p as int).contains(i as usize));
                let j = choose|j: int| 0 <= j < pre.children_of(p as int).len() && pre.children_of(p as int)[j] == i as usize;
                assert(self.children_of(p as int)[j] == i as usize);
            } else if i == n {
                assert(self.children_of(at)[pre.children_of(at).len() as int] == n as usize);
            } else {
                let k = i - n;
                assert(sub.parent_of(k) is Some);
                let q = sub.parent_of(k)->0;
                assert(q < k);
                assert(sub.children_of(q as int).contains(k as usize));
                let j = choose|j: int| 0 <= j < sub.children_of(q as int).len() && sub.children_of(q as int)[j] == k as usize;
                assert(self.children_of(n + q) == shifted(sub.children_of(q as int), n));
                assert(shifted(sub.children_of(q as int), n)[j] == (k + n) as usize);
                assert(self.children_of(n + q)[j] == i as usize);
            }
        }
        assert forall|i: int, j: int|
            0 <= i < self.size() && 0 <= j < self.children_of(i).len() implies {
                let c = #[trigger] self.children_of(i)[j];
                &&& i < c < self.size()
                &&& self.parent_of(c as int) == Some(i as usize)
            } by {
            if i < n {
                if i == at && j == pre.children_of(at).len() {
                    assert(self.parent_of(n + 0) == Some(at as usize));
                } else {
                    assert(self.children_of(i)[j] == pre.children_of(i)[j]);
                }
            } else {
                let k = i - n;
                assert(self.children_of(n + k) == shifted(sub.children_of(k), n));
                let c = sub.children_of(k)[j];
                assert(sub.parent_of(c as int) == Some(k as usize));
                assert(self.parent_of(n + c) == Some((k + n) as usize));
            }
        }
        assert forall|i: int| 0 <= i < self.size() implies #[trigger] self.children_of(i).no_duplicates() by {
            if i < n {
                if i == at {
                    assert(pre.children_of(at).no_duplicates());
                    assert forall|a: int, b: int|
                        0 <= a < b < self.children_of(i).len() implies self.children_of(i)[a] != self.children_of(i)[b] by {
                        if b == pre.children_of(at).len() {
                            assert(pre.children_of(at)[a] < n);
                        }
                    }
                } else {
                    assert(self.children_of(i) == pre.children_of(i));
                }
            } else {
                let k = i - n;
                assert(self.children_of(n + k) == shifted(sub.children_of(k), n));
                assert(sub.children_of(k).no_duplicates());
                assert forall|a: int, b: int|
                    0 <= a < b < self.children_of(i).len() implies self.children_of(i)[a] != self.children_of(i)[b] by {
                    assert(sub.children_of(k)[a] != sub.children_of(k)[b]);
                }
            }
        }
    }

    /// Appends a new childless node called `name` as the last child of `at`.
    /// Returns its index.
    pub fn add_child(&mut self, at: usize, name: &str) -> (r: usize)
        requires
            old(self).wf(),
            old(self).has(at as int),
            old(self).size() < usize::MAX,
        ensures
            final(self).wf(),
            r == old(self).size(),
            final(self).size() == old(self).size() + 1,
            forall|i: int| 0 <= i < old(self).size() ==> #[trigger] final(self).name_of(i) == old(self).name_of(i),
            forall|i: int| 0 <= i < old(self).size() ==> #[trigger] final(self).parent_of(i) == old(self).parent_of(i),
            forall|i: int|
                0 <= i < old(self).size() && i != at ==> #[trigger] final(self).children_of(i)
                    == old(self).children_of(i),
            final(self).children_of(at as int) == old(self).children_of(at as int).push(r),
            final(self).name_of(r as int) == name@,
            final(self).parent_of(r as int) == Some(at),
            final(self).children_of(r as int) == Seq::<usize>::empty(),
    {
        let leaf = Folder::new(name);
        let r = self.attach(at, leaf);
        proof {
            assert(leaf.name_of(0) == name@);
            assert(leaf.parent_of(0) is None);
            assert(leaf.children_of(0) == Seq::<usize>::empty());
            assert(shifted(leaf.children_of(0), r as int) =~= Seq::<usize>::empty());
        }
        r
    }

    /// Takes in the outcome of building one entry under `at`: a subtree that
    /// was built is grafted as the last child, one that failed leaves the tree
    /// as it was. Returns the new child's index, if any.
    pub fn adopt(&mut self, at: usize, built: Option<Folder>) -> (r: Option<usize>)
        requires
            old(self).wf(),
            old(self).has(at as int),
            built matches Some(sub) ==> sub.wf() && old(self).size() + sub.size() <= usize::MAX,
        ensures
            final(self).wf(),
            built is None ==> r is None && *final(self) == *old(self),
            built matches Some(sub) ==> r == Some(old(self).size() as usize) && grafted(
                *old(self),
                at as int,
                sub,
                *final(self),
            ),
    {
        match built {
            Some(sub) => {
                proof {
                    assert(0 < sub.size());
                }
                Some(self.attach(at, sub))
            },
            None => None,
        }
    }

    /// The names of the children of node `i`, in order.
    pub open spec fn child_names(&self, i: int) -> Seq<Seq<char>> {
        self.children_of(i).map_values(|c: usize| self.name_of(c as int))
    }

    /// Grafting two subtrees under one node, in either order, gives trees of
    /// the same size in which every other node keeps its name, parent and
    /// children, and that node has children with the same names, counted
    /// with repetition: the order of grafting only changes sibling order.
    pub proof fn lemma_graft_order(
        t: Folder,
        at: int,
        s1: Folder,
        s2: Folder,
        u1: Folder,
        v1: Folder,
        u2: Folder,
        v2: Folder,
    )
        requires
            t.wf(),
            s1.wf(),
            s2.wf(),
            t.has(at),
            t.size() + s1.size() + s2.size() <= usize::MAX,
            grafted(t, at, s1, u1),
            grafted(u1, at, s2, v1),
            grafted(t, at, s2, u2),
            grafted(u2, at, s1, v2),
        ensures
            v1.size() == v2.size(),
            forall|i: int| 0 <= i < t.size() ==> #[trigger] v1.name_of(i) == v2.name_of(i),
            forall|i: int| 0 <= i < t.size() ==> #[trigger] v1.parent_of(i) == v2.parent_of(i),
            forall|i: int| 0 <= i < t.size() && i != at ==> #[trigger] v1.children_of(i) == v2.children_of(i),
            v1.child_names(at).to_multiset() == v2.child_names(at).to_multiset(),
    {
        broadcast use vstd::seq_lib::group_to_multiset_ensures;

        let n = t.size();
        let old_names = t.child_names(at);
        let a = s1.name_of(0);
        let b = s2.name_of(0);
        assert(v1.name_of(n + 0) == a);
        assert(v1.name_of(n + s1.size() + 0) == b);
        assert(v2.name_of(n + 0) == b);
        assert(v2.name_of(n + s2.size() + 0) == a);
        assert forall|j: int| 0 <= j < t.children_of(at).len() implies {
            let c = #[trigger] t.children_of(at)[j] as int;
            &&& v1.name_of(c) == t.name_of(c)
            &&& v2.name_of(c) == t.name_of(c)
        } by {
            let c = t.children_of(at)[j] as int;
            assert(u1.name_of(c) == t.name_of(c));
            assert(u2.name_of(c) == t.name_of(c));
        }
        let m = t.children_of(at).len();
        assert(v1.children_of(at) == t.children_of(at).push(n as usize).push((n + s1.size()) as usize));
        assert(v2.children_of(at) == t.children_of(at).push(n as usize).push((n + s2.size()) as usize));
        assert forall|j: int| 0 <= j < m + 2 implies #[trigger] v1.child_names(at)[j] == old_names.push(a).push(b)[j] by {
            if j < m {
                assert(v1.children_of(at)[j] == t.children_of(at)[j]);
            } else if j == m {
                assert(v1.children_of(at)[j] as int == n + 0);
            } else {
                assert(v1.children_of(at)[j] as int == n + s1.size() + 0);
            }
        }
        assert forall|j: int| 0 <= j < m + 2 implies #[trigger] v2.child_names(at)[j] == old_names.push(b).push(a)[j] by {
            if j < m {
                assert(v2.children_of(at)[j] == t.children_of(at)[j]);
            } else if j == m {
                assert(v2.children_of(at)[j] as int == n + 0);
            } else {
                assert(v2.children_of(at)[j] as int == n + s2.size() + 0);
            }
        }
        assert(v1.child_names(at) =~= old_names.push(a).push(b));
        assert(v2.child_names(at) =~= old_names.push(b).push(a));
        assert(old_names.push(a).push(b).to_multiset() =~= old_names.push(b).push(a).to_multiset());
        assert forall|i: int| 0 <= i < t.size() && i != at implies #[trigger] v1.children_of(i) == v2.children_of(i) by {
            assert(u1.children_of(i) == t.children_of(i));
            assert(u2.children_of(i) == t.children_of(i));
        }
        assert forall|i: int| 0 <= i < t.size() implies #[trigger] v1.name_of(i) == v2.name_of(i) by {
            assert(u1.name_of(i) == t.name_of(i));
            assert(u2.name_of(i) == t.name_of(i));
        }
        assert forall|i: int| 0 <= i < t.size() implies #[trigger] v1.parent_of(i) == v2.parent_of(i) by {
            assert(u1.parent_of(i) == t.parent_of(i));
            assert(u2.parent_of(i) == t.parent_of(i));
        }
    }

    /// The tree of one directory called `name`, given the outcome of building
    /// each of its entries: every subtree that was built becomes a child, in
    /// the order given, and every entry that failed is left out. The node
    /// count is one for the directory plus the nodes of the built subtrees.
    pub fn assemble(name: &str, outs: Vec<Option<Folder>>) -> (r: Folder)
        requires
            forall|k: int| 0 <= k < outs@.len() ==> (#[trigger] outs@[k] matches Some(f) ==> f.wf()),
            1 + built_size(outs@) <= usize::MAX,
        ensures
            r.wf(),
            r.name_of(0) == name@,
            r.parent_of(0) is None,
            r.size() == 1 + built_size(outs@),
            r.child_names(0) == built_names(outs@),
    {
        let ghost all = outs@;
        let mut outs = outs;
        let mut r = Folder::new(name);
        let mut k: usize = 0;
        let total = outs.len();
        proof {
            assert(all.take(0) =~= Seq::<Option<Folder>>::empty());
            assert(outs@ =~= all.skip(0));
            assert(r.child_names(0) =~= Seq::<Seq<char>>::empty());
        }
        while k < total
            invariant
                total == all.len(),
                k <= total,
                outs@ == all.skip(k as int),
                forall|m: int| 0 <= m < all.len() ==> (#[trigger] all[m] matches Some(f) ==> f.wf()),
                1 + built_size(all) <= usize::MAX,
                r.wf(),
                r.name_of(0) == name@,
                r.parent_of(0) is None,
                r.size() == 1 + built_size(all.take(k as int)),
                r.child_names(0) == built_names(all.take(k as int)),
            decreases total - k,
        {
            let ghost pre = r;
            let ghost next = all.take(k + 1);
            proof {
                assert(next.drop_last() =~= all.take(k as int));
                assert(next.last() == all[k as int]);
                lemma_built_size_prefix(all, k + 1);
                assert(outs@[0] == all[k as int]);
            }
            let out = outs.remove(0);
            r.adopt(0, out);
            proof {
                if let Some(sub) = all[k as int] {
                    assert(r.name_of(pre.size()) == sub.name_of(0)) by {
                        assert(r.name_of(pre.size() + 0) == sub.name_of(0));
                    }
                    let m = pre.children_of(0).len();
                    assert forall|j: int| 0 <= j < m + 1 implies #[trigger] r.child_names(0)[j]
                        == pre.child_names(0).push(sub.name_of(0))[j] by {
                        if j < m {
                            assert(r.children_of(0)[j] == pre.children_of(0)[j]);
                            assert(pre.children_of(0)[j] < pre.size());
                        }
                    }
                    assert(r.child_names(0) =~= pre.child_names(0).push(sub.name_of(0)));
                }
                assert(outs@ =~= all.skip(k + 1));
            }
            k += 1;
        }
        proof {
            assert(all.take(total as int) =~= all);
        }
        r
    }
}

/// The built nodes of a prefix never outnumber those of the whole.
pub proof fn lemma_built_size_prefix(outs: Seq<Option<Folder>>, k: int)
    requires
        0 <= k <= outs.len(),
        forall|m: int| 0 <= m < outs.len() ==> (#[trigger] outs[m] matches Some(f) ==> f.wf()),
    ensures
        0 <= built_size(outs.take(k)) <= built_size(outs),
    decreases outs.len(),
{
    if outs.len() > 0 {
        let rest = outs.drop_last();
        if k == outs.len() {
            assert(outs.take(k) =~= outs);
            lemma_built_size_prefix(rest, rest.len() as int);
            assert(rest.take(rest.len() as int) =~= rest);
        } else {
            lemma_built_size_prefix(rest, k);
            assert(rest.take(k) =~= outs.take(k));
            lemma_built_size_prefix(rest, rest.len() as int);
            assert(rest.take(rest.len() as int) =~= rest);
        }
        if let Some(f) = outs.last() {
            assert(outs[outs.len() - 1] == outs.last());
        }
    }
}

} // verus!
