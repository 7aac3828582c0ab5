use vstd::prelude::*;
use crate::folder::Folder;

verus! {

/// The texts held by a list of strings.
pub open spec fn texts(v: Seq<String>) -> Seq<Seq<char>> {
    v.map_values(|s: String| s@)
}

/// Whether a node at `depth` is the last level to print under `max`.
pub open spec fn stops(depth: nat, max: Option<usize>) -> bool {
    match max {
        Some(m) => depth >= m,
        None => false,
    }
}

/// The branch drawn before a child's name.
pub open spec fn branch(last: bool) -> Seq<char> {
    if last {
        "└──"@
    } else {
        "├──"@
    }
}

/// What a child hands on to the prefixes of its own descendants.
pub open spec fn carry(last: bool) -> Seq<char> {
    if last {
        "   "@
    } else {
        "│  "@
    }
}

impl Folder {
    /// The full path of node `i`: the root reads `path: <name>`, every other
    /// node its parent's path, a `/` and its own name.
    pub open spec fn path_text(&self, i: int) -> Seq<char>
        decreases i,
    {
        match self.parent_of(i) {
            Some(p) => if 0 <= p < i {
                self.path_text(p as int) + "/"@ + self.name_of(i)
            } else {
                "path: "@ + self.name_of(i)
            },
            None => "path: "@ + self.name_of(i),
        }
    }

    /// The lines that draw node `i` at `depth`: its name after `prefix`, then,
    /// unless `depth` is the last level to print, the lines of its children,
    /// each drawn with `holder` ahead of its branch.
    pub open spec fn tree_lines(
        &self,
        i: int,
        prefix: Seq<char>,
        holder: Seq<char>,
        depth: nat,
        max: Option<usize>,
    ) -> Seq<Seq<char>>
        decreases self.size() - i, self.children_of(i).len() + 1,
    {
        seq![prefix + self.name_of(i)] + if stops(depth, max) {
            Seq::<Seq<char>>::empty()
        } else {
            self.kid_lines(i, 0, holder, depth, max)
        }
    }

    /// The lines of the children of node `i` from the `j`-th on.
    pub open spec fn kid_lines(
        &self,
        i: int,
        j: int,
        holder: Seq<char>,
        depth: nat,
        max: Option<usize>,
    ) -> Seq<Seq<char>>
        decreases self.size() - i, self.children_of(i).len() - j,
    {
        if j < 0 || j >= self.children_of(i).len() {
            Seq::<Seq<char>>::empty()
        } else {
            let c = self.children_of(i)[j] as int;
            let last = j + 1 == self.children_of(i).len();
            let here = if i < c < self.size() {
                self.tree_lines(c, holder + branch(last), holder + carry(last), depth + 1, max)
            } else {
                Seq::<Seq<char>>::empty()
            };
            here + self.kid_lines(i, j + 1, holder, depth, max)
        }
    }

    /// The full path of node `i`, from the root down.
    pub fn get_path_rec(&self, i: usize) -> (r: String)
        requires
            self.wf(),
            self.has(i as int),
        ensures
            r@ == self.path_text(i as int),
        decreases i,
    {
        match self.parent(i) {
            Some(p) => {
                let mut r = self.get_path_rec(p);
                r.append("/");
                r.append(self.name(i).as_str());
                r
            },
            None => {
                let mut r = String::from_str("path: ");
                r.append(self.name(i).as_str());
                r
            },
        }
    }

    /// Appends to `out` the lines that draw node `i` (see `tree_lines`).
    fn print_tree_rec(
        &self,
        i: usize,
        prefix: &str,
        holder: &str,
        depth: usize,
        max: Option<usize>,
        out: &mut Vec<String>,
    )
        requires
            self.wf(),
            self.has(i as int),
            depth <= i,
        ensures
            texts(final(out)@) == texts(old(out)@) + self.tree_lines(i as int, prefix@, holder@, depth as nat, max),
        decreases self.size() - i,
    {
        let ghost start = texts(out@);
        let ghost target = start + self.tree_lines(i as int, prefix@, holder@, depth as nat, max);
        let mut line = String::from_str(prefix);
        line.append(self.name(i).as_str());
        out.push(line);
        proof {
            assert(texts(out@) =~= start.push(prefix@ + self.name_of(i as int)));
        }
        let stop = match max {
            Some(m) => depth >= m,
            None => false,
        };
        if stop {
            proof {
                assert(texts(out@) =~= target);
            }
            return;
        }
        let kids = self.children(i);
        let n = kids.len();
        let mut j: usize = 0;
        proof {
            assert(target =~= texts(out@) + self.kid_lines(i as int, 0, holder@, depth as nat, max));
        }
        while j < n
            invariant
                self.wf(),
                self.has(i as int),
                depth <= i,
                kids@ == self.children_of(i as int),
                n == kids@.len(),
                j <= n,
                texts(out@) + self.kid_lines(i as int, j as int, holder@, depth as nat, max) == target,
            decreases n - j,
        {
            let c = kids[j];
            let last = j + 1 == n;
            proof {
                assert(i < c < self.size());
            }
            let mut p = String::from_str(holder);
            let mut h = String::from_str(holder);
            if last {
                p.append("└──");
                h.append("   ");
            } else {
                p.append("├──");
                h.append("│  ");
            }
            let ghost before = texts(out@);
            self.print_tree_rec(c, p.as_str(), h.as_str(), depth + 1, max, out);
            proof {
                let rest = self.kid_lines(i as int, j + 1, holder@, depth as nat, max);
                let here = self.tree_lines(c as int, p@, h@, (depth + 1) as nat, max);
                assert(self.kid_lines(i as int, j as int, holder@, depth as nat, max) == here + rest);
                assert(texts(out@) + rest =~= before + (here + rest));
            }
            j += 1;
        }
        proof {
            assert(self.kid_lines(i as int, j as int, holder@, depth as nat, max) =~= Seq::<Seq<char>>::empty());
            assert(texts(out@) + Seq::<Seq<char>>::empty() =~= texts(out@));
        }
    }

    /// The indented tree below node `i`, one line per node; with `max_depth`
    /// given, nodes deeper than it are left out and those at that depth are
    /// printed without their children.
    pub fn print_tree(&self, i: usize, max_depth: Option<usize>) -> (r: Vec<String>)
        requires
            self.wf(),
            self.has(i as int),
        ensures
            texts(r@) == self.tree_lines(i as int, Seq::<char>::empty(), Seq::<char>::empty(), 0, max_depth),
    {
        let mut out: Vec<String> = Vec::new();
        self.print_tree_rec(i, "", "", 0, max_depth, &mut out);
        proof {
            assert(texts(Seq::<String>::empty()) =~= Seq::<Seq<char>>::empty());
            assert(""@ =~= Seq::<char>::empty()) by {
                reveal_strlit("");
            }
        }
        out
    }

    /// What is shown of node `i`: its full path, a blank line, then its tree.
    pub fn summarize(&self, i: usize, max_depth: Option<usize>) -> (r: Vec<String>)
        requires
            self.wf(),
            self.has(i as int),
        ensures
            texts(r@) == seq![self.path_text(i as int), Seq::<char>::empty()] + self.tree_lines(
                i as int,
                Seq::<char>::empty(),
                Seq::<char>::empty(),
                0,
                max_depth,
            ),
    {
        let mut out: Vec<String> = Vec::new();
        out.push(self.get_path_rec(i));
        out.push(String::new());
        let tree = self.print_tree(i, max_depth);
        let mut k: usize = 0;
        let ghost head = texts(out@);
        while k < tree.len()
            invariant
                k <= tree@.len(),
                texts(out@) == head + texts(tree@).take(k as int),
            decreases tree@.len() - k,
        {
            let line = tree[k].clone();
            let ghost before = out@;
            out.push(line);
            k += 1;
            proof {
                assert(out@ == before.push(tree@[k - 1]));
                assert(texts(out@) =~= texts(before).push(tree@[k - 1]@));
                assert(texts(tree@).take(k as int) =~= texts(tree@).take(k - 1 as int).push(tree@[k - 1]@));
                assert(texts(out@) =~= head + texts(tree@).take(k as int));
            }
        }
        proof {
            assert(texts(tree@).take(k as int) =~= texts(tree@));
            assert(head =~= seq![self.path_text(i as int), Seq::<char>::empty()]);
        }
        out
    }
}

} // verus!
