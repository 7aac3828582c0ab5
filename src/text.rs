use vstd::prelude::*;

verus! {

/// The pieces of `s` between its `/` characters, left to right. There is one
/// more piece than there are separators; pieces may be empty.
pub open spec fn pieces(s: Seq<char>) -> Seq<Seq<char>>
    decreases s.len(),
{
    if s.len() == 0 {
        seq![Seq::<char>::empty()]
    } else {
        let p = pieces(s.drop_last());
        if s.last() == '/' {
            p.push(Seq::<char>::empty())
        } else {
            p.update(p.len() - 1, p.last().push(s.last()))
        }
    }
}

/// The components of a path expression: its pieces, without the last one
/// when that one is empty. So `""` has none, `"a/"` has `a`, and `"a//b"` has
/// `a`, an empty component and `b`.
pub open spec fn components(s: Seq<char>) -> Seq<Seq<char>> {
    let p = pieces(s);
    if p.last().len() == 0 {
        p.drop_last()
    } else {
        p
    }
}

/// There is always at least one piece.
pub proof fn lemma_pieces_nonempty(s: Seq<char>)
    ensures
        pieces(s).len() >= 1,
    decreases s.len(),
{
    if s.len() > 0 {
        lemma_pieces_nonempty(s.drop_last());
    }
}

/// A text without `/` is a single piece, and, unless empty, a single component.
pub proof fn lemma_single_component(s: Seq<char>)
    requires
        forall|i: int| 0 <= i < s.len() ==> s[i] != '/',
    ensures
        pieces(s) == seq![s],
        s.len() > 0 ==> components(s) == seq![s],
    decreases s.len(),
{
    if s.len() > 0 {
        lemma_single_component(s.drop_last());
        assert(s.drop_last().push(s.last()) =~= s);
        assert(pieces(s) =~= seq![s]);
    } else {
        assert(s =~= Seq::<char>::empty());
    }
}

/// Splits a path expression into its components.
pub fn split_path(direction: &str) -> (r: Vec<String>)
    ensures
        r@.len() == components(direction@).len(),
        forall|i: int| 0 <= i < r@.len() ==> #[trigger] r@[i]@ == components(direction@)[i],
{
    let n = direction.unicode_len();
    let mut out: Vec<String> = Vec::new();
    let mut start: usize = 0;
    let mut i: usize = 0;
    proof {
        assert(direction@.take(0) =~= Seq::<char>::empty());
    }
    while i < n
        invariant
            n == direction@.len(),
            start <= i <= n,
            out@.len() + 1 == pieces(direction@.take(i as int)).len(),
            forall|k: int| 0 <= k < out@.len() ==> #[trigger] out@[k]@ == pieces(direction@.take(i as int))[k],
            pieces(direction@.take(i as int)).last() == direction@.subrange(start as int, i as int),
        decreases n - i,
    {
        let ghost s = direction@.take(i + 1);
        proof {
            assert(s.drop_last() =~= direction@.take(i as int));
            assert(s.last() == direction@[i as int]);
            lemma_pieces_nonempty(direction@.take(i as int));
        }
        let c = direction.get_char(i);
        if c == '/' {
            let piece = direction.substring_char(start, i);
            out.push(String::from_str(piece));
            start = i + 1;
            proof {
                assert(direction@.subrange(start as int, i + 1) =~= Seq::<char>::empty());
            }
        } else {
            proof {
                assert(direction@.subrange(start as int, i + 1) =~= direction@.subrange(
                    start as int,
                    i as int,
                ).push(c));
            }
        }
        i += 1;
    }
    proof {
        assert(direction@.take(n as int) =~= direction@);
        lemma_pieces_nonempty(direction@);
    }
    if start < n {
        let piece = direction.substring_char(start, n);
        out.push(String::from_str(piece));
    }
    out
}

/// Whether two texts are equal, character by character.
pub fn same_text(a: &str, b: &str) -> (r: bool)
    ensures
        r == (a@ == b@),
{
    let n = a.unicode_len();
    if n != b.unicode_len() {
        return false;
    }
    let mut i: usize = 0;
    while i < n
        invariant
            n == a@.len(),
            n == b@.len(),
            i <= n,
            forall|k: int| 0 <= k < i ==> a@[k] == b@[k],
        decreases n - i,
    {
        if a.get_char(i) != b.get_char(i) {
            return false;
        }
        i += 1;
    }
    proof {
        assert(a@ =~= b@);
    }
    true
}

} // verus!
