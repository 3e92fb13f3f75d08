use vstd::prelude::*;
use vstd::relations::{total_ordering, sorted_by};
use vstd::multiset::Multiset;

verus! {

/// `a` comes no later than `b` in the order of `str`'s `Ord`: character by
/// character (the order of their UTF-8 bytes), a prefix first.
pub open spec fn text_le(a: Seq<char>, b: Seq<char>) -> bool
    decreases a.len(),
{
    if a.len() == 0 {
        true
    } else if b.len() == 0 {
        false
    } else if a[0] != b[0] {
        a[0] < b[0]
    } else {
        text_le(a.drop_first(), b.drop_first())
    }
}

/// The order of texts, as a relation.
pub open spec fn text_order() -> spec_fn(Seq<char>, Seq<char>) -> bool {
    |a: Seq<char>, b: Seq<char>| text_le(a, b)
}

proof fn lemma_text_le_reflexive(a: Seq<char>)
    ensures
        text_le(a, a),
    decreases a.len(),
{
    if a.len() > 0 {
        lemma_text_le_reflexive(a.drop_first());
    }
}

proof fn lemma_text_le_antisymmetric(a: Seq<char>, b: Seq<char>)
    requires
        text_le(a, b),
        text_le(b, a),
    ensures
        a == b,
    decreases a.len(),
{
    if a.len() > 0 && b.len() > 0 {
        lemma_text_le_antisymmetric(a.drop_first(), b.drop_first());
        assert(a =~= seq![a[0]] + a.drop_first());
        assert(b =~= seq![b[0]] + b.drop_first());
    } else {
        assert(a =~= b);
    }
}

proof fn lemma_text_le_transitive(a: Seq<char>, b: Seq<char>, c: Seq<char>)
    requires
        text_le(a, b),
        text_le(b, c),
    ensures
        text_le(a, c),
    decreases a.len(),
{
    if a.len() > 0 && b.len() > 0 && c.len() > 0 && a[0] == b[0] && b[0] == c[0] {
        lemma_text_le_transitive(a.drop_first(), b.drop_first(), c.drop_first());
    }
}

proof fn lemma_text_le_total(a: Seq<char>, b: Seq<char>)
    ensures
        text_le(a, b) || text_le(b, a),
    decreases a.len(),
{
    if a.len() > 0 && b.len() > 0 && a[0] == b[0] {
        lemma_text_le_total(a.drop_first(), b.drop_first());
    }
}

/// The order of texts is a total order.
pub proof fn lemma_text_order_total()
    ensures
        total_ordering(text_order()),
{
    let r = text_order();
    assert forall|x: Seq<char>| #[trigger] r(x, x) by { lemma_text_le_reflexive(x); }
    assert forall|x: Seq<char>, y: Seq<char>| #[trigger] r(x, y) && #[trigger] r(y, x) implies x == y by {
        lemma_text_le_antisymmetric(x, y);
    }
    assert forall|x: Seq<char>, y: Seq<char>, z: Seq<char>| #[trigger] r(x, y) && #[trigger] r(y, z) implies r(x, z) by {
        lemma_text_le_transitive(x, y, z);
    }
    assert forall|x: Seq<char>, y: Seq<char>| #[trigger] r(x, y) || #[trigger] r(y, x) by {
        lemma_text_le_total(x, y);
    }
}

/// Whether `a` comes no later than `b`.
fn path_le(a: &str, b: &str) -> (r: bool)
    ensures
        r == text_le(a@, b@),
{
    let n = a.unicode_len();
    let m = b.unicode_len();
    let mut i: usize = 0;
    assert(a@.skip(0) =~= a@);
    assert(b@.skip(0) =~= b@);
    while i < n && i < m
        invariant
            n == a@.len(),
            m == b@.len(),
            i <= n,
            i <= m,
            text_le(a@, b@) == text_le(a@.skip(i as int), b@.skip(i as int)),
        decreases n - i,
    {
        let x = a.get_char(i);
        let y = b.get_char(i);
        assert(a@.skip(i as int)[0] == x);
        assert(b@.skip(i as int)[0] == y);
        if x != y {
            return x < y;
        }
        assert(a@.skip(i as int).drop_first() =~= a@.skip(i + 1));
        assert(b@.skip(i as int).drop_first() =~= b@.skip(i + 1));
        i = i + 1;
    }
    i == n
}

/// The paths of the translation files in the order `[String]::sort` puts them.
pub fn sort_paths(paths: &Vec<String>) -> (sorted: Vec<String>)
    ensures
        sorted@.map_values(|p: String| p@) == paths@.map_values(|p: String| p@).sort_by(text_order()),
{
    let ghost input = paths@.map_values(|p: String| p@);
    let mut out: Vec<String> = Vec::new();
    let mut i: usize = 0;
    proof { lemma_text_order_total(); }
    assert(out@.map_values(|p: String| p@) =~= Seq::<Seq<char>>::empty());
    assert(out@.map_values(|p: String| p@).to_multiset() == input.take(0).to_multiset()) by {
        broadcast use vstd::seq_lib::group_to_multiset_ensures;
        assert(input.take(0) =~= Seq::<Seq<char>>::empty());
        assert(out@.map_values(|p: String| p@) == input.take(0));
    }
    while i < paths.len()
        invariant
            i <= paths@.len(),
            input == paths@.map_values(|p: String| p@),
            total_ordering(text_order()),
            sorted_by(out@.map_values(|p: String| p@), text_order()),
            out@.map_values(|p: String| p@).to_multiset() == input.take(i as int).to_multiset(),
        decreases paths@.len() - i,
    {
        let x = paths[i].clone();
        let ghost ov = out@.map_values(|p: String| p@);
        let mut p: usize = 0;
        while p < out.len() && path_le(out[p].as_str(), x.as_str())
            invariant
                p <= out@.len(),
                ov == out@.map_values(|p: String| p@),
                forall|k: int| 0 <= k < p ==> text_le(#[trigger] ov[k], x@),
            decreases out@.len() - p,
        {
            p = p + 1;
        }
        out.insert(p, x);
        let ghost nv = out@.map_values(|p: String| p@);
        assert(nv =~= ov.insert(p as int, x@));
        proof {
            broadcast use vstd::seq_lib::to_multiset_insert, vstd::seq_lib::to_multiset_build;
            assert(input.take(i + 1) =~= input.take(i as int).push(input[i as int]));
            assert(input[i as int] == x@);
            if p < ov.len() {
                assert(!text_le(ov[p as int], x@));
                lemma_text_le_total(ov[p as int], x@);
            }
            assert forall|a: int, b: int| 0 <= a < b < nv.len() implies #[trigger] text_le(nv[a], nv[b]) by {
                let r = text_order();
                if b < p {
                    assert(nv[a] == ov[a] && nv[b] == ov[b]);
                    assert(r(ov[a], ov[b]));
                } else if b == p {
                    assert(nv[a] == ov[a]);
                } else if a == p {
                    assert(nv[b] == ov[b - 1]);
                    if b - 1 > p {
                        assert(r(ov[p as int], ov[b - 1]));
                    } else {
                        lemma_text_le_reflexive(ov[p as int]);
                    }
                    lemma_text_le_transitive(x@, ov[p as int], ov[b - 1]);
                } else if a < p {
                    assert(nv[a] == ov[a] && nv[b] == ov[b - 1]);
                    assert(r(ov[a], ov[b - 1]));
                } else {
                    assert(nv[a] == ov[a - 1] && nv[b] == ov[b - 1]);
                    assert(r(ov[a - 1], ov[b - 1]));
                }
            }
        }
        i = i + 1;
    }
    proof {
        assert(input.take(input.len() as int) =~= input);
        input.lemma_sort_by_ensures(text_order());
        vstd::seq_lib::lemma_sorted_unique(out@.map_values(|p: String| p@), input.sort_by(text_order()), text_order());
    }
    out
}

} // verus!
