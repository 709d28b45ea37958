//! Ordering namespaces by ID, stably.

use vstd::prelude::*;
use crate::model::Namespace;

verus! {

/// The namespaces of `s` with ID `k`, in their order in `s`.
pub open spec fn with_id(s: Seq<Namespace>, k: u32) -> Seq<Namespace>
    decreases s.len(),
{
    if s.len() == 0 {
        Seq::empty()
    } else {
        let r = with_id(s.drop_last(), k);
        if s.last().id == k {
            r.push(s.last())
        } else {
            r
        }
    }
}

/// IDs never decrease along `s`.
pub open spec fn sorted_by_id(s: Seq<Namespace>) -> bool {
    forall|i: int, j: int| 0 <= i <= j < s.len() ==> s[i].id <= s[j].id
}

/// `out` is what a stable sort of `inp` by ID gives: sorted by ID, and for
/// each ID the namespaces that hold it, in the order they had in `inp`.
pub open spec fn is_stable_sort_by_id(out: Seq<Namespace>, inp: Seq<Namespace>) -> bool {
    &&& sorted_by_id(out)
    &&& forall|k: u32| #[trigger] with_id(out, k) == with_id(inp, k)
}

/// Selecting by ID distributes over concatenation.
pub proof fn lemma_with_id_add(a: Seq<Namespace>, b: Seq<Namespace>, k: u32)
    ensures
        with_id(a + b, k) == with_id(a, k) + with_id(b, k),
    decreases b.len(),
{
    if b.len() == 0 {
        assert(a + b =~= a);
        assert(with_id(a, k) + with_id(b, k) =~= with_id(a, k));
    } else {
        assert((a + b).drop_last() =~= a + b.drop_last());
        lemma_with_id_add(a, b.drop_last(), k);
        if b.last().id == k {
            assert(with_id(a, k) + with_id(b.drop_last(), k).push(b.last()) =~= (with_id(a, k)
                + with_id(b.drop_last(), k)).push(b.last()));
        }
    }
}

/// A sequence none of whose IDs is `k` holds nothing with ID `k`.
pub proof fn lemma_with_id_none(s: Seq<Namespace>, k: u32)
    requires
        forall|i: int| 0 <= i < s.len() ==> s[i].id != k,
    ensures
        with_id(s, k) == Seq::<Namespace>::empty(),
    decreases s.len(),
{
    if s.len() > 0 {
        lemma_with_id_none(s.drop_last(), k);
    }
}

/// Something has ID `k` exactly when selecting ID `k` yields something.
pub proof fn lemma_with_id_nonempty(s: Seq<Namespace>, k: u32)
    ensures
        with_id(s, k).len() > 0 <==> exists|i: int| 0 <= i < s.len() && #[trigger] s[i].id == k,
    decreases s.len(),
{
    if s.len() > 0 {
        lemma_with_id_nonempty(s.drop_last(), k);
        if exists|i: int| 0 <= i < s.len() && #[trigger] s[i].id == k {
            let i = choose|i: int| 0 <= i < s.len() && #[trigger] s[i].id == k;
            if i < s.len() - 1 {
                assert(s.drop_last()[i].id == k);
            }
        }
        if with_id(s.drop_last(), k).len() > 0 {
            let i = choose|i: int| 0 <= i < s.drop_last().len() && #[trigger] s.drop_last()[i].id == k;
            assert(s[i].id == k);
        }
    }
}

/// Two sequences sorted by ID that hold, for every ID, the same namespaces
/// in the same order, are equal.
pub proof fn lemma_sorted_same_selections(a: Seq<Namespace>, b: Seq<Namespace>)
    requires
        sorted_by_id(a),
        sorted_by_id(b),
        forall|k: u32| #[trigger] with_id(a, k) == with_id(b, k),
    ensures
        a == b,
    decreases a.len() + b.len(),
{
    if a.len() == 0 && b.len() == 0 {
        assert(a =~= b);
    } else if a.len() == 0 {
        lemma_with_id_nonempty(b, b.last().id);
        lemma_with_id_nonempty(a, b.last().id);
        assert(b[b.len() - 1].id == b.last().id);
        assert(with_id(a, b.last().id) == with_id(b, b.last().id));
    } else if b.len() == 0 {
        lemma_with_id_nonempty(a, a.last().id);
        lemma_with_id_nonempty(b, a.last().id);
        assert(a[a.len() - 1].id == a.last().id);
        assert(with_id(a, a.last().id) == with_id(b, a.last().id));
    } else {
        let ka = a.last().id;
        let kb = b.last().id;
        assert(a[a.len() - 1].id == ka);
        assert(b[b.len() - 1].id == kb);
        lemma_with_id_nonempty(a, ka);
        lemma_with_id_nonempty(b, ka);
        lemma_with_id_nonempty(a, kb);
        lemma_with_id_nonempty(b, kb);
        assert(with_id(a, ka) == with_id(b, ka));
        assert(with_id(a, kb) == with_id(b, kb));
        let ib = choose|i: int| 0 <= i < b.len() && #[trigger] b[i].id == ka;
        let ia = choose|i: int| 0 <= i < a.len() && #[trigger] a[i].id == kb;
        assert(ka <= kb);
        assert(kb <= ka);
        let k = ka;
        assert(with_id(a, k) == with_id(a.drop_last(), k).push(a.last()));
        assert(with_id(b, k) == with_id(b.drop_last(), k).push(b.last()));
        assert(a.last() == with_id(a, k).last());
        assert(b.last() == with_id(b, k).last());
        assert(with_id(a.drop_last(), k) =~= with_id(a, k).drop_last());
        assert(with_id(b.drop_last(), k) =~= with_id(b, k).drop_last());
        assert forall|j: u32| #[trigger] with_id(a.drop_last(), j) == with_id(b.drop_last(), j) by {
            assert(with_id(a, j) == with_id(b, j));
        }
        lemma_sorted_same_selections(a.drop_last(), b.drop_last());
        assert(a =~= a.drop_last().push(a.last()));
        assert(b =~= b.drop_last().push(b.last()));
    }
}

/// A stable sort by ID has one result: any two stable sorts of the same
/// namespaces are equal.
pub proof fn lemma_stable_sort_unique(a: Seq<Namespace>, b: Seq<Namespace>, inp: Seq<Namespace>)
    requires
        is_stable_sort_by_id(a, inp),
        is_stable_sort_by_id(b, inp),
    ensures
        a == b,
{
    assert forall|k: u32| #[trigger] with_id(a, k) == with_id(b, k) by {
        assert(with_id(a, k) == with_id(inp, k));
        assert(with_id(b, k) == with_id(inp, k));
    }
    lemma_sorted_same_selections(a, b);
}

/// No two namespaces of `ns` share an ID.
pub open spec fn ids_distinct(ns: Seq<Namespace>) -> bool {
    forall|i: int, j: int| 0 <= i < j < ns.len() ==> ns[i].id != ns[j].id
}

/// With distinct IDs, at most one namespace has any given ID.
pub proof fn lemma_with_id_at_most_one(s: Seq<Namespace>, k: u32)
    requires
        ids_distinct(s),
    ensures
        with_id(s, k).len() <= 1,
    decreases s.len(),
{
    if s.len() > 0 {
        let d = s.drop_last();
        assert forall|i: int, j: int| 0 <= i < j < d.len() implies d[i].id != d[j].id by {
            assert(d[i] == s[i] && d[j] == s[j]);
        }
        lemma_with_id_at_most_one(d, k);
        if s.last().id == k {
            lemma_with_id_nonempty(d, k);
            if with_id(d, k).len() > 0 {
                let i = choose|i: int| 0 <= i < d.len() && #[trigger] d[i].id == k;
                assert(s[i].id == s[s.len() - 1].id);
            }
        }
    }
}

/// Two namespaces with ID `k` make at least two selected for `k`.
pub proof fn lemma_with_id_two(s: Seq<Namespace>, i: int, j: int)
    requires
        0 <= i < j < s.len(),
        s[i].id == s[j].id,
    ensures
        with_id(s, s[j].id).len() >= 2,
    decreases s.len(),
{
    let k = s[j].id;
    let d = s.drop_last();
    if j == s.len() - 1 {
        assert(d[i].id == k);
        lemma_with_id_nonempty(d, k);
    } else {
        assert(d[i] == s[i] && d[j] == s[j]);
        lemma_with_id_two(d, i, j);
    }
}

/// A stable sort of namespaces with distinct IDs lists them by strictly
/// increasing ID.
pub proof fn lemma_stable_sort_distinct(out: Seq<Namespace>, inp: Seq<Namespace>)
    requires
        is_stable_sort_by_id(out, inp),
        ids_distinct(inp),
    ensures
        forall|i: int, j: int| 0 <= i < j < out.len() ==> out[i].id < out[j].id,
{
    assert forall|i: int, j: int| 0 <= i < j < out.len() implies out[i].id < out[j].id by {
        if out[i].id == out[j].id {
            lemma_with_id_two(out, i, j);
            lemma_with_id_at_most_one(inp, out[j].id);
            assert(with_id(out, out[j].id) == with_id(inp, out[j].id));
        }
    }
}

/// Sorts `v` by ID, keeping namespaces of equal ID in their order.
pub fn sort_namespaces_by_id(v: &mut Vec<Namespace>)
    ensures
        is_stable_sort_by_id(final(v)@, old(v)@),
{
    let ghost inp = v@;
    let mut out: Vec<Namespace> = Vec::new();
    let mut i: usize = 0;
    proof {
        assert forall|k: u32| #[trigger] with_id(out@, k) == with_id(inp.take(0), k) by {
            assert(inp.take(0) =~= Seq::<Namespace>::empty());
        }
    }
    while i < v.len()
        invariant
            v@ == inp,
            i <= v.len(),
            sorted_by_id(out@),
            forall|k: u32| #[trigger] with_id(out@, k) == with_id(inp.take(i as int), k),
        decreases v.len() - i,
    {
        let x = v[i];
        let mut pos: usize = 0;
        while pos < out.len() && out[pos].id <= x.id
            invariant
                pos <= out.len(),
                forall|j: int| 0 <= j < pos ==> out@[j].id <= x.id,
            decreases out.len() - pos,
        {
            pos += 1;
        }
        let ghost old_out = out@;
        proof {
            assert forall|j: int| pos <= j < old_out.len() implies old_out[j].id > x.id by {
                assert(old_out[pos as int].id > x.id);
            }
        }
        out.insert(pos, x);
        proof {
            let a = old_out.take(pos as int);
            let b = old_out.skip(pos as int);
            assert(old_out =~= a + b);
            assert(out@ =~= a + seq![x] + b);
            assert(inp.take(i + 1) =~= inp.take(i as int).push(x));
            assert forall|k: u32| #[trigger] with_id(out@, k) == with_id(inp.take(i + 1), k) by {
                lemma_with_id_add(a + seq![x], b, k);
                lemma_with_id_add(a, seq![x], k);
                lemma_with_id_add(a, b, k);
                lemma_with_id_add(inp.take(i as int), seq![x], k);
                assert(seq![x].drop_last() =~= Seq::<Namespace>::empty());
                lemma_with_id_none(Seq::<Namespace>::empty(), k);
                assert(seq![x].last() == x);
                let wa = with_id(a, k);
                let wb = with_id(b, k);
                let wi = with_id(inp.take(i as int), k);
                assert(inp.take(i + 1) =~= inp.take(i as int) + seq![x]);
                assert(with_id(old_out, k) == wi);
                assert(with_id(old_out, k) == wa + wb);
                if k == x.id {
                    assert(with_id(seq![x], k) =~= seq![x]);
                    lemma_with_id_none(b, k);
                    assert(wa + wb =~= wa);
                    assert(with_id(out@, k) =~= wa + seq![x]);
                    assert(with_id(inp.take(i + 1), k) =~= wi + seq![x]);
                } else {
                    lemma_with_id_none(seq![x], k);
                    assert(with_id(out@, k) =~= wa + wb);
                    assert(with_id(inp.take(i + 1), k) =~= wi);
                }
            }
            assert forall|p: int, q: int| 0 <= p <= q < out@.len() implies out@[p].id
                <= out@[q].id by {
                if p < pos && q > pos {
                    assert(out@[p] == old_out[p]);
                    assert(out@[q] == old_out[q - 1]);
                } else if p < pos && q == pos {
                } else if p == pos && q > pos {
                    assert(out@[q] == old_out[q - 1]);
                } else if p > pos {
                    assert(out@[p] == old_out[p - 1]);
                    assert(out@[q] == old_out[q - 1]);
                }
            }
        }
        i += 1;
    }
    proof {
        assert(inp.take(i as int) =~= inp);
    }
    *v = out;
}

} // verus!
