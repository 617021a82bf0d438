//! A stable sort by layer index.

use vstd::prelude::*;

verus! {

/// Something that came from a layer of the image.
pub trait LayerKey {
    spec fn layer_of(&self) -> usize;
}

/// Something that came from a layer of the image and can tell which.
pub trait Layered: LayerKey {
    fn layer(&self) -> (r: usize)
        ensures
            r == self.layer_of(),
    ;
}

/// The items of `s` that came from layer `l`, in their order in `s`.
pub open spec fn with_layer<T: LayerKey>(s: Seq<T>, l: usize) -> Seq<T>
    decreases s.len(),
{
    if s.len() == 0 {
        Seq::empty()
    } else {
        let r = with_layer(s.drop_last(), l);
        if s.last().layer_of() == l {
            r.push(s.last())
        } else {
            r
        }
    }
}

/// Ascending by layer index.
pub open spec fn sorted_by_layer<T: LayerKey>(s: Seq<T>) -> bool {
    forall|i: int, j: int| 0 <= i <= j < s.len() ==> #[trigger] s[i].layer_of() <= #[trigger] s[j].layer_of()
}

/// `output` is `input` sorted stably by layer index: ascending, and the
/// items of each layer keep their relative order.
pub open spec fn stable_sort_of<T: LayerKey>(input: Seq<T>, output: Seq<T>) -> bool {
    &&& sorted_by_layer(output)
    &&& forall|l: usize| #[trigger] with_layer(output, l) == with_layer(input, l)
}

proof fn lemma_with_layer_append<T: LayerKey>(a: Seq<T>, b: Seq<T>, l: usize)
    ensures
        with_layer(a + b, l) == with_layer(a, l) + with_layer(b, l),
    decreases b.len(),
{
    if b.len() == 0 {
        assert(a + b =~= a);
        assert(with_layer(a, l) + with_layer(b, l) =~= with_layer(a, l));
    } else {
        lemma_with_layer_append(a, b.drop_last(), l);
        assert((a + b).drop_last() =~= a + b.drop_last());
        assert((a + b).last() == b.last());
        if b.last().layer_of() == l {
            assert(with_layer(a, l) + with_layer(b, l) =~= (with_layer(a, l) + with_layer(b.drop_last(), l)).push(b.last()));
        }
    }
}

proof fn lemma_with_layer_none<T: LayerKey>(s: Seq<T>, l: usize)
    requires
        forall|q: int| 0 <= q < s.len() ==> #[trigger] s[q].layer_of() != l,
    ensures
        with_layer(s, l) == Seq::<T>::empty(),
    decreases s.len(),
{
    if s.len() > 0 {
        lemma_with_layer_none(s.drop_last(), l);
    }
}

proof fn lemma_with_layer_insert<T: LayerKey>(s: Seq<T>, p: int, x: T, l: usize)
    requires
        0 <= p <= s.len(),
        forall|q: int| p <= q < s.len() ==> #[trigger] s[q].layer_of() != x.layer_of(),
    ensures
        with_layer(s.insert(p, x), l) == if l == x.layer_of() {
            with_layer(s, l).push(x)
        } else {
            with_layer(s, l)
        },
{
    let a = s.take(p);
    let b = s.skip(p);
    assert(s =~= a + b);
    assert(s.insert(p, x) =~= a + seq![x] + b);
    lemma_with_layer_append(a + seq![x], b, l);
    lemma_with_layer_append(a, seq![x], l);
    lemma_with_layer_append(a, b, l);
    assert(seq![x].drop_last() =~= Seq::<T>::empty());
    assert(seq![x].last() == x);
    reveal_with_fuel(with_layer, 2);
    if l == x.layer_of() {
        assert(with_layer(seq![x], l) =~= seq![x]);
    } else {
        assert(with_layer(seq![x], l) =~= Seq::<T>::empty());
    }
    assert(with_layer(a + seq![x] + b, l) == with_layer(a, l) + with_layer(seq![x], l) + with_layer(b, l));
    if l == x.layer_of() {
        assert forall|q: int| 0 <= q < b.len() implies #[trigger] b[q].layer_of() != l by {
            assert(b[q] == s[p + q]);
        }
        lemma_with_layer_none(b, l);
        assert(with_layer(s, l) =~= with_layer(a, l));
    }
}

/// Sorts `v` by layer index, keeping the order of items of equal layer.
pub fn stable_sort_by_layer<T: Layered>(v: Vec<T>) -> (out: Vec<T>)
    ensures
        stable_sort_of(v@, out@),
{
    let ghost input = v@;
    let n = v.len();
    assert(input.len() == n);
    let mut rest = v;
    let mut out: Vec<T> = Vec::new();
    let mut i: usize = 0;
    assert(input.take(0) =~= Seq::<T>::empty());
    assert(rest@ =~= input.skip(0));
    while rest.len() > 0
        invariant
            i <= input.len(),
            input.len() <= usize::MAX,
            rest@ == input.skip(i as int),
            sorted_by_layer(out@),
            forall|l: usize| #[trigger] with_layer(out@, l) == with_layer(input.take(i as int), l),
        decreases rest@.len(),
    {
        let x = rest.remove(0);
        assert(x == input[i as int]);
        assert(rest@ =~= input.skip(i as int + 1));
        let xl = x.layer();
        let mut p: usize = 0;
        while p < out.len() && out[p].layer() <= xl
            invariant
                p <= out@.len(),
                xl == x.layer_of(),
                forall|q: int| 0 <= q < p ==> #[trigger] out@[q].layer_of() <= xl,
            decreases out@.len() - p,
        {
            p = p + 1;
        }
        let ghost before = out@;
        proof {
            assert forall|q: int| p <= q < before.len() implies #[trigger] before[q].layer_of() != x.layer_of() by {
                assert(before[p as int].layer_of() > xl);
                assert(before[p as int].layer_of() <= before[q].layer_of());
            }
        }
        out.insert(p, x);
        proof {
            assert(input.take(i as int + 1).drop_last() =~= input.take(i as int));
            assert(input.take(i as int + 1).last() == x);
            assert forall|l: usize| #[trigger] with_layer(out@, l) == with_layer(input.take(i as int + 1), l) by {
                lemma_with_layer_insert(before, p as int, x, l);
            }
            assert forall|a: int, b: int| 0 <= a <= b < out@.len() implies #[trigger] out@[a].layer_of()
                <= #[trigger] out@[b].layer_of() by {
                if a < p && b < p {
                    assert(out@[a] == before[a] && out@[b] == before[b]);
                } else if a < p && b == p {
                    assert(out@[a] == before[a]);
                } else if a < p && b > p {
                    assert(out@[a] == before[a] && out@[b] == before[b - 1]);
                    assert(before[a].layer_of() <= before[b - 1].layer_of());
                } else if a == p && b > p {
                    assert(out@[b] == before[b - 1]);
                    assert(before[p as int].layer_of() > xl);
                    assert(before[p as int].layer_of() <= before[b - 1].layer_of());
                } else if a > p {
                    assert(out@[a] == before[a - 1] && out@[b] == before[b - 1]);
                }
            }
        }
        i = i + 1;
    }
    assert(input.take(i as int) =~= input);
    out
}

/// Mapping each item to another with the same layer commutes with taking
/// the items of one layer.
pub proof fn lemma_with_layer_map<T: LayerKey, U: LayerKey>(s: Seq<T>, f: spec_fn(T) -> U, l: usize)
    requires
        forall|x: T| #[trigger] f(x).layer_of() == x.layer_of(),
    ensures
        with_layer(s.map_values(f), l) == with_layer(s, l).map_values(f),
    decreases s.len(),
{
    if s.len() > 0 {
        lemma_with_layer_map(s.drop_last(), f, l);
        assert(s.map_values(f).drop_last() =~= s.drop_last().map_values(f));
        assert(f(s.last()).layer_of() == s.last().layer_of());
        if s.last().layer_of() == l {
            assert(with_layer(s, l).map_values(f) =~= with_layer(s.drop_last(), l).map_values(f).push(f(s.last())));
        }
    } else {
        assert(with_layer(s, l).map_values(f) =~= Seq::<U>::empty());
    }
}

/// A stable sort stays one when every item is mapped to another with the
/// same layer.
pub proof fn lemma_stable_sort_map<T: LayerKey, U: LayerKey>(input: Seq<T>, output: Seq<T>, f: spec_fn(T) -> U)
    requires
        stable_sort_of(input, output),
        forall|x: T| #[trigger] f(x).layer_of() == x.layer_of(),
    ensures
        stable_sort_of(input.map_values(f), output.map_values(f)),
{
    assert forall|i: int, j: int| 0 <= i <= j < output.map_values(f).len() implies #[trigger] output.map_values(f)[i].layer_of()
        <= #[trigger] output.map_values(f)[j].layer_of() by {
        assert(output[i].layer_of() <= output[j].layer_of());
    }
    assert forall|l: usize| #[trigger] with_layer(output.map_values(f), l) == with_layer(input.map_values(f), l) by {
        lemma_with_layer_map(output, f, l);
        lemma_with_layer_map(input, f, l);
        assert(with_layer(output, l) == with_layer(input, l));
    }
}

proof fn lemma_count_within_layer<T: LayerKey>(s: Seq<T>, x: T)
    ensures
        s.to_multiset().count(x) == with_layer(s, x.layer_of()).to_multiset().count(x),
    decreases s.len(),
{
    broadcast use vstd::seq_lib::group_to_multiset_ensures;
    if s.len() == 0 {
        assert(with_layer(s, x.layer_of()) =~= Seq::<T>::empty());
    } else {
        lemma_count_within_layer(s.drop_last(), x);
        assert(s =~= s.drop_last().push(s.last()));
        let w = with_layer(s.drop_last(), x.layer_of());
        if s.last().layer_of() == x.layer_of() {
            assert(with_layer(s, x.layer_of()) == w.push(s.last()));
        } else {
            assert(s.last() != x);
        }
    }
}

/// A stable sort hands back every item of its input, each as many times as
/// it occurs there.
pub proof fn law_stable_sort_is_permutation<T: LayerKey>(input: Seq<T>, output: Seq<T>)
    requires
        stable_sort_of(input, output),
    ensures
        output.to_multiset() == input.to_multiset(),
        output.len() == input.len(),
{
    broadcast use vstd::seq_lib::group_to_multiset_ensures;
    assert forall|x: T| output.to_multiset().count(x) == input.to_multiset().count(x) by {
        lemma_count_within_layer(output, x);
        lemma_count_within_layer(input, x);
        assert(with_layer(output, x.layer_of()) == with_layer(input, x.layer_of()));
    }
    assert(output.to_multiset() =~= input.to_multiset());
    assert(output.len() == output.to_multiset().len());
    assert(input.len() == input.to_multiset().len());
}

} // verus!
