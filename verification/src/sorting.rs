//! Sorting of numbers that carry an index.

use vstd::prelude::*;

verus! {

/// Order of ranked indices: by rank, then by index.
pub open spec fn ranked_le(a: (u64, usize), b: (u64, usize)) -> bool {
    a.0 < b.0 || (a.0 == b.0 && a.1 <= b.1)
}

/// `s` is in order.
pub open spec fn ranked_sorted(s: Seq<(u64, usize)>) -> bool {
    forall|i: int, j: int| 0 <= i <= j < s.len() ==> ranked_le(#[trigger] s[i], #[trigger] s[j])
}

fn le(a: (u64, usize), b: (u64, usize)) -> (result: bool)
    ensures
        result == ranked_le(a, b),
{
    a.0 < b.0 || (a.0 == b.0 && a.1 <= b.1)
}

proof fn take_next(s: Seq<(u64, usize)>, i: int)
    requires
        0 <= i < s.len(),
    ensures
        s.take(i + 1).to_multiset() == s.take(i).to_multiset().insert(s[i]),
{
    assert(s.take(i + 1) =~= s.take(i).push(s[i]));
    s.take(i).to_multiset_ensures();
}

fn merge(a: &Vec<(u64, usize)>, b: &Vec<(u64, usize)>) -> (out: Vec<(u64, usize)>)
    requires
        ranked_sorted(a@),
        ranked_sorted(b@),
    ensures
        ranked_sorted(out@),
        out@.to_multiset() == a@.to_multiset().add(b@.to_multiset()),
{
    let mut out: Vec<(u64, usize)> = Vec::new();
    let mut i: usize = 0;
    let mut j: usize = 0;
    proof {
        assert(a@.take(0) =~= Seq::<(u64, usize)>::empty());
        assert(b@.take(0) =~= Seq::<(u64, usize)>::empty());
        out@.to_multiset_ensures();
        assert(out@ =~= Seq::<(u64, usize)>::empty());
        assert(out@.to_multiset() =~= a@.take(0).to_multiset().add(b@.take(0).to_multiset())) by {
            broadcast use vstd::seq_lib::group_to_multiset_ensures;
            assert(out@.to_multiset().len() == 0);
        }
    }
    while i < a.len() || j < b.len()
        invariant
            ranked_sorted(a@),
            ranked_sorted(b@),
            ranked_sorted(out@),
            i <= a@.len(),
            j <= b@.len(),
            out@.to_multiset() == a@.take(i as int).to_multiset().add(b@.take(j as int).to_multiset()),
            i < a@.len() ==> forall|k: int| 0 <= k < out@.len() ==> ranked_le(#[trigger] out@[k], a@[i as int]),
            j < b@.len() ==> forall|k: int| 0 <= k < out@.len() ==> ranked_le(#[trigger] out@[k], b@[j as int]),
        decreases a.len() - i + b.len() - j,
    {
        let from_left = j >= b.len() || (i < a.len() && le(a[i], b[j]));
        let ghost before = out@;
        if from_left {
            proof {
                take_next(a@, i as int);
                before.to_multiset_ensures();
            }
            out.push(a[i]);
            i += 1;
        } else {
            proof {
                take_next(b@, j as int);
                before.to_multiset_ensures();
            }
            out.push(b[j]);
            j += 1;
        }
        proof {
            assert(out@.to_multiset() =~= a@.take(i as int).to_multiset().add(
                b@.take(j as int).to_multiset(),
            ));
        }
    }
    proof {
        assert(a@.take(i as int) =~= a@);
        assert(b@.take(j as int) =~= b@);
    }
    out
}

/// Sorts ranked indices.
pub fn sort_ranked(items: &Vec<(u64, usize)>) -> (sorted: Vec<(u64, usize)>)
    ensures
        ranked_sorted(sorted@),
        sorted@.to_multiset() == items@.to_multiset(),
        sorted@.len() == items@.len(),
{
    let sorted = sort_range(items, 0, items.len());
    proof {
        assert(items@.subrange(0, items@.len() as int) =~= items@);
        sorted@.to_multiset_ensures();
        items@.to_multiset_ensures();
    }
    sorted
}

/// Sequences with the same items in another order stay so when each item is
/// mapped.
pub proof fn mapped_multisets<A, B>(a: Seq<A>, b: Seq<A>, f: spec_fn(A) -> B)
    requires
        a.to_multiset() == b.to_multiset(),
    ensures
        a.map_values(f).to_multiset() == b.map_values(f).to_multiset(),
    decreases a.len(),
{
    broadcast use vstd::seq_lib::group_to_multiset_ensures;

    a.to_multiset_ensures();
    b.to_multiset_ensures();
    if a.len() == 0 {
        assert(a.map_values(f) =~= b.map_values(f));
    } else {
        let x = a.last();
        assert(a.contains(x)) by {
            assert(a[a.len() - 1] == x);
        }
        assert(a.to_multiset().count(x) > 0);
        assert(b.contains(x));
        let i = choose|i: int| 0 <= i < b.len() && b[i] == x;
        let c = a.drop_last();
        let d = b.remove(i);
        assert(c =~= a.remove(a.len() - 1));
        assert(c.to_multiset() =~= d.to_multiset());
        mapped_multisets(c, d, f);
        let fc = c.map_values(f);
        let fd = d.map_values(f);
        assert(a.map_values(f) =~= fc.push(f(x)));
        assert(b.map_values(f) =~= fd.insert(i, f(x)));
        fc.to_multiset_ensures();
        vstd::seq_lib::to_multiset_insert(fd, i, f(x));
        assert(a.map_values(f).to_multiset() =~= b.map_values(f).to_multiset());
    }
}

/// Ascending order of numbers.
pub open spec fn ascending() -> spec_fn(u64, u64) -> bool {
    |a: u64, b: u64| a <= b
}

/// Sorts numbers.
pub fn sort_numbers(numbers: &Vec<u64>) -> (sorted: Vec<u64>)
    ensures
        sorted@ == numbers@.sort_by(ascending()),
        sorted@.len() == numbers@.len(),
        sorted@.to_multiset() == numbers@.to_multiset(),
{
    let mut items: Vec<(u64, usize)> = Vec::new();
    let mut i: usize = 0;
    while i < numbers.len()
        invariant
            i <= numbers@.len(),
            items@.len() == i,
            forall|k: int| 0 <= k < i ==> (#[trigger] items@[k]).0 == numbers@[k],
        decreases numbers.len() - i,
    {
        items.push((numbers[i], i));
        i += 1;
    }
    let ranked = sort_ranked(&items);
    let mut sorted: Vec<u64> = Vec::new();
    let mut j: usize = 0;
    while j < ranked.len()
        invariant
            j <= ranked@.len(),
            sorted@.len() == j,
            forall|k: int| 0 <= k < j ==> #[trigger] sorted@[k] == ranked@[k].0,
        decreases ranked.len() - j,
    {
        sorted.push(ranked[j].0);
        j += 1;
    }
    proof {
        let f = |item: (u64, usize)| item.0;
        mapped_multisets(ranked@, items@, f);
        assert(sorted@ =~= ranked@.map_values(f));
        assert(numbers@ =~= items@.map_values(f));
        let leq = ascending();
        assert(vstd::relations::total_ordering(leq));
        numbers@.lemma_sort_by_ensures(leq);
        assert(vstd::relations::sorted_by(sorted@, leq)) by {
            assert forall|a: int, b: int| 0 <= a < b < sorted@.len() implies #[trigger] leq(
                sorted@[a],
                sorted@[b],
            ) by {
                assert(ranked_le(ranked@[a], ranked@[b]));
            }
        }
        vstd::seq_lib::lemma_sorted_unique(sorted@, numbers@.sort_by(leq), leq);
    }
    sorted
}

fn sort_range(items: &Vec<(u64, usize)>, from: usize, to: usize) -> (sorted: Vec<(u64, usize)>)
    requires
        from <= to <= items@.len(),
    ensures
        ranked_sorted(sorted@),
        sorted@.to_multiset() == items@.subrange(from as int, to as int).to_multiset(),
    decreases to - from,
{
    if to - from <= 1 {
        let mut out: Vec<(u64, usize)> = Vec::new();
        if from < to {
            out.push(items[from]);
        }
        assert(out@ =~= items@.subrange(from as int, to as int));
        return out;
    }
    let middle: usize = from + (to - from) / 2;
    let left = sort_range(items, from, middle);
    let right = sort_range(items, middle, to);
    proof {
        let x = items@.subrange(from as int, middle as int);
        let y = items@.subrange(middle as int, to as int);
        assert(x + y =~= items@.subrange(from as int, to as int));
        vstd::seq_lib::lemma_multiset_commutative(x, y);
    }
    merge(&left, &right)
}

} // verus!
