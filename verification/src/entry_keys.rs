//! Keys extracted from lists of interval entries.
use vstd::prelude::*;
use core::ops::Range;

verus! {

/// The keys of a sequence of entries.
pub open spec fn key_seq<V>(s: Seq<(Range<i64>, V)>) -> Seq<Range<i64>> {
    s.map_values(|e: (Range<i64>, V)| e.0)
}

/// The keys of a list of borrowed entries, in the same order.
pub fn borrowed_keys<'a, V>(items: &Vec<(&'a Range<i64>, &'a V)>) -> (r: Vec<&'a Range<i64>>)
    ensures
        r@.len() == items@.len(),
        forall|i: int| 0 <= i < r@.len() ==> r@[i] == items@[i].0,
{
    let mut out: Vec<&'a Range<i64>> = Vec::new();
    let mut i: usize = 0;
    while i < items.len()
        invariant
            i <= items@.len(),
            out@.len() == i,
            forall|j: int| 0 <= j < i ==> out@[j] == items@[j].0,
        decreases items@.len() - i,
    {
        let (k, _) = items[i];
        out.push(k);
        i += 1;
    }
    out
}

/// The keys of a list of owned entries, in the same order.
pub fn owned_keys<V>(items: Vec<(Range<i64>, V)>) -> (r: Vec<Range<i64>>)
    ensures
        r@ == key_seq(items@),
{
    let ghost all = items@;
    let mut out: Vec<Range<i64>> = Vec::new();
    for item in it: items
        invariant
            it.seq() == all,
            out@ == key_seq(all.take(it.index() as int)),
    {
        let (k, _) = item;
        out.push(k);
        proof {
            assert(key_seq(all.take(it.index() + 1)) =~= key_seq(all.take(it.index() as int)).push(all[it.index() as int].0));
        }
    }
    proof {
        assert(all.take(all.len() as int) =~= all);
    }
    out
}

} // verus!
