//! What is still alive once an application is torn down.

use vstd::prelude::*;

verus! {

/// The actors of `counted` that something still holds, each with how many
/// hold it besides the count itself, in the order they were tracked.
pub open spec fn leaks_of(counted: Seq<(&'static str, usize)>) -> Seq<(&'static str, usize)>
    decreases counted.len(),
{
    if counted.len() == 0 {
        Seq::empty()
    } else if counted.last().1 > 1 {
        leaks_of(counted.drop_last()).push((counted.last().0, (counted.last().1 - 1) as usize))
    } else {
        leaks_of(counted.drop_last())
    }
}

/// Reads the counts taken at teardown: each actor tracked by its name and
/// the number of handles to its counter, the teardown's own among them. An
/// actor that nothing else holds was torn down; the others leaked, and are
/// listed with how many hold them still.
pub fn leaks(counted: &Vec<(&'static str, usize)>) -> (r: Vec<(&'static str, usize)>)
    ensures
        r@ == leaks_of(counted@),
        forall|i: int| 0 <= i < r@.len() ==> #[trigger] r@[i].1 > 0,
{
    let mut out: Vec<(&'static str, usize)> = Vec::new();
    let mut k: usize = 0;
    while k < counted.len()
        invariant
            k <= counted.len(),
            out@ == leaks_of(counted@.take(k as int)),
            forall|i: int| 0 <= i < out@.len() ==> #[trigger] out@[i].1 > 0,
        decreases counted.len() - k,
    {
        proof {
            assert(counted@.take(k + 1).drop_last() =~= counted@.take(k as int));
            assert(counted@.take(k + 1).last() == counted@[k as int]);
        }
        let (name, held) = counted[k];
        if held > 1 {
            out.push((name, held - 1));
        }
        k = k + 1;
    }
    proof {
        assert(counted@.take(k as int) =~= counted@);
    }
    out
}

} // verus!
