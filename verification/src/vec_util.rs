//! Vectors taken apart from the front.

use vstd::prelude::*;

verus! {

/// A sequence of the same items in the opposite order.
pub(crate) fn reversed<A>(v: Vec<A>) -> (r: Vec<A>)
    ensures
        r@ == v@.reverse(),
{
    let mut src = v;
    let mut out: Vec<A> = Vec::new();
    loop
        invariant
            out@ + src@.reverse() == v@.reverse(),
        decreases src@.len(),
    {
        let ghost before = src@;
        let ghost done = out@;
        match src.pop() {
            Some(x) => {
                out.push(x);
                assert(done.push(x) + before.drop_last().reverse() =~= done + before.reverse());
            },
            None => {
                assert(out@ + src@.reverse() =~= out@);
                return out;
            },
        }
    }
}

/// Taking the first item off a sequence is taking the last off its reverse.
pub(crate) proof fn lemma_reverse_step<A>(s: Seq<A>)
    requires
        s.len() > 0,
    ensures
        s.reverse().last() == s[0],
        s.reverse().drop_last() == s.skip(1).reverse(),
{
    assert(s.reverse().drop_last() =~= s.skip(1).reverse());
}

} // verus!
