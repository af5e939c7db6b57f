//! Laws of the deque, stated over its abstract model.
//!
//! Every operation's contract maps it to a sequence: `push_front` prepends,
//! `push_back` appends, `pop_front` takes the first element and `pop_back`
//! the last, and the mutable peeks replace the element at the touched end.
//! The lemmas here state, once and for every sequence, how those operations
//! compose.

use vstd::prelude::*;

verus! {

/// Deque order.  For any list content `s` and element `e`: an element
/// pushed at one end is what a pop from that same end returns, and that pop
/// restores the previous content (last in, first out); a push at one end
/// never changes what a pop from the opposite end returns (first in, first
/// out across ends).
pub proof fn lemma_deque_order<T>(s: Seq<T>, e: T)
    ensures
        seq![e].add(s).first() == e,
        seq![e].add(s).drop_first() == s,
        s.push(e).last() == e,
        s.push(e).drop_last() == s,
        s.len() > 0 ==> seq![e].add(s).last() == s.last(),
        s.len() > 0 ==> s.push(e).first() == s.first(),
{
    assert(seq![e].add(s).drop_first() =~= s);
    assert(s.push(e).drop_last() =~= s);
}

/// The two cursors of the consuming iterator converge without overlap or
/// duplication: while at least two elements remain, a step from the front
/// and a step from the back remove distinct elements, in either order, and
/// neither step changes what the other yields.
pub proof fn lemma_cursors_converge<T>(s: Seq<T>)
    requires
        s.len() >= 2,
    ensures
        s.drop_first().drop_last() == s.drop_last().drop_first(),
        s.drop_first().last() == s.last(),
        s.drop_last().first() == s.first(),
{
    assert(s.drop_first().drop_last() =~= s.drop_last().drop_first());
}

/// A value written through the view that `peek_front_mut` returns is what
/// the next `pop_front` yields, and the rest of the list is untouched;
/// symmetrically for `peek_back_mut` and `pop_back`.
pub proof fn lemma_peek_mut_then_pop<T>(s: Seq<T>, v: T)
    requires
        s.len() > 0,
    ensures
        s.update(0, v).first() == v,
        s.update(0, v).drop_first() == s.drop_first(),
        s.update(s.len() - 1, v).last() == v,
        s.update(s.len() - 1, v).drop_last() == s.drop_last(),
{
    assert(s.update(0, v).drop_first() =~= s.drop_first());
    assert(s.update(s.len() - 1, v).drop_last() =~= s.drop_last());
}

} // verus!
