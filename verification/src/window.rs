use vstd::prelude::*;

verus! {

/// The largest element of `ws`, and 0 for an empty sequence.
pub open spec fn seq_max(ws: Seq<usize>) -> nat
    decreases ws.len(),
{
    if ws.len() == 0 {
        0
    } else {
        let rest = seq_max(ws.drop_last());
        if ws.last() as nat > rest {
            ws.last() as nat
        } else {
            rest
        }
    }
}

/// `seq_max` bounds every element and, on a non-empty sequence, is one of them.
pub proof fn lemma_seq_max(ws: Seq<usize>)
    ensures
        forall|i: int| 0 <= i < ws.len() ==> ws[i] <= seq_max(ws),
        ws.len() == 0 ==> seq_max(ws) == 0,
        ws.len() > 0 ==> exists|i: int| 0 <= i < ws.len() && ws[i] == seq_max(ws),
    decreases ws.len(),
{
    if ws.len() > 0 {
        lemma_seq_max(ws.drop_last());
        assert forall|i: int| 0 <= i < ws.len() implies ws[i] <= seq_max(ws) by {
            if i < ws.len() - 1 {
                assert(ws[i] == ws.drop_last()[i]);
            }
        }
        if seq_max(ws) == ws.last() {
            assert(ws[ws.len() - 1] == seq_max(ws));
        } else {
            let j = choose|j: int| 0 <= j < ws.drop_last().len() && ws.drop_last()[j] == seq_max(ws.drop_last());
            assert(ws[j] == seq_max(ws));
        }
    }
}

/// Adding a signal to a group gives the group the larger of the two windows.
pub proof fn law_seq_max_push(ws: Seq<usize>, w: usize)
    ensures
        seq_max(ws.push(w)) == if w as nat > seq_max(ws) { w as nat } else { seq_max(ws) },
{
    assert(ws.push(w).drop_last() == ws);
}

/// The window a group of signals needs: the largest of the windows of its
/// members, or 0 when the group is empty.
pub fn max_window(ws: &Vec<usize>) -> (r: usize)
    ensures
        r == seq_max(ws@),
        forall|i: int| 0 <= i < ws.len() ==> ws[i] <= r,
        ws.len() == 0 ==> r == 0,
        ws.len() > 0 ==> exists|i: int| 0 <= i < ws.len() && ws[i] == r,
{
    let mut r: usize = 0;
    let mut i: usize = 0;
    while i < ws.len()
        invariant
            i <= ws.len(),
            r == seq_max(ws@.take(i as int)),
        decreases ws.len() - i,
    {
        assert(ws@.take(i as int + 1).drop_last() == ws@.take(i as int));
        if ws[i] > r {
            r = ws[i];
        }
        i = i + 1;
    }
    assert(ws@.take(ws.len() as int) == ws@);
    proof {
        lemma_seq_max(ws@);
    }
    r
}

} // verus!
