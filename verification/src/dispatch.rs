//! Round-robin dispatch bookkeeping. Chunk `i` goes to worker rank
//! `(i mod (N - 1)) + 1`; replies from one worker arrive in the order its
//! chunks were sent, so draining the per-worker reply queues round-robin
//! restores input order.

use vstd::prelude::*;

verus! {

/// The chunks that land in slot `w` (worker rank `w + 1`) when chunks are
/// dealt round-robin over `wrk` slots, in their send order.
pub open spec fn rr_slot(chunks: Seq<Seq<u8>>, wrk: nat, w: int) -> Seq<Seq<u8>>
    recommends
        wrk >= 1,
    decreases chunks.len(),
{
    if chunks.len() == 0 {
        Seq::empty()
    } else {
        rr_slot(chunks.drop_last(), wrk, w) + (if wrk >= 1 && (chunks.len() - 1) % (wrk as int)
            == w {
            seq![chunks.last()]
        } else {
            Seq::empty()
        })
    }
}

/// All slots of the round-robin deal.
pub open spec fn rr_split(chunks: Seq<Seq<u8>>, wrk: nat) -> Seq<Seq<Seq<u8>>> {
    Seq::new(wrk, |w: int| rr_slot(chunks, wrk, w))
}

/// The worker rank that processes chunk `i` among `size` ranks, rank 0
/// being the dispatcher.
pub fn rank_for_chunk(i: usize, size: usize) -> (rank: usize)
    requires
        size >= 2,
    ensures
        rank == i as int % (size - 1) + 1,
        1 <= rank < size,
{
    i % (size - 1) + 1
}

/// Deal chunks over `workers` slots: chunk `i` to slot `i mod workers`.
pub fn distribute(chunks: &Vec<Vec<u8>>, workers: usize) -> (slots: Vec<Vec<Vec<u8>>>)
    requires
        workers >= 1,
    ensures
        slots@.len() == workers,
        forall|w: int|
            0 <= w < workers ==> #[trigger] slots@[w].deep_view() == rr_slot(
                chunks.deep_view(),
                workers as nat,
                w,
            ),
{
    let ghost dv = chunks.deep_view();
    let mut slots: Vec<Vec<Vec<u8>>> = Vec::new();
    let mut z: usize = 0;
    while z < workers
        invariant
            z <= workers,
            slots@.len() == z,
            forall|w: int| 0 <= w < z ==> (#[trigger] slots@[w])@.len() == 0,
        decreases workers - z,
    {
        slots.push(Vec::new());
        z = z + 1;
    }
    let n = chunks.len();
    proof {
        assert forall|w: int| 0 <= w < workers implies #[trigger] slots@[w].deep_view() == rr_slot(
            dv.take(0),
            workers as nat,
            w,
        ) by {
            assert(dv.take(0).len() == 0);
            assert(slots@[w].deep_view() =~= rr_slot(dv.take(0), workers as nat, w));
        }
    }
    let mut i: usize = 0;
    while i < n
        invariant
            i <= n,
            n == chunks@.len(),
            dv == chunks.deep_view(),
            dv.len() == n,
            workers >= 1,
            slots@.len() == workers,
            forall|w: int|
                0 <= w < workers ==> #[trigger] slots@[w].deep_view() == rr_slot(
                    dv.take(i as int),
                    workers as nat,
                    w,
                ),
        decreases n - i,
    {
        let target = i % workers;
        let chunk = copy_chunk(&chunks[i]);
        let ghost pre = slots@;
        let slot = &mut slots[target];
        slot.push(chunk);
        proof {
            assert(slots@[target as int].deep_view() =~~= pre[target as int].deep_view().push(
                dv[i as int],
            ));
            assert forall|w: int|
                0 <= w < workers implies #[trigger] slots@[w].deep_view() == rr_slot(
                dv.take(i + 1),
                workers as nat,
                w,
            ) by {
                assert(dv.take(i + 1).drop_last() =~= dv.take(i as int));
                assert(dv.take(i + 1).last() == dv[i as int]);
                assert(rr_slot(dv.take(i + 1), workers as nat, w) == rr_slot(
                    dv.take(i as int),
                    workers as nat,
                    w,
                ) + (if (i as int) % (workers as int) == w {
                    seq![dv[i as int]]
                } else {
                    Seq::<Seq<u8>>::empty()
                }));
                if w == target {
                    assert(slots@[w].deep_view() =~= rr_slot(dv.take(i as int), workers as nat, w)
                        + seq![dv[i as int]]);
                } else {
                    assert(slots@[w] == pre[w]);
                    assert(rr_slot(dv.take(i as int), workers as nat, w)
                        + Seq::<Seq<u8>>::empty() =~= rr_slot(dv.take(i as int), workers as nat, w));
                }
            }
        }
        i = i + 1;
    }
    proof {
        assert(dv.take(n as int) =~= dv);
    }
    slots
}

/// A fresh copy of a chunk.
fn copy_chunk(v: &Vec<u8>) -> (r: Vec<u8>)
    ensures
        r@ == v@,
{
    let mut r: Vec<u8> = Vec::new();
    let n = v.len();
    let mut i: usize = 0;
    while i < n
        invariant
            i <= n,
            n == v@.len(),
            r@ == v@.take(i as int),
        decreases n - i,
    {
        r.push(v[i]);
        proof {
            assert(v@.take(i + 1) =~= v@.take(i as int).push(v@[i as int]));
        }
        i = i + 1;
    }
    proof {
        assert(v@.take(n as int) =~= v@);
    }
    r
}

/// A prefix of the deal is a prefix of each slot.
proof fn lemma_rr_prefix(cs: Seq<Seq<u8>>, wrk: nat, w: int, i: int)
    requires
        wrk >= 1,
        0 <= i <= cs.len(),
    ensures
        rr_slot(cs.take(i), wrk, w).len() <= rr_slot(cs, wrk, w).len(),
        rr_slot(cs, wrk, w).take(rr_slot(cs.take(i), wrk, w).len() as int) == rr_slot(
            cs.take(i),
            wrk,
            w,
        ),
    decreases cs.len() - i,
{
    if i == cs.len() {
        assert(cs.take(i) =~= cs);
        assert(rr_slot(cs, wrk, w).take(rr_slot(cs, wrk, w).len() as int) =~= rr_slot(
            cs,
            wrk,
            w,
        ));
    } else {
        lemma_rr_prefix(cs, wrk, w, i + 1);
        assert(cs.take(i + 1).drop_last() =~= cs.take(i));
        assert(cs.take(i + 1).last() == cs[i]);
        let a = rr_slot(cs.take(i), wrk, w);
        let b = rr_slot(cs.take(i + 1), wrk, w);
        if i % (wrk as int) == w {
            assert(b == a + seq![cs[i]]);
            assert(b.take(a.len() as int) =~= a);
        } else {
            assert(b == a + Seq::<Seq<u8>>::empty());
            assert(b =~= a);
        }
        assert(rr_slot(cs, wrk, w).take(a.len() as int) =~= rr_slot(cs, wrk, w).take(
            b.len() as int,
        ).take(a.len() as int));
    }
}

/// The next element of slot `i mod wrk` after the first `i` deals is
/// chunk `i` itself.
proof fn lemma_rr_next(cs: Seq<Seq<u8>>, wrk: nat, i: int)
    requires
        wrk >= 1,
        0 <= i < cs.len(),
    ensures
        rr_slot(cs.take(i + 1), wrk, i % (wrk as int)) == rr_slot(cs.take(i), wrk, i % (
        wrk as int)).push(cs[i]),
        rr_slot(cs, wrk, i % (wrk as int)).len() > rr_slot(cs.take(i), wrk, i % (
        wrk as int)).len(),
        rr_slot(cs, wrk, i % (wrk as int))[rr_slot(cs.take(i), wrk, i % (wrk as int)).len() as int]
            == cs[i],
{
    let w = i % (wrk as int);
    assert(cs.take(i + 1).drop_last() =~= cs.take(i));
    assert(cs.take(i + 1).last() == cs[i]);
    let a = rr_slot(cs.take(i), wrk, w);
    let b = rr_slot(cs.take(i + 1), wrk, w);
    assert(b == a + seq![cs[i]]);
    assert(b =~= a.push(cs[i]));
    lemma_rr_prefix(cs, wrk, w, i + 1);
    assert(rr_slot(cs, wrk, w).take(b.len() as int) == b);
    assert(rr_slot(cs, wrk, w)[a.len() as int] == b[a.len() as int]);
}

/// Sum of the slot lengths with index below `upto`.
spec fn sum_lens(cs: Seq<Seq<u8>>, wrk: nat, upto: int) -> int
    decreases upto,
{
    if upto <= 0 {
        0
    } else {
        sum_lens(cs, wrk, upto - 1) + rr_slot(cs, wrk, upto - 1).len()
    }
}

proof fn lemma_sum_lens_drop(cs: Seq<Seq<u8>>, wrk: nat, upto: int)
    requires
        wrk >= 1,
        cs.len() >= 1,
        0 <= upto <= wrk,
    ensures
        sum_lens(cs, wrk, upto) == sum_lens(cs.drop_last(), wrk, upto) + (if (cs.len() - 1) % (
        wrk as int) < upto {
            1int
        } else {
            0int
        }),
    decreases upto,
{
    if upto > 0 {
        lemma_sum_lens_drop(cs, wrk, upto - 1);
    }
}

proof fn lemma_sum_lens_total(cs: Seq<Seq<u8>>, wrk: nat)
    requires
        wrk >= 1,
    ensures
        sum_lens(cs, wrk, wrk as int) == cs.len(),
    decreases cs.len(),
{
    if cs.len() == 0 {
        lemma_sum_lens_empty(cs, wrk, wrk as int);
    } else {
        lemma_sum_lens_total(cs.drop_last(), wrk);
        lemma_sum_lens_drop(cs, wrk, wrk as int);
        assert(0 <= (cs.len() - 1) % (wrk as int) < wrk) by {
            vstd::arithmetic::div_mod::lemma_mod_bound(cs.len() - 1, wrk as int);
        }
    }
}

proof fn lemma_sum_lens_empty(cs: Seq<Seq<u8>>, wrk: nat, upto: int)
    requires
        cs.len() == 0,
    ensures
        sum_lens(cs, wrk, upto) == 0,
    decreases upto,
{
    if upto > 0 {
        lemma_sum_lens_empty(cs, wrk, upto - 1);
    }
}

proof fn lemma_sum_lens_eq(cs1: Seq<Seq<u8>>, cs2: Seq<Seq<u8>>, wrk: nat, upto: int)
    requires
        forall|w: int| 0 <= w < wrk ==> #[trigger] rr_slot(cs1, wrk, w) == rr_slot(cs2, wrk, w),
        0 <= upto <= wrk,
    ensures
        sum_lens(cs1, wrk, upto) == sum_lens(cs2, wrk, upto),
    decreases upto,
{
    if upto > 0 {
        lemma_sum_lens_eq(cs1, cs2, wrk, upto - 1);
    }
}

/// The round-robin deal loses nothing: two chunk lists with the same
/// slots are the same list, so draining the slots in deal order restores
/// the original order.
pub proof fn lemma_rr_split_unique(cs1: Seq<Seq<u8>>, cs2: Seq<Seq<u8>>, wrk: nat)
    requires
        wrk >= 1,
        forall|w: int| 0 <= w < wrk ==> #[trigger] rr_slot(cs1, wrk, w) == rr_slot(cs2, wrk, w),
    ensures
        cs1 == cs2,
    decreases cs1.len(),
{
    lemma_sum_lens_total(cs1, wrk);
    lemma_sum_lens_total(cs2, wrk);
    lemma_sum_lens_eq(cs1, cs2, wrk, wrk as int);
    assert(cs1.len() == cs2.len());
    if cs1.len() == 0 {
        assert(cs1 =~= cs2);
    } else {
        let w0 = (cs1.len() - 1) % (wrk as int);
        assert(0 <= w0 < wrk) by {
            vstd::arithmetic::div_mod::lemma_mod_bound(cs1.len() - 1, wrk as int);
        }
        assert forall|w: int|
            0 <= w < wrk implies #[trigger] rr_slot(cs1.drop_last(), wrk, w) == rr_slot(
            cs2.drop_last(),
            wrk,
            w,
        ) by {
            if w == w0 {
                assert(rr_slot(cs1, wrk, w) == rr_slot(cs1.drop_last(), wrk, w) + seq![
                    cs1.last(),
                ]);
                assert(rr_slot(cs2, wrk, w) == rr_slot(cs2.drop_last(), wrk, w) + seq![
                    cs2.last(),
                ]);
                assert(rr_slot(cs1.drop_last(), wrk, w) =~= rr_slot(cs1, wrk, w).take(
                    rr_slot(cs1, wrk, w).len() - 1,
                ));
                assert(rr_slot(cs2.drop_last(), wrk, w) =~= rr_slot(cs2, wrk, w).take(
                    rr_slot(cs2, wrk, w).len() - 1,
                ));
            } else {
                assert(rr_slot(cs1, wrk, w) == rr_slot(cs1.drop_last(), wrk, w)
                    + Seq::<Seq<u8>>::empty());
                assert(rr_slot(cs2, wrk, w) == rr_slot(cs2.drop_last(), wrk, w)
                    + Seq::<Seq<u8>>::empty());
                assert(rr_slot(cs1.drop_last(), wrk, w) =~= rr_slot(cs1, wrk, w));
                assert(rr_slot(cs2.drop_last(), wrk, w) =~= rr_slot(cs2, wrk, w));
            }
        }
        lemma_rr_split_unique(cs1.drop_last(), cs2.drop_last(), wrk);
        assert(rr_slot(cs1, wrk, w0) == rr_slot(cs1.drop_last(), wrk, w0) + seq![cs1.last()]);
        assert(rr_slot(cs2, wrk, w0) == rr_slot(cs2.drop_last(), wrk, w0) + seq![cs2.last()]);
        assert(cs1.last() == rr_slot(cs1, wrk, w0)[rr_slot(cs1, wrk, w0).len() - 1]);
        assert(cs2.last() == rr_slot(cs2, wrk, w0)[rr_slot(cs2, wrk, w0).len() - 1]);
        assert(cs1.last() == cs2.last());
        assert forall|k: int| 0 <= k < cs1.len() implies cs1[k] == cs2[k] by {
            if k < cs1.len() - 1 {
                assert(cs1[k] == cs1.drop_last()[k]);
                assert(cs2[k] == cs2.drop_last()[k]);
            } else {
                assert(cs1[k] == cs1.last());
                assert(cs2[k] == cs2.last());
            }
        }
        assert(cs1 =~= cs2);
    }
}

/// Drain per-worker reply queues round-robin, stopping at the first empty
/// queue: when the queues came from a round-robin deal, this restores the
/// dealt order exactly.
pub fn reorder(slots: &Vec<Vec<Vec<u8>>>) -> (out: Vec<Vec<u8>>)
    requires
        slots@.len() >= 1,
        exists|cs: Seq<Seq<u8>>|
            slots.deep_view() == rr_split(cs, slots@.len() as nat),
    ensures
        forall|cs: Seq<Seq<u8>>|
            slots.deep_view() == rr_split(cs, slots@.len() as nat) ==> out.deep_view() == cs,
{
    let wrk = slots.len();
    let ghost cs0 = choose|cs: Seq<Seq<u8>>| slots.deep_view() == rr_split(cs, wrk as nat);
    proof {
        let cs1 = choose|cs: Seq<Seq<u8>>| slots.deep_view() == rr_split(cs, slots@.len() as nat);
        assert(slots.deep_view() == rr_split(cs1, wrk as nat));
        assert(slots.deep_view() == rr_split(cs0, wrk as nat));
    }
    let mut out: Vec<Vec<u8>> = Vec::new();
    let mut cursors: Vec<usize> = Vec::new();
    let mut z: usize = 0;
    while z < wrk
        invariant
            z <= wrk,
            cursors@.len() == z,
            forall|w: int| 0 <= w < z ==> cursors@[w] == 0,
        decreases wrk - z,
    {
        cursors.push(0);
        z = z + 1;
    }
    let mut r: usize = 0;
    let ghost mut i: int = 0;
    proof {
        assert forall|w: int| 0 <= w < wrk implies cursors@[w] == rr_slot(
            cs0.take(0),
            wrk as nat,
            w,
        ).len() by {
            assert(cs0.take(0).len() == 0);
        }
        assert(out.deep_view() =~= cs0.take(0));
    }
    loop
        invariant
            wrk == slots@.len() >= 1,
            slots.deep_view() == rr_split(cs0, wrk as nat),
            cursors@.len() == wrk,
            0 <= i <= cs0.len(),
            r < wrk,
            r == i % (wrk as int),
            out.deep_view() == cs0.take(i),
            forall|w: int|
                0 <= w < wrk ==> cursors@[w] == rr_slot(cs0.take(i), wrk as nat, w).len(),
        decreases cs0.len() - i,
    {
        proof {
            assert(slots.deep_view()[r as int] == rr_slot(cs0, wrk as nat, r as int));
            assert(slots@[r as int].deep_view() == slots.deep_view()[r as int]);
            lemma_rr_prefix(cs0, wrk as nat, r as int, i);
            if i < cs0.len() {
                lemma_rr_next(cs0, wrk as nat, i);
            }
        }
        if cursors[r] >= slots[r].len() {
            proof {
                assert(slots@[r as int].deep_view().len() == slots@[r as int]@.len());
                assert(i == cs0.len()) by {
                    if i < cs0.len() {
                        assert(rr_slot(cs0, wrk as nat, r as int).len() > rr_slot(
                            cs0.take(i),
                            wrk as nat,
                            r as int,
                        ).len());
                    }
                }
                assert(cs0.take(i) =~= cs0);
                assert forall|cs: Seq<Seq<u8>>|
                    slots.deep_view() == rr_split(cs, wrk as nat) implies out.deep_view()
                    == cs by {
                    assert forall|w: int|
                        0 <= w < wrk implies #[trigger] rr_slot(cs0, wrk as nat, w) == rr_slot(
                        cs,
                        wrk as nat,
                        w,
                    ) by {
                        assert(rr_split(cs0, wrk as nat)[w] == rr_slot(cs0, wrk as nat, w));
                        assert(rr_split(cs, wrk as nat)[w] == rr_slot(cs, wrk as nat, w));
                    }
                    lemma_rr_split_unique(cs0, cs, wrk as nat);
                }
            }
            return out;
        }
        let cur = cursors[r];
        proof {
            assert(slots@[r as int].deep_view().len() == slots@[r as int]@.len());
            assert(i < cs0.len()) by {
                if i == cs0.len() {
                    assert(cs0.take(i) =~= cs0);
                }
            }
        }
        let chunk = copy_chunk(&slots[r][cur]);
        proof {
            assert(slots@[r as int]@[cur as int].deep_view() == slots@[
                r as int
            ].deep_view()[cur as int]);
            assert(chunk@ =~= slots@[r as int]@[cur as int].deep_view());
            assert(chunk@ == rr_slot(cs0, wrk as nat, r as int)[cur as int]);
            assert(chunk@ == cs0[i]);
        }
        let ghost pre = out.deep_view();
        out.push(chunk);
        cursors[r] = cur + 1;
        proof {
            assert(out.deep_view() =~~= pre.push(cs0[i]));
            assert(cs0.take(i + 1) =~= cs0.take(i).push(cs0[i]));
            assert forall|w: int|
                0 <= w < wrk implies cursors@[w] == rr_slot(cs0.take(i + 1), wrk as nat, w).len() by {
                assert(cs0.take(i + 1).drop_last() =~= cs0.take(i));
                if w != r {
                    assert(rr_slot(cs0.take(i + 1), wrk as nat, w) == rr_slot(
                        cs0.take(i),
                        wrk as nat,
                        w,
                    ) + Seq::<Seq<u8>>::empty());
                    assert(rr_slot(cs0.take(i + 1), wrk as nat, w) =~= rr_slot(
                        cs0.take(i),
                        wrk as nat,
                        w,
                    ));
                }
            }
            let q = i / (wrk as int);
            vstd::arithmetic::div_mod::lemma_fundamental_div_mod(i, wrk as int);
            assert(i == (wrk as int) * q + (r as int));
            if r + 1 == wrk {
                assert(i + 1 == (q + 1) * (wrk as int) + 0) by (nonlinear_arith)
                    requires
                        i == (wrk as int) * q + (r as int),
                        r + 1 == wrk,
                ;
                vstd::arithmetic::div_mod::lemma_fundamental_div_mod_converse(
                    i + 1,
                    wrk as int,
                    q + 1,
                    0,
                );
            } else {
                assert(i + 1 == q * (wrk as int) + (r as int) + 1) by (nonlinear_arith)
                    requires
                        i == (wrk as int) * q + (r as int),
                ;
                vstd::arithmetic::div_mod::lemma_fundamental_div_mod_converse(
                    i + 1,
                    wrk as int,
                    q,
                    r as int + 1,
                );
            }
            i = i + 1;
        }
        r = if r + 1 == wrk {
            0
        } else {
            r + 1
        };
    }
}

/// Dispatcher order: dealing any chunk list round-robin and draining the
/// slots in the same order yields the original list; the deal determines
/// its origin.
pub proof fn lemma_dispatcher_order(cs: Seq<Seq<u8>>, wrk: nat)
    requires
        wrk >= 1,
    ensures
        forall|cs2: Seq<Seq<u8>>| rr_split(cs2, wrk) == rr_split(cs, wrk) ==> cs2 == cs,
{
    assert forall|cs2: Seq<Seq<u8>>| rr_split(cs2, wrk) == rr_split(cs, wrk) implies cs2 == cs by {
        assert forall|w: int|
            0 <= w < wrk implies #[trigger] rr_slot(cs2, wrk, w) == rr_slot(cs, wrk, w) by {
            assert(rr_split(cs2, wrk)[w] == rr_slot(cs2, wrk, w));
            assert(rr_split(cs, wrk)[w] == rr_slot(cs, wrk, w));
        }
        lemma_rr_split_unique(cs2, cs, wrk);
    }
}

} // verus!
