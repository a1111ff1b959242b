//! Packets on their way, and the order in which they arrive.
use vstd::prelude::*;

use crate::device::PacketBuf;
use crate::time::Duration;

verus! {

/// A packet on its way: when it arrives, and its frame.
pub struct Pending {
    pub at: Duration,
    pub frame: PacketBuf,
}

/// What a packet on its way amounts to.
#[verifier::ext_equal]
pub struct Parcel {
    pub at: nat,
    pub packet: Seq<u8>,
}

impl Pending {
    /// When the packet arrives and what it holds.
    pub open spec fn view(self) -> Parcel {
        Parcel { at: self.at@, packet: self.frame@ }
    }
}

/// What packets on their way amount to.
pub open spec fn parcels(queue: Seq<Pending>) -> Seq<Parcel> {
    Seq::new(queue.len(), |i: int| queue[i]@)
}

/// Whether every frame is well-formed.
pub open spec fn frames_sound(queue: Seq<Pending>) -> bool {
    forall|i: int| 0 <= i < queue.len() ==> (#[trigger] queue[i]).frame.inv()
}

/// `q` with `x` before the first parcel that does not arrive earlier.
pub open spec fn placed(q: Seq<Parcel>, x: Parcel) -> Seq<Parcel>
    decreases q.len(),
{
    if q.len() == 0 || q[0].at >= x.at {
        seq![x] + q
    } else {
        seq![q[0]] + placed(q.skip(1), x)
    }
}

/// The parcels in the order of their arrival; those that arrive together stay in
/// the order in which they were sent.
pub open spec fn by_deadline(q: Seq<Parcel>) -> Seq<Parcel>
    decreases q.len(),
{
    if q.len() == 0 {
        q
    } else {
        placed(by_deadline(q.skip(1)), q[0])
    }
}

/// Whether no parcel arrives before the one in front of it.
pub open spec fn in_order(q: Seq<Parcel>) -> bool {
    forall|i: int, j: int|
        0 <= i <= j < q.len() ==> (#[trigger] q[i]).at <= (#[trigger] q[j]).at
}

/// How many parcels at the front have arrived by `now`.
pub open spec fn arrived(q: Seq<Parcel>, now: nat) -> nat
    decreases q.len(),
{
    if q.len() == 0 || q[0].at > now {
        0
    } else {
        1 + arrived(q.skip(1), now)
    }
}

/// The parcels that arrive at `t`.
pub open spec fn at_time(q: Seq<Parcel>, t: nat) -> Seq<Parcel> {
    q.filter(|x: Parcel| x.at == t)
}

/// Placing a parcel keeps the order.
proof fn lemma_placed(q: Seq<Parcel>, x: Parcel)
    requires
        in_order(q),
    ensures
        in_order(placed(q, x)),
        placed(q, x).len() == q.len() + 1,
        placed(q, x)[0].at == (if q.len() > 0 && q[0].at < x.at {
            q[0].at
        } else {
            x.at
        }),
        placed(q, x).to_multiset() == q.to_multiset().insert(x),
    decreases q.len(),
{
    broadcast use vstd::seq_lib::group_to_multiset_ensures;

    if q.len() == 0 || q[0].at >= x.at {
        let all = seq![x] + q;
        assert forall|i: int, j: int| 0 <= i <= j < all.len() implies (#[trigger] all[i]).at <= (
        #[trigger] all[j]).at by {
            if i > 0 {
                assert(q[i - 1].at <= q[j - 1].at);
            } else if j > 0 {
                assert(q[0].at <= q[j - 1].at);
            }
        }
        assert(all =~= q.insert(0, x));
        assert(q.insert(0, x).to_multiset() =~= q.to_multiset().insert(x));
    } else {
        let rest = q.skip(1);
        assert(in_order(rest)) by {
            assert forall|i: int, j: int| 0 <= i <= j < rest.len() implies (#[trigger] rest[i]).at
                <= (#[trigger] rest[j]).at by {
                assert(q[i + 1].at <= q[j + 1].at);
            }
        }
        lemma_placed(rest, x);
        let tail = placed(rest, x);
        let all = seq![q[0]] + tail;
        assert forall|i: int, j: int| 0 <= i <= j < all.len() implies (#[trigger] all[i]).at <= (
        #[trigger] all[j]).at by {
            if rest.len() > 0 {
                assert(q[0].at <= q[1].at);
            }
            if i > 0 {
                assert(tail[i - 1].at <= tail[j - 1].at);
            } else if j > 0 {
                assert(tail[0].at <= tail[j - 1].at);
            }
        }
        assert(all =~= tail.insert(0, q[0]));
        assert(q =~= rest.insert(0, q[0]));
        assert(all.to_multiset() =~= tail.to_multiset().insert(q[0]));
        assert(q.to_multiset() =~= rest.to_multiset().insert(q[0]));
        assert(all.to_multiset() =~= q.to_multiset().insert(x));
    }
}

/// Parcels arrive in the order of their deadlines, and none is lost or made up.
pub proof fn law_arrivals_follow_deadlines(q: Seq<Parcel>)
    ensures
        in_order(by_deadline(q)),
        by_deadline(q).len() == q.len(),
        by_deadline(q).to_multiset() == q.to_multiset(),
    decreases q.len(),
{
    broadcast use vstd::seq_lib::group_to_multiset_ensures;

    if q.len() > 0 {
        law_arrivals_follow_deadlines(q.skip(1));
        lemma_placed(by_deadline(q.skip(1)), q[0]);
        assert(q =~= q.skip(1).insert(0, q[0]));
        assert(q.to_multiset() =~= q.skip(1).to_multiset().insert(q[0]));
    }
}

/// The parcels of one time, with one more placed.
proof fn lemma_placed_at(q: Seq<Parcel>, x: Parcel, t: nat)
    ensures
        at_time(placed(q, x), t) == if x.at == t {
            seq![x] + at_time(q, t)
        } else {
            at_time(q, t)
        },
    decreases q.len(),
{
    let p = |y: Parcel| y.at == t;
    lemma_filter_one(x, t);
    if q.len() == 0 || q[0].at >= x.at {
        Seq::filter_distributes_over_add(seq![x], q, p);
        assert(Seq::<Parcel>::empty() + at_time(q, t) =~= at_time(q, t));
    } else {
        lemma_placed_at(q.skip(1), x, t);
        lemma_filter_one(q[0], t);
        Seq::filter_distributes_over_add(seq![q[0]], placed(q.skip(1), x), p);
        Seq::filter_distributes_over_add(seq![q[0]], q.skip(1), p);
        assert(q =~= seq![q[0]] + q.skip(1));
        let first = seq![q[0]].filter(p);
        if x.at == t {
            assert(first + (seq![x] + at_time(q.skip(1), t)) =~= seq![x] + (first + at_time(
                q.skip(1),
                t,
            )));
        }
    }
}

/// One parcel, kept or not.
proof fn lemma_filter_one(x: Parcel, t: nat)
    ensures
        at_time(seq![x], t) == if x.at == t {
            seq![x]
        } else {
            Seq::<Parcel>::empty()
        },
{
    reveal_with_fuel(Seq::filter, 2);
    assert(seq![x].drop_last() =~= Seq::<Parcel>::empty());
    assert(Seq::<Parcel>::empty().push(x) =~= seq![x]);
}

/// Parcels that arrive at the same time arrive in the order in which they were sent.
pub proof fn law_ties_keep_their_order(q: Seq<Parcel>, t: nat)
    ensures
        at_time(by_deadline(q), t) == at_time(q, t),
    decreases q.len(),
{
    if q.len() > 0 {
        let p = |y: Parcel| y.at == t;
        law_ties_keep_their_order(q.skip(1), t);
        lemma_placed_at(by_deadline(q.skip(1)), q[0], t);
        lemma_filter_one(q[0], t);
        Seq::filter_distributes_over_add(seq![q[0]], q.skip(1), p);
        assert(q =~= seq![q[0]] + q.skip(1));
        assert(Seq::<Parcel>::empty() + at_time(q.skip(1), t) =~= at_time(q.skip(1), t));
    }
}

/// What has arrived is at the front, and the next parcel has not.
pub proof fn lemma_arrived(q: Seq<Parcel>, now: nat)
    ensures
        arrived(q, now) <= q.len(),
        forall|i: int| 0 <= i < arrived(q, now) ==> (#[trigger] q[i]).at <= now,
        arrived(q, now) < q.len() ==> q[arrived(q, now) as int].at > now,
    decreases q.len(),
{
    if q.len() > 0 && q[0].at <= now {
        let rest = q.skip(1);
        lemma_arrived(rest, now);
        assert forall|i: int| 0 <= i < arrived(q, now) implies (#[trigger] q[i]).at <= now by {
            if i > 0 {
                assert(rest[i - 1].at <= now);
            }
        }
        if arrived(q, now) < q.len() {
            assert(rest[arrived(rest, now) as int] == q[arrived(q, now) as int]);
        }
    }
}

/// Where a parcel is placed: after `i` parcels that arrive earlier.
proof fn lemma_place(q: Seq<Parcel>, x: Parcel, i: int)
    requires
        0 <= i <= q.len(),
        forall|j: int| 0 <= j < i ==> (#[trigger] q[j]).at < x.at,
        i < q.len() ==> q[i].at >= x.at,
    ensures
        placed(q, x) == q.insert(i, x),
    decreases q.len(),
{
    if q.len() == 0 || q[0].at >= x.at {
        assert(i == 0);
        assert(seq![x] + q =~= q.insert(0, x));
    } else {
        let rest = q.skip(1);
        assert forall|j: int| 0 <= j < i - 1 implies (#[trigger] rest[j]).at < x.at by {
            assert(q[j + 1].at < x.at);
        }
        lemma_place(rest, x, i - 1);
        assert(seq![q[0]] + rest.insert(i - 1, x) =~= q.insert(i, x));
    }
}

/// Sorts packets by their arrival; those that arrive together stay in order.
pub fn sort_by_deadline(queue: &mut Vec<Pending>)
    requires
        frames_sound(old(queue)@),
    ensures
        frames_sound(final(queue)@),
        parcels(final(queue)@) == by_deadline(parcels(old(queue)@)),
{
    let mut sorted: Vec<Pending> = Vec::new();
    let ghost all = parcels(queue@);
    assert(by_deadline(all.skip(all.len() as int)) =~= parcels(sorted@));
    while queue.len() > 0
        invariant
            queue@.len() <= all.len(),
            frames_sound(queue@),
            frames_sound(sorted@),
            parcels(queue@) == all.take(queue@.len() as int),
            parcels(sorted@) == by_deadline(all.skip(queue@.len() as int)),
        decreases queue@.len(),
    {
        let ghost before = queue@;
        match queue.pop() {
            None => {},
            Some(next) => {
                let ghost n = queue@.len() as int;
                let mut i: usize = 0;
                while i < sorted.len() && sorted[i].at.as_nanos() < next.at.as_nanos()
                    invariant
                        i <= sorted@.len(),
                        forall|j: int| 0 <= j < i ==> (#[trigger] parcels(sorted@)[j]).at < next.at@,
                    decreases sorted@.len() - i,
                {
                    assert(parcels(sorted@)[i as int].at == sorted@[i as int].at@);
                    i += 1;
                }
                let ghost so_far = sorted@;
                proof {
                    if i < sorted@.len() {
                        assert(parcels(sorted@)[i as int].at == sorted@[i as int].at@);
                    }
                    lemma_place(parcels(so_far), next@, i as int);
                    assert(parcels(before)[n] == next@);
                    assert(all.skip(n)[0] == next@);
                    assert(all.skip(n).skip(1) =~= all.skip(n + 1));
                }
                sorted.insert(i, next);
                proof {
                    assert(parcels(sorted@) =~= parcels(so_far).insert(i as int, next@));
                    assert forall|k: int| 0 <= k < sorted@.len() implies (
                    #[trigger] sorted@[k]).frame.inv() by {
                        if k < i {
                            assert(sorted@[k] == so_far[k]);
                        } else if k > i {
                            assert(sorted@[k] == so_far[k - 1]);
                        }
                    }
                    assert(parcels(queue@) =~= all.take(n)) by {
                        assert forall|k: int| 0 <= k < n implies parcels(queue@)[k] == all[k] by {
                            assert(parcels(before)[k] == all.take(n + 1)[k]);
                        }
                    }
                }
            },
        }
    }
    assert(all.skip(0) =~= all);
    std::mem::swap(queue, &mut sorted);
}

} // verus!
