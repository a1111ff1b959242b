//! What holds of the fabric as a whole.
use vstd::prelude::*;

use super::fabric::{admissible, destination, routed, FabricState, Link};
use super::order::{by_deadline, in_order, Parcel};
use crate::addr::Ipv4Addr;
use crate::device::buffer_pool::Back;
use crate::error::IoError;
use crate::table::Edge;

verus! {

/// Nothing arrives before it was sent.
pub proof fn law_arrivals_are_not_early(s: FabricState, from: usize, to: usize)
    requires
        s.wf(),
    ensures
        s.now <= s.arrival(from, to) <= crate::time::MAX_NANOS,
{
}

/// What a port receives has arrived, comes in the order of arrival, and is all that
/// has arrived unless less was asked for.
pub proof fn law_receptions_are_due(s: FabricState, id: usize, max: nat)
    ensures
        ({
            let q = by_deadline(s.ports[id as int].queue);
            let n = s.ready(id, max);
            &&& n <= max
            &&& n <= q.len()
            &&& in_order(q.take(n as int))
            &&& forall|i: int| 0 <= i < n ==> (#[trigger] q[i]).at <= s.now
            &&& n < max && n < q.len() ==> q[n as int].at > s.now
        }),
{
    let q = by_deadline(s.ports[id as int].queue);
    super::order::law_arrivals_follow_deadlines(s.ports[id as int].queue);
    super::order::lemma_arrived(q, s.now);
    let got = q.take(s.ready(id, max) as int);
    assert forall|i: int, j: int| 0 <= i <= j < got.len() implies (#[trigger] got[i]).at <= (
    #[trigger] got[j]).at by {
        assert(q[i].at <= q[j].at);
    }
}

/// A sender that is told to wait has changed nothing but the count of such waits: a
/// retry does not advance a fault sequence.
pub proof fn law_backpressure_changes_nothing(s: FabricState, p: Seq<u8>)
    requires
        s.fate(p) is Held,
    ensures
        s.pushed_back().ports == s.ports,
        s.pushed_back().links == s.links,
        s.pushed_back().routes == s.routes,
        s.pushed_back().now == s.now,
        s.pushed_back().fate(p) is Held,
{
}

/// A packet to one recipient is queued there, lost to a fault, or without a route,
/// and it is counted as exactly one of the last two if it is not queued. No other
/// queue changes.
pub proof fn law_unicast_goes_one_way(s: FabricState, from: usize, p: Seq<u8>)
    requires
        s.wf(),
        s.fate(p) is Taken,
        !destination(p).broadcasts(),
    ensures
        ({
            let after = s.took(from, p);
            let to = s.routes[destination(p)];
            if !s.routes.contains_key(destination(p)) {
                after == s.lost()
            } else if s.loses(from, to, p.len()) {
                &&& after.ports == s.ports
                &&& after.stats == s.fault().stats
            } else {
                &&& after.stats == s.stats
                &&& after.ports[to as int].queue == s.ports[to as int].queue.push(
                    (Parcel { at: s.arrival(from, to), packet: p }),
                )
                &&& after.ports[to as int].queue.len() <= after.ports[to as int].capacity
                &&& forall|i: int|
                    0 <= i < s.ports.len() && i != to ==> #[trigger] after.ports[i] == s.ports[i]
            }
        }),
{
}

/// A partitioned link delivers nothing.
pub proof fn law_partitions_lose_everything(s: FabricState, from: usize, to: usize, p: Seq<u8>)
    requires
        s.edge(from, to).0.partitioned,
    ensures
        s.moved(from, to, p).ports == s.ports,
        s.copied(from, to, p).ports == s.ports,
{
}

/// The fabric after `n` packets were counted on a link.
pub open spec fn crossed_times(s: FabricState, from: usize, to: usize, n: nat) -> FabricState
    decreases n,
{
    if n == 0 {
        s
    } else {
        crossed_times(s, from, to, (n - 1) as nat).crossed(from, to)
    }
}

/// A link counts the packets that cross it and stays as it is, whatever crosses
/// other links in between.
proof fn lemma_crossed_times(s: FabricState, from: usize, to: usize, n: nat)
    requires
        s.edge(from, to).1 + n <= u64::MAX,
    ensures
        crossed_times(s, from, to, n).edge(from, to) == (
            s.edge(from, to).0,
            (s.edge(from, to).1 + n) as u64,
        ),
    decreases n,
{
    if n > 0 {
        lemma_crossed_times(s, from, to, (n - 1) as nat);
    }
}

/// A link that loses every `k`th packet and has no other fault loses exactly those
/// whose number since its configuration is a multiple of `k`.
pub proof fn law_every_kth_is_lost(s: FabricState, from: usize, to: usize, n: nat, len: nat)
    requires
        s.edge(from, to).1 == 0,
        n < u64::MAX,
        !s.edge(from, to).0.partitioned,
        s.edge(from, to).0.mtu == 0,
        s.edge(from, to).0.drop_every > 0,
    ensures
        crossed_times(s, from, to, n).loses(from, to, len) <==> (n + 1)
            % (s.edge(from, to).0.drop_every as nat) == 0,
{
    lemma_crossed_times(s, from, to, n);
    let link = s.edge(from, to).0;
    let t = crossed_times(s, from, to, n);
    assert(t.sequence(from, to) == n + 1);
}

/// Packets on one link do not advance the fault sequence of another.
pub proof fn law_links_are_independent(
    s: FabricState,
    from: usize,
    to: usize,
    from2: usize,
    to2: usize,
)
    requires
        from != from2 || to != to2,
    ensures
        s.crossed(from, to).edge(from2, to2) == s.edge(from2, to2),
{
    assert(Edge { from, to } != Edge { from: from2, to: to2 });
}

/// A broadcast changes each port by at most one copy, and neither the sender's nor
/// an inactive one: no recipient gets the packet twice.
pub proof fn law_broadcast_copies_once(s: FabricState, from: usize, n: nat, p: Seq<u8>, i: int)
    requires
        n <= s.ports.len() <= usize::MAX,
        0 <= i < s.ports.len(),
    ensures
        ({
            let after = s.spread(from, n, p);
            &&& after.ports.len() == s.ports.len()
            &&& after.now == s.now
            &&& after.routes == s.routes
            &&& i >= n || i == from || !s.ports[i].active ==> after.ports[i] == s.ports[i]
            &&& after.ports[i].queue == s.ports[i].queue || (after.ports[i].queue
                == s.ports[i].queue.push(
                (Parcel { at: s.arrival(from, i as usize), packet: p }),
            ) && !s.full(i as usize))
        }),
    decreases n,
{
    if n > 0 {
        let m = (n - 1) as nat;
        law_broadcast_copies_once(s, from, m, p, i);
        law_broadcast_copies_once(s, from, m, p, m as int);
        let mid = s.spread(from, m, p);
        lemma_spread_links(s, from, m, p, m as usize);
    }
}

/// A broadcast to the first `n` ports does not touch the link to a later one.
proof fn lemma_spread_links(s: FabricState, from: usize, n: nat, p: Seq<u8>, to: usize)
    requires
        n <= s.ports.len() <= usize::MAX,
        n <= to,
    ensures
        s.spread(from, n, p).edge(from, to) == s.edge(from, to),
        s.spread(from, n, p).now == s.now,
    decreases n,
{
    if n > 0 {
        let m = (n - 1) as nat;
        lemma_spread_links(s, from, m, p, to);
        let mid = s.spread(from, m, p);
        law_links_are_independent(mid, from, m as usize, from, to);
    }
}

/// A broadcast reaches everyone else: every active port but the sender's, wherever it
/// lies, whose link does not lose the packet and that has a place in its queue and a free
/// frame, has one copy more at the end of its queue. All other queues stay as they are.
pub proof fn law_broadcasts_reach_everyone_else(s: FabricState, from: usize, p: Seq<u8>, i: int)
    requires
        s.ports.len() <= usize::MAX,
        p.len() >= 20,
        p[16] == 255,
        p[17] == 255,
        p[18] == 255,
        p[19] == 255,
        0 <= i < s.ports.len(),
    ensures
        ({
            let port = s.ports[i];
            let reached = i != from && port.active && !s.loses(from, i as usize, p.len())
                && port.queue.len() != port.capacity && port.pool.free.len() > 0;
            s.took(from, p).ports[i].queue == (if reached {
                port.queue.push((Parcel { at: s.arrival(from, i as usize), packet: p }))
            } else {
                port.queue
            })
        }),
{
    lemma_spread_one(s, from, s.ports.len(), p, i);
}

/// What spreading a packet over the first `n` ports does to port `i`.
proof fn lemma_spread_one(s: FabricState, from: usize, n: nat, p: Seq<u8>, i: int)
    requires
        n <= s.ports.len() <= usize::MAX,
        0 <= i < s.ports.len(),
    ensures
        ({
            let after = s.spread(from, n, p);
            let port = s.ports[i];
            let reached = i < n && i != from && port.active && !s.loses(from, i as usize, p.len())
                && port.queue.len() != port.capacity && port.pool.free.len() > 0;
            &&& after.ports.len() == s.ports.len()
            &&& i >= n ==> after.ports[i] == port
            &&& after.ports[i].queue == (if reached {
                port.queue.push((Parcel { at: s.arrival(from, i as usize), packet: p }))
            } else {
                port.queue
            })
        }),
    decreases n,
{
    if n > 0 {
        let m = (n - 1) as nat;
        let mid = s.spread(from, m, p);
        lemma_spread_one(s, from, m, p, i);
        lemma_spread_links(s, from, m, p, m as usize);
        assert(mid.now == s.now);
        assert(mid.edge(from, m as usize) == s.edge(from, m as usize));
    }
}

/// Where a packet goes is in bytes 16 to 19.
pub proof fn law_destinations_are_in_the_header(p: Seq<u8>)
    requires
        p.len() >= 20,
    ensures
        destination(p)@ == p.subrange(16, 20),
        destination(p).broadcasts() <==> p.subrange(16, 20) == seq![255u8, 255, 255, 255],
{
    assert(destination(p)@ =~= p.subrange(16, 20));
    let d = p.subrange(16, 20);
    assert(d[0] == p[16] && d[1] == p[17] && d[2] == p[18] && d[3] == p[19]);
    if destination(p).broadcasts() {
        assert(d =~= seq![255u8, 255, 255, 255]);
    }
}

/// The fabric refuses exactly what is no IPv4 packet of 20 to 2048 bytes. A sender waits
/// exactly where its packet has one recipient and that has no place left.
pub proof fn law_fates(s: FabricState, p: Seq<u8>)
    ensures
        s.fate(p) is Refused <==> !(20 <= p.len() <= 2048 && 64 <= p[0] < 80),
        s.fate(p) is Held <==> {
            &&& 20 <= p.len() <= 2048 && 64 <= p[0] < 80
            &&& p.subrange(16, 20) != seq![255u8, 255, 255, 255]
            &&& s.routes.contains_key(destination(p))
            &&& s.ports[s.routes[destination(p)] as int].queue.len() == s.ports[s.routes[destination(
                p,
            )] as int].capacity
        },
{
    if p.len() >= 20 {
        law_destinations_are_in_the_header(p);
    }
}

/// A packet for one recipient arrives there: it waits behind what waits already, for when
/// the link lets it arrive. The link counts it.
pub proof fn law_unicast_reaches_its_address(s: FabricState, from: usize, p: Seq<u8>)
    requires
        s.wf(),
        20 <= p.len() <= 2048,
        64 <= p[0] < 80,
        p.subrange(16, 20) != seq![255u8, 255, 255, 255],
        s.routes.contains_key(destination(p)),
        ({
            let to = s.routes[destination(p)];
            s.ports[to as int].queue.len() < s.ports[to as int].capacity
        }),
        s.edge(from, s.routes[destination(p)]).1 < u64::MAX,
    ensures
        ({
            let to = s.routes[destination(p)];
            let after = s.took(from, p);
            &&& s.fate(p) is Taken
            &&& after.ports.len() == s.ports.len()
            &&& after.ports[to as int].queue == (if s.loses(from, to, p.len()) {
                s.ports[to as int].queue
            } else {
                s.ports[to as int].queue.push((Parcel { at: s.arrival(from, to), packet: p }))
            })
            &&& after.ports[to as int].pool == s.ports[to as int].pool
            &&& forall|i: int|
                0 <= i < s.ports.len() && i != to ==> #[trigger] after.ports[i] == s.ports[i]
            &&& after.edge(from, to).0 == s.edge(from, to).0
            &&& after.edge(from, to).1 == s.edge(from, to).1 + 1
        }),
{
    law_destinations_are_in_the_header(p);
    assert(s.ports[s.routes[destination(p)] as int].active);
}

/// A packet to nowhere is taken and counted, and changes nothing else.
pub proof fn law_packets_to_nowhere_are_counted(s: FabricState, from: usize, p: Seq<u8>)
    requires
        20 <= p.len() <= 2048,
        64 <= p[0] < 80,
        p.subrange(16, 20) != seq![255u8, 255, 255, 255],
        !s.routes.contains_key(destination(p)),
        s.stats.unroutable < u64::MAX,
    ensures
        s.fate(p) is Taken,
        s.took(from, p).ports == s.ports,
        s.took(from, p).links == s.links,
        s.took(from, p).stats.unroutable == s.stats.unroutable + 1,
        s.took(from, p).stats.fault_drops == s.stats.fault_drops,
{
    law_destinations_are_in_the_header(p);
}

/// A link loses a packet exactly if it is partitioned, the packet is longer than it
/// carries, or the packet's number is a multiple of that at which it loses one. A zero
/// means that there is no such limit.
pub proof fn law_links_lose_what_they_should(link: Link, len: nat, number: u64)
    ensures
        link.loses(len, number) <==> {
            ||| link.partitioned
            ||| link.mtu > 0 && len > link.mtu
            ||| link.drop_every > 0 && exists|k: nat|
                number == #[trigger] (k * (link.drop_every as nat))
        },
{
    let d = link.drop_every as int;
    let n = number as int;
    if d > 0 {
        vstd::arithmetic::div_mod::lemma_fundamental_div_mod(n, d);
        if n % d == 0 {
            let k = (n / d) as nat;
            vstd::arithmetic::div_mod::lemma_div_pos_is_pos(n, d);
            vstd::arithmetic::mul::lemma_mul_is_commutative(d, n / d);
            assert(number == k * (link.drop_every as nat));
        }
        if exists|k: nat| number == #[trigger] (k * (link.drop_every as nat)) {
            let k = choose|k: nat| number == #[trigger] (k * (link.drop_every as nat));
            vstd::arithmetic::div_mod::lemma_mod_multiples_basic(k as int, d);
        }
    }
}

/// A packet takes as long as its link is, and every second one as much longer as the link
/// says. Time ends before it overflows.
pub proof fn law_links_delay_as_they_should(link: Link, now: nat, number: u64)
    ensures
        ({
            let due = now + link.delay@ + (if number % 2 == 0 {
                link.alternating_delay@
            } else {
                0
            });
            let end = 18_446_744_073_709_551_615_999_999_999int;
            &&& due <= end ==> link.arrival(now, number) == due
            &&& due > end ==> link.arrival(now, number) == end
        }),
{
}

/// A link that was never set up loses nothing and takes no time.
pub proof fn law_links_begin_clear(s: FabricState, from: usize, to: usize, len: nat)
    requires
        s.wf(),
        !s.links.contains_key(Edge { from, to }),
    ensures
        !s.loses(from, to, len),
        s.arrival(from, to) == s.now,
{
    broadcast use crate::time::Duration::lemma_none;

    assert(s.sequence(from, to) == 1);
}

/// Setting up a link begins its count anew, touches no other link, and leaves packets on
/// their way alone.
pub proof fn law_links_are_set_up_anew(
    s: FabricState,
    from: usize,
    to: usize,
    link: Link,
    from2: usize,
    to2: usize,
)
    ensures
        s.linked(from, to, link).edge(from, to) == (link, 0u64),
        from != from2 || to != to2 ==> s.linked(from, to, link).edge(from2, to2) == s.edge(
            from2,
            to2,
        ),
        s.linked(from, to, link).ports == s.ports,
        s.linked(from, to, link).now == s.now,
        s.linked(from, to, link).routes == s.routes,
        s.linked(from, to, link).stats == s.stats,
{
    if from != from2 || to != to2 {
        assert(Edge { from, to } != Edge { from: from2, to: to2 });
    }
}

/// A new port gets all its addresses and nobody else's. It is open, with an empty queue
/// and all its frames free. Other ports do not notice.
pub proof fn law_ports_get_their_addresses(
    s: FabricState,
    addresses: Seq<Ipv4Addr>,
    frames: nat,
    queue: nat,
    a: Ipv4Addr,
)
    requires
        s.ports.len() < usize::MAX,
    ensures
        ({
            let after = s.opened(addresses, frames, queue);
            let id = s.ports.len() as int;
            &&& addresses.contains(a) ==> after.routes.contains_key(a) && after.routes[a] == id
            &&& !addresses.contains(a) ==> (after.routes.contains_key(a) <==> s.routes.contains_key(a))
                && (s.routes.contains_key(a) ==> after.routes[a] == s.routes[a])
            &&& after.ports.len() == id + 1
            &&& after.ports.take(id) == s.ports
            &&& after.ports[id].active
            &&& after.ports[id].queue.len() == 0
            &&& after.ports[id].capacity == queue
            &&& after.ports[id].pool.free.len() == frames
            &&& after.links == s.links
            &&& after.now == s.now
            &&& after.stats == s.stats
        }),
{
    let after = s.opened(addresses, frames, queue);
    lemma_routed(s.routes, addresses, s.ports.len() as usize, a);
    assert(after.ports.take(s.ports.len() as int) =~= s.ports);
}

/// What routing addresses does to one of them.
proof fn lemma_routed(routes: Map<Ipv4Addr, usize>, addresses: Seq<Ipv4Addr>, id: usize, a: Ipv4Addr)
    ensures
        ({
            let after = routed(routes, addresses, id);
            &&& addresses.contains(a) ==> after.contains_key(a) && after[a] == id
            &&& !addresses.contains(a) ==> (after.contains_key(a) <==> routes.contains_key(a))
                && (routes.contains_key(a) ==> after[a] == routes[a])
        }),
    decreases addresses.len(),
{
    if addresses.len() > 0 {
        let front = addresses.drop_last();
        lemma_routed(routes, front, id, a);
        assert(addresses[addresses.len() - 1] == addresses.last());
        if addresses.contains(a) && a != addresses.last() {
            let k = choose|k: int| 0 <= k < addresses.len() && addresses[k] == a;
            assert(front[k] == a);
        }
        if front.contains(a) {
            let k = choose|k: int| 0 <= k < front.len() && front[k] == a;
            assert(addresses[k] == a);
        }
    }
}

/// A port can be opened exactly if it has a frame, a place in its queue and an address,
/// and each of its addresses can be a host's and is nobody's yet.
pub proof fn law_ports_that_can_be_opened(
    s: FabricState,
    addresses: Seq<Ipv4Addr>,
    frames: nat,
    queue: nat,
)
    ensures
        admissible(s, addresses, frames, queue) <==> {
            &&& frames >= 1 && queue >= 1 && addresses.len() >= 1
            &&& forall|i: int|
                0 <= i < addresses.len() ==> {
                    let a = #[trigger] addresses[i];
                    &&& !(224 <= a.a <= 239)
                    &&& !(a.a == 0 && a.b == 0 && a.c == 0 && a.d == 0)
                    &&& !(a.a == 255 && a.b == 255 && a.c == 255 && a.d == 255)
                    &&& !s.routes.contains_key(a)
                }
        },
{
    if admissible(s, addresses, frames, queue) {
        assert forall|i: int| 0 <= i < addresses.len() implies {
            let a = #[trigger] addresses[i];
            &&& !(224 <= a.a <= 239)
            &&& !(a.a == 0 && a.b == 0 && a.c == 0 && a.d == 0)
            &&& !(a.a == 255 && a.b == 255 && a.c == 255 && a.d == 255)
            &&& !s.routes.contains_key(a)
        } by {
            assert(addresses[i].unicasts());
        }
    }
}

/// A port that is shut gets nothing any more: its queue is empty, its addresses are free,
/// and broadcasts pass it by. Other ports and addresses do not notice.
pub proof fn law_shut_ports_get_nothing(s: FabricState, id: usize, a: Ipv4Addr, i: int)
    requires
        id < s.ports.len(),
        0 <= i < s.ports.len(),
    ensures
        ({
            let after = s.closed(id);
            &&& after.ports.len() == s.ports.len()
            &&& after.ports[id as int].queue.len() == 0
            &&& !after.ports[id as int].active
            &&& i != id ==> after.ports[i] == s.ports[i]
            &&& after.routes.contains_key(a) <==> s.routes.contains_key(a) && s.routes[a] != id
            &&& after.routes.contains_key(a) ==> after.routes[a] == s.routes[a]
            &&& after.links == s.links
            &&& after.stats == s.stats
            &&& after.now == s.now
        }),
{
}

/// Receiving takes packets from the queue of the port that receives and counts them.
/// What it gets and what stays is what was there; no other port notices.
pub proof fn law_received_packets_leave_the_queue(s: FabricState, id: usize, max: nat, i: int)
    requires
        id < s.ports.len(),
        0 <= i < s.ports.len(),
        s.stats.delivered + s.ports[id as int].queue.len() <= u64::MAX,
    ensures
        ({
            let n = s.ready(id, max);
            let q = by_deadline(s.ports[id as int].queue);
            let after = s.received(id, max);
            &&& q.take(n as int).to_multiset().add(
                after.ports[id as int].queue.to_multiset(),
            ) =~= s.ports[id as int].queue.to_multiset()
            &&& after.ports[id as int].queue.len() == s.ports[id as int].queue.len() - n
            &&& i != id ==> after.ports[i] == s.ports[i]
            &&& after.ports[id as int].pool == s.ports[id as int].pool
            &&& after.stats.delivered == s.stats.delivered + n
            &&& after.links == s.links
            &&& after.now == s.now
        }),
{
    let q = by_deadline(s.ports[id as int].queue);
    law_receptions_are_due(s, id, max);
    super::order::law_arrivals_follow_deadlines(s.ports[id as int].queue);
    let n = s.ready(id, max) as int;
    vstd::seq_lib::lemma_multiset_commutative(q.take(n), q.skip(n));
    assert(q.take(n) + q.skip(n) =~= q);
}

/// Every packet that is due is received, as long as no more is asked for than is due.
pub proof fn law_due_packets_are_received(s: FabricState, id: usize, max: nat, k: int)
    requires
        id < s.ports.len(),
        0 <= k < s.ports[id as int].queue.len(),
        s.ports[id as int].queue[k].at <= s.now,
        s.ready(id, max) < max,
    ensures
        by_deadline(s.ports[id as int].queue).take(s.ready(id, max) as int).contains(
            s.ports[id as int].queue[k],
        ),
{
    broadcast use vstd::seq_lib::group_to_multiset_ensures;

    let queue = s.ports[id as int].queue;
    let q = by_deadline(queue);
    let n = s.ready(id, max) as int;
    law_receptions_are_due(s, id, max);
    super::order::law_arrivals_follow_deadlines(queue);
    assert(queue.contains(queue[k]));
    assert(q.to_multiset().count(queue[k]) > 0);
    assert(q.contains(queue[k]));
    let j = choose|j: int| 0 <= j < q.len() && q[j] == queue[k];
    if j >= n {
        assert(q[n].at <= q[j].at);
    }
    assert(q.take(n)[j] == queue[k]);
}

/// Sending stops only where it must: all packets are taken in order up to the first that
/// the fabric refuses or that has to wait, and only a refusal of the very first is an
/// error.
pub proof fn law_sending_stops_only_where_it_must(
    s: FabricState,
    from: usize,
    ps: Seq<Seq<u8>>,
    back: Seq<Seq<Seq<Back>>>,
    r: Result<usize, IoError>,
    after: FabricState,
)
    requires
        s.sending(from, ps, back, r, after),
    ensures
        r is Err <==> ps.len() > 0 && !(20 <= ps[0].len() <= 2048 && 64 <= ps[0][0] < 80),
        r matches Ok(n) ==> {
            &&& n <= ps.len()
            &&& n < ps.len() ==> !(s.sent(from, ps, back, n as nat).settled(back[n as int]).fate(
                ps[n as int],
            ) is Taken)
            &&& n == ps.len() ==> after == s.sent(from, ps, back, n as nat)
            &&& forall|i: nat|
                i < n ==> (#[trigger] s.sent(from, ps, back, i).settled(back[i as int])).fate(
                    ps[i as int],
                ) is Taken
        },
{
    if ps.len() > 0 {
        law_fates(s.facing(from, ps, back, 0), ps[0]);
    }
    match r {
        Ok(n) => {
            if n > 0 {
                assert(s.facing(from, ps, back, 0).fate(ps[0]) is Taken);
            }
            assert forall|i: nat| i < n implies (#[trigger] s.sent(from, ps, back, i).settled(
                back[i as int],
            )).fate(ps[i as int]) is Taken by {
                assert(s.facing(from, ps, back, i).fate(ps[i as int]) is Taken);
            }
        },
        Err(_) => {},
    }
}

/// Packets are taken one after the other, in order.
pub proof fn law_packets_are_taken_in_order(
    s: FabricState,
    from: usize,
    ps: Seq<Seq<u8>>,
    back: Seq<Seq<Seq<Back>>>,
    n: nat,
)
    requires
        n < ps.len(),
    ensures
        s.sent(from, ps, back, 0) == s,
        s.sent(from, ps, back, n + 1) == s.sent(from, ps, back, n).settled(back[n as int]).took(
            from,
            ps[n as int],
        ),
{
}

/// The next packet on a link is the one after those that crossed it: by that number the
/// link loses or delays it.
pub proof fn law_packets_are_numbered(s: FabricState, from: usize, to: usize, len: nat)
    requires
        s.edge(from, to).1 < u64::MAX,
    ensures
        ({
            let (link, crossed) = s.edge(from, to);
            &&& s.loses(from, to, len) == link.loses(len, (crossed + 1) as u64)
            &&& s.arrival(from, to) == link.arrival(s.now, (crossed + 1) as u64)
            &&& s.crossed(from, to).edge(from, to) == (link, (crossed + 1) as u64)
        }),
{
}

/// A link that was set up is used as it was set up.
pub proof fn law_links_are_used(s: FabricState, from: usize, to: usize)
    requires
        s.links.contains_key(Edge { from, to }),
    ensures
        s.edge(from, to) == s.links[Edge { from, to }],
{
}

/// A copy of a broadcast that a link loses is counted as a fault, one that finds no place
/// or no frame as dropped, and one that arrives as neither; the recipient's frame is
/// taken for it.
pub proof fn law_copies_are_counted(s: FabricState, from: usize, to: usize, p: Seq<u8>)
    requires
        to < s.ports.len(),
        to != from,
        s.ports[to as int].active,
        s.stats.fault_drops < u64::MAX,
        s.stats.queue_drops < u64::MAX,
    ensures
        ({
            let after = s.copied(from, to, p);
            let port = s.ports[to as int];
            let lost = s.loses(from, to, p.len());
            let homeless = port.queue.len() == port.capacity || port.pool.free.len() == 0;
            &&& after.stats.fault_drops == s.stats.fault_drops + (if lost {
                1int
            } else {
                0
            })
            &&& after.stats.queue_drops == s.stats.queue_drops + (if !lost && homeless {
                1int
            } else {
                0
            })
            &&& after.stats.unroutable == s.stats.unroutable
            &&& after.ports[to as int].pool.free == (if lost || homeless {
                port.pool.free
            } else {
                port.pool.free.drop_last()
            })
        }),
{
    let port = s.ports[to as int];
    if port.pool.free.len() > 0 {
        assert(port.pool.free.take(port.pool.free.len() - 1) =~= port.pool.free.drop_last());
    }
}

} // verus!
