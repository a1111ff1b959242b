//! The frame arena and its rings. The application mirrors a ring between its mapping
//! and the picture of it here: the kernel's counter before a call, what was written
//! and the own counter after it.
use vstd::prelude::*;

use super::sys::{XdpUmemReg, XDP_UMEM_UNALIGNED_CHUNK_FLAG};
use crate::device::free_list::least;
use crate::error::IoError;

verus! {

/// Whether `n` is a power of two.
pub open spec fn pow2(n: nat) -> bool {
    vstd::arithmetic::power2::is_pow2(n as int)
}

/// Whether `n` is a power of two.
pub fn is_pow2(n: usize) -> (yes: bool)
    ensures
        yes == pow2(n as nat),
{
    let mut m: usize = n;
    if m == 0 {
        assert(!pow2(0)) by {
            reveal(vstd::arithmetic::power2::is_pow2);
        }
        return false;
    }
    while m > 1 && m % 2 == 0
        invariant
            0 < m <= n,
            pow2(m as nat) == pow2(n as nat),
        decreases m,
    {
        assert(pow2(m as nat) == pow2((m / 2) as nat)) by {
            reveal(vstd::arithmetic::power2::is_pow2);
        }
        m = m / 2;
    }
    assert(pow2(m as nat) == (m == 1)) by {
        reveal(vstd::arithmetic::power2::is_pow2);
    }
    m == 1
}

/// Whether a ring can have so many entries: a power of two that its counters can
/// count.
pub open spec fn ring_size(entries: nat) -> bool {
    pow2(entries) && entries <= u32::MAX
}

/// Refuses a number of entries that a ring cannot have.
pub fn validate_ring_size(entries: usize) -> (r: Result<(), IoError>)
    ensures
        r is Ok <==> ring_size(entries as nat),
        r matches Err(e) ==> e == IoError::RingSize,
{
    if is_pow2(entries) && entries as u64 <= u32::MAX as u64 {
        Ok(())
    } else {
        Err(IoError::RingSize)
    }
}

/// A power of two is positive.
pub proof fn lemma_pow2_positive(n: nat)
    requires
        pow2(n),
    ensures
        n > 0,
{
    reveal(vstd::arithmetic::power2::is_pow2);
}

/// A ring: two counters that run freely and wrap, an optional word of flags, and
/// descriptors. A descriptor is an address and a length, which only some rings use.
pub struct Ring {
    pub producer: u32,
    pub consumer: u32,
    /// `None` on kernels that do not report where the flags are.
    pub flags: Option<u32>,
    pub desc: Vec<(u64, u32)>,
    pub entries: u32,
}

/// A counter moved on by `n`.
pub open spec fn moved(counter: u32, n: int) -> u32 {
    ((counter + n) % 0x1_0000_0000) as u32
}

/// How far counter `a` is ahead of counter `b`.
#[verifier::opaque]
pub open spec fn ahead(a: u32, b: u32) -> nat {
    ((a - b) % 0x1_0000_0000) as nat
}

impl Ring {
    /// A ring with so many entries that nobody has used yet.
    pub open spec fn blank(self, entries: nat) -> bool {
        &&& self.entries == entries
        &&& self.producer == 0
        &&& self.consumer == 0
        &&& self.flags == None::<u32>
        &&& self.desc@ == Seq::new(entries, |i: int| (0u64, 0u32))
    }

    /// There is a descriptor for every entry.
    pub open spec fn inv(self) -> bool {
        &&& ring_size(self.entries as nat)
        &&& self.desc@.len() == self.entries
    }

    /// The slot of position `i`.
    pub open spec fn slot(self, i: u32) -> int {
        (i % self.entries) as int
    }

    /// The descriptors of `n` positions from `at` on.
    pub open spec fn read(self, at: u32, n: nat) -> Seq<(u64, u32)> {
        Seq::new(n, |i: int| self.desc@[self.slot(moved(at, i))])
    }

    /// The descriptors after `run` was written from position `at` on.
    pub open spec fn written(self, at: u32, run: Seq<(u64, u32)>) -> Seq<(u64, u32)>
        decreases run.len(),
    {
        if run.len() == 0 {
            self.desc@
        } else {
            self.written(at, run.drop_last()).update(
                self.slot(moved(at, run.len() - 1)),
                run.last(),
            )
        }
    }

    /// A ring without a kernel behind it, all of it zero.
    pub fn simulated(entries: u32) -> (ring: Ring)
        requires
            ring_size(entries as nat),
        ensures
            ring.inv(),
            ring.blank(entries as nat),
    {
        let mut desc: Vec<(u64, u32)> = Vec::new();
        let mut i: u32 = 0;
        while i < entries
            invariant
                i <= entries,
                desc@ == Seq::new(i as nat, |j: int| (0u64, 0u32)),
            decreases entries - i,
        {
            desc.push((0, 0));
            i += 1;
            assert(desc@ =~= Seq::new(i as nat, |j: int| (0u64, 0u32)));
        }
        Ring { producer: 0, consumer: 0, flags: None, desc, entries }
    }

    pub fn producer_load(&self) -> (v: u32)
        ensures
            v == self.producer,
    {
        self.producer
    }

    pub fn producer_store(&mut self, v: u32)
        requires
            old(self).inv(),
        ensures
            *final(self) == (Ring { producer: v, ..*old(self) }),
            final(self).inv(),
    {
        self.producer = v;
    }

    pub fn consumer_load(&self) -> (v: u32)
        ensures
            v == self.consumer,
    {
        self.consumer
    }

    pub fn consumer_store(&mut self, v: u32)
        requires
            old(self).inv(),
        ensures
            *final(self) == (Ring { consumer: v, ..*old(self) }),
            final(self).inv(),
    {
        self.consumer = v;
    }

    /// The flags; none are set where the kernel reports none.
    pub fn flags_load(&self) -> (v: u32)
        ensures
            v == (match self.flags {
                Some(flags) => flags,
                None => 0,
            }),
    {
        match self.flags {
            Some(flags) => flags,
            None => 0,
        }
    }

    /// The slot of position `i`.
    pub fn index(&self, i: u32) -> (slot: usize)
        requires
            self.inv(),
        ensures
            slot == self.slot(i),
            slot < self.entries,
    {
        proof {
            lemma_pow2_positive(self.entries as nat);
        }
        (i % self.entries) as usize
    }

    /// The descriptor at position `i`.
    pub fn desc_at(&self, i: u32) -> (d: (u64, u32))
        requires
            self.inv(),
        ensures
            d == self.desc@[self.slot(i)],
    {
        self.desc[self.index(i)]
    }

    /// Writes the descriptor at position `i`.
    pub fn write_desc(&mut self, i: u32, d: (u64, u32))
        requires
            old(self).inv(),
        ensures
            final(self).inv(),
            final(self).desc@ == old(self).desc@.update(old(self).slot(i), d),
            final(self).producer == old(self).producer,
            final(self).consumer == old(self).consumer,
            final(self).flags == old(self).flags,
            final(self).entries == old(self).entries,
    {
        let slot: usize = self.index(i);
        self.desc[slot] = d;
    }

    /// Appends the descriptors of `n` positions from `at` on to `out`.
    pub fn read_run(&self, at: u32, n: usize, out: &mut Vec<(u64, u32)>)
        requires
            self.inv(),
            n <= u32::MAX,
        ensures
            final(out)@ == old(out)@ + self.read(at, n as nat),
    {
        let ghost before = out@;
        let mut i: usize = 0;
        assert(before + self.read(at, 0) =~= before);
        while i < n
            invariant
                self.inv(),
                i <= n <= u32::MAX,
                out@ == before + self.read(at, i as nat),
            decreases n - i,
        {
            let ghost so_far = out@;
            out.push(self.desc_at(at.wrapping_add(i as u32)));
            proof {
                assert(out@ =~= before + self.read(at, (i + 1) as nat));
            }
            i += 1;
        }
    }

    /// Writes descriptors from position `at` on.
    pub fn write_run(&mut self, at: u32, run: &[(u64, u32)], n: usize)
        requires
            old(self).inv(),
            n <= run@.len(),
            n <= u32::MAX,
        ensures
            final(self).inv(),
            final(self).desc@ == old(self).written(at, run@.take(n as int)),
            final(self).producer == old(self).producer,
            final(self).consumer == old(self).consumer,
            final(self).flags == old(self).flags,
            final(self).entries == old(self).entries,
    {
        let ghost before = *self;
        let mut i: usize = 0;
        while i < n
            invariant
                self.inv(),
                i <= n <= run@.len(),
                n <= u32::MAX,
                self.desc@ == before.written(at, run@.take(i as int)),
                self.producer == before.producer,
                self.consumer == before.consumer,
                self.flags == before.flags,
                self.entries == before.entries,
            decreases n - i,
        {
            proof {
                assert(run@.take(i + 1).drop_last() =~= run@.take(i as int));
                assert(run@.take(i + 1).last() == run@[i as int]);
            }
            self.write_desc(at.wrapping_add(i as u32), run[i]);
            i += 1;
        }
    }
}

/// What is written is read back, as long as it fits the ring.
pub proof fn law_ring_keeps_what_is_written(ring: Ring, at: u32, run: Seq<(u64, u32)>, after: Ring)
    requires
        ring.inv(),
        run.len() <= ring.entries,
        after.entries == ring.entries,
        after.desc@ == ring.written(at, run),
    ensures
        after.read(at, run.len()) == run,
{
    lemma_pow2_positive(ring.entries as nat);
    assert forall|i: int| 0 <= i < run.len() implies after.read(at, run.len())[i] == run[i] by {
        lemma_written(ring, at, run, i);
    }
    assert(after.read(at, run.len()) =~= run);
}

/// A power of two of at most 32 bits divides the range of the counters.
proof fn lemma_divides(n: nat)
    requires
        pow2(n),
        n <= u32::MAX,
    ensures
        0x1_0000_0000int % (n as int) == 0,
{
    vstd::arithmetic::power2::lemma2_to64();
    lemma_divides_pow(n, 32);
}

/// A power of two below `2^e` divides it.
proof fn lemma_divides_pow(n: nat, e: nat)
    requires
        pow2(n),
        n < vstd::arithmetic::power2::pow2(e),
    ensures
        vstd::arithmetic::power2::pow2(e) as int % (n as int) == 0,
        e == 32 ==> vstd::arithmetic::power2::pow2(e) == 0x1_0000_0000,
    decreases e,
{
    vstd::arithmetic::power2::lemma2_to64();
    lemma_pow2_positive(n);
    reveal(vstd::arithmetic::power2::is_pow2);
    if n == 1 {
    } else if e == 0 {
        vstd::arithmetic::power2::lemma2_to64();
    } else {
        let half = (n / 2) as nat;
        vstd::arithmetic::power2::lemma_pow2_unfold(e);
        let whole = vstd::arithmetic::power2::pow2((e - 1) as nat);
        assert(half < whole);
        lemma_divides_pow(half, (e - 1) as nat);
        let q = whole as int / half as int;
        vstd::arithmetic::div_mod::lemma_fundamental_div_mod(whole as int, half as int);
        assert(2 * whole == q * n) by (nonlinear_arith)
            requires
                whole == half * q,
                n == 2 * half,
        ;
        vstd::arithmetic::div_mod::lemma_mod_multiples_basic(q, n as int);
    }
}

/// Positions less than a ring of `n` entries apart have different slots.
pub proof fn lemma_slots_differ(n: nat, at: u32, i: int, j: int)
    requires
        ring_size(n),
        0 <= i < j < n,
    ensures
        moved(at, i) as int % (n as int) != moved(at, j) as int % (n as int),
{
    lemma_pow2_positive(n);
    lemma_slot(n, at, i);
    lemma_slot(n, at, j);
    if (at + i) % (n as int) == (at + j) % (n as int) {
        vstd::arithmetic::div_mod::lemma_mod_equivalence(at + j, at + i, n as int);
        assert((at + j - (at + i)) % (n as int) == 0);
        assert((j - i) % (n as int) == 0);
        vstd::arithmetic::div_mod::lemma_small_mod((j - i) as nat, n);
    }
}

/// Wrapping a counter does not change its slot.
proof fn lemma_slot(n: nat, at: u32, i: int)
    requires
        ring_size(n),
        0 <= i <= u32::MAX,
    ensures
        moved(at, i) as int % (n as int) == (at + i) % (n as int),
{
    let m = n as int;
    lemma_pow2_positive(n);
    lemma_divides(n);
    let k = 0x1_0000_0000int / m;
    vstd::arithmetic::div_mod::lemma_fundamental_div_mod(0x1_0000_0000int, m);
    if at + i >= 0x1_0000_0000int {
        assert(moved(at, i) == at + i - 0x1_0000_0000int);
        vstd::arithmetic::div_mod::lemma_mod_multiples_vanish(-k, at + i, m);
        assert(m * (-k) + (at + i) == moved(at, i)) by (nonlinear_arith)
            requires
                0x1_0000_0000int == m * k,
                moved(at, i) == at + i - 0x1_0000_0000int,
        ;
    }
}

/// One of the descriptors that were written.
proof fn lemma_written(ring: Ring, at: u32, run: Seq<(u64, u32)>, i: int)
    requires
        ring.inv(),
        run.len() <= ring.entries,
        0 <= i < run.len(),
    ensures
        ring.written(at, run).len() == ring.desc@.len(),
        ring.written(at, run)[ring.slot(moved(at, i))] == run[i],
    decreases run.len(),
{
    lemma_pow2_positive(ring.entries as nat);
    lemma_written_len(ring, at, run.drop_last());
    if i < run.len() - 1 {
        lemma_written(ring, at, run.drop_last(), i);
        lemma_slots_differ(ring.entries as nat, at, i, run.len() - 1);
    }
}

/// Writing changes no length.
proof fn lemma_written_len(ring: Ring, at: u32, run: Seq<(u64, u32)>)
    requires
        ring.inv(),
    ensures
        ring.written(at, run).len() == ring.desc@.len(),
    decreases run.len(),
{
    lemma_pow2_positive(ring.entries as nat);
    if run.len() > 0 {
        lemma_written_len(ring, at, run.drop_last());
    }
}

/// Moving on twice is moving on by both.
pub proof fn lemma_moved_twice(counter: u32, a: nat, b: nat)
    ensures
        moved(moved(counter, a as int), b as int) == moved(counter, (a + b) as int),
{
    let m = 0x1_0000_0000int;
    vstd::arithmetic::div_mod::lemma_add_mod_noop(counter + a as int, b as int, m);
    vstd::arithmetic::div_mod::lemma_add_mod_noop((counter + a) % m, b as int, m);
}

/// Writing a run and then another is writing both.
pub proof fn lemma_written_twice(
    ring: Ring,
    at: u32,
    a: Seq<(u64, u32)>,
    mid: Ring,
    b: Seq<(u64, u32)>,
)
    requires
        mid.entries == ring.entries,
        mid.desc@ == ring.written(at, a),
    ensures
        mid.written(moved(at, a.len() as int), b) == ring.written(at, a + b),
    decreases b.len(),
{
    if b.len() == 0 {
        assert(a + b =~= a);
    } else {
        lemma_written_twice(ring, at, a, mid, b.drop_last());
        assert((a + b).drop_last() =~= a + b.drop_last());
        lemma_moved_twice(at, a.len(), (b.len() - 1) as nat);
    }
}

/// A ring that this side produces into, with its own counter and the last known
/// place up to which the other side has made room.
pub struct Producer {
    pub ring: Ring,
    pub cached_producer: u32,
    pub cached_consumer: u32,
}

impl Producer {
    /// No more is under way than the ring has entries, and no more is known to be free
    /// than is.
    pub open spec fn inv(self) -> bool {
        &&& self.ring.inv()
        &&& self.known_free() + self.under_way() <= self.ring.entries
    }

    /// How many entries were produced and not yet consumed.
    pub open spec fn under_way(self) -> nat {
        ahead(self.cached_producer, self.ring.consumer)
    }

    /// How many entries are not under way.
    pub open spec fn space(self) -> nat {
        (self.ring.entries - self.under_way()) as nat
    }

    /// How many entries are known to be free.
    pub open spec fn known_free(self) -> nat {
        ahead(self.cached_consumer, self.cached_producer)
    }

    /// The place up to which there is room for `needed` entries: what is known, or
    /// where that is not enough what the ring says.
    pub open spec fn limit(self, needed: nat) -> u32 {
        if self.known_free() < needed {
            moved(self.ring.consumer, self.ring.entries as int)
        } else {
            self.cached_consumer
        }
    }

    /// How many entries are free for one who needs `needed`.
    pub open spec fn free_for(self, needed: nat) -> nat {
        ahead(self.limit(needed), self.cached_producer)
    }

    /// The producer of a fresh ring, all of it free.
    pub fn new(ring: Ring) -> (p: Producer)
        requires
            ring.inv(),
            ring.consumer == 0,
        ensures
            p.inv(),
            p.ring == ring,
            p.cached_producer == 0,
            p.cached_consumer == ring.entries,
    {
        let entries: u32 = ring.entries;
        proof {
            lemma_ahead(entries, 0);
            lemma_ahead(0, 0);
        }
        Producer { ring, cached_producer: 0, cached_consumer: entries }
    }

    /// Takes over how far the other side says it has consumed. A counter that runs
    /// backwards, or ahead of what was produced, is not taken over.
    pub fn see_consumed(&mut self, consumer: u32) -> (seen: bool)
        requires
            old(self).inv(),
        ensures
            final(self).inv(),
            seen == (ahead(old(self).cached_producer, consumer) <= old(self).under_way()),
            *final(self) == (if seen {
                Producer { ring: Ring { consumer, ..old(self).ring }, ..*old(self) }
            } else {
                *old(self)
            }),
    {
        proof {
            lemma_ahead(self.cached_producer, consumer);
            lemma_ahead(self.cached_producer, self.ring.consumer);
        }
        let left: u32 = self.cached_producer.wrapping_sub(consumer);
        if left > self.cached_producer.wrapping_sub(self.ring.consumer_load()) {
            return false;
        }
        self.ring.consumer_store(consumer);
        true
    }

    /// How many entries are free. The ring is looked at only where what is known is
    /// less than needed.
    pub fn free_slots(&mut self, needed: usize) -> (n: usize)
        requires
            old(self).inv(),
        ensures
            final(self).inv(),
            n == old(self).free_for(needed as nat),
            *final(self) == (Producer {
                cached_consumer: old(self).limit(needed as nat),
                ..*old(self)
            }),
    {
        let ghost limit = self.limit(needed as nat);
        proof {
            lemma_limit(*self, needed as nat);
            lemma_ahead(self.cached_consumer, self.cached_producer);
            lemma_ahead(limit, self.cached_producer);
        }
        let known: u32 = self.cached_consumer.wrapping_sub(self.cached_producer);
        assert(known == self.known_free());
        if (known as usize) < needed {
            self.cached_consumer = self.ring.consumer_load().wrapping_add(self.ring.entries);
        }
        assert(self.cached_consumer == limit);
        self.cached_consumer.wrapping_sub(self.cached_producer) as usize
    }

    /// Writes as many descriptors as there is room for and publishes them.
    #[verifier::spinoff_prover]
    pub fn push(&mut self, run: &[(u64, u32)]) -> (n: usize)
        requires
            old(self).inv(),
        ensures
            final(self).inv(),
            n == least(run@.len(), old(self).free_for(run@.len())),
            final(self).cached_consumer == old(self).limit(run@.len()),
            final(self).cached_producer == moved(old(self).cached_producer, n as int),
            final(self).ring.desc@ == old(self).ring.written(
                old(self).cached_producer,
                run@.take(n as int),
            ),
            final(self).ring.producer == (if n > 0 {
                final(self).cached_producer
            } else {
                old(self).ring.producer
            }),
            final(self).ring.consumer == old(self).ring.consumer,
            final(self).ring.flags == old(self).ring.flags,
            final(self).ring.entries == old(self).ring.entries,
    {
        let free: usize = self.free_slots(run.len());
        let n: usize = if run.len() < free {
            run.len()
        } else {
            free
        };
        let at: u32 = self.cached_producer;
        let end: u32 = at.wrapping_add(n as u32);
        assert(end == moved(at, n as int));
        proof {
            assert(free == self.known_free());
            lemma_pushed(*self, n as nat);
        }
        self.ring.write_run(at, run, n);
        self.cached_producer = end;
        if n > 0 {
            self.ring.producer_store(end);
        }
        n
    }
}

/// How many entries find room does not depend on what is known beforehand: as many as
/// are needed and not under way.
pub proof fn lemma_room(p: Producer, needed: nat)
    requires
        p.inv(),
    ensures
        least(needed, p.free_for(needed)) == least(needed, p.space()),
{
    lemma_limit(p, needed);
    lemma_ahead(p.cached_producer, p.ring.consumer);
    lemma_ahead(moved(p.ring.consumer, p.ring.entries as int), p.cached_producer);
}

/// Entries that are known to be free can be put under way.
pub proof fn lemma_pushed(p: Producer, n: nat)
    requires
        p.inv(),
        n <= p.known_free(),
    ensures
        ahead(p.cached_consumer, moved(p.cached_producer, n as int)) == p.known_free() - n,
        ahead(moved(p.cached_producer, n as int), p.ring.consumer) == p.under_way() + n,
{
    lemma_ahead(p.cached_producer, p.ring.consumer);
    lemma_ahead(moved(p.cached_producer, n as int), p.ring.consumer);
    lemma_ahead(p.cached_consumer, p.cached_producer);
    lemma_ahead(p.cached_consumer, moved(p.cached_producer, n as int));
}

/// However much is needed, no more is found free than is.
pub proof fn lemma_limit(p: Producer, needed: nat)
    requires
        p.inv(),
    ensures
        p.free_for(needed) + p.under_way() <= p.ring.entries,
        (Producer { cached_consumer: p.limit(needed), ..p }).inv(),
{
    lemma_ahead(p.cached_producer, p.ring.consumer);
    lemma_ahead(moved(p.ring.consumer, p.ring.entries as int), p.cached_producer);
}

/// A ring that this side consumes from, with its own counter.
pub struct Consumer {
    pub ring: Ring,
    pub cached_consumer: u32,
}

impl Consumer {
    pub open spec fn inv(self) -> bool {
        self.ring.inv()
    }

    /// How many entries wait.
    pub open spec fn waiting(self) -> nat {
        ahead(self.ring.producer, self.cached_consumer)
    }

    /// The consumer of a fresh ring.
    pub fn new(ring: Ring) -> (c: Consumer)
        requires
            ring.inv(),
        ensures
            c.inv(),
            c.ring == ring,
            c.cached_consumer == 0,
    {
        Consumer { ring, cached_consumer: 0 }
    }

    /// Takes up to `max` descriptors and frees their entries.
    pub fn pop(&mut self, out: &mut Vec<(u64, u32)>, max: usize) -> (n: usize)
        requires
            old(self).inv(),
        ensures
            final(self).inv(),
            n == least(max as nat, old(self).waiting()),
            final(out)@ == old(out)@ + old(self).ring.read(old(self).cached_consumer, n as nat),
            final(self).cached_consumer == moved(old(self).cached_consumer, n as int),
            final(self).ring == (Ring {
                consumer: if n > 0 {
                    final(self).cached_consumer
                } else {
                    old(self).ring.consumer
                },
                ..old(self).ring
            }),
    {
        proof {
            reveal(ahead);
        }
        let waiting: u32 = self.ring.producer_load().wrapping_sub(self.cached_consumer);
        let n: usize = if max < waiting as usize {
            max
        } else {
            waiting as usize
        };
        let at: u32 = self.cached_consumer;
        self.ring.read_run(at, n, out);
        self.cached_consumer = at.wrapping_add(n as u32);
        if n > 0 {
            let v: u32 = self.cached_consumer;
            self.ring.consumer_store(v);
        }
        n
    }
}

/// Whatever is pushed, never more is under way than the ring has entries, so nothing
/// that the other side has not consumed is overwritten: no entry that is under way lies
/// in a slot that is written.
pub proof fn law_pushing_overwrites_nothing(p: Producer, n: nat, needed: nat)
    requires
        p.inv(),
        n <= p.free_for(needed),
    ensures
        p.free_for(needed) <= p.ring.entries,
        ahead(moved(p.cached_producer, n as int), p.ring.consumer) == p.under_way() + n,
        p.under_way() + n <= p.ring.entries,
        forall|i: int, j: int|
            0 <= i < p.under_way() && 0 <= j < n ==> #[trigger] p.ring.slot(
                moved(p.ring.consumer, i),
            ) != #[trigger] p.ring.slot(moved(p.cached_producer, j)),
{
    lemma_limit(p, needed);
    lemma_pushed(Producer { cached_consumer: p.limit(needed), ..p }, n);
    let used = p.under_way() as int;
    assert(moved(p.ring.consumer, used) == p.cached_producer) by {
        lemma_ahead(p.cached_producer, p.ring.consumer);
    }
    assert forall|i: int, j: int| 0 <= i < used && 0 <= j < n implies #[trigger] p.ring.slot(
        moved(p.ring.consumer, i),
    ) != #[trigger] p.ring.slot(moved(p.cached_producer, j)) by {
        lemma_moved_twice(p.ring.consumer, used as nat, j as nat);
        lemma_slots_differ(p.ring.entries as nat, p.ring.consumer, i, used + j);
    }
}

/// What a distance between counters is.
pub proof fn lemma_ahead(a: u32, b: u32)
    ensures
        ahead(a, b) == (if a >= b {
            (a - b) as nat
        } else {
            (a - b + 0x1_0000_0000) as nat
        }),
{
    reveal(ahead);
}

/// The frame arena: its geometry, and the rings over which frames go to the kernel to
/// be received into and come back once they were sent.
pub struct UMem {
    pub fq: Producer,
    pub cq: Consumer,
    pub chunk_size: usize,
    pub num_frames: usize,
}

impl UMem {
    /// The rings are well-formed and the arena has a size.
    pub open spec fn inv(self) -> bool {
        &&& self.fq.inv()
        &&& self.cq.inv()
        &&& self.num_frames * self.chunk_size <= usize::MAX
    }

    /// Whether arena and rings are as large as those of `other`.
    pub open spec fn shaped_like(self, other: UMem) -> bool {
        &&& self.num_frames == other.num_frames
        &&& self.chunk_size == other.chunk_size
        &&& self.fq.ring.entries == other.fq.ring.entries
        &&& self.cq.ring.entries == other.cq.ring.entries
    }

    /// An arena of `num_frames` frames of `chunk_size` bytes. Unless its frames may lie
    /// anywhere, their size is a power of two of at least 2048.
    pub fn new(
        num_frames: usize,
        chunk_size: usize,
        fill_entries: usize,
        cq_entries: usize,
        flags: u32,
    ) -> (r: Result<UMem, IoError>)
        requires
            num_frames > 0,
            flags & XDP_UMEM_UNALIGNED_CHUNK_FLAG == 0 ==> pow2(chunk_size as nat) && chunk_size
                >= 2048,
        ensures
            r == Err::<UMem, IoError>(IoError::ArenaOverflow) <==> num_frames * chunk_size
                > usize::MAX,
            r == Err::<UMem, IoError>(IoError::RingSize) <==> num_frames * chunk_size <= usize::MAX
                && !(ring_size(fill_entries as nat) && ring_size(cq_entries as nat)),
            r is Ok <==> num_frames * chunk_size <= usize::MAX && ring_size(fill_entries as nat)
                && ring_size(cq_entries as nat),
            r matches Ok(umem) ==> {
                &&& umem.inv()
                &&& umem.chunk_size == chunk_size
                &&& umem.num_frames == num_frames
                &&& umem.fq.ring.blank(fill_entries as nat)
                &&& umem.cq.ring.blank(cq_entries as nat)
                &&& umem.fq.cached_producer == 0
                &&& umem.fq.cached_consumer == fill_entries
                &&& umem.cq.cached_consumer == 0
            },
    {
        match num_frames.checked_mul(chunk_size) {
            None => {
                return Err(IoError::ArenaOverflow);
            },
            Some(_) => {},
        }
        match validate_ring_size(fill_entries) {
            Err(e) => {
                return Err(e);
            },
            Ok(()) => {},
        }
        match validate_ring_size(cq_entries) {
            Err(e) => {
                return Err(e);
            },
            Ok(()) => {},
        }
        Ok(
            UMem {
                fq: Producer::new(Ring::simulated(fill_entries as u32)),
                cq: Consumer::new(Ring::simulated(cq_entries as u32)),
                chunk_size,
                num_frames,
            },
        )
    }

    /// The size of the arena.
    pub fn len_bytes(&self) -> (n: usize)
        requires
            self.inv(),
        ensures
            n == self.num_frames * self.chunk_size,
    {
        self.num_frames * self.chunk_size
    }

    /// How the arena, which lies at `addr`, is registered with the kernel.
    pub fn registration(&self, addr: u64, headroom: u32, flags: u32) -> (reg: XdpUmemReg)
        requires
            self.inv(),
            self.chunk_size <= u32::MAX,
        ensures
            reg == (XdpUmemReg {
                addr,
                len: (self.num_frames * self.chunk_size) as u64,
                chunk_size: self.chunk_size as u32,
                headroom,
                flags,
                tx_metadata_len: 0,
            }),
    {
        XdpUmemReg {
            addr,
            len: self.len_bytes() as u64,
            chunk_size: self.chunk_size as u32,
            headroom,
            flags,
            tx_metadata_len: 0,
        }
    }

    /// Hands frames to the kernel to receive into; says how many fit.
    pub fn fill_push(&mut self, addrs: &[(u64, u32)]) -> (n: usize)
        requires
            old(self).inv(),
        ensures
            final(self).inv(),
            final(self).chunk_size == old(self).chunk_size,
            final(self).num_frames == old(self).num_frames,
            final(self).cq == old(self).cq,
            n == least(addrs@.len(), old(self).fq.free_for(addrs@.len())),
            final(self).fq.cached_producer == moved(old(self).fq.cached_producer, n as int),
            final(self).fq.cached_consumer == old(self).fq.limit(addrs@.len()),
            final(self).fq.ring.desc@ == old(self).fq.ring.written(
                old(self).fq.cached_producer,
                addrs@.take(n as int),
            ),
            final(self).fq.ring.consumer == old(self).fq.ring.consumer,
            final(self).fq.ring.entries == old(self).fq.ring.entries,
            final(self).fq.ring.flags == old(self).fq.ring.flags,
            n > 0 ==> final(self).fq.ring.producer == final(self).fq.cached_producer,
            n == 0 ==> final(self).fq.ring.producer == old(self).fq.ring.producer,
    {
        self.fq.push(addrs)
    }

    /// Whether the kernel sleeps until it is told of new frames to receive into.
    pub fn fill_needs_wakeup(&self) -> (yes: bool)
        ensures
            yes == (self.fq.ring.flags matches Some(flags) && flags
                & super::sys::XDP_RING_NEED_WAKEUP != 0),
    {
        match self.fq.ring.flags {
            Some(flags) => flags & super::sys::XDP_RING_NEED_WAKEUP != 0,
            None => false,
        }
    }

    /// Takes back up to `max` frames that were sent.
    pub fn cq_pop(&mut self, out: &mut Vec<(u64, u32)>, max: usize) -> (n: usize)
        requires
            old(self).inv(),
        ensures
            final(self).inv(),
            final(self).chunk_size == old(self).chunk_size,
            final(self).num_frames == old(self).num_frames,
            final(self).fq == old(self).fq,
            n == least(max as nat, old(self).cq.waiting()),
            final(out)@ == old(out)@ + old(self).cq.ring.read(
                old(self).cq.cached_consumer,
                n as nat,
            ),
            final(self).cq.cached_consumer == moved(old(self).cq.cached_consumer, n as int),
            final(self).cq.ring == (Ring {
                consumer: if n > 0 {
                    final(self).cq.cached_consumer
                } else {
                    old(self).cq.ring.consumer
                },
                ..old(self).cq.ring
            }),
    {
        self.cq.pop(out, max)
    }
}

/// How long the mapping of a ring is: up to the end of its descriptors. `None` where
/// that is more than memory can hold.
pub fn mapping_len(desc: u64, entries: u32, desc_size: usize) -> (len: Option<usize>)
    requires
        desc_size <= 16,
    ensures
        len is Some <==> desc + entries * desc_size <= usize::MAX,
        len matches Some(n) ==> n == desc + entries * desc_size,
{
    assert(entries * desc_size <= 0xffff_ffff * 16) by (nonlinear_arith)
        requires
            entries <= 0xffff_ffff,
            desc_size <= 16,
    ;
    let total: u128 = desc as u128 + entries as u128 * desc_size as u128;
    if total <= usize::MAX as u128 {
        Some(total as usize)
    } else {
        None
    }
}

} // verus!
