//! The free list of a fixed arena: a stack of frame numbers.
use vstd::prelude::*;

verus! {

/// Which of `n` frames are free. The last one freed is the first one handed out.
pub struct FreeList {
    free: Vec<usize>,
    in_use: Vec<bool>,
}

impl FreeList {
    /// The free frames; the last one is handed out next.
    pub closed spec fn view(self) -> Seq<usize> {
        self.free@
    }

    /// How many frames there are.
    pub closed spec fn frames(self) -> nat {
        self.in_use@.len()
    }

    /// Whether frame `idx` is handed out.
    pub open spec fn used(self, idx: usize) -> bool {
        idx < self.frames() && !self@.contains(idx)
    }

    /// No frame is free twice, and the frames in use are those that are not free.
    pub closed spec fn inv(self) -> bool {
        &&& self.free@.no_duplicates()
        &&& forall|i: int| 0 <= i < self.free@.len() ==> #[trigger] self.free@[i] < self.in_use@.len()
        &&& forall|idx: usize|
            idx < self.in_use@.len() ==> (#[trigger] self.in_use@[idx as int] <==> !self.free@.contains(
                idx,
            ))
    }

    /// Free frames exist and are free once.
    pub proof fn lemma_free(self)
        requires
            self.inv(),
        ensures
            self@.no_duplicates(),
            forall|i: int| 0 <= i < self@.len() ==> #[trigger] self@[i] < self.frames(),
    {
    }

    /// A free list of `n` frames, all free; frame 0 is handed out first.
    pub fn new(n: usize) -> (list: FreeList)
        ensures
            list.inv(),
            list.frames() == n,
            list@ == Seq::new(n as nat, |i: int| (n - 1 - i) as usize),
    {
        let mut free: Vec<usize> = Vec::with_capacity(n);
        let mut in_use: Vec<bool> = Vec::with_capacity(n);
        let mut left: usize = n;
        while left > 0
            invariant
                left <= n,
                free@ == Seq::new((n - left) as nat, |i: int| (n - 1 - i) as usize),
                in_use@ == Seq::new((n - left) as nat, |i: int| false),
            decreases left,
        {
            left -= 1;
            free.push(left);
            in_use.push(false);
            assert(free@ =~= Seq::new((n - left) as nat, |i: int| (n - 1 - i) as usize));
            assert(in_use@ =~= Seq::new((n - left) as nat, |i: int| false));
        }
        let list = FreeList { free, in_use };
        proof {
            assert forall|idx: usize| idx < n implies #[trigger] list.free@.contains(idx) by {
                assert(list.free@[n - 1 - idx] == idx);
            }
        }
        list
    }

    /// How many frames are free.
    pub fn available(&self) -> (n: usize)
        ensures
            n == self@.len(),
    {
        self.free.len()
    }

    /// How many frames there are.
    pub fn num_frames(&self) -> (n: usize)
        ensures
            n == self.frames(),
    {
        self.in_use.len()
    }

    /// Whether frame `idx` is handed out.
    pub fn is_used(&self, idx: usize) -> (yes: bool)
        requires
            self.inv(),
        ensures
            yes == self.used(idx),
    {
        idx < self.in_use.len() && self.in_use[idx]
    }

    /// Records that frame `idx` was handed out or came back.
    fn mark_used(&mut self, idx: usize, used: bool)
        requires
            idx < old(self).in_use@.len(),
        ensures
            final(self).in_use@ == old(self).in_use@.update(idx as int, used),
            final(self).free@ == old(self).free@,
    {
        self.in_use[idx] = used;
    }

    /// Hands out the frame that was freed last, if one is free.
    pub fn allocate(&mut self) -> (frame: Option<usize>)
        requires
            old(self).inv(),
        ensures
            final(self).inv(),
            final(self).frames() == old(self).frames(),
            frame is None <==> old(self)@.len() == 0,
            frame is None ==> final(self)@ == old(self)@,
            frame matches Some(idx) ==> {
                &&& idx == old(self)@.last()
                &&& final(self)@ == old(self)@.drop_last()
                &&& idx < old(self).frames()
                &&& !old(self).used(idx)
                &&& final(self).used(idx)
            },
    {
        let ghost before = self.free@;
        match self.free.pop() {
            None => None,
            Some(idx) => {
                assert(before[before.len() - 1] == idx);
                self.mark_used(idx, true);
                proof {
                    assert forall|x: usize| #[trigger]
                        self.free@.contains(x) <==> (before.contains(x) && x != idx) by {
                        lemma_drop_last_contains(before, x);
                    }
                }
                Some(idx)
            },
        }
    }

    /// Takes back frame `idx`, to be handed out next.
    pub fn free(&mut self, idx: usize)
        requires
            old(self).inv(),
            old(self).used(idx),
        ensures
            final(self).inv(),
            final(self).frames() == old(self).frames(),
            final(self)@ == old(self)@.push(idx),
    {
        let ghost before = self.free@;
        self.mark_used(idx, false);
        self.free.push(idx);
        proof {
            assert forall|x: usize| #[trigger]
                self.free@.contains(x) <==> (before.contains(x) || x == idx) by {
                lemma_push_contains(before, idx, x);
            }
        }
    }

    /// Hands out as many frames as `out` can hold and the list has. They come in
    /// the order of the stack, the one freed last at the end.
    pub fn alloc_n(&mut self, out: &mut [usize]) -> (n: usize)
        requires
            old(self).inv(),
        ensures
            final(self).inv(),
            final(self).frames() == old(self).frames(),
            n == least(old(out)@.len(), old(self)@.len()),
            final(out)@.len() == old(out)@.len(),
            final(out)@.take(n as int) == old(self)@.skip(old(self)@.len() - n),
            final(out)@.skip(n as int) == old(out)@.skip(n as int),
            final(self)@ == old(self)@.take(old(self)@.len() - n),
    {
        let count: usize = self.free.len();
        let n: usize = if out.len() < count {
            out.len()
        } else {
            count
        };
        let ghost before = self.free@;
        let ghost start = out@;
        let ghost list0 = *self;
        let mut left: usize = n;
        while left > 0
            invariant
                left <= n <= count,
                count == before.len(),
                n <= start.len(),
                self.inv(),
                self.frames() == list0.frames(),
                self@ == before.take(count - (n - left)),
                out@.len() == start.len(),
                forall|j: int|
                    0 <= j < start.len() ==> #[trigger] out@[j] == (if left <= j < n {
                        before[count - n + j]
                    } else {
                        start[j]
                    }),
            decreases left,
        {
            left -= 1;
            let ghost mid = self@;
            match self.allocate() {
                Some(idx) => {
                    assert(mid.last() == before[count - n + left]);
                    out[left] = idx;
                },
                None => {
                    assert(false);
                },
            }
            assert(mid.drop_last() =~= before.take(count - (n - left)));
        }
        assert(out@.take(n as int) =~= before.skip(count - n));
        assert(out@.skip(n as int) =~= start.skip(n as int));
        n
    }

    /// Takes back several frames, none of them twice.
    pub fn free_n(&mut self, indices: &[usize])
        requires
            old(self).inv(),
            indices@.no_duplicates(),
            forall|i: int| 0 <= i < indices@.len() ==> old(self).used(#[trigger] indices@[i]),
        ensures
            final(self).inv(),
            final(self).frames() == old(self).frames(),
            final(self)@ == old(self)@ + indices@,
    {
        let mut i: usize = 0;
        let ghost before = self@;
        let ghost list0 = *self;
        assert(before + indices@.take(0) =~= before);
        while i < indices.len()
            invariant
                i <= indices@.len(),
                self.inv(),
                self.frames() == list0.frames(),
                before == list0@,
                self@ == before + indices@.take(i as int),
                indices@.no_duplicates(),
                forall|j: int| 0 <= j < indices@.len() ==> list0.used(#[trigger] indices@[j]),
            decreases indices@.len() - i,
        {
            let idx: usize = indices[i];
            assert(self.used(idx)) by {
                assert(list0.used(indices@[i as int]));
                if self@.contains(idx) {
                    let k = choose|k: int| 0 <= k < self@.len() && self@[k] == idx;
                    if k < before.len() {
                        assert(before[k] == idx);
                        assert(before.contains(idx));
                    } else {
                        assert(indices@[k - before.len()] == idx);
                    }
                }
            }
            self.free(idx);
            assert(before + indices@.take(i + 1) =~= (before + indices@.take(i as int)).push(idx));
            i += 1;
        }
        assert(indices@.take(indices@.len() as int) =~= indices@);
    }
}

/// Freeing the frame that was just handed out undoes it.
pub proof fn law_freeing_undoes_allocation(free: Seq<usize>)
    requires
        free.len() > 0,
    ensures
        free.drop_last().push(free.last()) == free,
{
    assert(free.drop_last().push(free.last()) =~= free);
}

/// Freeing several frames in the order in which they were handed out undoes it.
pub proof fn law_freeing_undoes_batches(free: Seq<usize>, n: int)
    requires
        0 <= n <= free.len(),
    ensures
        free.take(free.len() - n) + free.skip(free.len() - n) == free,
{
    assert(free.take(free.len() - n) + free.skip(free.len() - n) =~= free);
}

/// The smaller of two numbers.
pub open spec fn least(a: nat, b: nat) -> nat {
    if a <= b {
        a
    } else {
        b
    }
}

/// What a stack without duplicates holds after its top is taken.
proof fn lemma_drop_last_contains(s: Seq<usize>, x: usize)
    requires
        s.len() > 0,
        s.no_duplicates(),
    ensures
        s.drop_last().contains(x) <==> (s.contains(x) && x != s.last()),
{
    if s.contains(x) && x != s.last() {
        let i = choose|i: int| 0 <= i < s.len() && s[i] == x;
        assert(s.drop_last()[i] == x);
    }
    if s.drop_last().contains(x) {
        let i = choose|i: int| 0 <= i < s.len() - 1 && s.drop_last()[i] == x;
        assert(s[i] == x);
        assert(s[s.len() - 1] != s[i]);
    }
}

/// What a stack holds after a push.
proof fn lemma_push_contains(s: Seq<usize>, idx: usize, x: usize)
    ensures
        s.push(idx).contains(x) <==> (s.contains(x) || x == idx),
{
    assert(s.push(idx)[s.len() as int] == idx);
    if s.contains(x) {
        let i = choose|i: int| 0 <= i < s.len() && s[i] == x;
        assert(s.push(idx)[i] == x);
    }
}

} // verus!
