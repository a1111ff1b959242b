//! Reading and writing numbers and runs of bytes inside packets.
use vstd::prelude::*;

verus! {

/// The big-endian number in the two bytes at `i`.
pub open spec fn be16(s: Seq<u8>, i: int) -> int {
    s[i] * 256 + s[i + 1]
}

/// The two bytes of `v`, the more significant one first.
pub open spec fn be16_bytes(v: u16) -> Seq<u8> {
    seq![(v / 256) as u8, (v % 256) as u8]
}

/// The big-endian number in the four bytes at `i`.
pub open spec fn be32(s: Seq<u8>, i: int) -> int {
    be16(s, i) * 65536 + be16(s, i + 2)
}

/// The four bytes of `v`, the most significant one first.
pub open spec fn be32_bytes(v: u32) -> Seq<u8> {
    be16_bytes((v / 65536) as u16) + be16_bytes((v % 65536) as u16)
}

/// `s` with the bytes from `at` on overwritten by `run`.
pub open spec fn overwrite(s: Seq<u8>, at: int, run: Seq<u8>) -> Seq<u8> {
    s.subrange(0, at) + run + s.subrange(at + run.len(), s.len() as int)
}

/// What overwriting changes and what it leaves.
pub proof fn lemma_overwrite(s: Seq<u8>, at: int, run: Seq<u8>)
    requires
        0 <= at,
        at + run.len() <= s.len(),
    ensures
        overwrite(s, at, run).len() == s.len(),
        forall|i: int|
            0 <= i < s.len() ==> #[trigger] overwrite(s, at, run)[i] == (if at <= i < at
                + run.len() {
                run[i - at]
            } else {
                s[i]
            }),
{
}

/// Overwriting with two runs that meet is overwriting with both.
pub proof fn lemma_overwrite_join(s: Seq<u8>, at: int, a: Seq<u8>, b: Seq<u8>)
    requires
        0 <= at,
        at + a.len() + b.len() <= s.len(),
    ensures
        overwrite(overwrite(s, at + a.len(), b), at, a) == overwrite(s, at, a + b),
{
    lemma_overwrite(s, at + a.len(), b);
    lemma_overwrite(overwrite(s, at + a.len(), b), at, a);
    lemma_overwrite(s, at, a + b);
    assert(overwrite(overwrite(s, at + a.len(), b), at, a) =~= overwrite(s, at, a + b));
}

/// Overwriting inside a run that was just written is writing the changed run.
pub proof fn lemma_overwrite_inside(s: Seq<u8>, at: int, run: Seq<u8>, inner: int, part: Seq<u8>)
    requires
        0 <= at,
        at + run.len() <= s.len(),
        0 <= inner,
        inner + part.len() <= run.len(),
    ensures
        overwrite(overwrite(s, at, run), at + inner, part) == overwrite(
            s,
            at,
            overwrite(run, inner, part),
        ),
{
    lemma_overwrite(s, at, run);
    lemma_overwrite(overwrite(s, at, run), at + inner, part);
    lemma_overwrite(run, inner, part);
    lemma_overwrite(s, at, overwrite(run, inner, part));
    assert(overwrite(overwrite(s, at, run), at + inner, part) =~= overwrite(
        s,
        at,
        overwrite(run, inner, part),
    ));
}

/// What a packet holds once a run and then its front were overwritten.
pub proof fn lemma_overwrite_front(s: Seq<u8>, at: int, run: Seq<u8>, front: Seq<u8>)
    requires
        front.len() <= at,
        at + run.len() <= s.len(),
    ensures
        overwrite(overwrite(s, at, run), 0, front).len() == s.len(),
        overwrite(overwrite(s, at, run), 0, front).take(at + run.len()) == front + s.subrange(
            front.len() as int,
            at,
        ) + run,
        overwrite(overwrite(s, at, run), 0, front).skip(at + run.len()) == s.skip(at + run.len()),
{
    let done = overwrite(overwrite(s, at, run), 0, front);
    lemma_overwrite(s, at, run);
    lemma_overwrite(overwrite(s, at, run), 0, front);
    assert(done.take(at + run.len()) =~= front + s.subrange(front.len() as int, at) + run);
    assert(done.skip(at + run.len()) =~= s.skip(at + run.len()));
}

/// A run of zero bytes.
pub open spec fn zeros(n: nat) -> Seq<u8> {
    Seq::new(n, |i: int| 0u8)
}

/// Writing a number and reading it back gives the number.
pub proof fn lemma_be32_bytes(v: u32)
    ensures
        be32_bytes(v).len() == 4,
        be32(be32_bytes(v), 0) == v,
{
    let s = be32_bytes(v);
    let hi = (v / 65536) as u16;
    let lo = (v % 65536) as u16;
    assert(s[0] == be16_bytes(hi)[0] && s[1] == be16_bytes(hi)[1]);
    assert(s[2] == be16_bytes(lo)[0] && s[3] == be16_bytes(lo)[1]);
}

/// Reads the big-endian number in the two bytes at `offset`.
pub fn read16(bytes: &[u8], offset: usize) -> (v: u16)
    requires
        offset + 2 <= bytes@.len(),
    ensures
        v == be16(bytes@, offset as int),
{
    bytes[offset] as u16 * 256 + bytes[offset + 1] as u16
}

/// Reads the big-endian number in the four bytes at `offset`.
pub fn read32(bytes: &[u8], offset: usize) -> (v: u32)
    requires
        offset + 4 <= bytes@.len(),
    ensures
        v == be32(bytes@, offset as int),
{
    assert(offset + 4 <= bytes.len());
    read16(bytes, offset) as u32 * 65536 + read16(bytes, offset + 2) as u32
}

/// The two bytes of `v`, the more significant one first.
pub fn bytes_of16(v: u16) -> (bytes: [u8; 2])
    ensures
        bytes@ == be16_bytes(v),
{
    let bytes: [u8; 2] = [(v / 256) as u8, (v % 256) as u8];
    assert(bytes@ =~= be16_bytes(v));
    bytes
}

/// The four bytes of `v`, the most significant one first.
pub fn bytes_of32(v: u32) -> (bytes: [u8; 4])
    ensures
        bytes@ == be32_bytes(v),
{
    let hi: u16 = (v / 65536) as u16;
    let lo: u16 = (v % 65536) as u16;
    let bytes: [u8; 4] = [(hi / 256) as u8, (hi % 256) as u8, (lo / 256) as u8, (lo % 256) as u8];
    assert(bytes@ =~= be32_bytes(v));
    bytes
}

/// Overwrites the bytes from `at` on with `run`.
pub fn put_run(bytes: &mut [u8], at: usize, run: &[u8])
    requires
        at + run@.len() <= old(bytes)@.len(),
    ensures
        final(bytes)@ == overwrite(old(bytes)@, at as int, run@),
        final(bytes)@.len() == old(bytes)@.len(),
{
    let mut i: usize = 0;
    let ghost before = bytes@;
    while i < run.len()
        invariant
            i <= run@.len(),
            at + run@.len() <= before.len(),
            bytes@.len() == before.len(),
            forall|j: int| 0 <= j < before.len() ==> #[trigger] bytes@[j] == (if at <= j < at + i {
                run@[j - at]
            } else {
                before[j]
            }),
        decreases run@.len() - i,
    {
        assert(at + run@.len() <= bytes.len());
        bytes[at + i] = run[i];
        i += 1;
    }
    assert(bytes@ =~= overwrite(before, at as int, run@));
}

/// Overwrites two bytes at `at` with `v`, the more significant byte first.
pub fn put16(bytes: &mut [u8], at: usize, v: u16)
    requires
        at + 2 <= old(bytes)@.len(),
    ensures
        final(bytes)@ == overwrite(old(bytes)@, at as int, be16_bytes(v)),
        final(bytes)@.len() == old(bytes)@.len(),
{
    let run: [u8; 2] = bytes_of16(v);
    put_run(bytes, at, &run);
}

/// Clears the bytes from `at` up to `end`.
pub fn clear_run(bytes: &mut [u8], at: usize, end: usize)
    requires
        at <= end <= old(bytes)@.len(),
    ensures
        final(bytes)@ == overwrite(old(bytes)@, at as int, zeros((end - at) as nat)),
        final(bytes)@.len() == old(bytes)@.len(),
{
    let mut i: usize = at;
    let ghost before = bytes@;
    while i < end
        invariant
            at <= i <= end <= before.len(),
            bytes@.len() == before.len(),
            forall|j: int| 0 <= j < before.len() ==> #[trigger] bytes@[j] == (if at <= j < i {
                0u8
            } else {
                before[j]
            }),
        decreases end - i,
    {
        bytes[i] = 0;
        i += 1;
    }
    assert(bytes@ =~= overwrite(before, at as int, zeros((end - at) as nat)));
}

/// Whether the bytes from `at` on are `run`.
pub fn has_run(bytes: &[u8], at: usize, run: &[u8]) -> (yes: bool)
    requires
        at + run@.len() <= bytes@.len(),
    ensures
        yes == (bytes@.subrange(at as int, at + run@.len()) == run@),
{
    let mut i: usize = 0;
    let ghost part = bytes@.subrange(at as int, at + run@.len());
    while i < run.len()
        invariant
            i <= run@.len(),
            at + run@.len() <= bytes@.len(),
            part == bytes@.subrange(at as int, at + run@.len()),
            forall|j: int| 0 <= j < i ==> part[j] == run@[j],
        decreases run@.len() - i,
    {
        assert(at + run@.len() <= bytes.len());
        if bytes[at + i] != run[i] {
            assert(part[i as int] != run@[i as int]);
            return false;
        }
        i += 1;
    }
    assert(part =~= run@);
    true
}

/// A copy of the bytes.
pub fn copied(bytes: &[u8]) -> (copy: Vec<u8>)
    ensures
        copy@ == bytes@,
{
    vstd::slice::slice_to_vec(bytes)
}

} // verus!
