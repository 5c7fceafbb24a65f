//! Header-tagged allocation inside a modelled linear address space, and the
//! transfer encodings that hand ownership of a buffer to the host.
//!
//! The host addresses guest memory only by integer offsets, so the allocator
//! prefixes every region it hands out with an 8-byte little-endian capacity
//! header.  Deallocation re-derives the region's extent from that header alone;
//! the length the host passes back is never trusted.

use vstd::prelude::*;

verus! {

/// Little-endian value of an 8-byte header.
pub open spec fn le64(s: Seq<u8>) -> int
    recommends
        s.len() == 8,
{
    (s[0] as int) + 0x100 * (s[1] as int) + 0x1_0000 * (s[2] as int) + 0x100_0000 * (s[3] as int)
        + 0x1_0000_0000 * (s[4] as int) + 0x100_0000_0000 * (s[5] as int) + 0x1_0000_0000_0000 * (
    s[6] as int) + 0x100_0000_0000_0000 * (s[7] as int)
}

/// A 64-bit handle that carries a byte length in its high 32 bits and a data
/// address in its low 32 bits.  The all-zero value is reserved as the failure
/// sentinel; a genuine result never collides with it because no region is ever
/// placed at address zero.
pub open spec fn pack_handle(len: u64, ptr: u64) -> u64 {
    (len << 32) | ptr
}

/// The length carried in the high 32 bits of a packed handle.
pub open spec fn handle_len(h: u64) -> u64 {
    h >> 32
}

/// The data address carried in the low 32 bits of a packed handle.
pub open spec fn handle_ptr(h: u64) -> u64 {
    h & 0xFFFF_FFFF
}

/// Packing a length and a nonzero sub-2^32 address is lossless, and the result
/// can never equal the all-zero failure sentinel.
pub proof fn lemma_handle_round_trip(len: u64, ptr: u64)
    by (bit_vector)
    requires
        len < 0x1_0000_0000,
        ptr < 0x1_0000_0000,
    ensures
        handle_len(pack_handle(len, ptr)) == len,
        handle_ptr(pack_handle(len, ptr)) == ptr,
        ptr != 0 ==> pack_handle(len, ptr) != 0,
{
}

/// The guest's flat, byte-addressable memory, together with the bookkeeping of
/// the regions whose ownership currently sits with the host.
///
/// `block_map` tracks header-tagged regions: it maps each live data address to
/// the full size of its block (8-byte header plus data area).  `raw_map` tracks
/// headerless regions handed out by `forget_buf_ptr`, mapping the data address
/// to the region's capacity, which always equals the buffer length.
///
/// Address zero is never part of any region: the space starts with one
/// reserved byte, so every address the allocator hands out is nonzero and a
/// zero pointer can safely serve as the failure sentinel.
pub struct GuestMemory {
    mem: Vec<u8>,
    block_map: Ghost<Map<usize, usize>>,
    raw_map: Ghost<Map<usize, usize>>,
}

impl GuestMemory {
    /// The bytes of the linear address space.
    pub closed spec fn space(self) -> Seq<u8> {
        self.mem@
    }

    /// Live header-tagged regions: data address to full block size.
    pub closed spec fn blocks(self) -> Map<usize, usize> {
        self.block_map@
    }

    /// Live headerless regions: data address to capacity.
    pub closed spec fn raws(self) -> Map<usize, usize> {
        self.raw_map@
    }

    /// Every tracked region lies inside the space, every header records its
    /// block's full size, and no two regions overlap.
    pub closed spec fn wf(self) -> bool {
        &&& self.mem@.len() >= 1
        &&& forall|p: usize|
            #[trigger] self.block_map@.dom().contains(p) ==> {
                &&& 8 <= p
                &&& 8 <= self.block_map@[p]
                &&& p - 8 + self.block_map@[p] <= self.mem@.len()
                &&& le64(self.mem@.subrange(p - 8, p as int)) == self.block_map@[p]
            }
        &&& forall|p: usize|
            #[trigger] self.raw_map@.dom().contains(p) ==> {
                &&& 1 <= p
                &&& 1 <= self.raw_map@[p]
                &&& p + self.raw_map@[p] <= self.mem@.len()
            }
        &&& forall|p1: usize, p2: usize|
            #[trigger] self.block_map@.dom().contains(p1) && #[trigger] self.block_map@.dom().contains(p2)
                && p1 != p2 ==> p1 - 8 + self.block_map@[p1] <= p2 - 8 || p2 - 8
                + self.block_map@[p2] <= p1 - 8
        &&& forall|p1: usize, p2: usize|
            #[trigger] self.block_map@.dom().contains(p1) && #[trigger] self.raw_map@.dom().contains(p2)
                ==> p1 - 8 + self.block_map@[p1] <= p2 || p2 + self.raw_map@[p2] <= p1 - 8
        &&& forall|p1: usize, p2: usize|
            #[trigger] self.raw_map@.dom().contains(p1) && #[trigger] self.raw_map@.dom().contains(p2)
                && p1 != p2 ==> p1 + self.raw_map@[p1] <= p2 || p2 + self.raw_map@[p2] <= p1
    }

    /// A fresh guest memory: one reserved byte at address zero, no regions.
    pub fn new() -> (m: GuestMemory)
        ensures
            m.wf(),
            m.space() == seq![0u8],
            m.blocks() == Map::<usize, usize>::empty(),
            m.raws() == Map::<usize, usize>::empty(),
    {
        let mut mem: Vec<u8> = Vec::new();
        mem.push(0);
        let m = GuestMemory {
            mem,
            block_map: Ghost(Map::empty()),
            raw_map: Ghost(Map::empty()),
        };
        proof {
            assert(m.space() =~= seq![0u8]);
        }
        m
    }

    /// Current size of the linear address space.
    pub fn mem_size(&self) -> (r: usize)
        ensures
            r == self.space().len(),
    {
        self.mem.len()
    }

    /// Read back a live region's full block size from its header.  The result
    /// is exactly the capacity the allocator reserved: the header is the only
    /// place that knowledge is kept.
    pub fn region_capacity(&self, ptr: usize) -> (r: usize)
        requires
            self.wf(),
            self.blocks().dom().contains(ptr),
        ensures
            r == self.blocks()[ptr],
            r == le64(self.space().subrange(ptr - 8, ptr as int)),
    {
        let c0 = self.mem[ptr - 8];
        let c1 = self.mem[ptr - 7];
        let c2 = self.mem[ptr - 6];
        let c3 = self.mem[ptr - 5];
        let c4 = self.mem[ptr - 4];
        let c5 = self.mem[ptr - 3];
        let c6 = self.mem[ptr - 2];
        let c7 = self.mem[ptr - 1];
        let cap64: u64 = (c0 as u64) + 0x100 * (c1 as u64) + 0x1_0000 * (c2 as u64) + 0x100_0000
            * (c3 as u64) + 0x1_0000_0000 * (c4 as u64) + 0x100_0000_0000 * (c5 as u64)
            + 0x1_0000_0000_0000 * (c6 as u64) + 0x100_0000_0000_0000 * (c7 as u64);
        proof {
            let hdr = self.mem@.subrange(ptr - 8, ptr as int);
            assert(hdr[0] == c0 && hdr[1] == c1 && hdr[2] == c2 && hdr[3] == c3 && hdr[4] == c4
                && hdr[5] == c5 && hdr[6] == c6 && hdr[7] == c7);
            assert(le64(hdr) == cap64);
        }
        cap64 as usize
    }
}

/// A 64-bit value is the little-endian sum of its eight bytes.
proof fn lemma_le64_decompose(v: u64)
    by (bit_vector)
    ensures
        v == (v % 0x100) + 0x100 * ((v / 0x100) % 0x100) + 0x1_0000 * ((v / 0x1_0000) % 0x100)
            + 0x100_0000 * ((v / 0x100_0000) % 0x100) + 0x1_0000_0000 * ((v / 0x1_0000_0000)
            % 0x100) + 0x100_0000_0000 * ((v / 0x100_0000_0000) % 0x100) + 0x1_0000_0000_0000 * ((v
            / 0x1_0000_0000_0000) % 0x100) + 0x100_0000_0000_0000 * ((v / 0x100_0000_0000_0000)
            % 0x100),
{
}

/// A subrange taken inside a common prefix is the same in both sequences.
proof fn lemma_prefix_subrange(s1: Seq<u8>, s2: Seq<u8>, a: int, b: int)
    requires
        s1.len() <= s2.len(),
        s2.subrange(0, s1.len() as int) == s1,
        0 <= a <= b <= s1.len(),
    ensures
        s2.subrange(a, b) == s1.subrange(a, b),
{
    assert forall|i: int| 0 <= i < s1.len() implies s2[i] == s1[i] by {
        assert(s2.subrange(0, s1.len() as int)[i] == s1[i]);
    }
    assert(s2.subrange(a, b) =~= s1.subrange(a, b));
}

/// Reserve a region able to hold `size` usable bytes, write the full block
/// size (data plus 8-byte header) into the header, and return the address just
/// past the header.  The data area starts zeroed; the caller fills it directly
/// through the returned address.
pub fn allocate(mem: &mut GuestMemory, size: usize) -> (r: usize)
    requires
        old(mem).wf(),
        old(mem).space().len() + size + 8 <= usize::MAX,
    ensures
        final(mem).wf(),
        r == old(mem).space().len() + 8,
        r >= 8,
        !old(mem).blocks().dom().contains(r),
        final(mem).blocks() == old(mem).blocks().insert(r, (size + 8) as usize),
        final(mem).raws() == old(mem).raws(),
        final(mem).space().len() == old(mem).space().len() + size + 8,
        final(mem).space().subrange(0, old(mem).space().len() as int) == old(mem).space(),
        le64(final(mem).space().subrange(r - 8, r as int)) == size + 8,
        forall|i: int| r <= i < r + size ==> final(mem).space()[i] == 0,
{
    let base = mem.mem.len();
    let cap: usize = size + 8;
    let cap64: u64 = cap as u64;
    let b0: u8 = (cap64 % 0x100) as u8;
    let b1: u8 = ((cap64 / 0x100) % 0x100) as u8;
    let b2: u8 = ((cap64 / 0x1_0000) % 0x100) as u8;
    let b3: u8 = ((cap64 / 0x100_0000) % 0x100) as u8;
    let b4: u8 = ((cap64 / 0x1_0000_0000) % 0x100) as u8;
    let b5: u8 = ((cap64 / 0x100_0000_0000) % 0x100) as u8;
    let b6: u8 = ((cap64 / 0x1_0000_0000_0000) % 0x100) as u8;
    let b7: u8 = ((cap64 / 0x100_0000_0000_0000) % 0x100) as u8;
    let ghost hdr: Seq<u8> = seq![b0, b1, b2, b3, b4, b5, b6, b7];
    mem.mem.push(b0);
    mem.mem.push(b1);
    mem.mem.push(b2);
    mem.mem.push(b3);
    mem.mem.push(b4);
    mem.mem.push(b5);
    mem.mem.push(b6);
    mem.mem.push(b7);
    proof {
        lemma_le64_decompose(cap64);
        assert(mem.mem@.subrange(0, base as int) =~= old(mem).space());
        assert(mem.mem@.subrange(base as int, base + 8) =~= hdr);
        assert(le64(hdr) == cap64);
    }
    let mut i: usize = 0;
    while i < size
        invariant
            i <= size,
            base + size + 8 <= usize::MAX,
            mem.mem@.len() == base + 8 + i,
            mem.mem@.subrange(0, base as int) == old(mem).space(),
            mem.mem@.subrange(base as int, base + 8) == hdr,
            forall|j: int| base + 8 <= j < base + 8 + i ==> mem.mem@[j] == 0,
            mem.block_map@ == old(mem).blocks(),
            mem.raw_map@ == old(mem).raws(),
        decreases size - i,
    {
        mem.mem.push(0);
        proof {
            assert(mem.mem@.subrange(0, base as int) =~= old(mem).space());
            assert(mem.mem@.subrange(base as int, base + 8) =~= hdr);
        }
        i = i + 1;
    }
    let r = base + 8;
    proof {
        assert(le64(mem.mem@.subrange(base as int, base + 8)) == cap64);
    }
    mem.block_map = Ghost(mem.block_map@.insert(r, cap));
    proof {
        let m0 = *old(mem);
        let m1 = *mem;
        assert(!m0.blocks().dom().contains(r)) by {
            if m0.blocks().dom().contains(r) {
                assert(r - 8 + m0.blocks()[r] <= m0.space().len());
            }
        }
        assert forall|p: usize| #[trigger] m1.block_map@.dom().contains(p) implies {
            &&& 8 <= p
            &&& 8 <= m1.block_map@[p]
            &&& p - 8 + m1.block_map@[p] <= m1.mem@.len()
            &&& le64(m1.mem@.subrange(p - 8, p as int)) == m1.block_map@[p]
        } by {
            if p == r {
                assert(le64(m1.mem@.subrange(r - 8, r as int)) == cap);
            } else {
                assert(m0.blocks().dom().contains(p));
                assert(p - 8 + m0.blocks()[p] <= m0.space().len());
                lemma_prefix_subrange(m0.space(), m1.mem@, p - 8, p as int);
                assert(le64(m1.mem@.subrange(p - 8, p as int)) == m0.blocks()[p]);
            }
        }
        assert forall|p1: usize, p2: usize|
            #[trigger] m1.block_map@.dom().contains(p1) && #[trigger] m1.block_map@.dom().contains(
                p2,
            ) && p1 != p2 implies p1 - 8 + m1.block_map@[p1] <= p2 - 8 || p2 - 8
            + m1.block_map@[p2] <= p1 - 8 by {
            if p1 != r && p2 != r {
                assert(m0.blocks().dom().contains(p1) && m0.blocks().dom().contains(p2));
            } else if p1 == r {
                assert(m0.blocks().dom().contains(p2));
                assert(p2 - 8 + m0.blocks()[p2] <= m0.space().len());
            } else {
                assert(m0.blocks().dom().contains(p1));
                assert(p1 - 8 + m0.blocks()[p1] <= m0.space().len());
            }
        }
        assert forall|p1: usize, p2: usize|
            #[trigger] m1.block_map@.dom().contains(p1) && #[trigger] m1.raw_map@.dom().contains(
                p2,
            ) implies p1 - 8 + m1.block_map@[p1] <= p2 || p2 + m1.raw_map@[p2] <= p1 - 8 by {
            if p1 == r {
                assert(m0.raws().dom().contains(p2));
                assert(p2 + m0.raws()[p2] <= m0.space().len());
            } else {
                assert(m0.blocks().dom().contains(p1) && m0.raws().dom().contains(p2));
            }
        }
        assert(m1.wf());
        assert(m1.space().subrange(r - 8, r as int) == m1.mem@.subrange(base as int, base + 8));
    }
    r
}


/// Release the region whose data starts at `ptr`, recovering its extent from
/// the 8-byte header alone; the length argument is accepted only for boundary
/// compatibility and is never trusted.  A zero pointer is a tolerated no-op.
/// Every byte of the block, header included, is scrubbed, and no byte outside
/// it is touched.  A region may be released at most once: after this call its
/// address is no longer live, so a second call is ruled out by the contract.
pub fn dealloc(mem: &mut GuestMemory, ptr: usize, _len: usize)
    requires
        old(mem).wf(),
        ptr == 0 || old(mem).blocks().dom().contains(ptr),
    ensures
        final(mem).wf(),
        ptr == 0 ==> *final(mem) == *old(mem),
        ptr != 0 ==> final(mem).blocks() == old(mem).blocks().remove(ptr),
        ptr != 0 ==> final(mem).raws() == old(mem).raws(),
        ptr != 0 ==> final(mem).space().len() == old(mem).space().len(),
        ptr != 0 ==> forall|i: int|
            ptr - 8 <= i < ptr - 8 + old(mem).blocks()[ptr] ==> final(mem).space()[i] == 0,
        ptr != 0 ==> forall|i: int|
            0 <= i < old(mem).space().len() && !(ptr - 8 <= i < ptr - 8 + old(mem).blocks()[ptr])
                ==> final(mem).space()[i] == old(mem).space()[i],
{
    if ptr == 0 {
        return ;
    }
    let cap = mem.region_capacity(ptr);
    let base = ptr - 8;
    proof {
        assert(mem.mem@.len() <= usize::MAX) by {
            assert(mem.mem.len() == mem.mem@.len());
        }
    }
    let mut i: usize = 0;
    while i < cap
        invariant
            old(mem).wf(),
            old(mem).blocks().dom().contains(ptr),
            ptr >= 8,
            cap == old(mem).blocks()[ptr],
            base == ptr - 8,
            base + cap <= mem.mem@.len(),
            mem.mem@.len() <= usize::MAX,
            i <= cap,
            mem.mem@.len() == old(mem).space().len(),
            forall|j: int| base <= j < base + i ==> mem.mem@[j] == 0,
            forall|j: int|
                0 <= j < mem.mem@.len() && !(base <= j < base + i) ==> mem.mem@[j]
                    == old(mem).space()[j],
            mem.block_map@ == old(mem).blocks(),
            mem.raw_map@ == old(mem).raws(),
        decreases cap - i,
    {
        mem.mem[base + i] = 0;
        i = i + 1;
    }
    mem.block_map = Ghost(mem.block_map@.remove(ptr));
    proof {
        let m0 = *old(mem);
        let m1 = *mem;
        assert forall|p: usize| #[trigger] m1.block_map@.dom().contains(p) implies {
            &&& 8 <= p
            &&& 8 <= m1.block_map@[p]
            &&& p - 8 + m1.block_map@[p] <= m1.mem@.len()
            &&& le64(m1.mem@.subrange(p - 8, p as int)) == m1.block_map@[p]
        } by {
            assert(m0.block_map@.dom().contains(p) && p != ptr);
            assert(p - 8 + m0.block_map@[p] <= ptr - 8 || ptr - 8 + m0.block_map@[ptr] <= p - 8);
            assert(m1.mem@.subrange(p - 8, p as int) =~= m0.mem@.subrange(p - 8, p as int));
        }
        assert(m1.wf());
    }
}


impl GuestMemory {
    /// Copy `data` into the data area of the live region at `ptr`, as the host
    /// does after `allocate`.  Headers and every other region are untouched.
    pub fn write_bytes(&mut self, ptr: usize, data: &Vec<u8>)
        requires
            old(self).wf(),
            old(self).blocks().dom().contains(ptr),
            data@.len() + 8 <= old(self).blocks()[ptr],
        ensures
            final(self).wf(),
            final(self).blocks() == old(self).blocks(),
            final(self).raws() == old(self).raws(),
            final(self).space().len() == old(self).space().len(),
            forall|i: int|
                ptr <= i < ptr + data@.len() ==> final(self).space()[i] == data@[i - ptr],
            forall|i: int|
                0 <= i < old(self).space().len() && !(ptr <= i < ptr + data@.len())
                    ==> final(self).space()[i] == old(self).space()[i],
    {
        let len = data.len();
        proof {
            assert(self.mem@.len() <= usize::MAX) by {
                assert(self.mem.len() == self.mem@.len());
            }
        }
        let mut i: usize = 0;
        while i < len
            invariant
                old(self).wf(),
                old(self).blocks().dom().contains(ptr),
                ptr >= 8,
                len == data@.len(),
                len + 8 <= old(self).blocks()[ptr],
                ptr - 8 + old(self).blocks()[ptr] <= self.mem@.len(),
                self.mem@.len() <= usize::MAX,
                i <= len,
                self.mem@.len() == old(self).space().len(),
                forall|j: int| ptr <= j < ptr + i ==> self.mem@[j] == data@[j - ptr],
                forall|j: int|
                    0 <= j < self.mem@.len() && !(ptr <= j < ptr + i) ==> self.mem@[j]
                        == old(self).space()[j],
                self.block_map@ == old(self).blocks(),
                self.raw_map@ == old(self).raws(),
            decreases len - i,
        {
            self.mem[ptr + i] = data[i];
            i = i + 1;
        }
        proof {
            let m0 = *old(self);
            let m1 = *self;
            assert forall|p: usize| #[trigger] m1.block_map@.dom().contains(p) implies {
                &&& 8 <= p
                &&& 8 <= m1.block_map@[p]
                &&& p - 8 + m1.block_map@[p] <= m1.mem@.len()
                &&& le64(m1.mem@.subrange(p - 8, p as int)) == m1.block_map@[p]
            } by {
                assert(m0.block_map@.dom().contains(p));
                if p != ptr {
                    assert(p - 8 + m0.block_map@[p] <= ptr - 8 || ptr - 8 + m0.block_map@[ptr]
                        <= p - 8);
                }
                assert(m1.mem@.subrange(p - 8, p as int) =~= m0.mem@.subrange(p - 8, p as int));
            }
            assert(m1.wf());
        }
    }

    /// Read `len` bytes starting at `ptr` out of the linear address space.
    pub fn read_bytes(&self, ptr: usize, len: usize) -> (r: Vec<u8>)
        requires
            ptr + len <= self.space().len(),
        ensures
            r@ == self.space().subrange(ptr as int, ptr + len),
    {
        let mut r: Vec<u8> = Vec::new();
        proof {
            assert(self.mem@.len() <= usize::MAX) by {
                assert(self.mem.len() == self.mem@.len());
            }
        }
        let mut i: usize = 0;
        while i < len
            invariant
                i <= len,
                ptr + len <= self.mem@.len(),
                self.mem@.len() <= usize::MAX,
                r@.len() == i,
                forall|j: int| 0 <= j < i ==> r@[j] == self.mem@[ptr + j],
            decreases len - i,
        {
            r.push(self.mem[ptr + i]);
            i = i + 1;
        }
        proof {
            assert(r@ =~= self.space().subrange(ptr as int, ptr + len));
        }
        r
    }
}

/// Hand the bytes of `buf` to the host as a bare address: the buffer's content
/// is materialised at the frontier of the address space as a headerless region
/// whose capacity is exactly the buffer's length, with no slack bytes.  The
/// caller must learn the length through a side channel; the address alone does
/// not recover it, and the region cannot be released through `dealloc`.  An
/// empty buffer owns no memory: the returned address is the current frontier
/// and no region is recorded.
pub fn forget_buf_ptr(mem: &mut GuestMemory, buf: Vec<u8>) -> (r: usize)
    requires
        old(mem).wf(),
    ensures
        final(mem).wf(),
        r == old(mem).space().len(),
        r >= 1,
        final(mem).space() == (old(mem).space() + buf@),
        final(mem).blocks() == old(mem).blocks(),
        buf@.len() == 0 ==> final(mem).raws() == old(mem).raws(),
        buf@.len() > 0 ==> final(mem).raws() == old(mem).raws().insert(r, buf@.len() as usize),
        buf@.len() > 0 ==> !old(mem).raws().dom().contains(r),
{
    let base = mem.mem.len();
    let len = buf.len();
    let mut i: usize = 0;
    while i < len
        invariant
            i <= len,
            len == buf@.len(),
            base + i == mem.mem@.len(),
            mem.mem@ == old(mem).space() + buf@.subrange(0, i as int),
            mem.block_map@ == old(mem).blocks(),
            mem.raw_map@ == old(mem).raws(),
        decreases len - i,
    {
        mem.mem.push(buf[i]);
        proof {
            assert(mem.mem@ =~= old(mem).space() + buf@.subrange(0, i + 1));
        }
        i = i + 1;
    }
    proof {
        assert(buf@.subrange(0, len as int) =~= buf@);
    }
    if len > 0 {
        proof {
            let m0 = *old(mem);
            if m0.raw_map@.dom().contains(base) {
                assert(base + m0.raw_map@[base] <= m0.mem@.len());
            }
        }
        mem.raw_map = Ghost(mem.raw_map@.insert(base, len));
        proof {
            let m0 = *old(mem);
            let m1 = *mem;
            assert forall|p: usize| #[trigger] m1.block_map@.dom().contains(p) implies {
                &&& 8 <= p
                &&& 8 <= m1.block_map@[p]
                &&& p - 8 + m1.block_map@[p] <= m1.mem@.len()
                &&& le64(m1.mem@.subrange(p - 8, p as int)) == m1.block_map@[p]
            } by {
                assert(m0.block_map@.dom().contains(p));
                assert(p - 8 + m0.block_map@[p] <= m0.mem@.len());
                assert(m1.mem@.subrange(0, m0.mem@.len() as int) =~= m0.mem@);
                lemma_prefix_subrange(m0.mem@, m1.mem@, p - 8, p as int);
            }
            assert(m1.wf());
        }
    }
    base
}


/// What a successful packed-handle transfer does: `h` packs the buffer length
/// over the fresh region's data address, the region carries a header recording
/// its full block size, the buffer's bytes sit in its data area, and nothing
/// already in `m0` has moved.
pub open spec fn publishes(m0: GuestMemory, m1: GuestMemory, h: u64, b: Seq<u8>) -> bool {
    let p = m0.space().len() + 8;
    &&& b.len() < 0x1_0000_0000
    &&& p < 0x1_0000_0000
    &&& h == pack_handle(b.len() as u64, p as u64)
    &&& handle_len(h) == b.len()
    &&& handle_ptr(h) == p
    &&& h != 0
    &&& m1.blocks() == m0.blocks().insert(p as usize, (b.len() + 8) as usize)
    &&& m1.raws() == m0.raws()
    &&& m1.space().len() == m0.space().len() + 8 + b.len()
    &&& m1.space().subrange(0, m0.space().len() as int) == m0.space()
    &&& m1.space().subrange(p as int, (p + b.len()) as int) == b
    &&& le64(m1.space().subrange(p - 8, p as int)) == b.len() + 8
}

/// Hand the bytes of `buf` to the host as a single packed `(length, address)`
/// scalar.  A fresh header-tagged region is allocated and the bytes are copied
/// into it, so every buffer returned through this path can later be released
/// through the one `dealloc` entry point, however the original bytes were
/// produced.  The result is never the zero sentinel, even for an empty buffer:
/// its address component is a real, nonzero data address.
pub fn forget_buf_ptr_len(mem: &mut GuestMemory, buf: Vec<u8>) -> (r: u64)
    requires
        old(mem).wf(),
        old(mem).space().len() + buf@.len() + 8 < 0x1_0000_0000,
    ensures
        final(mem).wf(),
        r != 0,
        publishes(*old(mem), *final(mem), r, buf@),
{
    let len = buf.len();
    let p = allocate(mem, len);
    mem.write_bytes(p, &buf);
    let len64: u64 = len as u64;
    let p64: u64 = p as u64;
    let h: u64 = (len64 << 32) | p64;
    proof {
        lemma_handle_round_trip(len64, p64);
        let m0 = *old(mem);
        let m1 = *mem;
        let pi = m0.space().len() + 8;
        assert(h == pack_handle(len64, p64));
        assert(m1.space().subrange(0, m0.space().len() as int) =~= m0.space());
        assert(m1.space().subrange(pi as int, (pi + buf@.len()) as int) =~= buf@);
        assert(le64(m1.space().subrange(pi - 8, pi as int)) == len + 8) by {
            assert(forall|j: int|
                pi - 8 <= j < pi ==> m1.space()[j] == m1.space().subrange(pi - 8, pi as int)[j - (
                pi - 8)]);
        }
    }
    h
}

/// `forget_buf_ptr_len` without its size precondition: the sizes are tested
/// first, and an input too large for the packed encoding is refused with the
/// zero sentinel, leaving the memory untouched.
pub fn forget_buf_ptr_len_checked(mem: &mut GuestMemory, buf: Vec<u8>) -> (r: u64)
    requires
        old(mem).wf(),
    ensures
        final(mem).wf(),
        old(mem).space().len() + buf@.len() + 8 < 0x1_0000_0000 ==> r != 0 && publishes(
            *old(mem),
            *final(mem),
            r,
            buf@,
        ),
        old(mem).space().len() + buf@.len() + 8 >= 0x1_0000_0000 ==> r == 0 && *final(mem) == *old(
            mem,
        ),
{
    let sz = mem.mem_size();
    let ln = buf.len();
    if (sz as u128) + (ln as u128) + 8 < 0x1_0000_0000 {
        forget_buf_ptr_len(mem, buf)
    } else {
        0
    }
}

/// The capacity recovered from a live region's header always equals the
/// capacity the allocator actually reserved, and the whole block lies inside
/// the address space.
pub proof fn lemma_header_capacity(m: GuestMemory, p: usize)
    requires
        m.wf(),
        m.blocks().dom().contains(p),
    ensures
        8 <= p,
        8 <= m.blocks()[p],
        p - 8 + m.blocks()[p] <= m.space().len(),
        le64(m.space().subrange(p - 8, p as int)) == m.blocks()[p],
{
}

/// Two distinct live header-tagged regions never overlap, so releasing or
/// filling one cannot corrupt its neighbour.
pub proof fn lemma_regions_disjoint(m: GuestMemory, p1: usize, p2: usize)
    requires
        m.wf(),
        m.blocks().dom().contains(p1),
        m.blocks().dom().contains(p2),
        p1 != p2,
    ensures
        p1 - 8 + m.blocks()[p1] <= p2 - 8 || p2 - 8 + m.blocks()[p2] <= p1 - 8,
{
}


} // verus!
