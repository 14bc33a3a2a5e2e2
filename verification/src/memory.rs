//! A process's user address space as its page table sees it: the mapped
//! virtual pages, each with its permissions and the bytes of its frame.
//!
//! This holds the logic of the memory system calls: mapping and unmapping
//! a range of pages, and reading or writing one byte of user memory.
use vstd::prelude::*;
use std::collections::BTreeMap;

verus! {

/// Size of a page in bytes.
pub const PAGE_SIZE: usize = 0x1000;

/// Permissions of a mapped page.
#[derive(Clone, Copy, PartialEq, Eq, Structural, Debug)]
pub struct PagePerm {
    pub readable: bool,
    pub writable: bool,
    pub executable: bool,
    /// Accessible from user mode.
    pub user: bool,
}

/// A mapped page: its permissions and the bytes of its frame.
pub struct PageView {
    pub perm: PagePerm,
    pub data: Seq<u8>,
}

struct Frame {
    perm: PagePerm,
    data: Vec<u8>,
}

/// The mapped pages of an address space, keyed by virtual page number.
pub struct AddressSpace {
    pages: BTreeMap<usize, Frame>,
}

spec fn frame_view(f: Frame) -> PageView {
    PageView { perm: f.perm, data: f.data@ }
}

impl View for AddressSpace {
    type V = Map<usize, PageView>;

    closed spec fn view(&self) -> Map<usize, PageView> {
        Map::new(|k: usize| self.pages@.contains_key(k), |k: usize| frame_view(self.pages@[k]))
    }
}

/// Every mapped page has a whole frame.
pub open spec fn space_wf(m: Map<usize, PageView>) -> bool {
    forall|vpn: usize| #[trigger] m.contains_key(vpn) ==> m[vpn].data.len() == PAGE_SIZE
}

/// The contents of a freshly allocated frame.
pub open spec fn zero_page() -> Seq<u8> {
    Seq::new(PAGE_SIZE as nat, |i: int| 0u8)
}

/// Page `vpn` overlaps the byte range `[start, start + len)`.
pub open spec fn in_range(vpn: usize, start: usize, len: usize) -> bool {
    (start as int) / (PAGE_SIZE as int) <= (vpn as int) && (vpn as int) * (PAGE_SIZE as int)
        < (start as int) + (len as int)
}

/// The permissions requested by `port`: bit 0 read, bit 1 write, bit 2 execute;
/// the pages are always accessible from user mode.
pub open spec fn port_perm(port: usize) -> PagePerm {
    PagePerm {
        readable: port % 2 == 1,
        writable: (port / 2) % 2 == 1,
        executable: (port / 4) % 2 == 1,
        user: true,
    }
}

/// Mapping `len` bytes at `start` with permissions `port`.
///
/// Refused (-1) when `start` is not page aligned, when `port` has bits other
/// than the low three or none of them, or when a page of the range is
/// already mapped. A zero length maps nothing and succeeds. Otherwise every
/// page of the range is mapped to a zeroed frame with the permissions of `port`.
pub open spec fn mmap_result(m: Map<usize, PageView>, start: usize, len: usize, port: usize) -> (
    Map<usize, PageView>,
    isize,
) {
    if start % PAGE_SIZE != 0 || port > 7 || port == 0 {
        (m, -1isize)
    } else if len == 0 {
        (m, 0isize)
    } else if exists|vpn: usize| in_range(vpn, start, len) && #[trigger] m.contains_key(vpn) {
        (m, -1isize)
    } else {
        (
            Map::new(
                |vpn: usize| m.contains_key(vpn) || in_range(vpn, start, len),
                |vpn: usize|
                    if in_range(vpn, start, len) {
                        PageView { perm: port_perm(port), data: zero_page() }
                    } else {
                        m[vpn]
                    },
            ),
            0isize,
        )
    }
}

/// Unmapping `len` bytes at `start`.
///
/// Refused (-1) when `start` is not page aligned or when a page of the range
/// is not mapped. A zero length unmaps nothing and succeeds. Otherwise every
/// page of the range is unmapped.
pub open spec fn munmap_result(m: Map<usize, PageView>, start: usize, len: usize) -> (
    Map<usize, PageView>,
    isize,
) {
    if start % PAGE_SIZE != 0 {
        (m, -1isize)
    } else if len == 0 {
        (m, 0isize)
    } else if exists|vpn: usize| in_range(vpn, start, len) && !#[trigger] m.contains_key(vpn) {
        (m, -1isize)
    } else {
        (Map::new(|vpn: usize| m.contains_key(vpn) && !in_range(vpn, start, len), |vpn: usize| m[vpn]), 0isize)
    }
}

/// The page of address `addr` is mapped and user mode may read it.
pub open spec fn user_readable(m: Map<usize, PageView>, addr: usize) -> bool {
    let vpn = (addr / PAGE_SIZE) as usize;
    m.contains_key(vpn) && m[vpn].perm.user && m[vpn].perm.readable
}

/// The page of address `addr` is mapped and user mode may write it.
pub open spec fn user_writable(m: Map<usize, PageView>, addr: usize) -> bool {
    let vpn = (addr / PAGE_SIZE) as usize;
    m.contains_key(vpn) && m[vpn].perm.user && m[vpn].perm.writable
}

/// The byte at address `addr`.
pub open spec fn byte_at(m: Map<usize, PageView>, addr: usize) -> u8 {
    m[(addr / PAGE_SIZE) as usize].data[(addr % PAGE_SIZE) as int]
}

/// A byte access of user memory at address `addr`: request 0 reads the
/// byte there, request 1 writes the low byte of `value` there; each is
/// refused (-1) when the page does not allow it to user mode, and any other
/// request is refused.
pub open spec fn trace_result(m: Map<usize, PageView>, request: usize, value: usize, addr: usize) -> (
    Map<usize, PageView>,
    isize,
) {
    let vpn = (addr / PAGE_SIZE) as usize;
    if request == 0 {
        if user_readable(m, addr) {
            (m, byte_at(m, addr) as isize)
        } else {
            (m, -1isize)
        }
    } else if request == 1 {
        if user_writable(m, addr) {
            (
                m.insert(
                    vpn,
                    PageView {
                        perm: m[vpn].perm,
                        data: m[vpn].data.update((addr % PAGE_SIZE) as int, value as u8),
                    },
                ),
                0isize,
            )
        } else {
            (m, -1isize)
        }
    } else {
        (m, -1isize)
    }
}

/// The low `n` bytes of `v`, least significant first.
pub open spec fn le_bytes(v: nat, n: nat) -> Seq<u8>
    decreases n,
{
    if n == 0 {
        Seq::empty()
    } else {
        seq![(v % 256) as u8] + le_bytes(v / 256, (n - 1) as nat)
    }
}

/// The page of address `addr` is mapped and accessible from user mode.
pub open spec fn user_accessible(m: Map<usize, PageView>, addr: usize) -> bool {
    let vpn = (addr / PAGE_SIZE) as usize;
    m.contains_key(vpn) && m[vpn].perm.user
}

/// Storing `bytes` into user memory at `addr`: done (`true`) when the page
/// of `addr` is accessible from user mode and the bytes fit in that page
/// from `addr` on; otherwise nothing is written (`false`).
pub open spec fn store_result(m: Map<usize, PageView>, addr: usize, bytes: Seq<u8>) -> (
    Map<usize, PageView>,
    bool,
) {
    let vpn = (addr / PAGE_SIZE) as usize;
    let off = (addr % PAGE_SIZE) as int;
    if user_accessible(m, addr) && off + bytes.len() <= PAGE_SIZE {
        (
            m.insert(
                vpn,
                PageView {
                    perm: m[vpn].perm,
                    data: Seq::new(
                        m[vpn].data.len(),
                        |i: int|
                            if off <= i < off + bytes.len() {
                                bytes[i - off]
                            } else {
                                m[vpn].data[i]
                            },
                    ),
                },
            ),
            true,
        )
    } else {
        (m, false)
    }
}

/// A zeroed frame.
fn zeroed_frame() -> (r: Vec<u8>)
    ensures
        r@ == zero_page(),
{
    let mut r: Vec<u8> = Vec::new();
    let mut i: usize = 0;
    while i < PAGE_SIZE
        invariant
            i <= PAGE_SIZE,
            r@.len() == i,
            forall|k: int| 0 <= k < i ==> #[trigger] r@[k] == 0u8,
        decreases PAGE_SIZE - i,
    {
        r.push(0u8);
        i += 1;
    }
    assert(r@ =~= zero_page());
    r
}

proof fn lemma_range_bounds(start: usize, len: usize, vpn: usize)
    requires
        start % PAGE_SIZE == 0,
        len > 0,
        start + len <= usize::MAX,
    ensures
        in_range(vpn, start, len) <==> start / PAGE_SIZE <= vpn < (
        (start + len - 1) as usize / PAGE_SIZE + 1),
{
}

/// Appends the low `n` bytes of `v` to `out`, least significant first.
pub fn push_le_bytes(out: &mut Vec<u8>, v: usize, n: usize)
    ensures
        final(out)@ == old(out)@ + le_bytes(v as nat, n as nat),
{
    let ghost start = out@;
    let mut x = v;
    let mut k: usize = 0;
    while k < n
        invariant
            k <= n,
            start == old(out)@,
            start + le_bytes(v as nat, n as nat) == out@ + le_bytes(x as nat, (n - k) as nat),
        decreases n - k,
    {
        let ghost before = out@;
        let b = (x % 256) as u8;
        proof {
            let rest = le_bytes((x / 256) as nat, (n - k - 1) as nat);
            assert(le_bytes(x as nat, (n - k) as nat) == seq![b] + rest);
            assert(before + (seq![b] + rest) =~= before.push(b) + rest);
        }
        out.push(b);
        x = x / 256;
        k += 1;
    }
    assert(out@ + le_bytes(x as nat, 0) =~= out@);
}

impl AddressSpace {
    /// An address space with no page mapped.
    pub fn new() -> (r: AddressSpace)
        ensures
            r@ == Map::<usize, PageView>::empty(),
            space_wf(r@),
    {
        let r = AddressSpace { pages: BTreeMap::new() };
        assert(r@ =~= Map::<usize, PageView>::empty());
        r
    }

    /// Whether virtual page `vpn` is mapped.
    pub fn is_mapped(&self, vpn: usize) -> (r: bool)
        ensures
            r == self@.contains_key(vpn),
    {
        self.pages.contains_key(&vpn)
    }

    /// Maps `len` bytes at `start` with the permissions of `port`; see [`mmap_result`].
    pub fn map_range(&mut self, start: usize, len: usize, port: usize) -> (r: isize)
        requires
            space_wf(old(self)@),
            start % PAGE_SIZE == 0 && 0 < port <= 7 && len > 0 ==> start + len <= usize::MAX,
        ensures
            (final(self)@, r) == mmap_result(old(self)@, start, len, port),
            space_wf(final(self)@),
    {
        if start % PAGE_SIZE != 0 {
            return -1;
        }
        if port & !0x7 != 0 {
            assert(port & !0x7usize != 0 ==> port > 7) by (bit_vector);
            return -1;
        }
        if port & 0x7 == 0 {
            assert(port & !0x7usize == 0 && port & 0x7usize == 0 ==> port == 0) by (bit_vector);
            return -1;
        }
        assert(port & !0x7usize == 0 ==> port <= 7) by (bit_vector);
        assert(port & 0x7usize != 0 ==> port != 0) by (bit_vector);
        if len == 0 {
            return 0;
        }
        let ghost m0 = self@;
        let start_vpn = start / PAGE_SIZE;
        let end = start + len;
        let end_vpn = (end - 1) / PAGE_SIZE + 1;
        proof {
            assert forall|vpn: usize| in_range(vpn, start, len) <==> start_vpn <= vpn < end_vpn by {
                lemma_range_bounds(start, len, vpn);
            }
        }
        let mut vpn = start_vpn;
        while vpn < end_vpn
            invariant
                start_vpn <= vpn <= end_vpn,
                self@ == m0,
                m0 == old(self)@,
                space_wf(m0),
                forall|v: usize| in_range(v, start, len) <==> start_vpn <= v < end_vpn,
                forall|v: usize| start_vpn <= v < vpn ==> !#[trigger] m0.contains_key(v),
            decreases end_vpn - vpn,
        {
            if self.pages.contains_key(&vpn) {
                assert(in_range(vpn, start, len) && m0.contains_key(vpn));
                return -1;
            }
            vpn += 1;
        }
        let perm = PagePerm {
            readable: port & 0x1 != 0,
            writable: port & 0x2 != 0,
            executable: port & 0x4 != 0,
            user: true,
        };
        proof {
            assert(port & 0x1usize != 0 <==> port % 2 == 1) by (bit_vector);
            assert(port & 0x2usize != 0 <==> (port / 2) % 2 == 1) by (bit_vector);
            assert(port & 0x4usize != 0 <==> (port / 4) % 2 == 1) by (bit_vector);
            assert(perm == port_perm(port));
        }
        let mut vpn = start_vpn;
        while vpn < end_vpn
            invariant
                start_vpn <= vpn <= end_vpn,
                perm == port_perm(port),
                m0 == old(self)@,
                forall|v: usize| in_range(v, start, len) <==> start_vpn <= v < end_vpn,
                forall|v: usize| start_vpn <= v < end_vpn ==> !#[trigger] m0.contains_key(v),
                space_wf(m0),
                self@ == Map::new(
                    |v: usize| m0.contains_key(v) || (start_vpn <= v < vpn),
                    |v: usize|
                        if start_vpn <= v < vpn {
                            PageView { perm: port_perm(port), data: zero_page() }
                        } else {
                            m0[v]
                        },
                ),
            decreases end_vpn - vpn,
        {
            let data = zeroed_frame();
            let ghost before = self.pages@;
            let ghost prev = self@;
            let ghost frame = Frame { perm, data };
            self.pages.insert(vpn, Frame { perm, data });
            proof {
                assert(self.pages@ == before.insert(vpn, frame));
                assert(frame_view(frame) == PageView { perm: port_perm(port), data: zero_page() });
                let target = Map::new(
                    |v: usize| m0.contains_key(v) || (start_vpn <= v < vpn + 1),
                    |v: usize|
                        if start_vpn <= v < vpn + 1 {
                            PageView { perm: port_perm(port), data: zero_page() }
                        } else {
                            m0[v]
                        },
                );
                assert forall|v: usize| #[trigger] self@.contains_key(v) == target.contains_key(v) by {
                    if v != vpn {
                        assert(self.pages@.contains_key(v) == before.contains_key(v));
                        assert(prev.contains_key(v) == before.contains_key(v));
                    }
                }
                assert forall|v: usize| self@.contains_key(v) implies #[trigger] self@[v] == target[v] by {
                    if v != vpn {
                        assert(self.pages@[v] == before[v]);
                        assert(prev[v] == frame_view(before[v]));
                    }
                }
                assert(self@ =~= target);
            }
            vpn += 1;
        }
        proof {
            let target = mmap_result(m0, start, len, port).0;
            assert(!(exists|v: usize| in_range(v, start, len) && #[trigger] m0.contains_key(v)));
            assert(self@ =~= target);
        }
        0
    }

    /// Unmaps `len` bytes at `start`; see [`munmap_result`].
    pub fn unmap_range(&mut self, start: usize, len: usize) -> (r: isize)
        requires
            space_wf(old(self)@),
            start % PAGE_SIZE == 0 && len > 0 ==> start + len <= usize::MAX,
        ensures
            (final(self)@, r) == munmap_result(old(self)@, start, len),
            space_wf(final(self)@),
    {
        if start % PAGE_SIZE != 0 {
            return -1;
        }
        if len == 0 {
            return 0;
        }
        let ghost m0 = self@;
        let start_vpn = start / PAGE_SIZE;
        let end = start + len;
        let end_vpn = (end - 1) / PAGE_SIZE + 1;
        proof {
            assert forall|vpn: usize| in_range(vpn, start, len) <==> start_vpn <= vpn < end_vpn by {
                lemma_range_bounds(start, len, vpn);
            }
        }
        let mut vpn = start_vpn;
        while vpn < end_vpn
            invariant
                start_vpn <= vpn <= end_vpn,
                self@ == m0,
                m0 == old(self)@,
                space_wf(m0),
                forall|v: usize| in_range(v, start, len) <==> start_vpn <= v < end_vpn,
                forall|v: usize| start_vpn <= v < vpn ==> #[trigger] m0.contains_key(v),
            decreases end_vpn - vpn,
        {
            if !self.pages.contains_key(&vpn) {
                assert(in_range(vpn, start, len) && !m0.contains_key(vpn));
                return -1;
            }
            vpn += 1;
        }
        let mut vpn = start_vpn;
        while vpn < end_vpn
            invariant
                start_vpn <= vpn <= end_vpn,
                space_wf(m0),
                self@ == Map::new(
                    |v: usize| m0.contains_key(v) && !(start_vpn <= v < vpn),
                    |v: usize| m0[v],
                ),
                m0 == old(self)@,
                forall|v: usize| in_range(v, start, len) <==> start_vpn <= v < end_vpn,
            decreases end_vpn - vpn,
        {
            let ghost before = self.pages@;
            let ghost prev = self@;
            self.pages.remove(&vpn);
            proof {
                assert(self.pages@ == before.remove(vpn));
                let target = Map::new(
                    |v: usize| m0.contains_key(v) && !(start_vpn <= v < vpn + 1),
                    |v: usize| m0[v],
                );
                assert forall|v: usize| #[trigger] self@.contains_key(v) == target.contains_key(v) by {
                    if v != vpn {
                        assert(self.pages@.contains_key(v) == before.contains_key(v));
                        assert(prev.contains_key(v) == before.contains_key(v));
                    }
                }
                assert forall|v: usize| self@.contains_key(v) implies #[trigger] self@[v] == target[v] by {
                    assert(self.pages@[v] == before[v]);
                    assert(prev[v] == frame_view(before[v]));
                }
                assert(self@ =~= target);
            }
            vpn += 1;
        }
        proof {
            let target = munmap_result(m0, start, len).0;
            assert(!(exists|v: usize| in_range(v, start, len) && !#[trigger] m0.contains_key(v)));
            assert(self@ =~= target);
        }
        0
    }

    /// Stores `bytes` into user memory at `addr`; see [`store_result`].
    pub fn copy_to_user(&mut self, addr: usize, bytes: &Vec<u8>) -> (ok: bool)
        requires
            space_wf(old(self)@),
        ensures
            (final(self)@, ok) == store_result(old(self)@, addr, bytes@),
            space_wf(final(self)@),
    {
        let vpn = addr / PAGE_SIZE;
        let offset = addr % PAGE_SIZE;
        let ghost m0 = self@;
        let allowed = match self.pages.get(&vpn) {
            Some(frame) => frame.perm.user,
            None => false,
        };
        if !allowed || bytes.len() > PAGE_SIZE - offset {
            return false;
        }
        assert(m0.contains_key(vpn));
        match self.pages.remove(&vpn) {
            Some(mut frame) => {
                let ghost d0 = frame.data@;
                let ghost p0 = frame.perm;
                let ghost rest = self.pages@;
                assert(d0 == m0[vpn].data && p0 == m0[vpn].perm);
                let mut i: usize = 0;
                while i < bytes.len()
                    invariant
                        i <= bytes.len(),
                        offset + bytes.len() <= PAGE_SIZE,
                        d0.len() == PAGE_SIZE,
                        frame.perm == p0,
                        frame.data@.len() == PAGE_SIZE,
                        forall|j: int|
                            0 <= j < PAGE_SIZE ==> #[trigger] frame.data@[j] == if offset <= j < offset + i {
                                bytes@[j - offset]
                            } else {
                                d0[j]
                            },
                    decreases bytes.len() - i,
                {
                    frame.data.set(offset + i, bytes[i]);
                    i += 1;
                }
                let ghost f = frame;
                self.pages.insert(vpn, frame);
                proof {
                    let target = store_result(m0, addr, bytes@).0;
                    assert(frame_view(f).data =~= target[vpn].data);
                    assert(frame_view(f) == target[vpn]);
                    assert forall|v: usize| #[trigger] self@.contains_key(v) == target.contains_key(v) by {
                        if v != vpn {
                            assert(self.pages@.contains_key(v) == rest.contains_key(v));
                        }
                    }
                    assert forall|v: usize| self@.contains_key(v) implies #[trigger] self@[v] == target[v] by {
                        if v != vpn {
                            assert(self.pages@[v] == rest[v]);
                        }
                    }
                    assert(self@ =~= target);
                }
                true
            },
            None => false,
        }
    }

    /// Reads (request 0) or writes (request 1) the byte of user memory at
    /// `addr`, writing the low byte of `value`; see [`trace_result`].
    pub fn trace_byte(&mut self, request: usize, value: usize, addr: usize) -> (r: isize)
        requires
            space_wf(old(self)@),
        ensures
            (final(self)@, r) == trace_result(old(self)@, request, value, addr),
            space_wf(final(self)@),
    {
        let vpn = addr / PAGE_SIZE;
        let offset = addr % PAGE_SIZE;
        let ghost m0 = self@;
        match request {
            0 => {
                match self.pages.get(&vpn) {
                    Some(frame) => {
                        if frame.perm.user && frame.perm.readable {
                            assert(m0.contains_key(vpn));
                            frame.data[offset] as isize
                        } else {
                            -1
                        }
                    },
                    None => -1,
                }
            },
            1 => {
                let allowed = match self.pages.get(&vpn) {
                    Some(frame) => frame.perm.user && frame.perm.writable,
                    None => false,
                };
                if !allowed {
                    return -1;
                }
                assert(m0.contains_key(vpn));
                match self.pages.remove(&vpn) {
                    Some(mut frame) => {
                        frame.data.set(offset, value as u8);
                        self.pages.insert(vpn, frame);
                        proof {
                            let target = trace_result(m0, request, value, addr).0;
                            assert(self@ =~= target);
                        }
                        0
                    },
                    None => -1,
                }
            },
            _ => -1,
        }
    }
}

/// Unmapping a range right after mapping it restores the address space.
pub proof fn lemma_mmap_munmap_round_trip(m: Map<usize, PageView>, start: usize, len: usize, port: usize)
    requires
        mmap_result(m, start, len, port).1 == 0,
    ensures
        munmap_result(mmap_result(m, start, len, port).0, start, len) == (m, 0isize),
        mmap_result(munmap_result(mmap_result(m, start, len, port).0, start, len).0, start, len, port)
            == mmap_result(m, start, len, port),
{
    let m2 = mmap_result(m, start, len, port).0;
    if len > 0 {
        assert forall|vpn: usize| in_range(vpn, start, len) implies #[trigger] m2.contains_key(vpn) by {}
        assert(!(exists|vpn: usize| in_range(vpn, start, len) && !#[trigger] m2.contains_key(vpn)));
        let m3 = munmap_result(m2, start, len).0;
        assert(m3 =~= m);
    }
}

/// Mapping a range that a successful mapping has just covered is refused.
pub proof fn lemma_mmap_twice_refused(m: Map<usize, PageView>, start: usize, len: usize, port: usize, port2: usize)
    requires
        mmap_result(m, start, len, port).1 == 0,
        len > 0,
    ensures
        mmap_result(mmap_result(m, start, len, port).0, start, len, port2) == (
        mmap_result(m, start, len, port).0,
        -1isize,
    ),
{
    let m2 = mmap_result(m, start, len, port).0;
    let v = (start / PAGE_SIZE) as usize;
    assert(in_range(v, start, len));
    assert(m2.contains_key(v));
}

/// A byte written to user memory is the byte read back from that address,
/// when the page allows both.
pub proof fn lemma_write_then_read(m: Map<usize, PageView>, addr: usize, value: usize)
    requires
        space_wf(m),
        user_readable(m, addr),
        user_writable(m, addr),
    ensures
        trace_result(trace_result(m, 1, value, addr).0, 0, 0, addr).1 == (value as u8) as isize,
{
}

/// After a range is unmapped, no byte of it can be read or written.
pub proof fn lemma_unmapped_is_inaccessible(
    m: Map<usize, PageView>,
    start: usize,
    len: usize,
    addr: usize,
    request: usize,
    value: usize,
)
    requires
        munmap_result(m, start, len).1 == 0,
        start <= addr < start + len,
    ensures
        trace_result(munmap_result(m, start, len).0, request, value, addr).1 == -1,
{
    let vpn = (addr / PAGE_SIZE) as usize;
    assert(in_range(vpn, start, len));
}


/// A byte stored into user memory is the byte read back from its address,
/// when the page allows reading.
pub proof fn lemma_store_then_read(m: Map<usize, PageView>, addr: usize, bytes: Seq<u8>, k: int)
    requires
        space_wf(m),
        store_result(m, addr, bytes).1,
        user_readable(m, addr),
        0 <= k < bytes.len(),
    ensures
        trace_result(store_result(m, addr, bytes).0, 0, 0, (addr + k) as usize).1 == bytes[k] as isize,
{
    let a = (addr + k) as usize;
    assert(a / PAGE_SIZE == addr / PAGE_SIZE);
    assert(a % PAGE_SIZE == addr % PAGE_SIZE + k);
}


/// What `mmap` does, in terms of the pages and the arguments alone, where a
/// page `vpn` lies in the range when `start / PAGE_SIZE <= vpn` and
/// `vpn * PAGE_SIZE < start + len`:
/// - a start that is not page aligned, a `port` with bits other than the
///   low three, or a `port` with none of them, is refused with -1;
/// - when it succeeds (0) with a positive length, no page of the range was
///   mapped before, every page of the range is mapped afterwards to a zeroed
///   frame that is readable iff bit 0 of `port` is set, writable iff bit 1,
///   executable iff bit 2, and accessible from user mode, and every other
///   page is as it was;
/// - when it fails (-1) nothing changes.
pub proof fn lemma_mmap_answers(m: Map<usize, PageView>, start: usize, len: usize, port: usize)
    ensures
        ({
            let (m2, r) = mmap_result(m, start, len, port);
            &&& r == 0 || r == -1
            &&& start % PAGE_SIZE != 0 ==> r == -1
            &&& port & !7usize != 0 ==> r == -1
            &&& port & 7usize == 0 ==> r == -1
            &&& r == -1 ==> m2 == m
            &&& r == 0 && len == 0 ==> m2 == m
            &&& r == 0 && len > 0 ==> forall|vpn: usize|
                #![trigger m2.contains_key(vpn)]
                #![trigger m.contains_key(vpn)]
                (start as int) / (PAGE_SIZE as int) <= (vpn as int) && (vpn as int) * (
                PAGE_SIZE as int) < (start as int) + (len as int) ==> {
                    &&& !m.contains_key(vpn)
                    &&& m2.contains_key(vpn)
                    &&& m2[vpn].perm.readable == (port & 1usize != 0)
                    &&& m2[vpn].perm.writable == (port & 2usize != 0)
                    &&& m2[vpn].perm.executable == (port & 4usize != 0)
                    &&& m2[vpn].perm.user
                    &&& m2[vpn].data.len() == PAGE_SIZE
                    &&& forall|i: int| 0 <= i < PAGE_SIZE ==> #[trigger] m2[vpn].data[i] == 0u8
                }
            &&& r == 0 ==> forall|vpn: usize|
                #![trigger m2.contains_key(vpn)]
                #![trigger m.contains_key(vpn)]
                !((start as int) / (PAGE_SIZE as int) <= (vpn as int) && (vpn as int) * (
                PAGE_SIZE as int) < (start as int) + (len as int)) ==> (m2.contains_key(vpn)
                    == m.contains_key(vpn) && (m.contains_key(vpn) ==> m2[vpn] == m[vpn]))
        }),
{
    assert(port & !7usize != 0 ==> port > 7) by (bit_vector);
    assert(port & !7usize == 0 && port & 7usize == 0 ==> port == 0) by (bit_vector);
    assert(port & 1usize != 0 <==> port % 2 == 1) by (bit_vector);
    assert(port & 2usize != 0 <==> (port / 2) % 2 == 1) by (bit_vector);
    assert(port & 4usize != 0 <==> (port / 4) % 2 == 1) by (bit_vector);
}

/// What `munmap` does, in terms of the pages and the arguments alone, where
/// a page `vpn` lies in the range when `start / PAGE_SIZE <= vpn` and
/// `vpn * PAGE_SIZE < start + len`:
/// - a start that is not page aligned is refused with -1;
/// - it succeeds (0) with a positive length only when every page of the
///   range was mapped, and then exactly the pages of the range are unmapped
///   and every other page is as it was;
/// - when some page of the range is not mapped it fails (-1), and nothing
///   changes when it fails.
pub proof fn lemma_munmap_answers(m: Map<usize, PageView>, start: usize, len: usize)
    ensures
        ({
            let (m2, r) = munmap_result(m, start, len);
            &&& r == 0 || r == -1
            &&& start % PAGE_SIZE != 0 ==> r == -1
            &&& r == -1 ==> m2 == m
            &&& r == 0 && len == 0 ==> m2 == m
            &&& start % PAGE_SIZE == 0 && len > 0 ==> (r == 0 <==> forall|vpn: usize|
                (start as int) / (PAGE_SIZE as int) <= (vpn as int) && (vpn as int) * (
                PAGE_SIZE as int) < (start as int) + (len as int) ==> #[trigger] m.contains_key(vpn))
            &&& r == 0 && len > 0 ==> forall|vpn: usize|
                #![trigger m2.contains_key(vpn)]
                #![trigger m.contains_key(vpn)]
                {
                    &&& m2.contains_key(vpn) == (m.contains_key(vpn) && !((start as int) / (
                    PAGE_SIZE as int) <= (vpn as int) && (vpn as int) * (PAGE_SIZE as int) < (
                    start as int) + (len as int)))
                    &&& m2.contains_key(vpn) ==> m2[vpn] == m[vpn]
                }
        }),
{
}


/// What a byte access of user memory does, in terms of the pages and the
/// arguments alone: reading (request 0) gives the byte at `addr` when its
/// page is mapped, user accessible and readable, and -1 otherwise; writing
/// (request 1) stores the low byte of `value` at `addr` and gives 0 when
/// the page is mapped, user accessible and writable, leaving every other
/// byte and page as it was, and gives -1 otherwise; any other request gives
/// -1. Nothing changes except through a successful write.
pub proof fn lemma_trace_answers(m: Map<usize, PageView>, request: usize, value: usize, addr: usize)
    requires
        space_wf(m),
    ensures
        ({
            let (m2, r) = trace_result(m, request, value, addr);
            let vpn = (addr / PAGE_SIZE) as usize;
            let off = (addr % PAGE_SIZE) as int;
            let page_ok = m.contains_key(vpn) && m[vpn].perm.user;
            &&& request == 0 && page_ok && m[vpn].perm.readable ==> r == m[vpn].data[off] as isize
                && 0 <= r < 256
            &&& request == 0 && !(page_ok && m[vpn].perm.readable) ==> r == -1
            &&& request == 1 && page_ok && m[vpn].perm.writable ==> {
                &&& r == 0
                &&& m2.dom() == m.dom()
                &&& m2[vpn].perm == m[vpn].perm
                &&& m2[vpn].data.len() == m[vpn].data.len()
                &&& m2[vpn].data[off] == value as u8
                &&& forall|i: int|
                    0 <= i < m[vpn].data.len() && i != off ==> #[trigger] m2[vpn].data[i]
                        == m[vpn].data[i]
                &&& forall|v: usize| #[trigger] m.contains_key(v) && v != vpn ==> m2[v] == m[v]
            }
            &&& request == 1 && !(page_ok && m[vpn].perm.writable) ==> r == -1
            &&& request != 0 && request != 1 ==> r == -1
            &&& r == -1 || request == 0 ==> m2 == m
        }),
{
    let vpn = (addr / PAGE_SIZE) as usize;
    if request == 1 && m.contains_key(vpn) && m[vpn].perm.user && m[vpn].perm.writable {
        let m2 = trace_result(m, request, value, addr).0;
        assert(m2.dom() =~= m.dom());
    }
}

/// The number written by `bytes` as little-endian bytes.
pub open spec fn le_value(bytes: Seq<u8>) -> nat
    decreases bytes.len(),
{
    if bytes.len() == 0 {
        0
    } else {
        bytes[0] as nat + 256 * le_value(bytes.drop_first())
    }
}

/// `256` to the power `n`.
pub open spec fn pow256(n: nat) -> nat
    decreases n,
{
    if n == 0 {
        1
    } else {
        256 * pow256((n - 1) as nat)
    }
}

/// The `n` little-endian bytes of `v` give back `v` modulo `256^n`; so
/// eight of them give back any `usize` (on the 64-bit target) whole.
pub proof fn lemma_le_bytes_value(v: nat, n: nat)
    ensures
        le_bytes(v, n).len() == n,
        le_value(le_bytes(v, n)) == v % pow256(n),
    decreases n,
{
    if n > 0 {
        lemma_le_bytes_value(v / 256, (n - 1) as nat);
        let b = le_bytes(v, n);
        let rest = le_bytes(v / 256, (n - 1) as nat);
        assert(b.drop_first() =~= rest);
        assert(b[0] == (v % 256) as u8);
        lemma_pow256_positive((n - 1) as nat);
        vstd::arithmetic::div_mod::lemma_breakdown(v as int, 256, pow256((n - 1) as nat) as int);
    } else {
        assert(v % 1 == 0);
    }
}

proof fn lemma_pow256_positive(n: nat)
    ensures
        pow256(n) > 0,
    decreases n,
{
    if n > 0 {
        lemma_pow256_positive((n - 1) as nat);
    }
}

} // verus!
