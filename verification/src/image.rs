//! Page-addressable snapshot of guest memory.
//!
//! The image holds per-page content, per-page digests, an embedded program
//! counter, and a root digest over the page digests.  Two images with the
//! same bytes and the same program counter have the same id.

use vstd::prelude::*;
use crate::digests::{sha256, sha256_of};
use crate::{DIGEST_BYTES, MEM_SIZE, NUM_DATA_PAGES, PAGE_SIZE};

verus! {

/// The four little-endian bytes of a word.
pub open spec fn le_bytes(w: u32) -> Seq<u8> {
    seq![
        (w % 0x100) as u8,
        ((w / 0x100) % 0x100) as u8,
        ((w / 0x10000) % 0x100) as u8,
        ((w / 0x1000000) % 0x100) as u8,
    ]
}

/// The word stored little-endian at byte offset `a`.
pub open spec fn word_at(buf: Seq<u8>, a: int) -> u32 {
    (buf[a] + buf[a + 1] * 0x100 + buf[a + 2] * 0x10000 + buf[a + 3] * 0x1000000) as u32
}

/// The bytes of data page `p`.
pub open spec fn page_of(buf: Seq<u8>, p: int) -> Seq<u8> {
    buf.subrange(p * PAGE_SIZE, (p + 1) * PAGE_SIZE)
}

/// `buf` with `data` written at offset `a`.
pub open spec fn overwrite(buf: Seq<u8>, a: int, data: Seq<u8>) -> Seq<u8> {
    Seq::new(buf.len(), |i: int| if a <= i < a + data.len() { data[i - a] } else { buf[i] })
}

/// Concatenation of the digests of the first `n` data pages.
pub open spec fn digest_cat(buf: Seq<u8>, n: int) -> Seq<u8>
    decreases n,
{
    if n <= 0 {
        Seq::empty()
    } else {
        digest_cat(buf, n - 1) + sha256_of(page_of(buf, n - 1))
    }
}

/// The Merkle root digest over the data page digests.
pub open spec fn root_of(buf: Seq<u8>) -> Seq<u8> {
    sha256_of(digest_cat(buf, NUM_DATA_PAGES as int))
}

/// The image id: the root digest bound to the embedded program counter.
pub open spec fn image_id_of(buf: Seq<u8>, pc: u32) -> Seq<u8> {
    sha256_of(root_of(buf) + le_bytes(pc))
}

/// The persistent view of guest memory: page contents, page digests, the
/// embedded program counter, and the cached root digest.
pub struct MemoryImage {
    /// Flat content bytes, MEM_SIZE of them.
    pub buf: Vec<u8>,
    /// One digest per data page; current whenever the page is not dirty.
    pub digests: Vec<Vec<u8>>,
    /// Pages whose digest is stale.
    pub dirty: Vec<bool>,
    /// The embedded program counter, persisted alongside the pages.
    pub pc: u32,
    /// Root digest; current whenever no page is dirty.
    pub root: Vec<u8>,
}

impl MemoryImage {
    /// Every digest matches its page unless the page is marked dirty, and
    /// the root matches whenever nothing is dirty.
    pub open spec fn wf(self) -> bool {
        &&& self.buf@.len() == MEM_SIZE
        &&& self.digests@.len() == NUM_DATA_PAGES
        &&& self.dirty@.len() == NUM_DATA_PAGES
        &&& forall|p: int|
            0 <= p < NUM_DATA_PAGES ==> (#[trigger] self.digests@[p])@.len() == DIGEST_BYTES
        &&& forall|p: int|
            0 <= p < NUM_DATA_PAGES && !self.dirty@[p] ==> (#[trigger] self.digests@[p])@
                == sha256_of(page_of(self.buf@, p))
        &&& self.clean() ==> self.root@ == root_of(self.buf@)
    }

    /// No page digest is stale.
    pub open spec fn clean(self) -> bool {
        forall|p: int| 0 <= p < NUM_DATA_PAGES ==> !(#[trigger] self.dirty@[p])
    }

    /// An all-zero image with the given entry program counter.
    pub fn zeroed(pc: u32) -> (r: MemoryImage)
        ensures
            r.wf(),
            r.clean(),
            r.pc == pc,
            r.buf@ == Seq::new(MEM_SIZE as nat, |i: int| 0u8),
    {
        let mut buf: Vec<u8> = Vec::new();
        let mut i: usize = 0;
        while i < MEM_SIZE
            invariant
                i <= MEM_SIZE,
                buf@.len() == i,
                forall|j: int| 0 <= j < i ==> #[trigger] buf@[j] == 0u8,
            decreases MEM_SIZE - i,
        {
            buf.push(0u8);
            i = i + 1;
        }
        proof {
            assert(buf@ =~= Seq::new(MEM_SIZE as nat, |i: int| 0u8));
        }
        let mut img = MemoryImage {
            buf,
            digests: Vec::new(),
            dirty: Vec::new(),
            pc,
            root: Vec::new(),
        };
        let mut p: usize = 0;
        while p < NUM_DATA_PAGES
            invariant
                p <= NUM_DATA_PAGES,
                img.buf@.len() == MEM_SIZE,
                img.pc == pc,
                img.buf@ == Seq::new(MEM_SIZE as nat, |i: int| 0u8),
                img.digests@.len() == p,
                img.dirty@.len() == p,
                forall|q: int| 0 <= q < p ==> !(#[trigger] img.dirty@[q]),
                forall|q: int|
                    0 <= q < p ==> (#[trigger] img.digests@[q])@ == sha256_of(
                        page_of(img.buf@, q),
                    ) && (img.digests@[q])@.len() == DIGEST_BYTES,
            decreases NUM_DATA_PAGES - p,
        {
            let bytes = copy_page(&img.buf, p);
            let d = sha256(&bytes);
            img.digests.push(d);
            img.dirty.push(false);
            p = p + 1;
        }
        img.hash_root();
        img
    }

    /// Read `len` bytes starting at `addr`; the region must sit inside the
    /// data pages.
    pub fn load_region_in_page(&self, addr: u32, len: usize) -> (r: Vec<u8>)
        requires
            self.buf@.len() == MEM_SIZE,
            addr + len <= MEM_SIZE,
        ensures
            r@ == self.buf@.subrange(addr as int, addr as int + len as int),
    {
        let mut r: Vec<u8> = Vec::new();
        let mut i: usize = 0;
        while i < len
            invariant
                i <= len,
                self.buf@.len() == MEM_SIZE,
                addr + len <= MEM_SIZE,
                r@.len() == i,
                forall|j: int| 0 <= j < i ==> #[trigger] r@[j] == self.buf@[addr + j],
            decreases len - i,
        {
            r.push(self.buf[addr as usize + i]);
            i = i + 1;
        }
        proof {
            assert(r@ =~= self.buf@.subrange(addr as int, addr as int + len as int));
        }
        r
    }

    /// Write `data` at `addr` and mark the containing page dirty; the
    /// region must sit inside one data page.
    pub fn store_region_in_page(&mut self, addr: u32, data: &Vec<u8>)
        requires
            old(self).wf(),
            0 < data@.len() <= PAGE_SIZE,
            addr + data@.len() <= MEM_SIZE,
            addr as int / PAGE_SIZE as int == (addr + data@.len() - 1) as int / PAGE_SIZE as int,
        ensures
            final(self).wf(),
            final(self).buf@ == overwrite(old(self).buf@, addr as int, data@),
            final(self).pc == old(self).pc,
            final(self).digests@ == old(self).digests@,
            final(self).root@ == old(self).root@,
            final(self).dirty@.len() == NUM_DATA_PAGES,
            forall|p: int|
                0 <= p < NUM_DATA_PAGES && p != addr as int / PAGE_SIZE as int
                    ==> #[trigger] final(self).dirty@[p] == old(self).dirty@[p],
            final(self).dirty@[addr as int / PAGE_SIZE as int],
    {
        let page: usize = addr as usize / PAGE_SIZE;
        proof {
            assert(page < NUM_DATA_PAGES) by (nonlinear_arith)
                requires
                    page == addr as int / PAGE_SIZE as int,
                    addr < MEM_SIZE,
                    PAGE_SIZE == 1024,
                    MEM_SIZE == NUM_DATA_PAGES * PAGE_SIZE;
        }
        let mut i: usize = 0;
        while i < data.len()
            invariant
                old(self).wf(),
                i <= data@.len(),
                self.buf@.len() == MEM_SIZE,
                addr + data@.len() <= MEM_SIZE,
                self.digests@ == old(self).digests@,
                self.dirty@ == old(self).dirty@,
                self.root@ == old(self).root@,
                self.pc == old(self).pc,
                forall|j: int|
                    0 <= j < MEM_SIZE && !(addr <= j < addr + i) ==> #[trigger] self.buf@[j]
                        == old(self).buf@[j],
                forall|j: int|
                    addr <= j < addr + i ==> #[trigger] self.buf@[j] == data@[j - addr],
            decreases data@.len() - i,
        {
            self.buf.set(addr as usize + i, data[i]);
            i = i + 1;
        }
        self.dirty.set(page, true);
        proof {
            assert(self.dirty@[addr as int / PAGE_SIZE as int]);
            assert(!self.clean());
            assert(self.buf@ =~= overwrite(old(self).buf@, addr as int, data@));
            let a = addr as int;
            let l = data@.len() as int;
            assert forall|p: int|
                0 <= p < NUM_DATA_PAGES && p != a / PAGE_SIZE as int implies page_of(self.buf@, p)
                =~= page_of(old(self).buf@, p) by {
                assert forall|k: int| 0 <= k < PAGE_SIZE implies #[trigger] self.buf@[p * PAGE_SIZE
                    + k] == old(self).buf@[p * PAGE_SIZE + k] by {
                    assert(!(a <= p * PAGE_SIZE + k < a + l)) by (nonlinear_arith)
                        requires
                            0 <= k < PAGE_SIZE,
                            0 <= p < NUM_DATA_PAGES,
                            p != a / PAGE_SIZE as int,
                            0 < l <= PAGE_SIZE,
                            a + l <= MEM_SIZE,
                            0 <= a,
                            a / PAGE_SIZE as int == (a + l - 1) / PAGE_SIZE as int,
                            PAGE_SIZE == 1024,
                            MEM_SIZE == NUM_DATA_PAGES * PAGE_SIZE;
                }
            }
        }
    }

    /// Re-digest the dirty pages, then recompute the root from the page
    /// digests.
    pub fn hash_pages(&mut self)
        requires
            old(self).wf(),
        ensures
            final(self).wf(),
            final(self).clean(),
            final(self).buf@ == old(self).buf@,
            final(self).pc == old(self).pc,
            final(self).root@ == root_of(old(self).buf@),
    {
        let mut p: usize = 0;
        while p < NUM_DATA_PAGES
            invariant
                p <= NUM_DATA_PAGES,
                self.buf@ == old(self).buf@,
                self.pc == old(self).pc,
                self.buf@.len() == MEM_SIZE,
                self.digests@.len() == NUM_DATA_PAGES,
                self.dirty@.len() == NUM_DATA_PAGES,
                forall|q: int| 0 <= q < p ==> !(#[trigger] self.dirty@[q]),
                forall|q: int|
                    0 <= q < NUM_DATA_PAGES ==> (#[trigger] self.digests@[q])@.len()
                        == DIGEST_BYTES,
                forall|q: int|
                    0 <= q < NUM_DATA_PAGES && !self.dirty@[q] ==> (#[trigger] self.digests@[q])@
                        == sha256_of(page_of(self.buf@, q)),
            decreases NUM_DATA_PAGES - p,
        {
            if self.dirty[p] {
                let bytes = copy_page(&self.buf, p);
                let d = sha256(&bytes);
                self.digests.set(p, d);
                self.dirty.set(p, false);
            }
            p = p + 1;
        }
        self.hash_root();
    }

    /// Recompute the cached root from the (current) page digests.
    fn hash_root(&mut self)
        requires
            old(self).buf@.len() == MEM_SIZE,
            old(self).digests@.len() == NUM_DATA_PAGES,
            old(self).dirty@.len() == NUM_DATA_PAGES,
            old(self).clean(),
            forall|q: int|
                0 <= q < NUM_DATA_PAGES ==> (#[trigger] old(self).digests@[q])@ == sha256_of(
                    page_of(old(self).buf@, q),
                ),
            forall|q: int|
                0 <= q < NUM_DATA_PAGES ==> (#[trigger] old(self).digests@[q])@.len()
                    == DIGEST_BYTES,
        ensures
            final(self).root@ == root_of(old(self).buf@),
            final(self).buf@ == old(self).buf@,
            final(self).pc == old(self).pc,
            final(self).digests@ == old(self).digests@,
            final(self).dirty@ == old(self).dirty@,
    {
        let mut cat: Vec<u8> = Vec::new();
        let mut p: usize = 0;
        while p < NUM_DATA_PAGES
            invariant
                p <= NUM_DATA_PAGES,
                self == old(self),
                self.digests@.len() == NUM_DATA_PAGES,
                forall|q: int|
                    0 <= q < NUM_DATA_PAGES ==> (#[trigger] self.digests@[q])@ == sha256_of(
                        page_of(self.buf@, q),
                    ),
                cat@ == digest_cat(self.buf@, p as int),
            decreases NUM_DATA_PAGES - p,
        {
            let ghost cat_before = cat@;
            let d = &self.digests[p];
            let mut k: usize = 0;
            while k < d.len()
                invariant
                    k <= d@.len(),
                    cat@ == cat_before + d@.take(k as int),
                decreases d@.len() - k,
            {
                cat.push(d[k]);
                proof {
                    assert(cat@ =~= cat_before + d@.take(k + 1));
                }
                k = k + 1;
            }
            proof {
                assert(d@.take(d@.len() as int) =~= d@);
                assert(cat@ == digest_cat(self.buf@, p + 1));
            }
            p = p + 1;
        }
        self.root = sha256(&cat);
    }

    /// The root digest bound to the embedded program counter.
    pub fn compute_id(&self) -> (r: Vec<u8>)
        requires
            self.wf(),
            self.clean(),
        ensures
            r@ == image_id_of(self.buf@, self.pc),
    {
        let mut bytes = self.root.clone();
        proof {
            assert(bytes@ == self.root@);
        }
        let ghost root_seq = self.root@;
        bytes.push((self.pc % 0x100) as u8);
        bytes.push(((self.pc / 0x100) % 0x100) as u8);
        bytes.push(((self.pc / 0x10000) % 0x100) as u8);
        bytes.push(((self.pc / 0x1000000) % 0x100) as u8);
        proof {
            assert(bytes@ =~= root_seq + le_bytes(self.pc));
        }
        sha256(&bytes)
    }
}

/// Copy one data page out of a flat buffer.
pub fn copy_page(buf: &Vec<u8>, p: usize) -> (r: Vec<u8>)
    requires
        buf@.len() == MEM_SIZE,
        p < NUM_DATA_PAGES,
    ensures
        r@ == page_of(buf@, p as int),
{
    proof {
        assert((p + 1) * PAGE_SIZE <= MEM_SIZE) by (nonlinear_arith)
            requires
                p < NUM_DATA_PAGES,
                PAGE_SIZE == 1024,
                MEM_SIZE == NUM_DATA_PAGES * PAGE_SIZE;
    }
    let base: usize = p * PAGE_SIZE;
    let mut r: Vec<u8> = Vec::new();
    let mut i: usize = 0;
    while i < PAGE_SIZE
        invariant
            i <= PAGE_SIZE,
            buf@.len() == MEM_SIZE,
            base == p * PAGE_SIZE,
            base + PAGE_SIZE <= MEM_SIZE,
            r@.len() == i,
            forall|j: int| 0 <= j < i ==> #[trigger] r@[j] == buf@[base + j],
        decreases PAGE_SIZE - i,
    {
        r.push(buf[base + i]);
        i = i + 1;
    }
    proof {
        assert(r@ =~= page_of(buf@, p as int));
    }
    r
}

} // verus!
