//! The page store: fixed-size page storage over one heap file.
//!
//! The heap file is held as its bytes, logically partitioned into
//! `PAGE_SIZE`-byte pages at offset `PAGE_SIZE * page_id`, page 0 first.
//! The store is a thin, exact byte-range primitive: no caching and no
//! interpretation of page contents happens here.

use vstd::prelude::*;

verus! {

/// The size of one page in bytes.
pub const PAGE_SIZE: usize = 4096;

/// An opaque surrogate key identifying one fixed-size region of the
/// heap file. Unique per allocated page; monotonically assigned; never
/// reused within a single store lifetime.
#[derive(Clone, Copy, PartialEq, Eq, Structural, Debug)]
pub struct PageId(pub u64);

impl PageId {
    /// The raw numeric value of the identifier.
    pub fn to_u64(self) -> (r: u64)
        ensures
            r == self.0,
    {
        self.0
    }
}

/// The errors this layer surfaces.
#[derive(Clone, Copy, PartialEq, Eq, Structural, Debug)]
pub enum Error {
    /// An exact read or write could not be performed: fewer than
    /// `PAGE_SIZE` bytes were available at the page's offset, or the
    /// page's offset lies beyond what the store can address.
    Io,
    /// Every frame of the buffer pool is pinned by an outstanding
    /// handle, so no victim frame could be chosen.
    NoFreeBuffer,
}

/// The byte offset of page `pid` within the heap file.
pub open spec fn page_offset(pid: u64) -> int {
    pid * PAGE_SIZE
}

/// Whether page `pid` lies entirely within `file`.
pub open spec fn page_in_file(file: Seq<u8>, pid: u64) -> bool {
    page_offset(pid) + PAGE_SIZE <= file.len()
}

/// The `PAGE_SIZE` bytes of page `pid` within `file`.
pub open spec fn page_at(file: Seq<u8>, pid: u64) -> Seq<u8> {
    file.subrange(page_offset(pid), page_offset(pid) + PAGE_SIZE)
}

/// The heap file after writing `data` as page `pid` into `file`:
/// the page's range holds `data`, bytes before and after it are kept,
/// and any gap opened by growing the file is zero-filled.
pub open spec fn file_after_write(file: Seq<u8>, pid: u64, data: Seq<u8>) -> Seq<u8> {
    let off = page_offset(pid);
    let end = off + PAGE_SIZE;
    let new_len = if file.len() >= end {
        file.len() as int
    } else {
        end
    };
    Seq::new(
        new_len as nat,
        |i: int|
            if off <= i < end {
                data[i - off]
            } else if i < file.len() {
                file[i]
            } else {
                0u8
            },
    )
}

/// Writing a page and then reading it back returns exactly the bytes
/// written: after `data` is written as page `pid`, the page lies within
/// the file and its bytes are `data`.
pub proof fn lemma_write_read_round_trip(file: Seq<u8>, pid: u64, data: Seq<u8>)
    requires
        data.len() == PAGE_SIZE,
    ensures
        page_in_file(file_after_write(file, pid, data), pid),
        page_at(file_after_write(file, pid, data), pid) == data,
{
    let fw = file_after_write(file, pid, data);
    assert(page_at(fw, pid) =~= data);
}

/// The page store: owns the heap-file bytes and the counter from which
/// fresh page identifiers are drawn.
pub struct DiskManager {
    heap_file: Vec<u8>,
    next_page_id: u64,
}

/// Computes the byte range `[off, end)` of page `page_id`, or `None`
/// when the page's end offset cannot be addressed in memory.
fn page_range(page_id: PageId) -> (r: Option<(usize, usize)>)
    ensures
        match r {
            Some((off, end)) => off == page_offset(page_id.0) && end == off + PAGE_SIZE,
            None => page_offset(page_id.0) + PAGE_SIZE > usize::MAX,
        },
{
    proof {
        assert((page_id.0 as int) * (PAGE_SIZE as int) <= (u64::MAX as int) * (PAGE_SIZE as int))
            by (nonlinear_arith)
            requires
                page_id.0 <= u64::MAX,
        ;
    }
    let end128: u128 = page_id.0 as u128 * PAGE_SIZE as u128 + PAGE_SIZE as u128;
    if end128 > usize::MAX as u128 {
        return None;
    }
    proof {
        assert((page_id.0 as int) <= (page_id.0 as int) * (PAGE_SIZE as int)) by (nonlinear_arith)
            requires
                page_id.0 >= 0,
        ;
    }
    let off: usize = (page_id.0 as usize) * PAGE_SIZE;
    Some((off, off + PAGE_SIZE))
}

impl DiskManager {
    /// The current bytes of the heap file.
    pub closed spec fn file(&self) -> Seq<u8> {
        self.heap_file@
    }

    /// The next page identifier to be handed out.
    pub closed spec fn next_id(&self) -> u64 {
        self.next_page_id
    }

    /// Builds a store over the given heap-file bytes. The next page
    /// identifier is the number of whole pages the file holds: a file
    /// of `n` whole pages has pages `0 .. n` already allocated.
    pub fn new(heap_file: Vec<u8>) -> (r: Self)
        ensures
            r.file() == heap_file@,
            r.next_id() == heap_file@.len() as int / PAGE_SIZE as int,
            r.file().len() < (r.next_id() + 1) * (PAGE_SIZE as int),
    {
        proof {
            let len = heap_file@.len() as int;
            vstd::arithmetic::div_mod::lemma_fundamental_div_mod(len, PAGE_SIZE as int);
            vstd::arithmetic::div_mod::lemma_mod_bound(len, PAGE_SIZE as int);
            assert(len < (len / (PAGE_SIZE as int) + 1) * (PAGE_SIZE as int))
                by (nonlinear_arith)
                requires
                    len == (PAGE_SIZE as int) * (len / (PAGE_SIZE as int)) + len % (
                    PAGE_SIZE as int),
                    0 <= len % (PAGE_SIZE as int) < (PAGE_SIZE as int),
            ;
        }
        let next_page_id = (heap_file.len() / PAGE_SIZE) as u64;
        Self { heap_file, next_page_id }
    }

    /// The heap file's bytes, for the embedding program to persist.
    pub fn file_bytes(&self) -> (r: &Vec<u8>)
        ensures
            r@ == self.file(),
    {
        &self.heap_file
    }

    /// Reads exactly `PAGE_SIZE` bytes of page `page_id` into `data`.
    /// Fails when fewer bytes are available: reading a page that was
    /// never written is a caller error and surfaces as an I/O error.
    pub fn read_page_data(&mut self, page_id: PageId, data: &mut Vec<u8>) -> (r: Result<
        (),
        Error,
    >)
        requires
            old(data).len() == PAGE_SIZE,
        ensures
            *final(self) == *old(self),
            final(data).len() == PAGE_SIZE,
            r is Ok <==> page_in_file(old(self).file(), page_id.0),
            r is Ok ==> final(data)@ == page_at(old(self).file(), page_id.0),
            r is Err ==> r == Err::<(), Error>(Error::Io) && final(data)@ == old(data)@,
    {
        let len = self.heap_file.len();
        let (off, end) = match page_range(page_id) {
            Some(range) => range,
            None => {
                assert(!page_in_file(self.file(), page_id.0));
                return Err(Error::Io);
            },
        };
        if end > len {
            return Err(Error::Io);
        }
        let mut i: usize = 0;
        while i < PAGE_SIZE
            invariant
                *self == *old(self),
                off == page_offset(page_id.0),
                off + PAGE_SIZE <= self.heap_file@.len(),
                i <= PAGE_SIZE,
                data.len() == PAGE_SIZE,
                forall|j: int| 0 <= j < i ==> data@[j] == self.heap_file@[off + j],
            decreases PAGE_SIZE - i,
        {
            data[i] = self.heap_file[off + i];
            i = i + 1;
        }
        assert(data@ =~= page_at(self.file(), page_id.0));
        Ok(())
    }

    /// Writes exactly `PAGE_SIZE` bytes as page `page_id`, growing the
    /// file (zero-filled) when the page's range lies beyond its current
    /// length. Fails only when the page's end offset cannot be
    /// addressed at all.
    pub fn write_page_data(&mut self, page_id: PageId, data: &Vec<u8>) -> (r: Result<(), Error>)
        requires
            data.len() == PAGE_SIZE,
        ensures
            final(self).next_id() == old(self).next_id(),
            r is Ok <==> page_offset(page_id.0) + PAGE_SIZE <= usize::MAX,
            r is Ok ==> final(self).file() == file_after_write(
                old(self).file(),
                page_id.0,
                data@,
            ),
            r is Err ==> r == Err::<(), Error>(Error::Io) && *final(self) == *old(self),
    {
        let (off, end) = match page_range(page_id) {
            Some(range) => range,
            None => {
                return Err(Error::Io);
            },
        };
        while self.heap_file.len() < end
            invariant
                off == page_offset(page_id.0),
                end == off + PAGE_SIZE,
                self.next_page_id == old(self).next_page_id,
                self.heap_file@.len() >= old(self).heap_file@.len(),
                self.heap_file@.len() <= end || self.heap_file@.len() == old(
                    self,
                ).heap_file@.len(),
                forall|j: int|
                    0 <= j < self.heap_file@.len() ==> self.heap_file@[j] == (if j < old(
                        self,
                    ).heap_file@.len() {
                        old(self).heap_file@[j]
                    } else {
                        0u8
                    }),
            decreases end - self.heap_file@.len(),
        {
            self.heap_file.push(0u8);
        }
        let ghost mid = self.heap_file@;
        let mut i: usize = 0;
        while i < PAGE_SIZE
            invariant
                off == page_offset(page_id.0),
                end == off + PAGE_SIZE,
                i <= PAGE_SIZE,
                data.len() == PAGE_SIZE,
                self.next_page_id == old(self).next_page_id,
                self.heap_file@.len() == mid.len(),
                end <= mid.len(),
                mid.len() == (if old(self).heap_file@.len() >= end {
                    old(self).heap_file@.len() as int
                } else {
                    end as int
                }),
                forall|j: int|
                    0 <= j < mid.len() ==> mid[j] == (if j < old(self).heap_file@.len() {
                        old(self).heap_file@[j]
                    } else {
                        0u8
                    }),
                forall|j: int| 0 <= j < off + i ==> self.heap_file@[j] == (if off <= j {
                    data@[j - off]
                } else {
                    mid[j]
                }),
                forall|j: int|
                    off + i <= j < mid.len() ==> self.heap_file@[j] == mid[j],
            decreases PAGE_SIZE - i,
        {
            self.heap_file[off + i] = data[i];
            i = i + 1;
        }
        proof {
            let fw = file_after_write(old(self).file(), page_id.0, data@);
            assert forall|j: int| 0 <= j < fw.len() implies self.heap_file@[j] == fw[j] by {
                if j < off {
                    assert(self.heap_file@[j] == mid[j]);
                } else if j < end {
                    assert(self.heap_file@[j] == data@[j - off]);
                } else {
                    assert(self.heap_file@[j] == mid[j]);
                }
            }
            assert(self.file() =~= fw);
        }
        Ok(())
    }

    /// Returns the next unused page identifier and advances the
    /// counter. Allocation is logical only: nothing is written, and the
    /// file grows lazily on first write.
    pub fn allocate_page(&mut self) -> (r: PageId)
        requires
            old(self).next_id() < u64::MAX,
        ensures
            r.0 == old(self).next_id(),
            final(self).next_id() == old(self).next_id() + 1,
            final(self).file() == old(self).file(),
    {
        let page_id = self.next_page_id;
        self.next_page_id = self.next_page_id + 1;
        PageId(page_id)
    }
}

} // verus!
