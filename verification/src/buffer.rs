//! The buffer pool and its manager.
//!
//! A fixed-capacity array of frames caches pages in memory. Each frame
//! carries a usage count (the second-chance cooldown counter of the
//! clock sweep) and a pin count (the number of outstanding handles to
//! its buffer). Rather than an implicit shared-ownership count, pinning
//! is an explicit per-frame counter: [`BufferPoolManager::fetch_page`]
//! issues a handle and raises the count, and the holder releases it
//! through [`BufferPoolManager::unpin_page`]. A frame whose pin count
//! is zero is held by the manager alone and may be evicted.

use std::collections::HashMap;
use vstd::prelude::*;

use crate::disk::{
    file_after_write, page_at, page_in_file, page_offset, DiskManager, Error, PageId, PAGE_SIZE,
};

verus! {

broadcast use vstd::std_specs::hash::group_hash_axioms;

/// A counter raised by one, stopping at its ceiling.
pub open spec fn bump(c: u64) -> u64 {
    if c == u64::MAX {
        c
    } else {
        (c + 1) as u64
    }
}

/// A handle to one frame of the buffer pool, issued by a fetch and
/// released through `unpin_page`.
#[derive(Clone, Copy, PartialEq, Eq, Structural, Debug)]
pub struct BufferId(pub usize);

/// The in-memory cached copy of one page: its identifier, its bytes,
/// and whether the bytes have diverged from the on-disk copy.
pub struct Buffer {
    pub page_id: PageId,
    pub page: Vec<u8>,
    pub is_dirty: bool,
}

impl Buffer {
    /// A buffer always holds exactly one page's worth of bytes.
    pub open spec fn wf(&self) -> bool {
        self.page.len() == PAGE_SIZE
    }
}

/// One slot of the buffer pool.
pub struct Frame {
    /// The second-chance cooldown counter: raised when the cached page
    /// is fetched, lowered by one each time the eviction sweep passes
    /// over the frame while it is unpinned.
    pub usage_count: u64,
    /// The number of outstanding handles to `buffer`. A pinned frame
    /// (count above zero) is never chosen as an eviction victim.
    pub pin_count: u64,
    /// The cached page.
    pub buffer: Buffer,
}

impl Frame {
    /// A frame's buffer is well formed, and a pinned frame always has a
    /// positive usage count: every fetch that issues a handle also
    /// raises the usage count, and the sweep only lowers it on frames
    /// whose handles have all been released.
    pub open spec fn wf(&self) -> bool {
        &&& self.buffer.wf()
        &&& self.pin_count > 0 ==> self.usage_count > 0
    }
}

/// The eviction engine: a fixed-size sequence of frames plus the sticky
/// cursor from which the next eviction sweep starts.
pub struct BufferPool {
    pub buffers: Vec<Frame>,
    pub next_victim_id: BufferId,
}

/// Whether every frame of `frames` is pinned by an outstanding handle.
pub open spec fn all_pinned(frames: Seq<Frame>) -> bool {
    forall|i: int| 0 <= i < frames.len() ==> #[trigger] frames[i].pin_count > 0
}

/// The sum of the usage counts of the unpinned frames: the measure that
/// bounds an eviction sweep, since every step of the sweep either
/// lowers one unpinned frame's usage count or lengthens the run of
/// consecutively seen pinned frames.
pub open spec fn unpinned_usage_sum(frames: Seq<Frame>) -> int
    decreases frames.len(),
{
    if frames.len() == 0 {
        0
    } else {
        (if frames.last().pin_count == 0 {
            frames.last().usage_count as int
        } else {
            0
        }) + unpinned_usage_sum(frames.drop_last())
    }
}

/// The frame under the cursor after one step backwards: the index of
/// the `k + 1`-th most recently passed frame when the cursor now stands
/// at `cursor` in a pool of `len` frames.
pub open spec fn prev_index(cursor: int, k: int, len: int) -> int {
    if cursor - 1 - k >= 0 {
        cursor - 1 - k
    } else {
        cursor - 1 - k + len
    }
}

/// One full description of the clock sweep from a cursor position,
/// having just passed `consec` consecutive pinned frames: the victim
/// chosen (`None` when the whole pool is pinned), the frames with the
/// usage counts the sweep lowered on its way, and the final cursor.
///
/// The frame under the cursor is taken when its usage count is zero;
/// an unpinned frame with a positive usage count is given a second
/// chance (its count is lowered by one, the run of pinned frames
/// resets) and the cursor advances; a pinned frame lengthens that run,
/// and once the run covers the whole pool the sweep gives up.
pub open spec fn sweep(frames: Seq<Frame>, cursor: int, consec: int) -> (Option<int>, Seq<
    Frame,
>, int)
    decreases unpinned_usage_sum(frames), frames.len() - consec,
        when 0 <= cursor < frames.len() && 0 <= consec < frames.len()
{
    let f = frames[cursor];
    if f.usage_count == 0 {
        (Some(cursor), frames, cursor)
    } else if f.pin_count == 0 {
        let lowered = frames.update(
            cursor,
            Frame { usage_count: (f.usage_count - 1) as u64, ..f },
        );
        proof {
            lemma_unpinned_usage_sum_update(frames, cursor, (f.usage_count - 1) as u64);
        }
        sweep(
            lowered,
            if cursor + 1 == frames.len() {
                0
            } else {
                cursor + 1
            },
            0,
        )
    } else if consec + 1 >= frames.len() {
        (None, frames, cursor)
    } else {
        proof {
            lemma_unpinned_usage_sum_nonneg(frames);
        }
        sweep(
            frames,
            if cursor + 1 == frames.len() {
                0
            } else {
                cursor + 1
            },
            consec + 1,
        )
    }
}

/// The usage-count sum over the unpinned frames never goes below zero.
pub proof fn lemma_unpinned_usage_sum_nonneg(frames: Seq<Frame>)
    ensures
        unpinned_usage_sum(frames) >= 0,
    decreases frames.len(),
{
    if frames.len() > 0 {
        lemma_unpinned_usage_sum_nonneg(frames.drop_last());
    }
}

/// Lowering the usage count of one unpinned frame lowers the sum over
/// the unpinned frames by exactly the difference.
pub proof fn lemma_unpinned_usage_sum_update(frames: Seq<Frame>, i: int, c: u64)
    requires
        0 <= i < frames.len(),
        frames[i].pin_count == 0,
    ensures
        unpinned_usage_sum(frames.update(i, Frame { usage_count: c, ..frames[i] }))
            == unpinned_usage_sum(frames) - frames[i].usage_count + c,
        unpinned_usage_sum(frames) >= frames[i].usage_count,
    decreases frames.len(),
{
    lemma_unpinned_usage_sum_nonneg(frames);
    let updated = frames.update(i, Frame { usage_count: c, ..frames[i] });
    if i == frames.len() - 1 {
        assert(updated.drop_last() =~= frames.drop_last());
        lemma_unpinned_usage_sum_nonneg(frames.drop_last());
    } else {
        assert(updated.drop_last() =~= frames.drop_last().update(
            i,
            Frame { usage_count: c, ..frames[i] },
        ));
        lemma_unpinned_usage_sum_update(frames.drop_last(), i, c);
    }
}

/// What the clock sweep guarantees from any starting state whose last
/// `consec` passed frames were pinned: every frame keeps its buffer and
/// its pin count and can only lose usage count; a chosen victim is
/// unpinned, has usage count zero, and the cursor is left on it; and
/// the sweep gives up, leaving every frame untouched, exactly when the
/// whole pool is pinned.
pub proof fn lemma_sweep_props(frames: Seq<Frame>, cursor: int, consec: int)
    requires
        0 <= cursor < frames.len(),
        0 <= consec < frames.len(),
        forall|i: int| 0 <= i < frames.len() ==> (#[trigger] frames[i]).wf(),
        forall|k: int|
            0 <= k < consec ==> frames[prev_index(cursor, k, frames.len() as int)].pin_count
                > 0,
    ensures
        ({
            let (v, swept, cur) = sweep(frames, cursor, consec);
            &&& swept.len() == frames.len()
            &&& forall|i: int|
                0 <= i < frames.len() ==> {
                    &&& (#[trigger] swept[i]).buffer == frames[i].buffer
                    &&& swept[i].pin_count == frames[i].pin_count
                    &&& swept[i].usage_count <= frames[i].usage_count
                    &&& swept[i].wf()
                }
            &&& match v {
                Some(vi) => {
                    &&& 0 <= vi < frames.len()
                    &&& cur == vi
                    &&& swept[vi].usage_count == 0
                    &&& swept[vi].pin_count == 0
                },
                None => {
                    &&& swept == frames
                    &&& all_pinned(frames)
                    &&& 0 <= cur < frames.len()
                },
            }
            &&& (all_pinned(frames) ==> v is None)
        }),
    decreases unpinned_usage_sum(frames), frames.len() - consec,
{
    let len = frames.len() as int;
    let f = frames[cursor];
    if f.usage_count == 0 {
        assert(frames[cursor].wf());
    } else if f.pin_count == 0 {
        let lowered = frames.update(
            cursor,
            Frame { usage_count: (f.usage_count - 1) as u64, ..f },
        );
        lemma_unpinned_usage_sum_update(frames, cursor, (f.usage_count - 1) as u64);
        let next = if cursor + 1 == len {
            0int
        } else {
            cursor + 1
        };
        lemma_sweep_props(lowered, next, 0);
        let (v, swept, cur) = sweep(frames, cursor, consec);
        if v is None {
            assert(lowered[cursor].pin_count == 0);
            assert(false);
        }
    } else if consec + 1 >= len {
        assert forall|j: int| 0 <= j < len implies #[trigger] frames[j].pin_count > 0 by {
            if j != cursor {
                let k = if cursor - 1 - j >= 0 {
                    cursor - 1 - j
                } else {
                    cursor - 1 - j + len
                };
                assert(0 <= k < consec);
                assert(prev_index(cursor, k, len) == j);
            }
        }
    } else {
        let next = if cursor + 1 == len {
            0int
        } else {
            cursor + 1
        };
        assert forall|k: int|
            0 <= k < consec + 1 implies frames[prev_index(next, k, len)].pin_count > 0 by {
            if k == 0 {
                assert(prev_index(next, 0, len) == cursor);
            } else {
                assert(prev_index(next, k, len) == prev_index(cursor, k - 1, len));
            }
        }
        lemma_unpinned_usage_sum_nonneg(frames);
        lemma_sweep_props(frames, next, consec + 1);
    }
}

impl BufferPool {
    /// The cursor stays within the pool, the pool is never empty, and
    /// every frame is well formed.
    pub open spec fn wf(&self) -> bool {
        &&& self.buffers@.len() >= 1
        &&& self.next_victim_id.0 < self.buffers@.len()
        &&& forall|i: int| 0 <= i < self.buffers@.len() ==> (#[trigger] self.buffers@[i]).wf()
    }

    /// Builds a pool of `capacity` empty frames. Capacity is fixed at
    /// construction and never changes.
    pub fn new(capacity: usize) -> (r: Self)
        requires
            capacity >= 1,
        ensures
            r.wf(),
            r.buffers@.len() == capacity,
            r.next_victim_id.0 == 0,
            forall|i: int|
                0 <= i < capacity ==> #[trigger] r.buffers@[i] == (Frame {
                    usage_count: 0u64,
                    pin_count: 0u64,
                    buffer: Buffer {
                        page_id: PageId(0),
                        page: r.buffers@[i].buffer.page,
                        is_dirty: false,
                    },
                }),
            forall|i: int|
                0 <= i < capacity ==> (#[trigger] r.buffers@[i]).buffer.page@ == Seq::new(
                    PAGE_SIZE as nat,
                    |j: int| 0u8,
                ),
    {
        let mut buffers: Vec<Frame> = Vec::new();
        let mut k: usize = 0;
        while k < capacity
            invariant
                k <= capacity,
                buffers@.len() == k,
                forall|i: int|
                    0 <= i < k ==> #[trigger] buffers@[i] == (Frame {
                        usage_count: 0u64,
                        pin_count: 0u64,
                        buffer: Buffer {
                            page_id: PageId(0),
                            page: buffers@[i].buffer.page,
                            is_dirty: false,
                        },
                    }),
                forall|i: int|
                    0 <= i < k ==> (#[trigger] buffers@[i]).buffer.page@ == Seq::new(
                        PAGE_SIZE as nat,
                        |j: int| 0u8,
                    ),
            decreases capacity - k,
        {
            let page = zero_page();
            buffers.push(
                Frame {
                    usage_count: 0,
                    pin_count: 0,
                    buffer: Buffer { page_id: PageId(0), page, is_dirty: false },
                },
            );
            k = k + 1;
        }
        Self { buffers, next_victim_id: BufferId(0) }
    }

    /// The pool's capacity.
    pub fn size(&self) -> (r: usize)
        ensures
            r == self.buffers@.len(),
    {
        self.buffers.len()
    }

    /// Chooses the frame to repurpose next, by the clock sweep that
    /// [`sweep`] describes, starting from the sticky cursor: the cursor
    /// is not reset between calls, so successive evictions walk the
    /// pool round-robin. Returns `None` exactly when every frame is
    /// pinned; a returned victim is unpinned, has usage count zero, and
    /// the cursor is left on it. No buffer and no pin count changes;
    /// usage counts only go down.
    #[verifier::loop_isolation(false)]
    pub fn evict(&mut self) -> (r: Option<BufferId>)
        requires
            old(self).wf(),
        ensures
            final(self).wf(),
            final(self).buffers@.len() == old(self).buffers@.len(),
            ({
                let (v, swept, cur) = sweep(
                    old(self).buffers@,
                    old(self).next_victim_id.0 as int,
                    0,
                );
                &&& final(self).buffers@ == swept
                &&& final(self).next_victim_id.0 == cur
                &&& match r {
                    Some(b) => v == Some(b.0 as int),
                    None => v is None,
                }
            }),
            r is None <==> all_pinned(old(self).buffers@),
            r is None ==> final(self).buffers@ == old(self).buffers@,
            match r {
                Some(b) => {
                    &&& b.0 < old(self).buffers@.len()
                    &&& final(self).next_victim_id == b
                    &&& final(self).buffers@[b.0 as int].usage_count == 0
                    &&& final(self).buffers@[b.0 as int].pin_count == 0
                },
                None => true,
            },
            forall|i: int|
                0 <= i < old(self).buffers@.len() ==> {
                    &&& (#[trigger] final(self).buffers@[i]).buffer == old(
                        self,
                    ).buffers@[i].buffer
                    &&& final(self).buffers@[i].pin_count == old(self).buffers@[i].pin_count
                    &&& final(self).buffers@[i].usage_count <= old(
                        self,
                    ).buffers@[i].usage_count
                },
    {
        proof {
            lemma_sweep_props(old(self).buffers@, old(self).next_victim_id.0 as int, 0);
        }
        let pool_size = self.size();
        let mut consecutive_pinned: usize = 0;
        loop
            invariant
                self.wf(),
                self.buffers@.len() == pool_size,
                consecutive_pinned < pool_size,
                sweep(self.buffers@, self.next_victim_id.0 as int, consecutive_pinned as int)
                    == sweep(old(self).buffers@, old(self).next_victim_id.0 as int, 0),
                forall|i: int|
                    0 <= i < pool_size ==> {
                        &&& (#[trigger] self.buffers@[i]).buffer == old(
                            self,
                        ).buffers@[i].buffer
                        &&& self.buffers@[i].pin_count == old(self).buffers@[i].pin_count
                        &&& self.buffers@[i].usage_count <= old(self).buffers@[i].usage_count
                    },
            decreases unpinned_usage_sum(self.buffers@), pool_size - consecutive_pinned,
        {
            let vi = self.next_victim_id.0;
            if self.buffers[vi].usage_count == 0 {
                return Some(self.next_victim_id);
            }
            if self.buffers[vi].pin_count == 0 {
                proof {
                    lemma_unpinned_usage_sum_update(
                        self.buffers@,
                        vi as int,
                        (self.buffers@[vi as int].usage_count - 1) as u64,
                    );
                }
                let uc = self.buffers[vi].usage_count;
                self.buffers[vi].usage_count = uc - 1;
                consecutive_pinned = 0;
            } else {
                consecutive_pinned = consecutive_pinned + 1;
                if consecutive_pinned >= pool_size {
                    return None;
                }
            }
            self.next_victim_id = self.increment_id(self.next_victim_id);
        }
    }

    /// The frame index after `buffer_id`, wrapping around at the end of
    /// the pool.
    pub fn increment_id(&self, buffer_id: BufferId) -> (r: BufferId)
        requires
            self.buffers@.len() >= 1,
            buffer_id.0 < self.buffers@.len(),
        ensures
            r.0 == (if buffer_id.0 + 1 == self.buffers@.len() {
                0int
            } else {
                buffer_id.0 + 1
            }),
    {
        let n = self.size();
        let next = (buffer_id.0 + 1) % n;
        proof {
            if buffer_id.0 + 1 == n {
                assert((buffer_id.0 + 1) % (n as int) == 0) by (nonlinear_arith)
                    requires
                        n >= 1,
                        buffer_id.0 + 1 == n,
                ;
            } else {
                assert((buffer_id.0 + 1) % (n as int) == buffer_id.0 + 1) by (nonlinear_arith)
                    requires
                        0 <= buffer_id.0 + 1 < n,
                ;
            }
        }
        BufferId(next)
    }
}

/// The only public entry point of the cache: owns the page store, the
/// buffer pool, and the page table, and guarantees at most one cached
/// copy per page.
pub struct BufferPoolManager {
    pub disk: DiskManager,
    pub pool: BufferPool,
    pub page_table: HashMap<u64, usize>,
}

impl BufferPoolManager {
    /// The pool's frames.
    pub open spec fn frames(&self) -> Seq<Frame> {
        self.pool.buffers@
    }

    /// The page table: the frame index caching each cached page.
    pub open spec fn table(&self) -> Map<u64, usize> {
        self.page_table@
    }

    /// Whether page `pid` is currently cached.
    pub open spec fn cached(&self, pid: u64) -> bool {
        self.table().contains_key(pid)
    }

    /// The frame caching page `pid`.
    pub open spec fn frame_of(&self, pid: u64) -> int {
        self.table()[pid] as int
    }

    /// The manager's invariant.
    ///
    /// The pool is well formed; every page-table entry points at a
    /// frame within the pool whose buffer carries that page identifier,
    /// and only allocated pages are cached; every frame that is dirty
    /// or pinned is entered in the page table under its own page
    /// identifier (so the table and the frame array never disagree
    /// about which page occupies which frame); and the heap file never
    /// reaches beyond the allocation counter.
    pub open spec fn wf(&self) -> bool {
        &&& self.pool.wf()
        &&& forall|p: u64| #[trigger]
            self.table().contains_key(p) ==> {
                &&& self.table()[p] < self.frames().len()
                &&& self.frames()[self.table()[p] as int].buffer.page_id.0 == p
                &&& p < self.disk.next_id()
            }
        &&& forall|i: int|
            0 <= i < self.frames().len() && ((#[trigger] self.frames()[i]).buffer.is_dirty
                || self.frames()[i].pin_count > 0) ==> self.table().contains_key(
                self.frames()[i].buffer.page_id.0,
            ) && self.table()[self.frames()[i].buffer.page_id.0] == i
        &&& self.disk.file().len() < (self.disk.next_id() + 1) * (PAGE_SIZE as int)
    }

    /// Builds a manager over a page store and a pool of empty frames.
    pub fn new(disk: DiskManager, pool: BufferPool) -> (r: Self)
        requires
            pool.wf(),
            forall|i: int|
                0 <= i < pool.buffers@.len() ==> !(#[trigger] pool.buffers@[i]).buffer.is_dirty
                    && pool.buffers@[i].pin_count == 0,
            disk.file().len() < (disk.next_id() + 1) * (PAGE_SIZE as int),
        ensures
            r.wf(),
            r.disk == disk,
            r.pool == pool,
            r.table() == Map::<u64, usize>::empty(),
    {
        let page_table: HashMap<u64, usize> = HashMap::new();
        Self { disk, pool, page_table }
    }

    /// Obtains a fresh page identifier from the page store. Allocation
    /// is logical only: no frame is populated and nothing is written.
    /// The create-and-cache path is [`Self::create_page`].
    pub fn allocate_page(&mut self) -> (r: PageId)
        requires
            old(self).wf(),
            old(self).disk.next_id() < u64::MAX,
        ensures
            final(self).wf(),
            r.0 == old(self).disk.next_id(),
            final(self).disk.next_id() == old(self).disk.next_id() + 1,
            final(self).disk.file() == old(self).disk.file(),
            final(self).pool == old(self).pool,
            final(self).table() == old(self).table(),
    {
        proof {
            vstd::arithmetic::mul::lemma_mul_inequality(
                old(self).disk.next_id() + 1,
                old(self).disk.next_id() + 2,
                PAGE_SIZE as int,
            );
        }
        let r = self.disk.allocate_page();
        proof {
            assert(self.page_table == old(self).page_table);
            assert forall|p: u64| #[trigger]
                self.table().contains_key(p) implies {
                &&& self.table()[p] < self.frames().len()
                &&& self.frames()[self.table()[p] as int].buffer.page_id.0 == p
                &&& p < self.disk.next_id()
            } by {
                assert(old(self).table().contains_key(p));
            }
            assert forall|i: int|
                0 <= i < self.frames().len() && ((#[trigger] self.frames()[i]).buffer.is_dirty
                    || self.frames()[i].pin_count > 0) implies self.table().contains_key(
                self.frames()[i].buffer.page_id.0,
            ) && self.table()[self.frames()[i].buffer.page_id.0] == i by {
                assert(old(self).frames()[i] == self.frames()[i]);
            }
        }
        r
    }
}

impl BufferPoolManager {
    /// Returns a handle to the cached copy of page `page_id`, loading
    /// it from the page store first when it is not cached.
    ///
    /// On a hit the frame's usage count and pin count each rise by one
    /// and nothing else changes. On a miss the clock sweep chooses a
    /// victim frame; a dirty victim is written back through the page
    /// store *before* anything in the frame is replaced, and a failed
    /// write-back aborts the fetch with the victim left intact and
    /// still dirty. The requested page's bytes then replace the
    /// victim's buffer (usage count 1, one outstanding handle, clean),
    /// the victim's page-table entry makes way for the new one, and the
    /// handle is returned. A miss fails with `NoFreeBuffer` exactly
    /// when every frame is pinned, and with `Io` when the write-back
    /// fails or the requested page does not lie within the heap file.
    pub fn fetch_page(&mut self, page_id: PageId) -> (r: Result<BufferId, Error>)
        requires
            old(self).wf(),
        ensures
            final(self).wf(),
            final(self).frames().len() == old(self).frames().len(),
            final(self).disk.next_id() == old(self).disk.next_id(),
            old(self).cached(page_id.0) ==> ({
                let i = old(self).frame_of(page_id.0);
                &&& r == Ok::<BufferId, Error>(BufferId(old(self).table()[page_id.0]))
                &&& final(self).table() == old(self).table()
                &&& final(self).disk == old(self).disk
                &&& final(self).pool.next_victim_id == old(self).pool.next_victim_id
                &&& final(self).frames() == old(self).frames().update(
                    i,
                    Frame {
                        usage_count: bump(old(self).frames()[i].usage_count),
                        pin_count: bump(old(self).frames()[i].pin_count),
                        buffer: old(self).frames()[i].buffer,
                    },
                )
            }),
            !old(self).cached(page_id.0) ==> ({
                let (v, swept, cur) = sweep(
                    old(self).frames(),
                    old(self).pool.next_victim_id.0 as int,
                    0,
                );
                &&& final(self).pool.next_victim_id.0 == cur
                &&& match v {
                    None => {
                        &&& r == Err::<BufferId, Error>(Error::NoFreeBuffer)
                        &&& final(self).frames() == old(self).frames()
                        &&& final(self).table() == old(self).table()
                        &&& final(self).disk == old(self).disk
                    },
                    Some(vi) => {
                        let victim = swept[vi];
                        let vpid = victim.buffer.page_id.0;
                        let can_write = page_offset(vpid) + PAGE_SIZE <= usize::MAX;
                        let file1 = if victim.buffer.is_dirty {
                            file_after_write(old(self).disk.file(), vpid, victim.buffer.page@)
                        } else {
                            old(self).disk.file()
                        };
                        if victim.buffer.is_dirty && !can_write {
                            &&& r == Err::<BufferId, Error>(Error::Io)
                            &&& final(self).frames() == swept
                            &&& final(self).table() == old(self).table()
                            &&& final(self).disk == old(self).disk
                        } else if !page_in_file(file1, page_id.0) {
                            &&& r == Err::<BufferId, Error>(Error::Io)
                            &&& final(self).frames() == (if victim.buffer.is_dirty {
                                swept.update(
                                    vi,
                                    Frame {
                                        usage_count: victim.usage_count,
                                        pin_count: victim.pin_count,
                                        buffer: Buffer { is_dirty: false, ..victim.buffer },
                                    },
                                )
                            } else {
                                swept
                            })
                            &&& final(self).table() == old(self).table()
                            &&& final(self).disk.file() == file1
                        } else {
                            &&& r == Ok::<BufferId, Error>(BufferId(vi as usize))
                            &&& final(self).disk.file() == file1
                            &&& final(self).table() == (if old(self).table().contains_key(vpid)
                                && old(self).table()[vpid] == vi as usize {
                                old(self).table().remove(vpid)
                            } else {
                                old(self).table()
                            }).insert(page_id.0, vi as usize)
                            &&& forall|j: int|
                                0 <= j < swept.len() && j != vi
                                    ==> #[trigger] final(self).frames()[j] == swept[j]
                            &&& final(self).frames()[vi].usage_count == 1
                            &&& final(self).frames()[vi].pin_count == 1
                            &&& final(self).frames()[vi].buffer.page_id == page_id
                            &&& final(self).frames()[vi].buffer.is_dirty == false
                            &&& final(self).frames()[vi].buffer.page@ == page_at(
                                file1,
                                page_id.0,
                            )
                        }
                    },
                }
            }),
            (!old(self).cached(page_id.0) && all_pinned(old(self).frames())) ==> r == Err::<
                BufferId,
                Error,
            >(Error::NoFreeBuffer),
    {
        let ghost pre = *old(self);
        let hit = match self.page_table.get(&page_id.0) {
            Some(i_ref) => Some(*i_ref),
            None => None,
        };
        match hit {
            Some(i) => {
                proof {
                    assert(pre.table().contains_key(page_id.0));
                    assert(i == pre.table()[page_id.0]);
                }
                let uc = self.pool.buffers[i].usage_count;
                if uc < u64::MAX {
                    self.pool.buffers[i].usage_count = uc + 1;
                }
                let pc = self.pool.buffers[i].pin_count;
                if pc < u64::MAX {
                    self.pool.buffers[i].pin_count = pc + 1;
                }
                proof {
                    assert(self.frames() =~= pre.frames().update(
                        i as int,
                        Frame {
                            usage_count: bump(pre.frames()[i as int].usage_count),
                            pin_count: bump(pre.frames()[i as int].pin_count),
                            buffer: pre.frames()[i as int].buffer,
                        },
                    ));
                    self.lemma_local_frame_change(pre, i as int);
                }
                Ok(BufferId(i))
            },
            None => {
                proof {
                    assert(!pre.cached(page_id.0));
                }
                let vid = match self.pool.evict() {
                    Some(v) => v,
                    None => {
                        proof {
                            self.lemma_wf_rebuild(pre);
                        }
                        return Err(Error::NoFreeBuffer);
                    },
                };
                let vi = vid.0;
                let ghost swept = self.pool.buffers@;
                let vpid = self.pool.buffers[vi].buffer.page_id;
                if self.pool.buffers[vi].buffer.is_dirty {
                    proof {
                        assert(pre.frames()[vi as int].buffer == swept[vi as int].buffer);
                        assert(pre.table().contains_key(vpid.0) && pre.table()[vpid.0]
                            == vi as usize);
                        vstd::arithmetic::mul::lemma_mul_inequality(
                            vpid.0 + 1,
                            pre.disk.next_id() as int,
                            PAGE_SIZE as int,
                        );
                    }
                    let wrote = self.disk.write_page_data(
                        vpid,
                        &self.pool.buffers[vi].buffer.page,
                    );
                    match wrote {
                        Ok(_) => {
                            self.pool.buffers[vi].buffer.is_dirty = false;
                        },
                        Err(e) => {
                            proof {
                                self.lemma_wf_rebuild(pre);
                            }
                            return Err(e);
                        },
                    }
                }
                let ghost file1 = self.disk.file();
                let mut data = zero_page();
                let was_read = self.disk.read_page_data(page_id, &mut data);
                match was_read {
                    Ok(_) => {},
                    Err(e) => {
                        proof {
                            if swept[vi as int].buffer.is_dirty {
                                assert(self.frames() =~= swept.update(
                                    vi as int,
                                    Frame {
                                        usage_count: swept[vi as int].usage_count,
                                        pin_count: swept[vi as int].pin_count,
                                        buffer: Buffer {
                                            is_dirty: false,
                                            ..swept[vi as int].buffer
                                        },
                                    },
                                ));
                            }
                            self.lemma_wf_rebuild(pre);
                        }
                        return Err(e);
                    },
                }
                let stale = match self.page_table.get(&vpid.0) {
                    Some(j_ref) => *j_ref == vi,
                    None => false,
                };
                if stale {
                    self.page_table.remove(&vpid.0);
                }
                self.pool.buffers[vi].buffer = Buffer { page_id, page: data, is_dirty: false };
                self.pool.buffers[vi].usage_count = 1;
                self.pool.buffers[vi].pin_count = 1;
                self.page_table.insert(page_id.0, vi);
                proof {
                    self.lemma_install(pre, swept, vi, page_id);
                }
                Ok(vid)
            },
        }
    }

    /// Allocates a fresh page and installs it into the cache in one
    /// step: the clock sweep chooses a victim frame, a dirty victim is
    /// written back first, and the frame is then seeded with a
    /// zero-filled buffer for the new page — without a disk read, since
    /// the page has never been written — marked dirty so that the zeros
    /// (or whatever the holder writes over them) are persisted when the
    /// frame is eventually evicted.
    ///
    /// The raw [`Self::allocate_page`] alone does not initialize a
    /// cache entry; fetching a never-written page fails with `Io`.
    pub fn create_page(&mut self) -> (r: Result<(PageId, BufferId), Error>)
        requires
            old(self).wf(),
            old(self).disk.next_id() < u64::MAX,
        ensures
            final(self).wf(),
            final(self).frames().len() == old(self).frames().len(),
            ({
                let (v, swept, cur) = sweep(
                    old(self).frames(),
                    old(self).pool.next_victim_id.0 as int,
                    0,
                );
                &&& final(self).pool.next_victim_id.0 == cur
                &&& match v {
                    None => {
                        &&& r == Err::<(PageId, BufferId), Error>(Error::NoFreeBuffer)
                        &&& final(self).frames() == old(self).frames()
                        &&& final(self).table() == old(self).table()
                        &&& final(self).disk == old(self).disk
                    },
                    Some(vi) => {
                        let victim = swept[vi];
                        let vpid = victim.buffer.page_id.0;
                        let can_write = page_offset(vpid) + PAGE_SIZE <= usize::MAX;
                        let file1 = if victim.buffer.is_dirty {
                            file_after_write(old(self).disk.file(), vpid, victim.buffer.page@)
                        } else {
                            old(self).disk.file()
                        };
                        if victim.buffer.is_dirty && !can_write {
                            &&& r == Err::<(PageId, BufferId), Error>(Error::Io)
                            &&& final(self).frames() == swept
                            &&& final(self).table() == old(self).table()
                            &&& final(self).disk == old(self).disk
                        } else {
                            let new_pid = old(self).disk.next_id();
                            &&& r == Ok::<(PageId, BufferId), Error>(
                                (PageId(new_pid), BufferId(vi as usize)),
                            )
                            &&& final(self).disk.file() == file1
                            &&& final(self).disk.next_id() == old(self).disk.next_id() + 1
                            &&& final(self).table() == (if old(self).table().contains_key(vpid)
                                && old(self).table()[vpid] == vi as usize {
                                old(self).table().remove(vpid)
                            } else {
                                old(self).table()
                            }).insert(new_pid, vi as usize)
                            &&& forall|j: int|
                                0 <= j < swept.len() && j != vi
                                    ==> #[trigger] final(self).frames()[j] == swept[j]
                            &&& final(self).frames()[vi].usage_count == 1
                            &&& final(self).frames()[vi].pin_count == 1
                            &&& final(self).frames()[vi].buffer.page_id == PageId(new_pid)
                            &&& final(self).frames()[vi].buffer.is_dirty == true
                            &&& final(self).frames()[vi].buffer.page@ == Seq::new(
                                PAGE_SIZE as nat,
                                |j: int| 0u8,
                            )
                        }
                    },
                }
            }),
            all_pinned(old(self).frames()) ==> r == Err::<(PageId, BufferId), Error>(
                Error::NoFreeBuffer,
            ),
    {
        let ghost pre = *old(self);
        let vid = match self.pool.evict() {
            Some(v) => v,
            None => {
                proof {
                    self.lemma_wf_rebuild(pre);
                }
                return Err(Error::NoFreeBuffer);
            },
        };
        let vi = vid.0;
        let ghost swept = self.pool.buffers@;
        let vpid = self.pool.buffers[vi].buffer.page_id;
        if self.pool.buffers[vi].buffer.is_dirty {
            proof {
                assert(pre.frames()[vi as int].buffer == swept[vi as int].buffer);
                assert(pre.table().contains_key(vpid.0) && pre.table()[vpid.0] == vi as usize);
                vstd::arithmetic::mul::lemma_mul_inequality(
                    vpid.0 + 1,
                    pre.disk.next_id() as int,
                    PAGE_SIZE as int,
                );
            }
            let wrote = self.disk.write_page_data(vpid, &self.pool.buffers[vi].buffer.page);
            match wrote {
                Ok(_) => {
                    self.pool.buffers[vi].buffer.is_dirty = false;
                },
                Err(e) => {
                    proof {
                        self.lemma_wf_rebuild(pre);
                    }
                    return Err(e);
                },
            }
        }
        let new_pid = self.disk.allocate_page();
        let stale = match self.page_table.get(&vpid.0) {
            Some(j_ref) => *j_ref == vi,
            None => false,
        };
        if stale {
            self.page_table.remove(&vpid.0);
        }
        let page = zero_page();
        self.pool.buffers[vi].buffer = Buffer { page_id: new_pid, page, is_dirty: true };
        self.pool.buffers[vi].usage_count = 1;
        self.pool.buffers[vi].pin_count = 1;
        self.page_table.insert(new_pid.0, vi);
        proof {
            vstd::arithmetic::mul::lemma_mul_inequality(
                pre.disk.next_id() + 1,
                pre.disk.next_id() + 2,
                PAGE_SIZE as int,
            );
            assert(!pre.cached(new_pid.0));
            self.lemma_install(pre, swept, vi, new_pid);
        }
        Ok((new_pid, vid))
    }

    /// Re-establishes the invariant after a victim frame is repurposed
    /// for a newly loaded or created page: the victim's old page-table
    /// entry is gone, the new page's entry points at the victim frame,
    /// and no other frame changed.
    proof fn lemma_install(
        &self,
        prior: Self,
        swept: Seq<Frame>,
        vi: usize,
        page_id: PageId,
    )
        requires
            prior.wf(),
            swept.len() == prior.frames().len(),
            vi < swept.len(),
            forall|i: int|
                0 <= i < swept.len() ==> {
                    &&& (#[trigger] swept[i]).buffer.page_id
                        == prior.frames()[i].buffer.page_id
                    &&& ((swept[i].buffer.is_dirty || swept[i].pin_count > 0) ==> (
                    prior.frames()[i].buffer.is_dirty || prior.frames()[i].pin_count > 0))
                },
            !prior.cached(page_id.0),
            page_id.0 < self.disk.next_id(),
            self.disk.next_id() >= prior.disk.next_id(),
            self.disk.file().len() < (self.disk.next_id() + 1) * (PAGE_SIZE as int),
            self.pool.wf(),
            self.frames().len() == swept.len(),
            forall|j: int| 0 <= j < swept.len() && j != vi ==> #[trigger] self.frames()[j]
                == swept[j],
            self.frames()[vi as int].buffer.page_id == page_id,
            self.frames()[vi as int].pin_count > 0 ==> self.frames()[vi as int].usage_count
                > 0,
            self.table() == (if prior.table().contains_key(
                prior.frames()[vi as int].buffer.page_id.0,
            ) && prior.table()[prior.frames()[vi as int].buffer.page_id.0] == vi {
                prior.table().remove(prior.frames()[vi as int].buffer.page_id.0)
            } else {
                prior.table()
            }).insert(page_id.0, vi),
        ensures
            self.wf(),
    {
        let vpid = prior.frames()[vi as int].buffer.page_id.0;
        assert forall|p: u64| #[trigger] self.table().contains_key(p) implies {
            &&& self.table()[p] < self.frames().len()
            &&& self.frames()[self.table()[p] as int].buffer.page_id.0 == p
            &&& p < self.disk.next_id()
        } by {
            if p == page_id.0 {
            } else {
                assert(prior.table().contains_key(p));
                assert(prior.frames()[prior.table()[p] as int].buffer.page_id.0 == p);
                if prior.table()[p] == vi {
                    assert(p == vpid);
                }
            }
        }
        assert forall|i: int|
            0 <= i < self.frames().len() && ((#[trigger] self.frames()[i]).buffer.is_dirty
                || self.frames()[i].pin_count > 0) implies self.table().contains_key(
            self.frames()[i].buffer.page_id.0,
        ) && self.table()[self.frames()[i].buffer.page_id.0] == i by {
            if i != vi {
                assert(prior.frames()[i].buffer.is_dirty || prior.frames()[i].pin_count > 0);
                let p = self.frames()[i].buffer.page_id.0;
                assert(prior.table().contains_key(p) && prior.table()[p] == i);
                assert(p != page_id.0);
                assert(p != vpid || prior.table()[p] != vi);
            }
        }
    }

    /// Reads the cached bytes of the page behind an outstanding handle.
    pub fn page_data(&self, id: BufferId) -> (r: &Vec<u8>)
        requires
            self.wf(),
            id.0 < self.frames().len(),
        ensures
            r@ == self.frames()[id.0 as int].buffer.page@,
            r@.len() == PAGE_SIZE,
    {
        assert(self.frames()[id.0 as int].wf());
        &self.pool.buffers[id.0].buffer.page
    }

    /// Replaces the cached bytes of the page behind an outstanding
    /// handle and marks the buffer dirty, so the new bytes are written
    /// back before the frame is ever repurposed. Only the holder of a
    /// handle may mutate a page, so the frame must be pinned.
    pub fn update_page(&mut self, id: BufferId, data: &Vec<u8>)
        requires
            old(self).wf(),
            id.0 < old(self).frames().len(),
            old(self).frames()[id.0 as int].pin_count > 0,
            data.len() == PAGE_SIZE,
        ensures
            final(self).wf(),
            final(self).disk == old(self).disk,
            final(self).table() == old(self).table(),
            final(self).pool.next_victim_id == old(self).pool.next_victim_id,
            final(self).frames()[id.0 as int].buffer.page@ == data@,
            final(self).frames() == old(self).frames().update(
                id.0 as int,
                Frame {
                    usage_count: old(self).frames()[id.0 as int].usage_count,
                    pin_count: old(self).frames()[id.0 as int].pin_count,
                    buffer: Buffer {
                        page_id: old(self).frames()[id.0 as int].buffer.page_id,
                        page: final(self).frames()[id.0 as int].buffer.page,
                        is_dirty: true,
                    },
                },
            ),
    {
        let page = copy_page(data);
        self.pool.buffers[id.0].buffer.page = page;
        self.pool.buffers[id.0].buffer.is_dirty = true;
        proof {
            self.lemma_local_frame_change(*old(self), id.0 as int);
        }
    }

    /// Releases one outstanding handle to a frame's buffer. Once the
    /// last handle is released the frame is held by the manager alone
    /// and becomes eligible for eviction.
    pub fn unpin_page(&mut self, id: BufferId)
        requires
            old(self).wf(),
            id.0 < old(self).frames().len(),
            old(self).frames()[id.0 as int].pin_count > 0,
        ensures
            final(self).wf(),
            final(self).disk == old(self).disk,
            final(self).table() == old(self).table(),
            final(self).pool.next_victim_id == old(self).pool.next_victim_id,
            final(self).frames() == old(self).frames().update(
                id.0 as int,
                Frame {
                    usage_count: old(self).frames()[id.0 as int].usage_count,
                    pin_count: (old(self).frames()[id.0 as int].pin_count - 1) as u64,
                    buffer: old(self).frames()[id.0 as int].buffer,
                },
            ),
    {
        let pc = self.pool.buffers[id.0].pin_count;
        self.pool.buffers[id.0].pin_count = pc - 1;
        proof {
            self.lemma_local_frame_change(*old(self), id.0 as int);
        }
    }

    /// Re-establishes the invariant after a change confined to one
    /// frame that keeps its page identifier, its page length, the rule
    /// that a pinned frame has a positive usage count, and its
    /// dirty-or-pinned page-table entry.
    proof fn lemma_local_frame_change(&self, prior: Self, c: int)
        requires
            prior.wf(),
            0 <= c < prior.frames().len(),
            self.disk == prior.disk,
            self.table() == prior.table(),
            self.pool.next_victim_id == prior.pool.next_victim_id,
            self.frames().len() == prior.frames().len(),
            forall|i: int|
                0 <= i < prior.frames().len() && i != c ==> self.frames()[i]
                    == prior.frames()[i],
            self.frames()[c].buffer.page_id == prior.frames()[c].buffer.page_id,
            self.frames()[c].buffer.wf(),
            self.frames()[c].pin_count > 0 ==> self.frames()[c].usage_count > 0,
            (self.frames()[c].buffer.is_dirty || self.frames()[c].pin_count > 0) ==> (
            self.table().contains_key(self.frames()[c].buffer.page_id.0)
                && self.table()[self.frames()[c].buffer.page_id.0] == c),
        ensures
            self.wf(),
    {
        assert forall|i: int| 0 <= i < self.frames().len() implies (
        #[trigger] self.frames()[i]).wf() by {
            assert(prior.frames()[i].wf());
        }
        assert forall|p: u64| #[trigger] self.table().contains_key(p) implies {
            &&& self.table()[p] < self.frames().len()
            &&& self.frames()[self.table()[p] as int].buffer.page_id.0 == p
            &&& p < self.disk.next_id()
        } by {
            assert(prior.table().contains_key(p));
            assert(prior.frames()[prior.table()[p] as int].buffer.page_id.0 == p);
        }
        assert forall|i: int|
            0 <= i < self.frames().len() && ((#[trigger] self.frames()[i]).buffer.is_dirty
                || self.frames()[i].pin_count > 0) implies self.table().contains_key(
            self.frames()[i].buffer.page_id.0,
        ) && self.table()[self.frames()[i].buffer.page_id.0] == i by {
            if i != c {
                assert(prior.frames()[i].buffer.is_dirty || prior.frames()[i].pin_count > 0);
            }
        }
    }

    /// Re-establishes the invariant after a step that may lower usage
    /// counts, clear dirty flags, and grow the heap file, but keeps the
    /// page table, the allocation counter, every frame's page
    /// identifier, and never dirties or pins a frame that was clean and
    /// unpinned.
    proof fn lemma_wf_rebuild(&self, prior: Self)
        requires
            prior.wf(),
            self.table() == prior.table(),
            self.disk.next_id() == prior.disk.next_id(),
            self.disk.file().len() < (self.disk.next_id() + 1) * (PAGE_SIZE as int),
            self.pool.wf(),
            self.frames().len() == prior.frames().len(),
            forall|i: int|
                0 <= i < self.frames().len() ==> {
                    &&& (#[trigger] self.frames()[i]).buffer.page_id
                        == prior.frames()[i].buffer.page_id
                    &&& ((self.frames()[i].buffer.is_dirty || self.frames()[i].pin_count > 0)
                        ==> (prior.frames()[i].buffer.is_dirty || prior.frames()[i].pin_count
                        > 0))
                },
        ensures
            self.wf(),
    {
        assert forall|p: u64| #[trigger] self.table().contains_key(p) implies {
            &&& self.table()[p] < self.frames().len()
            &&& self.frames()[self.table()[p] as int].buffer.page_id.0 == p
            &&& p < self.disk.next_id()
        } by {
            assert(prior.table().contains_key(p));
            assert(prior.frames()[prior.table()[p] as int].buffer.page_id.0 == p);
        }
        assert forall|i: int|
            0 <= i < self.frames().len() && ((#[trigger] self.frames()[i]).buffer.is_dirty
                || self.frames()[i].pin_count > 0) implies self.table().contains_key(
            self.frames()[i].buffer.page_id.0,
        ) && self.table()[self.frames()[i].buffer.page_id.0] == i by {
            assert(prior.frames()[i].buffer.is_dirty || prior.frames()[i].pin_count > 0);
        }
    }
}

/// At most one frame caches any given page: two frames entered in the
/// page table under their own page identifiers and carrying the same
/// page identifier are the same frame.
pub proof fn lemma_single_cache(m: BufferPoolManager, i: int, j: int)
    requires
        m.wf(),
        0 <= i < m.frames().len(),
        0 <= j < m.frames().len(),
        m.cached(m.frames()[i].buffer.page_id.0),
        m.frame_of(m.frames()[i].buffer.page_id.0) == i,
        m.cached(m.frames()[j].buffer.page_id.0),
        m.frame_of(m.frames()[j].buffer.page_id.0) == j,
        m.frames()[i].buffer.page_id == m.frames()[j].buffer.page_id,
    ensures
        i == j,
{
}

/// An owned copy of one page's worth of bytes.
fn copy_page(data: &Vec<u8>) -> (r: Vec<u8>)
    requires
        data.len() == PAGE_SIZE,
    ensures
        r@ == data@,
{
    let mut page: Vec<u8> = Vec::new();
    let mut k: usize = 0;
    while k < PAGE_SIZE
        invariant
            k <= PAGE_SIZE,
            data.len() == PAGE_SIZE,
            page@.len() == k,
            forall|j: int| 0 <= j < k ==> page@[j] == data@[j],
        decreases PAGE_SIZE - k,
    {
        page.push(data[k]);
        k = k + 1;
    }
    assert(page@ =~= data@);
    page
}

/// A page's worth of zero bytes.
fn zero_page() -> (r: Vec<u8>)
    ensures
        r@ == Seq::new(PAGE_SIZE as nat, |j: int| 0u8),
{
    let mut page: Vec<u8> = Vec::new();
    let mut k: usize = 0;
    while k < PAGE_SIZE
        invariant
            k <= PAGE_SIZE,
            page@.len() == k,
            forall|j: int| 0 <= j < k ==> page@[j] == 0u8,
        decreases PAGE_SIZE - k,
    {
        page.push(0u8);
        k = k + 1;
    }
    assert(page@ =~= Seq::new(PAGE_SIZE as nat, |j: int| 0u8));
    page
}

} // verus!
