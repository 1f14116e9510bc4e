//! The page cache: a fixed set of frames over the disk manager with
//! clock-sweep (second chance) replacement, pin counts, and dirty tracking.

use vstd::prelude::*;

use crate::disk::DiskManager;
use crate::error::PageCacheError;
use crate::types::{PAGE_SIZE, PageId};

verus! {

/// One buffer frame: a page-sized byte buffer plus replacement metadata.
pub struct Frame {
    /// The page bound to this frame, if any.
    pub page_id: Option<PageId>,
    /// The cached copy of the page bytes.
    pub data: Vec<u8>,
    /// The second-chance bit: set on every fetch, cleared by the sweep.
    pub reference: bool,
    /// Whether the cached bytes differ from what is on disk.
    pub dirty: bool,
    /// Number of outstanding pins; pinned frames are never evicted.
    pub pin_count: u32,
}

/// The file image after one frame's write-out: the frame's page spliced in
/// with its recomputed checksum when the frame was dirty and bound, the
/// image untouched otherwise.
pub open spec fn spec_flush_effect(file: Seq<u8>, fr: Frame) -> Seq<u8> {
    if fr.dirty && fr.page_id is Some {
        crate::byteops::splice(
            file,
            fr.page_id.unwrap() * PAGE_SIZE,
            crate::checksum::spec_with_checksum(fr.data@),
        )
    } else {
        file
    }
}

/// The frame the first clock revolution takes, scanning from step `k`:
/// the first position from the hand, modulo the frame count, that is
/// unpinned with its reference bit already clear.
pub open spec fn spec_first_pass(frames: Seq<Frame>, h: int, k: int) -> Option<int>
    decreases frames.len() - k,
{
    let n = frames.len() as int;
    if k < 0 || k >= n {
        None
    } else {
        let f = (h + k) % n;
        if frames[f].pin_count == 0 && !frames[f].reference {
            Some(f)
        } else {
            spec_first_pass(frames, h, k + 1)
        }
    }
}

/// The frame the second clock revolution takes, scanning from step `k`:
/// the first unpinned position from the hand, every reference bit having
/// been cleared on the first revolution.
pub open spec fn spec_second_pass(frames: Seq<Frame>, h: int, k: int) -> Option<int>
    decreases frames.len() - k,
{
    let n = frames.len() as int;
    if k < 0 || k >= n {
        None
    } else {
        let f = (h + k) % n;
        if frames[f].pin_count == 0 {
            Some(f)
        } else {
            spec_second_pass(frames, h, k + 1)
        }
    }
}

/// The frame a clock sweep starting at hand `h` evicts: the first unpinned
/// unreferenced frame in hand order, else -- after the first revolution has
/// cleared every unpinned frame's reference bit -- the first unpinned
/// frame, else none. This is the second-chance discipline of the cache.
pub open spec fn spec_clock_victim(frames: Seq<Frame>, h: int) -> Option<int> {
    match spec_first_pass(frames, h, 0) {
        Some(f) => Some(f),
        None => spec_second_pass(frames, h, 0),
    }
}

/// A pass that found nothing before step `k` finds from step `k` on what it
/// finds from the start.
proof fn lemma_pass_reaches(frames: Seq<Frame>, h: int, k: int, first: bool)
    requires
        0 <= k <= frames.len(),
        first ==> forall|k2: int|
            0 <= k2 < k ==> !((#[trigger] frames[(h + k2) % (frames.len() as int)]).pin_count == 0
                && !frames[(h + k2) % (frames.len() as int)].reference),
        !first ==> forall|k2: int|
            0 <= k2 < k ==> (#[trigger] frames[(h + k2) % (frames.len() as int)]).pin_count > 0,
    ensures
        first ==> spec_first_pass(frames, h, 0) == spec_first_pass(frames, h, k),
        !first ==> spec_second_pass(frames, h, 0) == spec_second_pass(frames, h, k),
    decreases k,
{
    if k > 0 {
        lemma_pass_reaches(frames, h, k - 1, first);
    }
}

/// Two distinct steps of one revolution land on distinct frames.
proof fn lemma_revolution_distinct(h: int, k1: int, k2: int, n: int)
    requires
        0 < n,
        0 <= k1 < k2 < n,
    ensures
        (h + k1) % n != (h + k2) % n,
{
    vstd::arithmetic::div_mod::lemma_fundamental_div_mod(h + k1, n);
    vstd::arithmetic::div_mod::lemma_fundamental_div_mod(h + k2, n);
    vstd::arithmetic::div_mod::lemma_mod_bound(h + k1, n);
    vstd::arithmetic::div_mod::lemma_mod_bound(h + k2, n);
    if (h + k1) % n == (h + k2) % n {
        let q1 = (h + k1) / n;
        let q2 = (h + k2) / n;
        assert(k2 - k1 == n * q2 - n * q1);
        assert(n * q2 - n * q1 == n * (q2 - q1)) by (nonlinear_arith);
        assert(n * (q2 - q1) == k2 - k1);
        assert(0 < k2 - k1 < n);
        assert(false) by (nonlinear_arith)
            requires
                n * (q2 - q1) == k2 - k1,
                0 < k2 - k1 < n,
                0 < n,
        ;
    }
}

/// Clock-sweep page cache over the disk manager.
pub struct PageCache {
    disk: DiskManager,
    frames: Vec<Frame>,
    clock_hand: usize,
}

impl PageCache {
    /// The frames of the cache.
    pub closed spec fn spec_frames(&self) -> Seq<Frame> {
        self.frames@
    }

    /// The underlying disk manager.
    pub closed spec fn spec_disk(&self) -> DiskManager {
        self.disk
    }

    /// The clock hand position.
    pub closed spec fn spec_hand(&self) -> int {
        self.clock_hand as int
    }

    /// Whether `id` is bound to some frame.
    pub open spec fn spec_resident(&self, id: PageId) -> bool {
        exists|i: int|
            0 <= i < self.spec_frames().len() && #[trigger] self.spec_frames()[i].page_id == Some(
                id,
            )
    }

    /// The cache invariant: at least one page-sized frame, the hand inside
    /// the frame array, no page bound to two frames, every bound page inside
    /// the file, and a well-formed disk manager.
    pub open spec fn wf(&self) -> bool {
        &&& 1 <= self.spec_frames().len()
        &&& self.spec_frames().len() * 2 <= usize::MAX
        &&& 0 <= self.spec_hand() < self.spec_frames().len()
        &&& self.spec_disk().wf()
        &&& forall|i: int|
            0 <= i < self.spec_frames().len() ==> (#[trigger] self.spec_frames()[i]).data@.len()
                == PAGE_SIZE
        &&& forall|i: int, j: int|
            0 <= i < self.spec_frames().len() && 0 <= j < self.spec_frames().len() && i != j
                && (#[trigger] self.spec_frames()[i]).page_id is Some
                && (#[trigger] self.spec_frames()[j]).page_id is Some
                ==> self.spec_frames()[i].page_id != self.spec_frames()[j].page_id
        &&& forall|i: int|
            0 <= i < self.spec_frames().len() && (#[trigger] self.spec_frames()[i]).page_id
                is Some ==> self.spec_frames()[i].page_id.unwrap()
                < self.spec_disk().spec_page_count()
    }

    /// Creates a cache of `frame_count` empty frames over `disk`.
    ///
    /// Fails with `InvalidFrameCount` exactly when `frame_count` is zero.
    pub fn new(disk: DiskManager, frame_count: usize) -> (r: Result<PageCache, PageCacheError>)
        requires
            disk.wf(),
            frame_count * 2 <= usize::MAX,
        ensures
            frame_count == 0 ==> r == Err::<PageCache, PageCacheError>(
                PageCacheError::InvalidFrameCount(0usize),
            ),
            frame_count > 0 ==> (r matches Ok(c) && c.wf() && c.spec_frames().len() == frame_count
                && c.spec_disk() == disk && c.spec_hand() == 0 && forall|i: int|
                0 <= i < frame_count ==> (#[trigger] c.spec_frames()[i]).page_id is None
                    && !c.spec_frames()[i].reference && !c.spec_frames()[i].dirty
                    && c.spec_frames()[i].pin_count == 0 && c.spec_frames()[i].data@ == Seq::new(
                    PAGE_SIZE as nat,
                    |k: int| 0u8,
                )),
    {
        if frame_count == 0 {
            return Err(PageCacheError::InvalidFrameCount(frame_count));
        }
        let mut frames: Vec<Frame> = Vec::new();
        let mut i: usize = 0;
        while i < frame_count
            invariant
                i <= frame_count,
                frames@.len() == i,
                forall|j: int|
                    0 <= j < i ==> (#[trigger] frames@[j]).page_id is None && !frames@[j].reference
                        && !frames@[j].dirty && frames@[j].pin_count == 0 && frames@[j].data@
                        == Seq::new(PAGE_SIZE as nat, |k: int| 0u8),
            decreases frame_count - i,
        {
            let mut data: Vec<u8> = Vec::new();
            data.resize(PAGE_SIZE, 0u8);
            proof {
                assert(data@ =~= Seq::new(PAGE_SIZE as nat, |k: int| 0u8));
            }
            frames.push(
                Frame { page_id: None, data, reference: false, dirty: false, pin_count: 0 },
            );
            i = i + 1;
        }
        Ok(PageCache { disk, frames, clock_hand: 0 })
    }

    /// Returns the number of frames.
    pub fn frame_count(&self) -> (r: usize)
        ensures
            r == self.spec_frames().len(),
    {
        self.frames.len()
    }

    /// Whether `id` is currently bound to a frame: the page-table lookup.
    pub fn contains_page(&self, id: PageId) -> (r: bool)
        ensures
            r == self.spec_resident(id),
    {
        match self.find_frame(id) {
            Some(_) => true,
            None => false,
        }
    }

    /// A borrowed view of one frame.
    pub fn frame(&self, frame_id: usize) -> (r: &Frame)
        requires
            frame_id < self.spec_frames().len(),
        ensures
            r == self.spec_frames()[frame_id as int],
    {
        &self.frames[frame_id]
    }

    /// Consumes the cache, handing back its disk manager.
    pub fn into_disk(self) -> (r: DiskManager)
        ensures
            r == self.spec_disk(),
    {
        self.disk
    }

    /// Finds the frame bound to `id`, if any.
    fn find_frame(&self, id: PageId) -> (r: Option<usize>)
        ensures
            match r {
                Some(fi) => fi < self.spec_frames().len() && self.spec_frames()[fi as int].page_id
                    == Some(id),
                None => !self.spec_resident(id),
            },
    {
        let n = self.frames.len();
        let mut i: usize = 0;
        while i < n
            invariant
                n == self.spec_frames().len(),
                i <= n,
                forall|j: int| 0 <= j < i ==> #[trigger] self.spec_frames()[j].page_id != Some(id),
            decreases n - i,
        {
            match self.frames[i].page_id {
                Some(pid) => {
                    if pid == id {
                        return Some(i);
                    }
                },
                None => {},
            }
            i = i + 1;
        }
        None
    }

    /// Selects a victim frame by a clock sweep of up to two revolutions:
    /// pinned frames are skipped, referenced frames lose their bit and get
    /// a second chance, and the first unpinned unreferenced frame wins.
    ///
    /// Only reference bits and the hand change; every frame keeps its
    /// page, pins, bytes, and dirty state. The result is exactly
    /// [`spec_clock_victim`] of the entry state: the second-chance
    /// discipline, `None` exactly when every frame is pinned. The hand
    /// stops one past the victim; a sweep that found none leaves it where
    /// it started, having made exactly two revolutions.
    fn select_victim_frame(&mut self) -> (r: Option<usize>)
        requires
            old(self).wf(),
        ensures
            final(self).wf(),
            final(self).spec_disk() == old(self).spec_disk(),
            final(self).spec_frames().len() == old(self).spec_frames().len(),
            r matches Some(fi) ==> final(self).spec_hand() == (fi + 1) % (
            old(self).spec_frames().len() as int),
            r is None ==> final(self).spec_hand() == old(self).spec_hand(),
            forall|i: int|
                0 <= i < old(self).spec_frames().len() ==> (#[trigger] final(self).spec_frames()[i]).page_id == old(self).spec_frames()[i].page_id && final(self).spec_frames()[i].pin_count == old(self).spec_frames()[i].pin_count && final(self).spec_frames()[i].data == old(self).spec_frames()[i].data && final(self).spec_frames()[i].dirty == old(self).spec_frames()[i].dirty,
            match r {
                Some(fi) => Some(fi as int) == spec_clock_victim(
                    old(self).spec_frames(),
                    old(self).spec_hand(),
                ) && fi < final(self).spec_frames().len() && final(self).spec_frames()[fi as int].pin_count == 0 && !final(self).spec_frames()[fi as int].reference,
                None => spec_clock_victim(old(self).spec_frames(), old(self).spec_hand()) is None
                    && forall|i: int|
                    0 <= i < old(self).spec_frames().len() ==> (#[trigger] old(self).spec_frames()[i]).pin_count > 0,
            },
    {
        let n = self.frames.len();
        let ghost start = self.spec_hand();
        let ghost orig = old(self).spec_frames();
        proof {
            vstd::arithmetic::div_mod::lemma_small_mod(start as nat, n as nat);
        }
        let max_scans = n * 2;
        let mut scan: usize = 0;
        while scan < max_scans
            invariant
                self.wf(),
                n == self.spec_frames().len(),
                n == orig.len(),
                orig == old(self).spec_frames(),
                scan <= max_scans,
                max_scans == 2 * n,
                0 <= start < n,
                start == old(self).spec_hand(),
                self.spec_hand() == (start + scan) % (n as int),
                self.spec_disk() == old(self).spec_disk(),
                forall|i: int|
                    0 <= i < n ==> (#[trigger] self.spec_frames()[i]).page_id == orig[i].page_id && self.spec_frames()[i].pin_count == orig[i].pin_count && self.spec_frames()[i].data == orig[i].data && self.spec_frames()[i].dirty == orig[i].dirty,
                // reference bits ahead of the first revolution are untouched
                forall|k: int|
                    scan <= k < n ==> (#[trigger] self.spec_frames()[(start + k) % (n as int)]).reference == orig[(start + k) % (n as int)].reference,
                // every frame the sweep has visited is pinned or has had its
                // reference bit cleared
                forall|k: int|
                    0 <= k < scan ==> self.spec_frames()[(start + k) % (n as int)].pin_count > 0
                        || !(#[trigger] self.spec_frames()[(start + k) % (n as int)]).reference,
                // the first revolution found nothing at its visited steps
                forall|k: int|
                    0 <= k < scan && k < n ==> !((#[trigger] orig[(start + k) % (n as int)]).pin_count == 0 && !orig[(start + k) % (n as int)].reference),
                // a frame visited a second time was pinned, else the sweep
                // would have ended there
                forall|k: int|
                    n <= k < scan ==> (#[trigger] self.spec_frames()[(start + k) % (n as int)]).pin_count > 0,
            decreases max_scans - scan,
        {
            let frame_id = self.clock_hand;
            proof {
                lemma_mod_shift(start, scan as int, n as int);
                if scan >= n {
                    lemma_mod_wraparound(start, scan as int, n as int);
                }
            }
            self.clock_hand = (self.clock_hand + 1) % n;
            if self.frames[frame_id].pin_count > 0 {
                scan = scan + 1;
                continue ;
            }
            if self.frames[frame_id].reference {
                proof {
                    if scan >= n {
                        assert(self.spec_frames()[(start + (scan - n)) % (n as int)].pin_count > 0
                            || !self.spec_frames()[(start + (scan - n)) % (n as int)].reference);
                        assert(false);
                    }
                }
                let data = &mut self.frames[frame_id];
                data.reference = false;
                scan = scan + 1;
                proof {
                    assert forall|k: int|
                        scan <= k < n implies (#[trigger] self.spec_frames()[(start + k) % (
                    n as int)]).reference == orig[(start + k) % (n as int)].reference by {
                        lemma_revolution_distinct(start, scan as int - 1, k, n as int);
                    }
                }
                continue ;
            }
            proof {
                let ghost f = (start + scan) % (n as int);
                if scan < n {
                    assert(!orig[f].reference);
                    lemma_pass_reaches(orig, start, scan as int, true);
                    assert(spec_first_pass(orig, start, scan as int) == Some(f));
                } else {
                    lemma_pass_reaches(orig, start, n as int, true);
                    assert(spec_first_pass(orig, start, 0) is None);
                    assert forall|k2: int| 0 <= k2 < scan - n implies (#[trigger] orig[(start
                        + k2) % (n as int)]).pin_count > 0 by {
                        lemma_mod_wraparound(start, (n + k2) as int, n as int);
                        assert(self.spec_frames()[(start + (n + k2)) % (n as int)].pin_count > 0);
                    }
                    lemma_pass_reaches(orig, start, scan as int - n, false);
                    lemma_mod_wraparound(start, scan as int, n as int);
                    assert(spec_second_pass(orig, start, scan as int - n) == Some(f));
                }
            }
            return Some(frame_id);
        }
        proof {
            lemma_pass_reaches(orig, start, n as int, true);
            assert(spec_first_pass(orig, start, 0) is None);
            assert forall|k2: int| 0 <= k2 < n implies (#[trigger] orig[(start + k2) % (
            n as int)]).pin_count > 0 by {
                lemma_mod_wraparound(start, (n + k2) as int, n as int);
                assert(self.spec_frames()[(start + (n + k2)) % (n as int)].pin_count > 0);
            }
            lemma_pass_reaches(orig, start, n as int, false);
            assert(spec_second_pass(orig, start, 0) is None);
            assert forall|i: int| 0 <= i < n implies (#[trigger] orig[i]).pin_count > 0 by {
                let k = (n as int) + (i - start) % (n as int);
                lemma_mod_cover(start, i, n as int);
                assert(self.spec_frames()[(start + k) % (n as int)].pin_count > 0);
            }
            // two full revolutions leave the hand where it started
            lemma_mod_wraparound(start, 2 * (n as int), n as int);
            lemma_mod_wraparound(start, n as int, n as int);
            vstd::arithmetic::div_mod::lemma_small_mod(start as nat, n as nat);
        }
        None
    }

    /// Writes the frame's bytes out if it is dirty and bound to a page, then
    /// clears the dirty bit. A clean or unbound frame is left alone.
    fn flush_frame_if_dirty(&mut self, frame_id: usize) -> (r: Result<(), PageCacheError>)
        requires
            old(self).wf(),
            frame_id < old(self).spec_frames().len(),
        ensures
            final(self).wf(),
            r == Ok::<(), PageCacheError>(()),
            final(self).spec_hand() == old(self).spec_hand(),
            final(self).spec_frames().len() == old(self).spec_frames().len(),
            forall|i: int|
                0 <= i < old(self).spec_frames().len() && i != frame_id ==> final(self).spec_frames()[i] == old(self).spec_frames()[i],
            ({
                let fr = old(self).spec_frames()[frame_id as int];
                if fr.dirty && (fr.page_id is Some) {
                    &&& final(self).spec_frames()[frame_id as int].page_id == fr.page_id
                    &&& final(self).spec_frames()[frame_id as int].data == fr.data
                    &&& final(self).spec_frames()[frame_id as int].pin_count == fr.pin_count
                    &&& final(self).spec_frames()[frame_id as int].reference == fr.reference
                    &&& final(self).spec_frames()[frame_id as int].dirty == false
                    &&& final(self).spec_disk().spec_page_count() == old(self).spec_disk().spec_page_count()
                    &&& final(self).spec_disk().spec_file() == crate::byteops::splice(
                        old(self).spec_disk().spec_file(),
                        fr.page_id.unwrap() * PAGE_SIZE,
                        crate::checksum::spec_with_checksum(fr.data@),
                    )
                } else {
                    *final(self) == *old(self)
                }
            }),
    {
        if !self.frames[frame_id].dirty {
            return Ok(());
        }
        let page_id = match self.frames[frame_id].page_id {
            Some(id) => id,
            None => {
                return Ok(());
            },
        };
        match self.disk.write_page(page_id, &self.frames[frame_id].data) {
            Ok(()) => {},
            Err(_) => {
                proof {
                    assert(false);
                }
            },
        }
        let fr = &mut self.frames[frame_id];
        fr.dirty = false;
        Ok(())
    }

    /// Fetches `id` into a frame and pins it, returning the frame index.
    ///
    /// A resident page is pinned where it is, gaining its reference bit;
    /// that case never fails and leaves the clock hand alone. A missing
    /// page takes the clock victim's frame: the victim is written out if
    /// dirty, the requested page is read from disk, the frame is installed
    /// with one pin, and the hand stops one past the victim. The fetch
    /// fails with `NoEvictableFrame` exactly when the page is absent and
    /// every frame is pinned, the hand then back where it started; a bad
    /// page id or checksum surfaces as `Storage`, the disk then changed
    /// only by a completed victim write-out.
    pub fn fetch_page(&mut self, id: PageId) -> (r: Result<usize, PageCacheError>)
        requires
            old(self).wf(),
            forall|i: int|
                0 <= i < old(self).spec_frames().len() ==> (#[trigger] old(self).spec_frames()[i]).pin_count < u32::MAX,
        ensures
            final(self).wf(),
            final(self).spec_frames().len() == old(self).spec_frames().len(),
            match r {
                Ok(fi) => {
                    &&& fi < final(self).spec_frames().len()
                    &&& final(self).spec_frames()[fi as int].page_id == Some(id)
                    &&& final(self).spec_frames()[fi as int].reference == true
                    &&& (if old(self).spec_resident(id) {
                        &&& final(self).spec_frames()[fi as int].data == old(self).spec_frames()[fi as int].data
                        &&& old(self).spec_frames()[fi as int].page_id == Some(id)
                        &&& final(self).spec_frames()[fi as int].pin_count == old(self).spec_frames()[fi as int].pin_count + 1
                        &&& final(self).spec_disk() == old(self).spec_disk()
                        &&& final(self).spec_hand() == old(self).spec_hand()
                        &&& forall|j: int|
                            0 <= j < old(self).spec_frames().len() && j != fi ==> final(self).spec_frames()[j] == old(self).spec_frames()[j]
                    } else {
                        &&& Some(fi as int) == spec_clock_victim(
                            old(self).spec_frames(),
                            old(self).spec_hand(),
                        )
                        &&& final(self).spec_hand() == (fi + 1) % (
                        old(self).spec_frames().len() as int)
                        &&& old(self).spec_frames()[fi as int].pin_count == 0
                        &&& final(self).spec_frames()[fi as int].pin_count == 1
                        &&& final(self).spec_frames()[fi as int].dirty == false
                        &&& final(self).spec_frames()[fi as int].data@ == crate::disk::spec_page_of(
                            final(self).spec_disk().spec_file(),
                            id,
                        )
                        &&& id < final(self).spec_disk().spec_page_count()
                        &&& forall|j: int|
                            0 <= j < old(self).spec_frames().len() && j != fi ==> (#[trigger] final(self).spec_frames()[j]).page_id == old(self).spec_frames()[j].page_id
                                && final(self).spec_frames()[j].pin_count == old(self).spec_frames()[j].pin_count && final(self).spec_frames()[j].data
                                == old(self).spec_frames()[j].data && final(self).spec_frames()[j].dirty == old(self).spec_frames()[j].dirty
                        &&& final(self).spec_disk().spec_file() == spec_flush_effect(
                            old(self).spec_disk().spec_file(),
                            old(self).spec_frames()[fi as int],
                        )
                        &&& final(self).spec_disk().spec_page_count() == old(self).spec_disk().spec_page_count()
                        &&& (old(self).spec_frames()[fi as int].page_id matches Some(v)
                            ==> !final(self).spec_resident(v))
                    })
                },
                Err(e) => {
                    &&& (e == PageCacheError::NoEvictableFrame || e matches PageCacheError::Storage(
                        _,
                    ))
                    &&& forall|j: int|
                        0 <= j < old(self).spec_frames().len() ==> (#[trigger] final(self).spec_frames()[j]).page_id == old(self).spec_frames()[j].page_id && final(self).spec_frames()[j].pin_count == old(self).spec_frames()[j].pin_count
                            && final(self).spec_frames()[j].data == old(self).spec_frames()[j].data
                    &&& !old(self).spec_resident(id) ==> (e == PageCacheError::NoEvictableFrame
                        || id >= old(self).spec_disk().spec_page_count()
                        || !crate::checksum::spec_checksum_ok(
                        crate::disk::spec_page_of(old(self).spec_disk().spec_file(), id),
                    ))
                    &&& e == PageCacheError::NoEvictableFrame ==> final(self).spec_disk() == old(self).spec_disk() && final(self).spec_hand() == old(self).spec_hand() && (forall|j: int|
                        0 <= j < old(self).spec_frames().len() ==> (#[trigger] old(self).spec_frames()[j]).pin_count > 0)
                    &&& (e matches PageCacheError::Storage(_)) ==> exists|fi: int|
                        0 <= fi < old(self).spec_frames().len() && (#[trigger] old(self).spec_frames()[fi]).pin_count == 0 && final(self).spec_disk().spec_file() == spec_flush_effect(
                            old(self).spec_disk().spec_file(),
                            old(self).spec_frames()[fi],
                        ) && final(self).spec_disk().spec_page_count() == old(self).spec_disk().spec_page_count() && final(self).spec_hand() == (fi + 1) % (
                        old(self).spec_frames().len() as int)
                },
            },
            // a resident page is pinned where it is, never refused
            old(self).spec_resident(id) ==> r is Ok,
            // an absent page with every frame pinned is refused, exactly so
            !old(self).spec_resident(id) && (forall|j: int|
                0 <= j < old(self).spec_frames().len() ==> (#[trigger] old(self).spec_frames()[j]).pin_count > 0) ==> r == Err::<usize, PageCacheError>(
                PageCacheError::NoEvictableFrame,
            ),
            // pinned frames keep their binding on every outcome
            forall|j: int|
                0 <= j < old(self).spec_frames().len() && (#[trigger] old(self).spec_frames()[j]).pin_count > 0 ==> final(self).spec_frames()[j].page_id == old(self).spec_frames()[j].page_id && final(self).spec_frames()[j].pin_count >= old(self).spec_frames()[j].pin_count,
    {
        match self.find_frame(id) {
            Some(fi) => {
                let fr = &mut self.frames[fi];
                fr.reference = true;
                fr.pin_count = fr.pin_count + 1;
                return Ok(fi);
            },
            None => {},
        }
        let frame_id = match self.select_victim_frame() {
            Some(fi) => fi,
            None => {
                return Err(PageCacheError::NoEvictableFrame);
            },
        };
        let ghost mid = *self;
        let r = self.replace_frame(frame_id, id);
        proof {
            // the sweep only touched reference bits, so the write-out the
            // replacement performed is the one the entry state describes
            assert(spec_flush_effect(
                mid.spec_disk().spec_file(),
                mid.spec_frames()[frame_id as int],
            ) == spec_flush_effect(
                old(self).spec_disk().spec_file(),
                old(self).spec_frames()[frame_id as int],
            ));
            assert forall|j: int|
                0 <= j < old(self).spec_frames().len() && j != frame_id implies (#[trigger] self.spec_frames()[j]).dirty == old(self).spec_frames()[j].dirty && self.spec_frames()[j].page_id == old(self).spec_frames()[j].page_id && self.spec_frames()[j].pin_count == old(self).spec_frames()[j].pin_count && self.spec_frames()[j].data == old(self).spec_frames()[j].data by {
                assert(mid.spec_frames()[j].dirty == old(self).spec_frames()[j].dirty);
                assert(self.spec_frames()[j] == mid.spec_frames()[j]);
            }
        }
        r
    }

    /// Installs `new_page_id` into `frame_id`: writes the old occupant out
    /// if dirty, reads the page from disk, and binds it with one pin.
    fn replace_frame(&mut self, frame_id: usize, new_page_id: PageId) -> (r: Result<
        usize,
        PageCacheError,
    >)
        requires
            old(self).wf(),
            frame_id < old(self).spec_frames().len(),
            old(self).spec_frames()[frame_id as int].pin_count == 0,
            !old(self).spec_resident(new_page_id),
        ensures
            final(self).wf(),
            final(self).spec_frames().len() == old(self).spec_frames().len(),
            final(self).spec_hand() == old(self).spec_hand(),
            forall|j: int|
                0 <= j < old(self).spec_frames().len() && j != frame_id ==> (#[trigger] final(self).spec_frames()[j]).page_id == old(self).spec_frames()[j].page_id && final(self).spec_frames()[j].pin_count == old(self).spec_frames()[j].pin_count && final(self).spec_frames()[j].data == old(self).spec_frames()[j].data && final(self).spec_frames()[j].reference == old(self).spec_frames()[j].reference && final(self).spec_frames()[j].dirty == old(self).spec_frames()[j].dirty,
            match r {
                Ok(fi) => {
                    &&& fi == frame_id
                    &&& final(self).spec_frames()[fi as int].page_id == Some(new_page_id)
                    &&& final(self).spec_frames()[fi as int].reference == true
                    &&& final(self).spec_frames()[fi as int].dirty == false
                    &&& final(self).spec_frames()[fi as int].pin_count == 1
                    &&& final(self).spec_frames()[fi as int].data@ == crate::disk::spec_page_of(
                        final(self).spec_disk().spec_file(),
                        new_page_id,
                    )
                    &&& new_page_id < final(self).spec_disk().spec_page_count()
                },
                Err(e) => {
                    &&& e matches PageCacheError::Storage(_)
                    &&& final(self).spec_frames()[frame_id as int].page_id == old(self).spec_frames()[frame_id as int].page_id
                    &&& final(self).spec_frames()[frame_id as int].pin_count == old(self).spec_frames()[frame_id as int].pin_count
                    &&& final(self).spec_frames()[frame_id as int].data == old(self).spec_frames()[frame_id as int].data
                    &&& new_page_id >= old(self).spec_disk().spec_page_count()
                        || !crate::checksum::spec_checksum_ok(
                        crate::disk::spec_page_of(old(self).spec_disk().spec_file(), new_page_id),
                    )
                },
            },
            final(self).spec_disk().spec_page_count() == old(self).spec_disk().spec_page_count(),
            final(self).spec_disk().spec_file() == spec_flush_effect(
                old(self).spec_disk().spec_file(),
                old(self).spec_frames()[frame_id as int],
            ),
            r is Ok ==> (old(self).spec_frames()[frame_id as int].page_id matches Some(v)
                ==> !final(self).spec_resident(v)),
    {
        match self.flush_frame_if_dirty(frame_id) {
            Ok(()) => {},
            Err(e) => {
                return Err(e);
            },
        }
        proof {
            let ofr = old(self).spec_frames()[frame_id as int];
            if ofr.dirty && (ofr.page_id is Some) && new_page_id
                < old(self).spec_disk().spec_page_count() {
                crate::disk::lemma_write_preserves_other_pages(
                    old(self).spec_disk().spec_file(),
                    old(self).spec_disk().spec_page_count(),
                    ofr.page_id.unwrap(),
                    new_page_id,
                    ofr.data@,
                );
            }
        }
        let data = match self.disk.read_page(new_page_id) {
            Ok(data) => data,
            Err(e) => {
                return Err(PageCacheError::Storage(e));
            },
        };
        self.frames[frame_id] = Frame {
            page_id: Some(new_page_id),
            data,
            reference: true,
            dirty: false,
            pin_count: 1,
        };
        proof {
            // the evicted page loses its only frame: no other frame held it
            match old(self).spec_frames()[frame_id as int].page_id {
                Some(v) => {
                    assert(v != new_page_id);
                    assert forall|j: int|
                        0 <= j < self.spec_frames().len() implies #[trigger] self.spec_frames()[j].page_id != Some(v) by {
                        if j != frame_id {
                            assert(old(self).spec_frames()[j].page_id != Some(v));
                        }
                    }
                },
                None => {},
            }
        }
        Ok(frame_id)
    }

    /// Releases one pin on a frame. Every pin taken by a fetch must be
    /// released exactly once; the count decrements by exactly one.
    pub fn release(&mut self, frame_id: usize)
        requires
            frame_id < old(self).spec_frames().len(),
            old(self).spec_frames()[frame_id as int].pin_count > 0,
        ensures
            final(self).spec_frames().len() == old(self).spec_frames().len(),
            final(self).spec_frames()[frame_id as int].pin_count == old(self).spec_frames()[frame_id as int].pin_count - 1,
            final(self).spec_frames()[frame_id as int].page_id == old(self).spec_frames()[frame_id as int].page_id,
            final(self).spec_frames()[frame_id as int].data == old(self).spec_frames()[frame_id as int].data,
            final(self).spec_frames()[frame_id as int].dirty == old(self).spec_frames()[frame_id as int].dirty,
            final(self).spec_frames()[frame_id as int].reference == old(self).spec_frames()[frame_id as int].reference,
            forall|j: int|
                0 <= j < old(self).spec_frames().len() && j != frame_id ==> final(self).spec_frames()[j] == old(self).spec_frames()[j],
            final(self).spec_disk() == old(self).spec_disk(),
            final(self).spec_hand() == old(self).spec_hand(),
            old(self).wf() ==> final(self).wf(),
    {
        let fr = &mut self.frames[frame_id];
        fr.pin_count = fr.pin_count - 1;
    }

    /// Returns an immutable view of a pinned frame's page bytes.
    pub fn page(&self, frame_id: usize) -> (r: &Vec<u8>)
        requires
            frame_id < self.spec_frames().len(),
        ensures
            r == self.spec_frames()[frame_id as int].data,
    {
        &self.frames[frame_id].data
    }

    /// Replaces a frame's page bytes and marks it dirty: the mutable page
    /// view of a pinned frame.
    pub fn write_frame(&mut self, frame_id: usize, data: Vec<u8>)
        requires
            frame_id < old(self).spec_frames().len(),
            data@.len() == PAGE_SIZE,
        ensures
            final(self).spec_frames().len() == old(self).spec_frames().len(),
            final(self).spec_frames()[frame_id as int].data == data,
            final(self).spec_frames()[frame_id as int].dirty == true,
            final(self).spec_frames()[frame_id as int].page_id == old(self).spec_frames()[frame_id as int].page_id,
            final(self).spec_frames()[frame_id as int].pin_count == old(self).spec_frames()[frame_id as int].pin_count,
            final(self).spec_frames()[frame_id as int].reference == old(self).spec_frames()[frame_id as int].reference,
            forall|j: int|
                0 <= j < old(self).spec_frames().len() && j != frame_id ==> final(self).spec_frames()[j] == old(self).spec_frames()[j],
            final(self).spec_disk() == old(self).spec_disk(),
            old(self).wf() ==> final(self).wf(),
    {
        let fr = &mut self.frames[frame_id];
        fr.data = data;
        fr.dirty = true;
    }

    /// Allocates a fresh page on disk and installs it in a frame, pinned.
    ///
    /// The victim is selected first so that a full cache fails fast with
    /// `NoEvictableFrame` -- exactly when every frame is pinned -- leaving
    /// the disk file and page count untouched. Otherwise the file grows by
    /// one zeroed, checksummed page, the header page is rewritten, the
    /// dirty victim (if any) is written out, and the frame is installed
    /// `{page_id, reference: true, dirty: false, pin_count: 1}` holding the
    /// zero page, the hand one past the victim.
    pub fn new_page(&mut self) -> (r: Result<(PageId, usize), PageCacheError>)
        requires
            old(self).wf(),
            old(self).spec_disk().spec_page_count() * PAGE_SIZE + PAGE_SIZE <= usize::MAX,
        ensures
            final(self).wf(),
            final(self).spec_frames().len() == old(self).spec_frames().len(),
            r is Err <==> (forall|j: int|
                0 <= j < old(self).spec_frames().len() ==> (#[trigger] old(self).spec_frames()[j]).pin_count > 0),
            match r {
                Ok((id, fi)) => {
                    &&& id == old(self).spec_disk().spec_page_count()
                    &&& final(self).spec_disk().spec_page_count() == old(self).spec_disk().spec_page_count() + 1
                    &&& fi < final(self).spec_frames().len()
                    &&& Some(fi as int) == spec_clock_victim(
                        old(self).spec_frames(),
                        old(self).spec_hand(),
                    )
                    &&& final(self).spec_hand() == (fi + 1) % (
                    old(self).spec_frames().len() as int)
                    &&& old(self).spec_frames()[fi as int].pin_count == 0
                    &&& final(self).spec_frames()[fi as int].page_id == Some(id)
                    &&& final(self).spec_frames()[fi as int].reference == true
                    &&& final(self).spec_frames()[fi as int].dirty == false
                    &&& final(self).spec_frames()[fi as int].pin_count == 1
                    &&& final(self).spec_frames()[fi as int].data@ == crate::disk::spec_fresh_page()
                    &&& final(self).spec_frames()[fi as int].data@ == crate::disk::spec_page_of(
                        final(self).spec_disk().spec_file(),
                        id,
                    )
                    &&& (old(self).spec_frames()[fi as int].page_id matches Some(v)
                        ==> !final(self).spec_resident(v))
                    &&& forall|j: int|
                        0 <= j < old(self).spec_frames().len() && j != fi ==> (#[trigger] final(self).spec_frames()[j]).page_id == old(self).spec_frames()[j].page_id
                            && final(self).spec_frames()[j].pin_count == old(self).spec_frames()[j].pin_count && final(self).spec_frames()[j].data
                            == old(self).spec_frames()[j].data && final(self).spec_frames()[j].dirty == old(self).spec_frames()[j].dirty
                    &&& final(self).spec_disk().spec_file() == spec_flush_effect(
                        crate::byteops::splice(
                            old(self).spec_disk().spec_file() + crate::disk::spec_fresh_page(),
                            0,
                            crate::header::spec_header_page(
                                crate::header::DatabaseHeader {
                                    page_size: PAGE_SIZE as u16,
                                    page_count: (old(self).spec_disk().spec_page_count()
                                        + 1) as u64,
                                },
                            ),
                        ),
                        old(self).spec_frames()[fi as int],
                    )
                },
                Err(e) => {
                    &&& e == PageCacheError::NoEvictableFrame
                    &&& final(self).spec_disk() == old(self).spec_disk()
                    &&& final(self).spec_hand() == old(self).spec_hand()
                    &&& forall|j: int|
                        0 <= j < old(self).spec_frames().len() ==> (#[trigger] final(self).spec_frames()[j]).page_id == old(self).spec_frames()[j].page_id
                            && final(self).spec_frames()[j].pin_count == old(self).spec_frames()[j].pin_count && final(self).spec_frames()[j].data
                            == old(self).spec_frames()[j].data && final(self).spec_frames()[j].dirty == old(self).spec_frames()[j].dirty
                },
            },
    {
        let frame_id = match self.select_victim_frame() {
            Some(fi) => fi,
            None => {
                return Err(PageCacheError::NoEvictableFrame);
            },
        };
        let page_id = match self.disk.new_page() {
            Ok(id) => id,
            Err(e) => {
                return Err(PageCacheError::Storage(e));
            },
        };
        proof {
            crate::disk::lemma_fresh_page_readable(
                old(self).spec_disk().spec_file(),
                old(self).spec_disk().spec_page_count(),
            );
            assert(!self.spec_resident(page_id));
        }
        match self.replace_frame(frame_id, page_id) {
            Ok(fi) => Ok((page_id, fi)),
            Err(e) => Err(e),
        }
    }

    /// Flushes one page: a no-op when the page is not resident, an error
    /// when it is pinned, otherwise its frame is written out if dirty.
    pub fn flush_page(&mut self, id: PageId) -> (r: Result<(), PageCacheError>)
        requires
            old(self).wf(),
        ensures
            final(self).wf(),
            !old(self).spec_resident(id) ==> r == Ok::<(), PageCacheError>(()) && *final(self)
                == *old(self),
            forall|i: int|
                0 <= i < old(self).spec_frames().len() && old(self).spec_frames()[i].page_id
                    == Some(id) && (#[trigger] old(self).spec_frames()[i]).pin_count > 0 ==> r
                    == Err::<(), PageCacheError>(PageCacheError::PinnedPage(id)) && *final(self)
                    == *old(self),
            forall|i: int|
                0 <= i < old(self).spec_frames().len() && old(self).spec_frames()[i].page_id
                    == Some(id) && (#[trigger] old(self).spec_frames()[i]).pin_count == 0
                    && !old(self).spec_frames()[i].dirty ==> r == Ok::<(), PageCacheError>(())
                    && *final(self) == *old(self),
            forall|i: int|
                0 <= i < old(self).spec_frames().len() && old(self).spec_frames()[i].page_id
                    == Some(id) && (#[trigger] old(self).spec_frames()[i]).pin_count == 0
                    && old(self).spec_frames()[i].dirty ==> r == Ok::<(), PageCacheError>(())
                    && !final(self).spec_frames()[i].dirty && final(self).spec_frames()[i].page_id
                    == Some(id) && final(self).spec_frames()[i].data == old(self).spec_frames()[i].data && final(self).spec_frames()[i].pin_count == 0 && final(self).spec_frames()[i].reference == old(self).spec_frames()[i].reference && (forall|j: int|
                    0 <= j < old(self).spec_frames().len() && j != i ==> final(self).spec_frames()[j] == old(self).spec_frames()[j]) && final(self).spec_hand() == old(self).spec_hand() && final(self).spec_disk().spec_page_count() == old(self).spec_disk().spec_page_count() && final(self).spec_disk().spec_file()
                    == crate::byteops::splice(
                    old(self).spec_disk().spec_file(),
                    id * PAGE_SIZE,
                    crate::checksum::spec_with_checksum(old(self).spec_frames()[i].data@),
                ),
    {
        let frame_id = match self.find_frame(id) {
            Some(fi) => fi,
            None => {
                return Ok(());
            },
        };
        if self.frames[frame_id].pin_count > 0 {
            return Err(PageCacheError::PinnedPage(id));
        }
        self.flush_frame_if_dirty(frame_id)
    }

    /// Flushes every dirty bound frame; fails with `PinnedPage` at the
    /// first dirty frame that is pinned. Succeeds exactly when no dirty
    /// bound frame is pinned, and then every dirty frame's bytes have
    /// reached the disk image and its dirty bit is clear; pages of clean
    /// frames keep their on-disk bytes.
    pub fn flush_all(&mut self) -> (r: Result<(), PageCacheError>)
        requires
            old(self).wf(),
        ensures
            final(self).wf(),
            final(self).spec_hand() == old(self).spec_hand(),
            final(self).spec_disk().spec_page_count() == old(self).spec_disk().spec_page_count(),
            forall|j: int|
                0 <= j < old(self).spec_frames().len() ==> (#[trigger] final(self).spec_frames()[j]).page_id == old(self).spec_frames()[j].page_id && final(self).spec_frames()[j].pin_count == old(self).spec_frames()[j].pin_count && final(self).spec_frames()[j].data == old(self).spec_frames()[j].data && final(self).spec_frames()[j].reference == old(self).spec_frames()[j].reference,
            (forall|i: int|
                0 <= i < old(self).spec_frames().len() && (#[trigger] old(self).spec_frames()[i]).dirty && old(self).spec_frames()[i].page_id is Some ==> old(self).spec_frames()[i].pin_count == 0) ==> r == Ok::<(), PageCacheError>(()),
            r is Ok ==> forall|i: int|
                0 <= i < final(self).spec_frames().len() ==> !(#[trigger] final(self).spec_frames()[i]).dirty || final(self).spec_frames()[i].page_id is None,
            r is Ok ==> forall|i: int|
                0 <= i < old(self).spec_frames().len() && (#[trigger] old(self).spec_frames()[i]).dirty && old(self).spec_frames()[i].page_id is Some ==> crate::disk::spec_page_of(
                    final(self).spec_disk().spec_file(),
                    old(self).spec_frames()[i].page_id.unwrap(),
                ) == crate::checksum::spec_with_checksum(old(self).spec_frames()[i].data@),
            forall|i: int|
                0 <= i < old(self).spec_frames().len() && !(#[trigger] old(self).spec_frames()[i]).dirty && old(self).spec_frames()[i].page_id is Some ==> crate::disk::spec_page_of(
                    final(self).spec_disk().spec_file(),
                    old(self).spec_frames()[i].page_id.unwrap(),
                ) == crate::disk::spec_page_of(
                    old(self).spec_disk().spec_file(),
                    old(self).spec_frames()[i].page_id.unwrap(),
                ),
            // the failure is at the first dirty bound pinned frame: every
            // dirty bound frame before it was unpinned and is already
            // flushed (its bytes on disk, its dirty bit clear), and no
            // frame from it on has been touched
            r matches Err(e) ==> exists|i: int|
                {
                    &&& 0 <= i < old(self).spec_frames().len()
                    &&& (#[trigger] old(self).spec_frames()[i]).dirty
                    &&& old(self).spec_frames()[i].page_id is Some
                    &&& old(self).spec_frames()[i].pin_count > 0
                    &&& e == PageCacheError::PinnedPage(
                        old(self).spec_frames()[i].page_id.unwrap(),
                    )
                    &&& forall|j: int|
                        0 <= j < i && (#[trigger] old(self).spec_frames()[j]).dirty && old(self).spec_frames()[j].page_id is Some ==> old(self).spec_frames()[j].pin_count == 0
                            && !final(self).spec_frames()[j].dirty && crate::disk::spec_page_of(
                            final(self).spec_disk().spec_file(),
                            old(self).spec_frames()[j].page_id.unwrap(),
                        ) == crate::checksum::spec_with_checksum(old(self).spec_frames()[j].data@)
                    &&& forall|j: int|
                        i <= j < old(self).spec_frames().len() ==> (#[trigger] final(self).spec_frames()[j]).dirty == old(self).spec_frames()[j].dirty
                    &&& forall|j: int|
                        0 <= j < old(self).spec_frames().len() && (#[trigger] old(self).spec_frames()[j]).page_id is Some && (j >= i || !old(self).spec_frames()[j].dirty) ==> crate::disk::spec_page_of(
                            final(self).spec_disk().spec_file(),
                            old(self).spec_frames()[j].page_id.unwrap(),
                        ) == crate::disk::spec_page_of(
                            old(self).spec_disk().spec_file(),
                            old(self).spec_frames()[j].page_id.unwrap(),
                        )
                },
            // a pinned frame's page is never written, whatever the outcome
            forall|j: int|
                0 <= j < old(self).spec_frames().len() && (#[trigger] old(self).spec_frames()[j]).pin_count > 0 && old(self).spec_frames()[j].page_id is Some ==> crate::disk::spec_page_of(
                    final(self).spec_disk().spec_file(),
                    old(self).spec_frames()[j].page_id.unwrap(),
                ) == crate::disk::spec_page_of(
                    old(self).spec_disk().spec_file(),
                    old(self).spec_frames()[j].page_id.unwrap(),
                ),
    {
        let n = self.frames.len();
        let mut i: usize = 0;
        while i < n
            invariant
                self.wf(),
                n == self.spec_frames().len() == old(self).spec_frames().len(),
                i <= n,
                self.spec_hand() == old(self).spec_hand(),
                self.spec_disk().spec_page_count() == old(self).spec_disk().spec_page_count(),
                forall|j: int|
                    0 <= j < n ==> (#[trigger] self.spec_frames()[j]).page_id == old(self).spec_frames()[j].page_id && self.spec_frames()[j].pin_count == old(self).spec_frames()[j].pin_count && self.spec_frames()[j].data == old(self).spec_frames()[j].data && self.spec_frames()[j].reference == old(self).spec_frames()[j].reference,
                forall|j: int|
                    i <= j < n ==> (#[trigger] self.spec_frames()[j]).dirty == old(self).spec_frames()[j].dirty,
                forall|j: int|
                    0 <= j < i ==> !(#[trigger] self.spec_frames()[j]).dirty
                        || self.spec_frames()[j].page_id is None,
                forall|j: int|
                    0 <= j < i && (#[trigger] old(self).spec_frames()[j]).dirty && old(self).spec_frames()[j].page_id is Some ==> old(self).spec_frames()[j].pin_count == 0
                        && crate::disk::spec_page_of(
                        self.spec_disk().spec_file(),
                        old(self).spec_frames()[j].page_id.unwrap(),
                    ) == crate::checksum::spec_with_checksum(old(self).spec_frames()[j].data@),
                forall|j: int|
                    0 <= j < n && (#[trigger] old(self).spec_frames()[j]).page_id is Some && (j >= i
                        || !old(self).spec_frames()[j].dirty) ==> crate::disk::spec_page_of(
                        self.spec_disk().spec_file(),
                        old(self).spec_frames()[j].page_id.unwrap(),
                    ) == crate::disk::spec_page_of(
                        old(self).spec_disk().spec_file(),
                        old(self).spec_frames()[j].page_id.unwrap(),
                    ),
            decreases n - i,
        {
            let dirty = self.frames[i].dirty;
            let page_id = self.frames[i].page_id;
            let pins = self.frames[i].pin_count;
            match page_id {
                Some(id) => {
                    if dirty {
                        if pins > 0 {
                            return Err(PageCacheError::PinnedPage(id));
                        }
                        let ghost prev = *self;
                        match self.flush_frame_if_dirty(i) {
                            Ok(()) => {},
                            Err(e) => {
                                return Err(e);
                            },
                        }
                        proof {
                            lemma_flush_step_pages(&prev, self, old(self), i as int);
                        }
                    }
                },
                None => {},
            }
            i = i + 1;
        }
        Ok(())
    }

    /// Best-effort flush of every dirty unpinned bound frame, for use just
    /// before the cache is dropped; pinned frames are left untouched and
    /// keep their dirty bits. This is a durability convenience, not a
    /// substitute for `flush_all`. Every flushed frame's bytes reach the
    /// disk image; every other page keeps its on-disk bytes.
    pub fn flush_best_effort(&mut self)
        requires
            old(self).wf(),
        ensures
            final(self).wf(),
            final(self).spec_hand() == old(self).spec_hand(),
            final(self).spec_disk().spec_page_count() == old(self).spec_disk().spec_page_count(),
            forall|j: int|
                0 <= j < old(self).spec_frames().len() ==> (#[trigger] final(self).spec_frames()[j]).page_id == old(self).spec_frames()[j].page_id && final(self).spec_frames()[j].pin_count == old(self).spec_frames()[j].pin_count && final(self).spec_frames()[j].data == old(self).spec_frames()[j].data && final(self).spec_frames()[j].reference == old(self).spec_frames()[j].reference,
            forall|i: int|
                0 <= i < old(self).spec_frames().len() ==> (#[trigger] final(self).spec_frames()[i]).dirty == (old(self).spec_frames()[i].dirty && !(old(self).spec_frames()[i].page_id is Some
                    && old(self).spec_frames()[i].pin_count == 0)),
            forall|i: int|
                0 <= i < old(self).spec_frames().len() && (#[trigger] old(self).spec_frames()[i]).dirty && old(self).spec_frames()[i].page_id is Some && old(self).spec_frames()[i].pin_count == 0 ==> crate::disk::spec_page_of(
                    final(self).spec_disk().spec_file(),
                    old(self).spec_frames()[i].page_id.unwrap(),
                ) == crate::checksum::spec_with_checksum(old(self).spec_frames()[i].data@),
            forall|i: int|
                0 <= i < old(self).spec_frames().len() && (#[trigger] old(self).spec_frames()[i]).page_id is Some && !(old(self).spec_frames()[i].dirty && old(self).spec_frames()[i].pin_count == 0) ==> crate::disk::spec_page_of(
                    final(self).spec_disk().spec_file(),
                    old(self).spec_frames()[i].page_id.unwrap(),
                ) == crate::disk::spec_page_of(
                    old(self).spec_disk().spec_file(),
                    old(self).spec_frames()[i].page_id.unwrap(),
                ),
    {
        let n = self.frames.len();
        let mut i: usize = 0;
        while i < n
            invariant
                self.wf(),
                n == self.spec_frames().len() == old(self).spec_frames().len(),
                i <= n,
                self.spec_hand() == old(self).spec_hand(),
                self.spec_disk().spec_page_count() == old(self).spec_disk().spec_page_count(),
                forall|j: int|
                    0 <= j < n ==> (#[trigger] self.spec_frames()[j]).page_id == old(self).spec_frames()[j].page_id && self.spec_frames()[j].pin_count == old(self).spec_frames()[j].pin_count && self.spec_frames()[j].data == old(self).spec_frames()[j].data && self.spec_frames()[j].reference == old(self).spec_frames()[j].reference,
                forall|j: int|
                    i <= j < n ==> (#[trigger] self.spec_frames()[j]).dirty == old(self).spec_frames()[j].dirty,
                forall|j: int|
                    0 <= j < i ==> (#[trigger] self.spec_frames()[j]).dirty == (old(self).spec_frames()[j].dirty && !(old(self).spec_frames()[j].page_id is Some && old(self).spec_frames()[j].pin_count == 0)),
                forall|j: int|
                    0 <= j < i && (#[trigger] old(self).spec_frames()[j]).dirty && old(self).spec_frames()[j].page_id is Some && old(self).spec_frames()[j].pin_count == 0 ==> crate::disk::spec_page_of(
                        self.spec_disk().spec_file(),
                        old(self).spec_frames()[j].page_id.unwrap(),
                    ) == crate::checksum::spec_with_checksum(old(self).spec_frames()[j].data@),
                forall|j: int|
                    0 <= j < n && (#[trigger] old(self).spec_frames()[j]).page_id is Some && (j >= i
                        || !(old(self).spec_frames()[j].dirty && old(self).spec_frames()[j].pin_count == 0)) ==> crate::disk::spec_page_of(
                        self.spec_disk().spec_file(),
                        old(self).spec_frames()[j].page_id.unwrap(),
                    ) == crate::disk::spec_page_of(
                        old(self).spec_disk().spec_file(),
                        old(self).spec_frames()[j].page_id.unwrap(),
                    ),
            decreases n - i,
        {
            let dirty = self.frames[i].dirty;
            let bound = match self.frames[i].page_id {
                Some(_) => true,
                None => false,
            };
            let pins = self.frames[i].pin_count;
            if dirty && bound && pins == 0 {
                let ghost prev = *self;
                match self.flush_frame_if_dirty(i) {
                    Ok(()) => {},
                    Err(_) => {},
                }
                proof {
                    lemma_flush_step_pages(&prev, self, old(self), i as int);
                }
            }
            i = i + 1;
        }
    }
}

/// One write-out step of a flush loop: the flushed frame's page image now
/// holds its checksummed bytes, and every other bound frame's page image is
/// untouched.
proof fn lemma_flush_step_pages(
    prev: &PageCache,
    cur: &PageCache,
    orig: &PageCache,
    i: int,
)
    requires
        prev.wf(),
        cur.wf(),
        prev.spec_frames().len() == orig.spec_frames().len(),
        cur.spec_frames().len() == orig.spec_frames().len(),
        0 <= i < orig.spec_frames().len(),
        prev.spec_frames()[i].dirty,
        prev.spec_frames()[i].page_id is Some,
        prev.spec_frames()[i].page_id == orig.spec_frames()[i].page_id,
        prev.spec_frames()[i].data == orig.spec_frames()[i].data,
        forall|j: int|
            0 <= j < orig.spec_frames().len() ==> (#[trigger] prev.spec_frames()[j]).page_id
                == orig.spec_frames()[j].page_id,
        cur.spec_disk().spec_page_count() == prev.spec_disk().spec_page_count(),
        cur.spec_disk().spec_file() == crate::byteops::splice(
            prev.spec_disk().spec_file(),
            prev.spec_frames()[i].page_id.unwrap() * PAGE_SIZE,
            crate::checksum::spec_with_checksum(prev.spec_frames()[i].data@),
        ),
    ensures
        crate::disk::spec_page_of(
            cur.spec_disk().spec_file(),
            orig.spec_frames()[i].page_id.unwrap(),
        ) == crate::checksum::spec_with_checksum(orig.spec_frames()[i].data@),
        forall|j: int|
            0 <= j < orig.spec_frames().len() && j != i && (#[trigger] orig.spec_frames()[j]).page_id is Some ==> crate::disk::spec_page_of(
                cur.spec_disk().spec_file(),
                orig.spec_frames()[j].page_id.unwrap(),
            ) == crate::disk::spec_page_of(
                prev.spec_disk().spec_file(),
                orig.spec_frames()[j].page_id.unwrap(),
            ),
{
    let pc = prev.spec_disk().spec_page_count();
    let id = orig.spec_frames()[i].page_id.unwrap();
    crate::disk::lemma_write_read_round_trip(
        prev.spec_disk().spec_file(),
        pc,
        id,
        orig.spec_frames()[i].data@,
    );
    assert forall|j: int|
        0 <= j < orig.spec_frames().len() && j != i && (#[trigger] orig.spec_frames()[j]).page_id is Some implies crate::disk::spec_page_of(
        cur.spec_disk().spec_file(),
        orig.spec_frames()[j].page_id.unwrap(),
    ) == crate::disk::spec_page_of(
        prev.spec_disk().spec_file(),
        orig.spec_frames()[j].page_id.unwrap(),
    ) by {
        let other = orig.spec_frames()[j].page_id.unwrap();
        assert(prev.spec_frames()[j].page_id == Some(other));
        assert(other != id);
        crate::disk::lemma_write_preserves_other_pages(
            prev.spec_disk().spec_file(),
            pc,
            id,
            other,
            orig.spec_frames()[i].data@,
        );
    }
}

/// The ids of the pages resident in the cache./// The ids of the pages resident in the cache.
pub open spec fn spec_resident_ids(c: &PageCache) -> Set<PageId> {
    Set::new(|id: PageId| c.spec_resident(id))
}

/// At most as many distinct pages are resident as there are frames: each
/// frame binds at most one page, so the cache can never hold more pages
/// than its frame count, whatever sequence of fetches produced its state.
pub proof fn lemma_resident_pages_bounded(c: &PageCache)
    requires
        c.wf(),
    ensures
        spec_resident_ids(c).finite(),
        spec_resident_ids(c).len() <= c.spec_frames().len(),
{
    let ids = Seq::new(
        c.spec_frames().len(),
        |i: int|
            match c.spec_frames()[i].page_id {
                Some(id) => id,
                None => 0u64,
            },
    );
    assert forall|id: PageId| spec_resident_ids(c).contains(id) implies ids.to_set().contains(
        id,
    ) by {
        let w = choose|i: int|
            0 <= i < c.spec_frames().len() && #[trigger] c.spec_frames()[i].page_id == Some(id);
        assert(ids[w] == id);
    }
    ids.lemma_cardinality_of_set();
    vstd::set_lib::lemma_len_subset(spec_resident_ids(c), ids.to_set());
}


/// Advancing the hand by one keeps it at the sweep position: incrementing
/// modulo `n` commutes with the position formula.
proof fn lemma_mod_shift(start: int, scan: int, n: int)
    requires
        0 < n,
        0 <= start,
        0 <= scan,
    ensures
        ((start + scan) % n + 1) % n == (start + scan + 1) % n,
{
    let a = start + scan;
    vstd::arithmetic::div_mod::lemma_fundamental_div_mod(a, n);
    vstd::arithmetic::div_mod::lemma_mod_multiples_vanish(a / n, a % n + 1, n);
    assert(n * (a / n) + (a % n + 1) == a + 1);
}

/// The positions of the first and second revolution coincide residue-wise.
proof fn lemma_mod_wraparound(start: int, scan: int, n: int)
    requires
        0 < n,
        0 <= start,
        n <= scan,
    ensures
        (start + (scan - n)) % n == (start + scan) % n,
{
    vstd::arithmetic::div_mod::lemma_mod_multiples_vanish(1, start + scan - n, n);
}

/// Every frame index is reached during the second revolution of the sweep.
proof fn lemma_mod_cover(start: int, i: int, n: int)
    requires
        0 < n,
        0 <= start < n,
        0 <= i < n,
    ensures
        n <= n + (i - start) % n < 2 * n,
        (start + (n + (i - start) % n)) % n == i,
{
    let d = (i - start) % n;
    vstd::arithmetic::div_mod::lemma_mod_bound(i - start, n);
    vstd::arithmetic::div_mod::lemma_fundamental_div_mod(i - start, n);
    // start + d differs from i by a multiple of n
    let q = (i - start) / n;
    assert(start + d == i - n * q);
    assert((start + (n + d)) % n == (start + d) % n) by {
        vstd::arithmetic::div_mod::lemma_mod_multiples_vanish(1, start + d, n);
        assert(n * 1 + (start + d) == start + (n + d));
    }
    assert((start + d) % n == i % n) by {
        vstd::arithmetic::div_mod::lemma_mod_multiples_vanish(-q, i, n);
        assert(n * (-q) == -(n * q)) by (nonlinear_arith);
        assert(n * (-q) + i == start + d);
    }
    vstd::arithmetic::div_mod::lemma_small_mod(i as nat, n as nat);
}

} // verus!
