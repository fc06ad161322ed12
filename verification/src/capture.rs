//! Bookkeeping of captured packet streams: which stations lag behind the
//! others in the correlation frames they delivered, and how many packets a
//! stream lost.
use vstd::prelude::*;
use crate::cfg::{PKT_PAYLOAD_LEN, RawDataType};
use crate::data_frame::{place_samples, DbfDataFrame};
use std::collections::VecDeque;

verus! {

// ---------------------------------------------------------------------------
// Aligning the frames of several stations
// ---------------------------------------------------------------------------

/// The largest frame number in `s`, or zero where `s` is empty.
pub open spec fn latest_of(s: Seq<usize>) -> usize
    decreases s.len(),
{
    if s.len() == 0 {
        0
    } else {
        let m = latest_of(s.drop_last());
        if s.last() > m {
            s.last()
        } else {
            m
        }
    }
}

/// The latest frame number among the frames just received from each
/// station (zero where there are none).
pub fn latest_frame(corr_ids: &[usize]) -> (m: usize)
    ensures
        m == latest_of(corr_ids@),
{
    let n = corr_ids.len();
    let mut m: usize = 0;
    let mut i: usize = 0;
    while i < n
        invariant
            n == corr_ids@.len(),
            i <= n,
            m == latest_of(corr_ids@.take(i as int)),
        decreases n - i,
    {
        assert(corr_ids@.take(i + 1).drop_last() =~= corr_ids@.take(i as int));
        if corr_ids[i] > m {
            m = corr_ids[i];
        }
        i = i + 1;
    }
    assert(corr_ids@.take(n as int) =~= corr_ids@);
    m
}

/// For each station, whether its frame is older than the latest one, so
/// that the station must deliver one more frame.
pub fn lagging_streams(corr_ids: &[usize]) -> (r: Vec<bool>)
    ensures
        r@.len() == corr_ids@.len(),
        forall|i: int| 0 <= i < corr_ids@.len() ==> #[trigger] r@[i] == (corr_ids@[i] != latest_of(corr_ids@)),
{
    let m = latest_frame(corr_ids);
    let n = corr_ids.len();
    let mut r: Vec<bool> = Vec::new();
    let mut i: usize = 0;
    while i < n
        invariant
            n == corr_ids@.len(),
            i <= n,
            m == latest_of(corr_ids@),
            r@.len() == i,
            forall|k: int| 0 <= k < i ==> #[trigger] r@[k] == (corr_ids@[k] != m),
        decreases n - i,
    {
        r.push(corr_ids[i] != m);
        i = i + 1;
    }
    r
}

/// The latest frame is at least as late as every station's frame, and,
/// where there is a station, it is the frame of one of them: so some
/// station never lags.
pub proof fn lemma_latest_frame(s: Seq<usize>)
    ensures
        forall|i: int| 0 <= i < s.len() ==> #[trigger] s[i] <= latest_of(s),
        s.len() > 0 ==> exists|i: int| 0 <= i < s.len() && #[trigger] s[i] == latest_of(s),
    decreases s.len(),
{
    if s.len() > 0 {
        let t = s.drop_last();
        lemma_latest_frame(t);
        assert forall|i: int| 0 <= i < s.len() implies #[trigger] s[i] <= latest_of(s) by {
            if i < t.len() {
                assert(s[i] == t[i]);
            }
        }
        if s.last() > latest_of(t) {
            assert(s[s.len() - 1] == latest_of(s));
        } else if t.len() == 0 {
            assert(s[0] == latest_of(s));
        } else {
            let j = choose|j: int| 0 <= j < t.len() && #[trigger] t[j] == latest_of(t);
            assert(s[j] == latest_of(s));
        }
    }
}

// ---------------------------------------------------------------------------
// Counting the packets a stream lost
// ---------------------------------------------------------------------------

/// The packet-loss count of one captured stream.
#[derive(Debug, Clone, Copy, PartialEq, Eq)]
pub struct LossCounter {
    /// The counter of the last packet taken.
    pub last_pkt_id: u64,
    /// Packets taken after the first one.
    pub npkt: u64,
    /// Packets lost, plus one (so that it can divide).
    pub npkt_dropped: u64,
}

/// What taking one packet reports.
#[derive(Debug, Clone, Copy, PartialEq, Eq)]
pub struct LossStep {
    /// Where packets were lost before this one: how many, and the packets
    /// taken before this one per packet lost (integer quotient).
    pub dropped: Option<(u64, u64)>,
    /// Every 65536 packets: the packets taken per packet lost (integer quotient).
    pub report: Option<u64>,
}

impl LossCounter {
    /// The loss count can divide.
    pub open spec fn wf(self) -> bool {
        self.npkt_dropped >= 1
    }

    /// Packet `pkt_id` can be taken: it comes after the last one, and the
    /// counts do not overflow.
    pub open spec fn accepts(self, pkt_id: u64) -> bool {
        &&& self.last_pkt_id < pkt_id
        &&& self.npkt < u64::MAX
        &&& self.npkt_dropped + (pkt_id - self.last_pkt_id - 1) <= u64::MAX
    }

    /// The count of a stream whose first packet is `first_pkt_id`.
    pub fn new(first_pkt_id: u64) -> (r: LossCounter)
        ensures
            r.wf(),
            r.last_pkt_id == first_pkt_id,
            r.npkt == 0,
            r.npkt_dropped == 1,
    {
        LossCounter { last_pkt_id: first_pkt_id, npkt: 0, npkt_dropped: 1 }
    }

    /// Whether packet `pkt_id` can be taken.
    pub fn can_take(&self, pkt_id: u64) -> (r: bool)
        ensures
            r == self.accepts(pkt_id),
    {
        if pkt_id <= self.last_pkt_id || self.npkt == u64::MAX {
            false
        } else {
            let gap = pkt_id - self.last_pkt_id - 1;
            gap <= u64::MAX - self.npkt_dropped
        }
    }

    /// Takes packet `pkt_id`: counts the packets lost since the last one and
    /// the packet itself, and says what to report.
    pub fn take(&mut self, pkt_id: u64) -> (r: LossStep)
        requires
            old(self).wf(),
            old(self).accepts(pkt_id),
        ensures
            final(self).wf(),
            final(self).last_pkt_id == pkt_id,
            final(self).npkt == old(self).npkt + 1,
            final(self).npkt_dropped == old(self).npkt_dropped + (pkt_id - old(self).last_pkt_id - 1),
            r.dropped == (if pkt_id == old(self).last_pkt_id + 1 {
                None
            } else {
                Some(
                    (
                        (pkt_id - old(self).last_pkt_id - 1) as u64,
                        old(self).npkt / final(self).npkt_dropped,
                    ),
                )
            }),
            r.report == (if final(self).npkt % 65536 == 0 {
                Some(final(self).npkt / final(self).npkt_dropped)
            } else {
                None
            }),
    {
        let mut dropped: Option<(u64, u64)> = None;
        if pkt_id != self.last_pkt_id + 1 {
            let d = pkt_id - self.last_pkt_id - 1;
            self.npkt_dropped = self.npkt_dropped + d;
            dropped = Some((d, self.npkt / self.npkt_dropped));
        }
        self.npkt = self.npkt + 1;
        let report = if self.npkt % 65536 == 0 {
            Some(self.npkt / self.npkt_dropped)
        } else {
            None
        };
        self.last_pkt_id = pkt_id;
        LossStep { dropped, report }
    }
}

// ---------------------------------------------------------------------------
// Dumping whole frames of one station
// ---------------------------------------------------------------------------

/// Packets gathered into one dump frame by the capture program (2^18).
pub const DUMP_NPKT_PER_FRAME: usize = 262144;

/// The samples of a run of packets of one station, with the counter of the
/// packet in each slot, as the capture program dumps them.
pub struct StationDump {
    /// Packets per frame.
    pub npkt_per_frame: usize,
    /// The samples of each slot, slot after slot.
    pub samples: Vec<RawDataType>,
    /// The counter of the packet in each slot (zero where none arrived).
    pub pkt_ids: Vec<usize>,
    /// The counter of the last packet taken.
    pub last_pkt_id: Option<usize>,
}

/// What taking one packet means for the dump of its station.
#[derive(Debug, Clone, Copy, PartialEq, Eq)]
pub struct DumpStep {
    /// The number of packets missing between the previous packet and this
    /// one, where it does not follow the previous one.
    pub dropped: Option<usize>,
    /// The frame the packet belongs to.
    pub frame_id: usize,
    /// The frame the next packet would belong to.
    pub next_frame_id: usize,
    /// The packet ends the first frame (frame zero): the frame is to be
    /// dumped and the buffers cleared.
    pub dump: bool,
}

impl StationDump {
    /// The buffers hold exactly one frame.
    pub open spec fn wf(self) -> bool {
        &&& self.npkt_per_frame >= 2
        &&& self.pkt_ids@.len() == self.npkt_per_frame
        &&& self.samples@.len() == self.npkt_per_frame * PKT_PAYLOAD_LEN
    }

    /// The slot of packet `pkt_id` within its frame.
    pub open spec fn slot_of(self, pkt_id: u64) -> int {
        ((pkt_id as usize) % self.npkt_per_frame) as int
    }

    /// Packet `pkt_id` can be taken without an arithmetic overflow: its
    /// successor's number fits and, where there was a previous packet, it
    /// comes after that one.
    pub open spec fn accepts(self, pkt_id: u64) -> bool {
        &&& pkt_id < u64::MAX
        &&& (self.last_pkt_id matches Some(l) ==> l < pkt_id as usize)
    }

    /// Empty buffers for frames of `npkt_per_frame` packets; no packet taken.
    pub fn new(npkt_per_frame: usize) -> (r: StationDump)
        requires
            npkt_per_frame >= 2,
            npkt_per_frame * PKT_PAYLOAD_LEN <= usize::MAX,
        ensures
            r.wf(),
            r.npkt_per_frame == npkt_per_frame,
            r.samples@ == Seq::new((npkt_per_frame * PKT_PAYLOAD_LEN) as nat, |i: int| 0i16),
            r.pkt_ids@ == Seq::new(npkt_per_frame as nat, |i: int| 0usize),
            r.last_pkt_id is None,
    {
        let samples = vec![0i16; npkt_per_frame * PKT_PAYLOAD_LEN];
        let pkt_ids = vec![0usize; npkt_per_frame];
        assert(samples@ =~= Seq::new((npkt_per_frame * PKT_PAYLOAD_LEN) as nat, |i: int| 0i16));
        assert(pkt_ids@ =~= Seq::new(npkt_per_frame as nat, |i: int| 0usize));
        StationDump { npkt_per_frame, samples, pkt_ids, last_pkt_id: None }
    }

    /// Whether packet `pkt_id` can be taken.
    pub fn can_take(&self, pkt_id: u64) -> (r: bool)
        ensures
            r == self.accepts(pkt_id),
    {
        if pkt_id == u64::MAX {
            return false;
        }
        match self.last_pkt_id {
            None => true,
            Some(l) => l < pkt_id as usize,
        }
    }

    /// Takes packet `pkt`: copies its samples and its counter to its slot,
    /// reports the packets missing before it, and says whether it ends the
    /// first frame.
    pub fn take(&mut self, pkt: &DbfDataFrame) -> (r: DumpStep)
        requires
            old(self).wf(),
            old(self).accepts(pkt.pkt_id),
        ensures
            final(self).wf(),
            final(self).npkt_per_frame == old(self).npkt_per_frame,
            final(self).last_pkt_id == Some(pkt.pkt_id as usize),
            final(self).samples@ == old(self).samples@.subrange(
                0,
                old(self).slot_of(pkt.pkt_id) * PKT_PAYLOAD_LEN,
            ) + pkt.payload@ + old(self).samples@.subrange(
                old(self).slot_of(pkt.pkt_id) * PKT_PAYLOAD_LEN + PKT_PAYLOAD_LEN,
                old(self).samples@.len() as int,
            ),
            final(self).pkt_ids@ == old(self).pkt_ids@.update(
                old(self).slot_of(pkt.pkt_id),
                pkt.pkt_id as usize,
            ),
            r.dropped == (match old(self).last_pkt_id {
                Some(l) => if l + 1 != pkt.pkt_id as usize {
                    Some((pkt.pkt_id as usize - l - 1) as usize)
                } else {
                    None
                },
                None => None,
            }),
            r.frame_id == (pkt.pkt_id as usize) / old(self).npkt_per_frame,
            r.next_frame_id == ((pkt.pkt_id + 1) as u64 as usize) / old(self).npkt_per_frame,
            r.dump == (r.next_frame_id == r.frame_id + 1 && r.next_frame_id <= 1),
    {
        let pkt_id = pkt.pkt_id as usize;
        let dropped = match self.last_pkt_id {
            Some(l) => if l + 1 != pkt_id {
                Some(pkt_id - l - 1)
            } else {
                None
            },
            None => None,
        };
        self.last_pkt_id = Some(pkt_id);
        let n = self.npkt_per_frame;
        let total = self.samples.len();
        let frame_id = pkt_id / n;
        let next_frame_id = ((pkt.pkt_id + 1) as usize) / n;
        assert(frame_id * n <= pkt_id && pkt_id - frame_id * n == pkt_id % n && frame_id < usize::MAX)
            by (nonlinear_arith)
            requires
                n >= 2,
                frame_id == pkt_id / n,
        ;
        let slot = pkt_id - frame_id * n;
        assert(slot * PKT_PAYLOAD_LEN + PKT_PAYLOAD_LEN <= n * PKT_PAYLOAD_LEN) by (nonlinear_arith)
            requires
                slot < n,
        ;
        let offset = slot * PKT_PAYLOAD_LEN;
        place_samples(&mut self.samples, offset, &pkt.payload);
        self.pkt_ids.set(slot, pkt_id);
        DumpStep {
            dropped,
            frame_id,
            next_frame_id,
            dump: next_frame_id == frame_id + 1 && next_frame_id <= 1,
        }
    }

    /// Empties the buffers after a dump: every sample and every counter zero.
    pub fn clear(&mut self)
        requires
            old(self).wf(),
        ensures
            final(self).wf(),
            final(self).npkt_per_frame == old(self).npkt_per_frame,
            final(self).last_pkt_id == old(self).last_pkt_id,
            final(self).samples@ == Seq::new(old(self).samples@.len(), |i: int| 0i16),
            final(self).pkt_ids@ == Seq::new(old(self).pkt_ids@.len(), |i: int| 0usize),
    {
        fill_vec(&mut self.samples, 0i16);
        fill_vec(&mut self.pkt_ids, 0usize);
    }
}

/// Sets every element of `v` to `x`.
fn fill_vec<T: Copy>(v: &mut Vec<T>, x: T)
    ensures
        final(v)@ == Seq::new(old(v)@.len(), |i: int| x),
{
    let n = v.len();
    let mut j: usize = 0;
    while j < n
        invariant
            j <= n,
            n == v@.len(),
            forall|k: int| 0 <= k < j ==> #[trigger] v@[k] == x,
        decreases n - j,
    {
        v.set(j, x);
        j = j + 1;
    }
    assert(v@ =~= Seq::new(n as nat, |i: int| x));
}

/// A station's buffers are dumped exactly when the packet taken is the last
/// slot of frame zero: only the first frame of a station is ever dumped.
pub proof fn lemma_dump_only_first_frame(n: usize, pkt_id: u64)
    requires
        n >= 2,
        pkt_id < u64::MAX,
        pkt_id < usize::MAX,
    ensures
        (((pkt_id + 1) as u64 as usize) / n == (pkt_id as usize) / n + 1 && ((pkt_id + 1) as u64
            as usize) / n <= 1) <==> pkt_id == n - 1,
{
    let p = pkt_id as int;
    assert((pkt_id + 1) as u64 as usize == p + 1);
    assert(pkt_id as usize == p);
    let ni = n as int;
    assert(((p + 1) / ni == p / ni + 1 && (p + 1) / ni <= 1) <==> p == ni - 1) by (nonlinear_arith)
        requires
            ni >= 2,
            p >= 0,
    {
        if p == ni - 1 {
            assert(p / ni == 0);
            assert((p + 1) / ni == 1);
        }
        if (p + 1) / ni == p / ni + 1 && (p + 1) / ni <= 1 {
            assert(p / ni == 0);
            assert(p < ni);
            assert(p + 1 >= ni);
        }
    }
}

/// All stations have dumped the same frame, and the frame after it is the
/// tenth: the capture is over.
pub fn capture_finished(corr_ids: &[usize], next_frame_id: usize) -> (r: bool)
    ensures
        r == ((forall|i: int, j: int|
            0 <= i < corr_ids@.len() && 0 <= j < corr_ids@.len() ==> corr_ids@[i] == corr_ids@[j])
            && next_frame_id == 10),
{
    if next_frame_id != 10 {
        return false;
    }
    let n = corr_ids.len();
    if n == 0 {
        return true;
    }
    let first = corr_ids[0];
    let mut i: usize = 1;
    while i < n
        invariant
            n == corr_ids@.len(),
            1 <= i <= n,
            first == corr_ids@[0],
            forall|k: int| 0 <= k < i ==> #[trigger] corr_ids@[k] == first,
        decreases n - i,
    {
        if corr_ids[i] != first {
            return false;
        }
        i = i + 1;
    }
    true
}

// ---------------------------------------------------------------------------
// Watching the counters of a captured stream
// ---------------------------------------------------------------------------

/// The packet counters seen on one captured stream.
#[derive(Debug, Clone, Copy, PartialEq, Eq)]
pub struct StreamWatch {
    /// Packets seen.
    pub pkt_cnt: i32,
    /// The counter of the last packet seen.
    pub old_pkt_id: usize,
}

/// What seeing one packet reports.
#[derive(Debug, Clone, Copy, PartialEq, Eq)]
pub enum WatchStep {
    /// The first packet of the stream, with its counter.
    First(usize),
    /// The packet follows the previous one.
    InOrder,
    /// This many packets are missing before the packet.
    Dropped(usize),
}

impl StreamWatch {
    /// Packet `pkt_id` can be seen without an arithmetic overflow: the count
    /// fits and, after the first packet, the counter grows.
    pub open spec fn accepts(self, pkt_id: usize) -> bool {
        &&& self.pkt_cnt < i32::MAX
        &&& self.pkt_cnt != 0 ==> self.old_pkt_id < pkt_id
    }

    /// No packet seen yet.
    pub fn new() -> (r: StreamWatch)
        ensures
            r.pkt_cnt == 0,
            r.old_pkt_id == 0,
    {
        StreamWatch { pkt_cnt: 0, old_pkt_id: 0 }
    }

    /// Whether packet `pkt_id` can be seen.
    pub fn can_see(&self, pkt_id: usize) -> (r: bool)
        ensures
            r == self.accepts(pkt_id),
    {
        self.pkt_cnt < i32::MAX && (self.pkt_cnt == 0 || self.old_pkt_id < pkt_id)
    }

    /// Sees packet `pkt_id`: reports the first counter of the stream, or the
    /// packets missing before this one.
    pub fn see(&mut self, pkt_id: usize) -> (r: WatchStep)
        requires
            old(self).accepts(pkt_id),
        ensures
            final(self).pkt_cnt == old(self).pkt_cnt + 1,
            final(self).old_pkt_id == pkt_id,
            r == (if old(self).pkt_cnt == 0 {
                WatchStep::First(pkt_id)
            } else if old(self).old_pkt_id + 1 != pkt_id {
                WatchStep::Dropped((pkt_id - old(self).old_pkt_id - 1) as usize)
            } else {
                WatchStep::InOrder
            }),
    {
        let r = if self.pkt_cnt == 0 {
            WatchStep::First(pkt_id)
        } else if self.old_pkt_id + 1 != pkt_id {
            WatchStep::Dropped(pkt_id - self.old_pkt_id - 1)
        } else {
            WatchStep::InOrder
        };
        self.pkt_cnt = self.pkt_cnt + 1;
        self.old_pkt_id = pkt_id;
        r
    }
}

// ---------------------------------------------------------------------------
// Synchronising the queues of several streams
// ---------------------------------------------------------------------------

/// The items waiting in each queue, front first: a frame number and its
/// payload.
pub open spec fn queues_of<T>(b: Seq<VecDeque<(usize, T)>>) -> Seq<Seq<(usize, T)>> {
    Seq::new(b.len(), |i: int| b[i]@)
}

/// The queues after each has received its arrival at the back.
pub open spec fn with_arrivals<T>(q: Seq<Seq<(usize, T)>>, a: Seq<(usize, T)>) -> Seq<Seq<(usize, T)>> {
    Seq::new(q.len(), |i: int| q[i].push(a[i]))
}

/// The frame number at the front of each queue.
pub open spec fn front_ids<T>(q: Seq<Seq<(usize, T)>>) -> Seq<usize> {
    Seq::new(q.len(), |i: int| q[i][0].0)
}

/// The payload at the front of each queue.
pub open spec fn front_items<T>(q: Seq<Seq<(usize, T)>>) -> Seq<T> {
    Seq::new(q.len(), |i: int| q[i][0].1)
}

/// `s` without its leading items whose frame number is below `m`.
pub open spec fn drop_below<T>(s: Seq<(usize, T)>, m: usize) -> Seq<(usize, T)>
    decreases s.len(),
{
    if s.len() > 0 && s[0].0 < m {
        drop_below(s.drop_first(), m)
    } else {
        s
    }
}

/// What is left of a queue after dropping starts at the target or later.
pub proof fn lemma_drop_below<T>(s: Seq<(usize, T)>, m: usize)
    ensures
        drop_below(s, m).len() > 0 ==> drop_below(s, m)[0].0 >= m,
    decreases s.len(),
{
    if s.len() > 0 && s[0].0 < m {
        lemma_drop_below(s.drop_first(), m);
    }
}

/// The frame the queues are aligned on: the latest front once the arrivals
/// are in.
pub open spec fn align_target<T>(q: Seq<Seq<(usize, T)>>, a: Seq<(usize, T)>) -> usize {
    latest_of(front_ids(with_arrivals(q, a)))
}

/// The queues once the arrivals are in and every item older than the
/// target at the front of a queue is dropped.
pub open spec fn aligned_queues<T>(q: Seq<Seq<(usize, T)>>, a: Seq<(usize, T)>) -> Seq<Seq<(usize, T)>> {
    Seq::new(q.len(), |i: int| drop_below(with_arrivals(q, a)[i], align_target(q, a)))
}

/// No queue is empty.
pub open spec fn all_nonempty<T>(q: Seq<Seq<(usize, T)>>) -> bool {
    forall|i: int| 0 <= i < q.len() ==> #[trigger] q[i].len() > 0
}

/// One round of synchronising the queues of several streams: each queue
/// receives its arrival (a frame number and its payload); the target is the
/// latest front; items older than the target are dropped from the front of
/// every queue. Where no queue is then empty, the front of each is taken
/// and its payload returned with the target; otherwise nothing is taken and
/// the caller waits for the next arrivals.
pub fn align_round<T>(bufs: &mut Vec<VecDeque<(usize, T)>>, arrived: Vec<(usize, T)>) -> (r: Option<(usize, Vec<T>)>)
    requires
        old(bufs)@.len() == arrived@.len(),
        arrived@.len() > 0,
    ensures
        final(bufs)@.len() == old(bufs)@.len(),
        (r is Some) == all_nonempty(aligned_queues(queues_of(old(bufs)@), arrived@)),
        r matches Some((m, v)) ==> {
            &&& m == align_target(queues_of(old(bufs)@), arrived@)
            &&& v@ == front_items(aligned_queues(queues_of(old(bufs)@), arrived@))
            &&& forall|i: int|
                0 <= i < old(bufs)@.len() ==> #[trigger] front_ids(
                    aligned_queues(queues_of(old(bufs)@), arrived@),
                )[i] >= m
            &&& queues_of(final(bufs)@) == Seq::new(
                old(bufs)@.len(),
                |i: int| aligned_queues(queues_of(old(bufs)@), arrived@)[i].drop_first(),
            )
        },
        r is None ==> queues_of(final(bufs)@) == aligned_queues(queues_of(old(bufs)@), arrived@),
{
    let n = arrived.len();
    let mut arrived = arrived;
    let ghost a0 = arrived@;
    let ghost q0 = queues_of(bufs@);
    let ghost w = with_arrivals(q0, a0);
    let mut taken: Vec<VecDeque<(usize, T)>> = Vec::new();
    std::mem::swap(bufs, &mut taken);
    assert(queues_of(taken@) == q0);
    // Each queue receives its arrival.
    let mut mid: Vec<VecDeque<(usize, T)>> = Vec::new();
    let mut fronts: Vec<usize> = Vec::new();
    let mut i: usize = 0;
    while i < n
        invariant
            n == a0.len(),
            n == q0.len(),
            w == with_arrivals(q0, a0),
            i <= n,
            taken@.len() == n - i,
            arrived@.len() == n - i,
            forall|j: int| 0 <= j < n - i ==> #[trigger] taken@[j]@ == q0[i + j],
            forall|j: int| 0 <= j < n - i ==> #[trigger] arrived@[j] == a0[i + j],
            mid@.len() == i,
            fronts@.len() == i,
            forall|j: int| 0 <= j < i ==> #[trigger] mid@[j]@ == w[j],
            forall|j: int| 0 <= j < i ==> #[trigger] fronts@[j] == w[j][0].0,
        decreases n - i,
    {
        let ghost before = taken@;
        let ghost abefore = arrived@;
        let mut d = taken.remove(0);
        let item = arrived.remove(0);
        assert(d@ == q0[i as int]);
        assert(item == a0[i as int]);
        assert forall|j: int| 0 <= j < n - i - 1 implies #[trigger] taken@[j]@ == q0[i + 1 + j] by {
            assert(taken@[j] == before[j + 1]);
        }
        assert forall|j: int| 0 <= j < n - i - 1 implies #[trigger] arrived@[j] == a0[i + 1 + j] by {
            assert(arrived@[j] == abefore[j + 1]);
        }
        d.push_back(item);
        assert(d@ == w[i as int]);
        let f = d[0].0;
        fronts.push(f);
        mid.push(d);
        i = i + 1;
    }
    assert(fronts@ =~= front_ids(w));
    let m = latest_frame(fronts.as_slice());
    assert(m == align_target(q0, a0));
    let ghost dq = aligned_queues(q0, a0);
    // Items older than the target leave the front of every queue.
    let mut dropped: Vec<VecDeque<(usize, T)>> = Vec::new();
    let mut all = true;
    let mut i: usize = 0;
    while i < n
        invariant
            n == q0.len(),
            m == align_target(q0, a0),
            dq == aligned_queues(q0, a0),
            w == with_arrivals(q0, a0),
            i <= n,
            mid@.len() == n - i,
            forall|j: int| 0 <= j < n - i ==> #[trigger] mid@[j]@ == w[i + j],
            dropped@.len() == i,
            forall|j: int| 0 <= j < i ==> #[trigger] dropped@[j]@ == dq[j],
            all == (forall|j: int| 0 <= j < i ==> #[trigger] dq[j].len() > 0),
        decreases n - i,
    {
        let ghost before = mid@;
        let mut d = mid.remove(0);
        assert forall|j: int| 0 <= j < n - i - 1 implies #[trigger] mid@[j]@ == w[i + 1 + j] by {
            assert(mid@[j] == before[j + 1]);
        }
        assert(d@ == w[i as int]);
        assert(dq[i as int] == drop_below(w[i as int], m));
        while d.len() > 0 && d[0].0 < m
            invariant
                drop_below(d@, m) == dq[i as int],
            decreases d@.len(),
        {
            let ghost dv = d@;
            let _old_item = d.pop_front();
            assert(d@ == dv.drop_first());
        }
        assert(d@ == dq[i as int]);
        all = all && d.len() > 0;
        dropped.push(d);
        i = i + 1;
    }
    assert(all == all_nonempty(dq));
    if !all {
        std::mem::swap(bufs, &mut dropped);
        assert(queues_of(bufs@) =~= dq);
        return None;
    }
    // Every queue holds an item: take the front of each.
    let mut items: Vec<T> = Vec::new();
    let mut i: usize = 0;
    while i < n
        invariant
            n == q0.len(),
            dq == aligned_queues(q0, a0),
            all_nonempty(dq),
            i <= n,
            dropped@.len() == n - i,
            forall|j: int| 0 <= j < n - i ==> #[trigger] dropped@[j]@ == dq[i + j],
            bufs@.len() == i,
            items@.len() == i,
            forall|j: int| 0 <= j < i ==> #[trigger] bufs@[j]@ == dq[j].drop_first(),
            forall|j: int| 0 <= j < i ==> #[trigger] items@[j] == dq[j][0].1,
        decreases n - i,
    {
        let ghost before = dropped@;
        let mut d = dropped.remove(0);
        assert forall|j: int| 0 <= j < n - i - 1 implies #[trigger] dropped@[j]@ == dq[i + 1 + j] by {
            assert(dropped@[j] == before[j + 1]);
        }
        assert(d@ == dq[i as int]);
        assert(dq[i as int].len() > 0);
        match d.pop_front() {
            Some((_id, x)) => {
                items.push(x);
            },
            None => {},
        }
        bufs.push(d);
        i = i + 1;
    }
    assert(items@ =~= front_items(dq));
    assert forall|i: int| 0 <= i < n implies #[trigger] front_ids(dq)[i] >= m by {
        lemma_drop_below(w[i], m);
    }
    assert(queues_of(bufs@) =~= Seq::new(q0.len(), |i: int| dq[i].drop_first()));
    Some((m, items))
}

} // verus!
