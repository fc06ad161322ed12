//! Raw data packets of the beamformer and the correlation frames they are
//! gathered into.
//!
//! A packet is 8080 bytes, little-endian: nine 64-bit header words (four
//! marker words, date, sub-second, beam, packet counter, a start marker),
//! 4000 signed 16-bit samples and a 64-bit tail marker. Each run of
//! `NPKT_PER_CORR` consecutive packets fills one correlation frame.
use vstd::prelude::*;
use byteorder::{ByteOrder, LittleEndian};
use crate::bytes::{i16s_le, le16_at, le_i16s_at, lemma_le_i16s_bytes, push_i16s_le};
use crate::cfg::{CORR_PAYLOAD_LEN, NPKT_PER_CORR, PKT_LEN, PKT_PAYLOAD_LEN, RawDataType};

verus! {

/// First and second header words of every packet.
pub const HEAD_MARKER: u64 = 0xa5a5_a5a5_a5a5_a5a5;

/// Third header word of every packet.
pub const HEAD3_MARKER: u64 = 0xbc55_0000_bc55_0000;

/// Fourth header word of every packet.
pub const HEAD4_MARKER: u64 = 0xeeee_0000_0000_0000;

/// Ninth header word of every packet, just before the samples.
pub const START_MARKER: u64 = 0x7777_7777_7777_7777;

/// The word after the samples of every packet.
pub const TAIL_MARKER: u64 = 0xbcbc_bcbc_bcbc_bcbc;

/// Offset of the samples in a packet.
pub const PAYLOAD_OFFSET: usize = 72;

/// Offset of the tail word in a packet.
pub const TAIL_OFFSET: usize = PAYLOAD_OFFSET + PKT_PAYLOAD_LEN * 2;

// ---------------------------------------------------------------------------
// Little-endian integers
// ---------------------------------------------------------------------------

/// The little-endian 64-bit integer stored at `b[i..i + 8]`.
pub open spec fn le64_at(b: Seq<u8>, i: int) -> u64 {
    (b[i] as int + b[i + 1] as int * 0x100 + b[i + 2] as int * 0x1_0000 + b[i + 3] as int
        * 0x100_0000 + b[i + 4] as int * 0x1_0000_0000 + b[i + 5] as int * 0x100_0000_0000
        + b[i + 6] as int * 0x1_0000_0000_0000 + b[i + 7] as int * 0x100_0000_0000_0000) as u64
}

/// The `n` little-endian 64-bit integers stored from `b[off]` on.
pub open spec fn le_u64s_at(b: Seq<u8>, off: int, n: nat) -> Seq<u64> {
    Seq::new(n, |k: int| le64_at(b, off + 8 * k))
}

/// Calls `byteorder::LittleEndian::read_u64`: the little-endian integer in
/// the first eight bytes of `buf`. It panics on a shorter `buf`.
#[verifier::external_body]
fn le_read_u64(buf: &[u8]) -> (r: u64)
    requires
        buf@.len() >= 8,
    ensures
        r == le64_at(buf@, 0),
{
    LittleEndian::read_u64(buf)
}

/// Calls `byteorder::LittleEndian::read_u64_into`: fills `dst` with the
/// little-endian integers of `src`, eight bytes each. It panics unless `src`
/// is exactly eight bytes per element of `dst`.
#[verifier::external_body]
fn le_read_u64_into(src: &[u8], dst: &mut [u64])
    requires
        src@.len() == 8 * old(dst)@.len(),
    ensures
        final(dst)@ == le_u64s_at(src@, 0, old(dst)@.len()),
{
    LittleEndian::read_u64_into(src, dst)
}

/// Calls `byteorder::LittleEndian::read_i16_into`: fills `dst` with the
/// little-endian signed integers of `src`, two bytes each. It panics unless
/// `src` is exactly two bytes per element of `dst`.
#[verifier::external_body]
fn le_read_i16_into(src: &[u8], dst: &mut [i16])
    requires
        src@.len() == 2 * old(dst)@.len(),
    ensures
        final(dst)@ == le_i16s_at(src@, 0, old(dst)@.len()),
{
    LittleEndian::read_i16_into(src, dst)
}

// ---------------------------------------------------------------------------
// Raw packets
// ---------------------------------------------------------------------------

/// One raw data packet of the beamformer.
#[derive(Debug, Clone)]
pub struct DbfDataFrame {
    pub head1: u64,
    pub head2: u64,
    pub head3: u64,
    pub head4: u64,
    pub date: u64,
    pub subsec: u64,
    pub beam_id: u64,
    pub pkt_id: u64,
    pub start: u64,
    pub payload: [i16; PKT_PAYLOAD_LEN],
    pub tail: u64,
}

/// The marker words of the packet in `b` are the ones every packet carries.
pub open spec fn raw_markers_ok(b: Seq<u8>) -> bool {
    &&& le64_at(b, 0) == HEAD_MARKER
    &&& le64_at(b, 8) == HEAD_MARKER
    &&& le64_at(b, 16) == HEAD3_MARKER
    &&& le64_at(b, 24) == HEAD4_MARKER
    &&& le64_at(b, 64) == START_MARKER
    &&& le64_at(b, TAIL_OFFSET as int) == TAIL_MARKER
}

/// `b` is a packet: it has the length of one and carries its markers.
pub open spec fn raw_packet_ok(b: Seq<u8>) -> bool {
    &&& b.len() == PKT_LEN
    &&& raw_markers_ok(b)
}

/// A buffer is a packet exactly when it is 8080 bytes long and carries, as
/// little-endian 64-bit words, the marker `0xa5a5_a5a5_a5a5_a5a5` at bytes
/// 0 and 8, `0xbc55_0000_bc55_0000` at byte 16, `0xeeee_0000_0000_0000` at
/// byte 24, `0x7777_7777_7777_7777` at byte 64 and `0xbcbc_bcbc_bcbc_bcbc`
/// at byte 8072.
pub proof fn lemma_packet_markers(b: Seq<u8>)
    ensures
        raw_packet_ok(b) <==> {
            &&& b.len() == 8080
            &&& le64_at(b, 0) == 0xa5a5_a5a5_a5a5_a5a5u64
            &&& le64_at(b, 8) == 0xa5a5_a5a5_a5a5_a5a5u64
            &&& le64_at(b, 16) == 0xbc55_0000_bc55_0000u64
            &&& le64_at(b, 24) == 0xeeee_0000_0000_0000u64
            &&& le64_at(b, 64) == 0x7777_7777_7777_7777u64
            &&& le64_at(b, 8072) == 0xbcbc_bcbc_bcbc_bcbcu64
        },
{
}

/// Where each field of a packet read from `b` comes from: the little-endian
/// 64-bit words at bytes 0, 8, 16, 24 (markers), 32 (date), 40
/// (sub-second), 48 (beam), 56 (packet counter), 64 (start marker) and
/// 8072 (tail marker), and sample `k` from bytes `72 + 2 * k`.
pub proof fn lemma_packet_fields(f: DbfDataFrame, b: Seq<u8>, k: int)
    requires
        f.read_from(b),
        0 <= k < 4000,
    ensures
        f.head1 == le64_at(b, 0),
        f.head2 == le64_at(b, 8),
        f.head3 == le64_at(b, 16),
        f.head4 == le64_at(b, 24),
        f.date == le64_at(b, 32),
        f.subsec == le64_at(b, 40),
        f.beam_id == le64_at(b, 48),
        f.pkt_id == le64_at(b, 56),
        f.start == le64_at(b, 64),
        f.tail == le64_at(b, 8072),
        f.payload@[k] == (b[72 + 2 * k] as int + b[73 + 2 * k] as int * 0x100) as u16 as i16,
{
}

impl DbfDataFrame {
    /// The packet is what the bytes of `b` say.
    pub open spec fn read_from(self, b: Seq<u8>) -> bool {
        &&& self.head1 == le64_at(b, 0)
        &&& self.head2 == le64_at(b, 8)
        &&& self.head3 == le64_at(b, 16)
        &&& self.head4 == le64_at(b, 24)
        &&& self.date == le64_at(b, 32)
        &&& self.subsec == le64_at(b, 40)
        &&& self.beam_id == le64_at(b, 48)
        &&& self.pkt_id == le64_at(b, 56)
        &&& self.start == le64_at(b, 64)
        &&& self.payload@ == le_i16s_at(b, PAYLOAD_OFFSET as int, PKT_PAYLOAD_LEN as nat)
        &&& self.tail == le64_at(b, TAIL_OFFSET as int)
    }

    /// Whether `src` is a packet: `PKT_LEN` bytes with the markers of a packet.
    pub fn is_valid_raw(src: &[u8]) -> (r: bool)
        ensures
            r == raw_packet_ok(src@),
    {
        if src.len() != PKT_LEN {
            return false;
        }
        le_read_u64(&src[0..8]) == HEAD_MARKER && le_read_u64(&src[8..16]) == HEAD_MARKER
            && le_read_u64(&src[16..24]) == HEAD3_MARKER && le_read_u64(&src[24..32])
            == HEAD4_MARKER && le_read_u64(&src[64..72]) == START_MARKER && le_read_u64(
            &src[TAIL_OFFSET..PKT_LEN],
        ) == TAIL_MARKER
    }

    /// The packet in `src`, which carries the markers of a packet.
    pub fn from_raw(src: &[u8]) -> (r: DbfDataFrame)
        requires
            raw_packet_ok(src@),
        ensures
            r.read_from(src@),
    {
        DbfDataFrame::from_bytes(src)
    }

    /// The packet laid out in the `PKT_LEN` bytes of `src`, as received from
    /// the network, whatever its markers say.
    pub fn from_bytes(src: &[u8]) -> (r: DbfDataFrame)
        requires
            src@.len() == PKT_LEN,
        ensures
            r.read_from(src@),
    {
        let mut head = [0u64; 9];
        le_read_u64_into(&src[0..PAYLOAD_OFFSET], &mut head);
        let mut payload = [0i16; PKT_PAYLOAD_LEN];
        le_read_i16_into(&src[PAYLOAD_OFFSET..TAIL_OFFSET], &mut payload);
        let tail = le_read_u64(&src[TAIL_OFFSET..PKT_LEN]);
        let result = DbfDataFrame {
            head1: head[0],
            head2: head[1],
            head3: head[2],
            head4: head[3],
            date: head[4],
            subsec: head[5],
            beam_id: head[6],
            pkt_id: head[7],
            start: head[8],
            payload,
            tail,
        };
        proof {
            let h = src@.subrange(0, PAYLOAD_OFFSET as int);
            assert forall|k: int| 0 <= k < 9 implies #[trigger] le64_at(h, 8 * k) == le64_at(src@, 8 * k) by {
                assert(h[8 * k] == src@[8 * k]);
                assert(h[8 * k + 1] == src@[8 * k + 1]);
                assert(h[8 * k + 2] == src@[8 * k + 2]);
                assert(h[8 * k + 3] == src@[8 * k + 3]);
                assert(h[8 * k + 4] == src@[8 * k + 4]);
                assert(h[8 * k + 5] == src@[8 * k + 5]);
                assert(h[8 * k + 6] == src@[8 * k + 6]);
                assert(h[8 * k + 7] == src@[8 * k + 7]);
            }
            assert(head@[0] == le64_at(h, 0));
            assert(head@[1] == le64_at(h, 8));
            assert(head@[2] == le64_at(h, 16));
            assert(head@[3] == le64_at(h, 24));
            assert(head@[4] == le64_at(h, 32));
            assert(head@[5] == le64_at(h, 40));
            assert(head@[6] == le64_at(h, 48));
            assert(head@[7] == le64_at(h, 56));
            assert(head@[8] == le64_at(h, 64));
            let p = src@.subrange(PAYLOAD_OFFSET as int, TAIL_OFFSET as int);
            assert forall|k: int| 0 <= k < PKT_PAYLOAD_LEN implies #[trigger] le16_at(p, 2 * k)
                == le16_at(src@, PAYLOAD_OFFSET + 2 * k) by {
                assert(p[2 * k] == src@[PAYLOAD_OFFSET + 2 * k]);
                assert(p[2 * k + 1] == src@[PAYLOAD_OFFSET + 2 * k + 1]);
            }
            assert(payload@ =~= le_i16s_at(src@, PAYLOAD_OFFSET as int, PKT_PAYLOAD_LEN as nat));
            let t = src@.subrange(TAIL_OFFSET as int, PKT_LEN as int);
            assert(t[0] == src@[TAIL_OFFSET as int]);
            assert(t[1] == src@[TAIL_OFFSET + 1]);
            assert(t[2] == src@[TAIL_OFFSET + 2]);
            assert(t[3] == src@[TAIL_OFFSET + 3]);
            assert(t[4] == src@[TAIL_OFFSET + 4]);
            assert(t[5] == src@[TAIL_OFFSET + 5]);
            assert(t[6] == src@[TAIL_OFFSET + 6]);
            assert(t[7] == src@[TAIL_OFFSET + 7]);
        }
        result
    }

    /// Appends the samples of the packet, two little-endian bytes each.
    pub fn write_payload(&self, out: &mut Vec<u8>)
        ensures
            final(out)@ == old(out)@ + i16s_le(self.payload@),
    {
        push_i16s_le(out, &self.payload);
    }
}

/// Writing out the samples of a packet read from `b` gives back the bytes
/// of `b` that hold them.
pub proof fn lemma_payload_bytes(f: DbfDataFrame, b: Seq<u8>)
    requires
        b.len() == PKT_LEN,
        f.read_from(b),
    ensures
        i16s_le(f.payload@) == b.subrange(PAYLOAD_OFFSET as int, TAIL_OFFSET as int),
{
    lemma_le_i16s_bytes(b, PAYLOAD_OFFSET as int, PKT_PAYLOAD_LEN as nat);
}

impl Default for DbfDataFrame {
    fn default() -> (r: DbfDataFrame)
        ensures
            r.head1 == 0 && r.head2 == 0 && r.head3 == 0 && r.head4 == 0,
            r.date == 0 && r.subsec == 0 && r.beam_id == 0 && r.pkt_id == 0,
            r.start == 0 && r.tail == 0,
            r.payload@ == Seq::new(PKT_PAYLOAD_LEN as nat, |i: int| 0i16),
    {
        let r = DbfDataFrame {
            head1: 0,
            head2: 0,
            head3: 0,
            head4: 0,
            date: 0,
            subsec: 0,
            beam_id: 0,
            pkt_id: 0,
            start: 0,
            payload: [0i16; PKT_PAYLOAD_LEN],
            tail: 0,
        };
        assert(r.payload@ =~= Seq::new(PKT_PAYLOAD_LEN as nat, |i: int| 0i16));
        r
    }
}

// ---------------------------------------------------------------------------
// Correlation frames
// ---------------------------------------------------------------------------

/// The samples of `NPKT_PER_CORR` consecutive packets, in packet order.
pub struct CorrDataFrame {
    pub corr_id: usize,
    pub payload: Vec<RawDataType>,
}

/// The correlation frame that packet `pkt_id` belongs to.
pub open spec fn corr_frame_of(pkt_id: u64) -> usize {
    (pkt_id as usize) / NPKT_PER_CORR
}

/// Where the samples of packet `pkt_id` start within its correlation frame.
pub open spec fn corr_offset_of(pkt_id: u64) -> int {
    ((pkt_id as usize) % NPKT_PER_CORR) as int * PKT_PAYLOAD_LEN as int
}

/// Packet `pkt_id` belongs to correlation frame `pkt_id / 32768`, and its
/// samples go to slot `pkt_id % 32768`, 4000 samples per slot.
pub proof fn lemma_frame_slot(pkt_id: u64)
    ensures
        corr_frame_of(pkt_id) == (pkt_id as usize) / 32768,
        corr_offset_of(pkt_id) == ((pkt_id as usize) % 32768) * 4000,
{
}

/// Copies the samples of a packet into `dst` from `offset` on.
pub(crate) fn place_samples(dst: &mut Vec<RawDataType>, offset: usize, src: &[i16; PKT_PAYLOAD_LEN])
    requires
        offset + PKT_PAYLOAD_LEN <= old(dst)@.len(),
    ensures
        final(dst)@ == old(dst)@.subrange(0, offset as int) + src@ + old(dst)@.subrange(
            offset + PKT_PAYLOAD_LEN,
            old(dst)@.len() as int,
        ),
{
    let ghost before = dst@;
    let n = dst.len();
    let mut j: usize = 0;
    while j < PKT_PAYLOAD_LEN
        invariant
            j <= PKT_PAYLOAD_LEN,
            n == before.len(),
            offset + PKT_PAYLOAD_LEN <= n,
            dst@.len() == before.len(),
            forall|k: int|
                0 <= k < before.len() ==> #[trigger] dst@[k] == if offset <= k < offset + j {
                    src@[k - offset]
                } else {
                    before[k]
                },
        decreases PKT_PAYLOAD_LEN - j,
    {
        dst.set(offset + j, src[j]);
        j = j + 1;
    }
    assert(dst@ =~= before.subrange(0, offset as int) + src@ + before.subrange(
        offset + PKT_PAYLOAD_LEN,
        before.len() as int,
    ));
}

impl CorrDataFrame {
    /// The frame has room for the samples of all its packets.
    pub open spec fn wf(self) -> bool {
        self.payload@.len() == CORR_PAYLOAD_LEN
    }

    /// The samples after those of `pkt` are copied to their place in `p`.
    pub open spec fn fill_spec(p: Seq<RawDataType>, pkt: DbfDataFrame) -> Seq<RawDataType> {
        let off = corr_offset_of(pkt.pkt_id);
        p.subrange(0, off) + pkt.payload@ + p.subrange(off + PKT_PAYLOAD_LEN, p.len() as int)
    }

    /// Copies the samples of `pkt` to their place in the frame, marks the
    /// frame with the packet's frame number and returns where the samples
    /// went. The frame must reach past the packet's place.
    pub fn fill(&mut self, pkt: &DbfDataFrame) -> (offset: usize)
        requires
            corr_offset_of(pkt.pkt_id) + PKT_PAYLOAD_LEN <= old(self).payload@.len(),
        ensures
            offset == corr_offset_of(pkt.pkt_id),
            final(self).corr_id == corr_frame_of(pkt.pkt_id),
            final(self).payload@ == CorrDataFrame::fill_spec(old(self).payload@, *pkt),
            final(self).payload@.len() == old(self).payload@.len(),
    {
        let pkt_id = pkt.pkt_id as usize;
        let corr_id = pkt_id / NPKT_PER_CORR;
        let slot = pkt_id - corr_id * NPKT_PER_CORR;
        assert(slot == pkt_id % NPKT_PER_CORR);
        let len = self.payload.len();
        assert(slot * PKT_PAYLOAD_LEN + PKT_PAYLOAD_LEN <= len);
        let offset = slot * PKT_PAYLOAD_LEN;
        place_samples(&mut self.payload, offset, &pkt.payload);
        self.corr_id = corr_id;
        offset
    }

    /// Empties the frame: frame number zero and every sample zero.
    pub fn clear(&mut self)
        ensures
            final(self).corr_id == 0,
            final(self).payload@ == Seq::new(old(self).payload@.len(), |i: int| 0i16),
    {
        self.corr_id = 0;
        let n = self.payload.len();
        let mut j: usize = 0;
        while j < n
            invariant
                j <= n,
                n == self.payload@.len(),
                self.corr_id == 0,
                forall|k: int| 0 <= k < j ==> #[trigger] self.payload@[k] == 0i16,
            decreases n - j,
        {
            self.payload[j] = 0;
            j = j + 1;
        }
        assert(self.payload@ =~= Seq::new(n as nat, |i: int| 0i16));
    }

    /// Appends the samples of one correlation frame, the first
    /// `CORR_PAYLOAD_LEN` of the payload, two little-endian bytes each.
    pub fn write_payload(&self, out: &mut Vec<u8>)
        requires
            self.payload@.len() >= CORR_PAYLOAD_LEN,
        ensures
            final(out)@ == old(out)@ + i16s_le(self.payload@.take(CORR_PAYLOAD_LEN as int)),
    {
        let frame = &self.payload.as_slice()[0..CORR_PAYLOAD_LEN];
        assert(frame@ =~= self.payload@.take(CORR_PAYLOAD_LEN as int));
        push_i16s_le(out, frame);
    }
}

impl Default for CorrDataFrame {
    fn default() -> (r: CorrDataFrame)
        ensures
            r.wf(),
            r.corr_id == 0,
            r.payload@ == Seq::new(CORR_PAYLOAD_LEN as nat, |i: int| 0i16),
    {
        let r = CorrDataFrame { corr_id: 0, payload: vec![0i16; CORR_PAYLOAD_LEN] };
        assert(r.payload@ =~= Seq::new(CORR_PAYLOAD_LEN as nat, |i: int| 0i16));
        r
    }
}

// ---------------------------------------------------------------------------
// Packet stream bookkeeping
// ---------------------------------------------------------------------------

/// What the arrival of one packet means for the correlation frame being filled.
#[derive(Debug, Clone, Copy, PartialEq, Eq)]
pub struct PushStep {
    /// The number of packets missing between the previous packet and this one,
    /// where the packet does not follow the previous one.
    pub dropped: Option<i64>,
    /// The correlation frame the packet belongs to.
    pub frame_id: usize,
    /// The packet is the last of its correlation frame: the frame is complete.
    pub completes_frame: bool,
}

/// The packet counter last seen on a stream of packets.
#[derive(Debug, Clone, Copy, PartialEq, Eq)]
pub struct CorrQueueState {
    pub last_pkt_id: Option<usize>,
}

/// The gap between packet `pkt_id` and the previous packet `last`, both
/// taken as signed 64-bit numbers.
pub open spec fn pkt_gap(last: usize, pkt_id: u64) -> int {
    (pkt_id as i64) as int - (last as i64) as int - 1
}

impl CorrQueueState {
    /// Packet `pkt_id` can be taken without an arithmetic overflow: its
    /// successor's number fits, and so does the gap to the previous packet
    /// where there is one.
    pub open spec fn push_allowed(self, pkt_id: u64) -> bool {
        &&& (pkt_id as usize) < usize::MAX
        &&& (self.last_pkt_id matches Some(l) ==> {
            &&& l < usize::MAX
            &&& l + 1 != pkt_id as usize ==> i64::MIN + 1 <= (pkt_id as i64) as int - (
            l as i64) as int <= i64::MAX
        })
    }

    /// The packets missing before `pkt_id`, where it does not follow the previous packet.
    pub open spec fn spec_dropped(self, pkt_id: u64) -> Option<i64> {
        match self.last_pkt_id {
            Some(l) => if l + 1 != pkt_id as usize {
                Some(pkt_gap(l, pkt_id) as i64)
            } else {
                None
            },
            None => None,
        }
    }

    /// No packet seen yet.
    pub fn new() -> (r: CorrQueueState)
        ensures
            r.last_pkt_id is None,
    {
        CorrQueueState { last_pkt_id: None }
    }

    /// Whether packet `pkt_id` can be taken.
    pub fn can_push(&self, pkt_id: u64) -> (r: bool)
        ensures
            r == self.push_allowed(pkt_id),
    {
        let id = pkt_id as usize;
        if id == usize::MAX {
            return false;
        }
        match self.last_pkt_id {
            None => true,
            Some(l) => {
                if l == usize::MAX {
                    false
                } else if l + 1 == id {
                    true
                } else {
                    let a = pkt_id as i64 as i128;
                    let b = l as i64 as i128;
                    i64::MIN as i128 + 1 <= a - b && a - b <= i64::MAX as i128
                }
            },
        }
    }

    /// Takes packet `pkt_id`: reports the packets missing before it, its
    /// correlation frame, and whether it completes that frame; it becomes the
    /// last packet seen.
    pub fn push(&mut self, pkt_id: u64) -> (r: PushStep)
        requires
            old(self).push_allowed(pkt_id),
        ensures
            final(self).last_pkt_id == Some(pkt_id as usize),
            r.dropped == old(self).spec_dropped(pkt_id),
            r.frame_id == corr_frame_of(pkt_id),
            r.completes_frame == ((pkt_id as usize + 1) / (NPKT_PER_CORR as int) != corr_frame_of(pkt_id)),
    {
        let id = pkt_id as usize;
        let frame_id = id / NPKT_PER_CORR;
        let dropped = match self.last_pkt_id {
            Some(last_pkt_id) => {
                if last_pkt_id + 1 != id {
                    Some(pkt_id as i64 - last_pkt_id as i64 - 1)
                } else {
                    None
                }
            },
            None => None,
        };
        self.last_pkt_id = Some(id);
        let next_frame_id = (id + 1) / NPKT_PER_CORR;
        PushStep { dropped, frame_id, completes_frame: next_frame_id != frame_id }
    }
}

/// A packet completes its correlation frame exactly when it is the last
/// packet of that frame.
pub proof fn lemma_completes_frame(pkt_id: u64)
    requires
        (pkt_id as usize) < usize::MAX,
    ensures
        ((pkt_id as usize + 1) / (NPKT_PER_CORR as int) != corr_frame_of(pkt_id)) <==> (pkt_id as usize)
            % NPKT_PER_CORR == NPKT_PER_CORR - 1,
{
    let id = (pkt_id as usize) as int;
    let n = NPKT_PER_CORR as int;
    assert(((id + 1) / n != id / n) <==> id % n == n - 1) by (nonlinear_arith)
        requires
            n == 32768,
            id >= 0,
    ;
}

/// The samples of `pkts`, in order, each copied to its place in `p`.
pub open spec fn fill_all(p: Seq<RawDataType>, pkts: Seq<DbfDataFrame>) -> Seq<RawDataType>
    decreases pkts.len(),
{
    if pkts.len() == 0 {
        p
    } else {
        CorrDataFrame::fill_spec(fill_all(p, pkts.drop_last()), pkts.last())
    }
}

/// The packet-counter state after taking the packets of `pkts` in order,
/// each push making its packet the last one seen.
pub open spec fn queue_after(s: CorrQueueState, pkts: Seq<DbfDataFrame>) -> CorrQueueState
    decreases pkts.len(),
{
    if pkts.len() == 0 {
        s
    } else {
        let prev = queue_after(s, pkts.drop_last());
        CorrQueueState { last_pkt_id: Some(pkts.last().pkt_id as usize), ..prev }
    }
}

/// `pkts` are the packets of correlation frame `c`, in order: packet `k`
/// carries the counter `c * NPKT_PER_CORR + k`.
pub open spec fn is_frame_run(pkts: Seq<DbfDataFrame>, c: int) -> bool {
    &&& pkts.len() == NPKT_PER_CORR
    &&& forall|k: int| 0 <= k < NPKT_PER_CORR ==> #[trigger] pkts[k].pkt_id == c * NPKT_PER_CORR + k
}

/// The samples of a whole frame run, packet after packet.
pub open spec fn run_samples(pkts: Seq<DbfDataFrame>) -> Seq<RawDataType> {
    Seq::new(
        CORR_PAYLOAD_LEN as nat,
        |x: int| pkts[x / PKT_PAYLOAD_LEN as int].payload@[x % PKT_PAYLOAD_LEN as int],
    )
}

proof fn lemma_slot_bounds(k: int, x: int)
    requires
        0 <= k,
        k * PKT_PAYLOAD_LEN <= x < k * PKT_PAYLOAD_LEN + PKT_PAYLOAD_LEN,
    ensures
        x / PKT_PAYLOAD_LEN as int == k,
        x % PKT_PAYLOAD_LEN as int == x - k * PKT_PAYLOAD_LEN,
{
    assert(x / 4000 == k && x % 4000 == x - k * 4000) by (nonlinear_arith)
        requires
            0 <= k,
            k * 4000 <= x < k * 4000 + 4000,
    ;
}

proof fn lemma_fill_prefix(p: Seq<RawDataType>, pkts: Seq<DbfDataFrame>, c: int, i: int)
    requires
        p.len() == CORR_PAYLOAD_LEN,
        is_frame_run(pkts, c),
        0 <= c,
        c * NPKT_PER_CORR + NPKT_PER_CORR <= usize::MAX,
        0 <= i <= NPKT_PER_CORR,
    ensures
        fill_all(p, pkts.take(i)) == Seq::new(
            CORR_PAYLOAD_LEN as nat,
            |x: int|
                if x < i * PKT_PAYLOAD_LEN {
                    pkts[x / PKT_PAYLOAD_LEN as int].payload@[x % PKT_PAYLOAD_LEN as int]
                } else {
                    p[x]
                },
        ),
    decreases i,
{
    let n = NPKT_PER_CORR as int;
    let want = Seq::new(
        CORR_PAYLOAD_LEN as nat,
        |x: int|
            if x < i * PKT_PAYLOAD_LEN {
                pkts[x / PKT_PAYLOAD_LEN as int].payload@[x % PKT_PAYLOAD_LEN as int]
            } else {
                p[x]
            },
    );
    if i == 0 {
        assert(pkts.take(0) =~= Seq::<DbfDataFrame>::empty());
        assert(fill_all(p, pkts.take(0)) == p);
        assert(i * PKT_PAYLOAD_LEN == 0) by (nonlinear_arith)
            requires
                i == 0,
        ;
        assert forall|x: int| 0 <= x < CORR_PAYLOAD_LEN implies #[trigger] want[x] == p[x] by {}
        assert(p =~= want);
    } else {
        let k = i - 1;
        lemma_fill_prefix(p, pkts, c, k);
        let t = pkts.take(i);
        assert(t.drop_last() =~= pkts.take(k));
        assert(t.last() == pkts[k]);
        let prev = fill_all(p, pkts.take(k));
        let pkt = pkts[k];
        let id = c * n + k;
        assert(pkt.pkt_id == id);
        assert(pkt.pkt_id as usize == id);
        assert(id % n == k) by (nonlinear_arith)
            requires
                0 <= k < n,
                0 <= c,
                id == c * n + k,
        ;
        assert(corr_offset_of(pkt.pkt_id) == k * PKT_PAYLOAD_LEN);
        let off = k * PKT_PAYLOAD_LEN;
        assert(off + PKT_PAYLOAD_LEN <= CORR_PAYLOAD_LEN) by (nonlinear_arith)
            requires
                0 <= k < n,
                n == 32768,
                off == k * 4000,
        ;
        assert(i * PKT_PAYLOAD_LEN == off + PKT_PAYLOAD_LEN) by (nonlinear_arith)
            requires
                i == k + 1,
                off == k * 4000,
        ;
        let got = CorrDataFrame::fill_spec(prev, pkt);
        assert(got == fill_all(p, t));
        assert forall|x: int| 0 <= x < CORR_PAYLOAD_LEN implies #[trigger] got[x] == want[x] by {
            if x < off {
                assert(x < k * PKT_PAYLOAD_LEN);
            } else if x < off + PKT_PAYLOAD_LEN {
                lemma_slot_bounds(k, x);
                assert(x < i * PKT_PAYLOAD_LEN);
            } else {
                assert(x >= i * PKT_PAYLOAD_LEN);
            }
        }
        assert(got =~= want);
    }
}

/// The packets of one correlation frame, taken one after the other, fill the
/// frame: none of them reports dropped packets after the first, each one
/// belongs to the frame, only the last one completes it (so the frame is
/// handed on exactly once), the frame then holds the samples of all of
/// them, packet after packet, whatever it held before, and the last packet
/// seen is the frame's last.
pub proof fn lemma_frame_run(p: Seq<RawDataType>, s: CorrQueueState, pkts: Seq<DbfDataFrame>, c: int)
    requires
        p.len() == CORR_PAYLOAD_LEN,
        is_frame_run(pkts, c),
        0 <= c,
        c * NPKT_PER_CORR + NPKT_PER_CORR <= usize::MAX,
    ensures
        forall|k: int|
            0 <= k < NPKT_PER_CORR ==> corr_frame_of(#[trigger] pkts[k].pkt_id) == c,
        forall|k: int|
            0 <= k < NPKT_PER_CORR ==> (((#[trigger] pkts[k].pkt_id as usize + 1) / (
            NPKT_PER_CORR as int) != corr_frame_of(pkts[k].pkt_id)) <==> k == NPKT_PER_CORR - 1),
        forall|k: int|
            1 <= k < NPKT_PER_CORR ==> (CorrQueueState {
                last_pkt_id: Some(pkts[k - 1].pkt_id as usize),
            }).spec_dropped(#[trigger] pkts[k].pkt_id) is None,
        fill_all(p, pkts) == run_samples(pkts),
        queue_after(s, pkts).last_pkt_id == Some((c * NPKT_PER_CORR + NPKT_PER_CORR - 1) as usize),
{
    assert(pkts.last() == pkts[NPKT_PER_CORR - 1]);
    assert(pkts[NPKT_PER_CORR - 1].pkt_id == c * NPKT_PER_CORR + NPKT_PER_CORR - 1);
    assert forall|k: int| 0 <= k < NPKT_PER_CORR implies corr_frame_of(#[trigger] pkts[k].pkt_id)
        == c && (((pkts[k].pkt_id as usize + 1) / (NPKT_PER_CORR as int) != corr_frame_of(
        pkts[k].pkt_id)) <==> k == NPKT_PER_CORR - 1) by {
        lemma_run_packet(pkts[k].pkt_id, c, k);
    }
    assert forall|k: int| 1 <= k < NPKT_PER_CORR implies (CorrQueueState {
        last_pkt_id: Some(pkts[k - 1].pkt_id as usize),
    }).spec_dropped(#[trigger] pkts[k].pkt_id) is None by {
        assert(pkts[k - 1].pkt_id == c * NPKT_PER_CORR + k - 1);
        assert(pkts[k].pkt_id == c * NPKT_PER_CORR + k);
    }
    lemma_fill_run(p, pkts, c);
}

proof fn lemma_run_packet(pkt_id: u64, c: int, k: int)
    requires
        0 <= c,
        0 <= k < NPKT_PER_CORR,
        c * NPKT_PER_CORR + NPKT_PER_CORR <= usize::MAX,
        pkt_id == c * NPKT_PER_CORR + k,
    ensures
        corr_frame_of(pkt_id) == c,
        ((pkt_id as usize + 1) / (NPKT_PER_CORR as int) != corr_frame_of(pkt_id)) <==> k
            == NPKT_PER_CORR - 1,
{
    let n = NPKT_PER_CORR as int;
    let id = c * n + k;
    assert(pkt_id as usize == id);
    assert(id / n == c && id % n == k) by (nonlinear_arith)
        requires
            0 <= k < n,
            0 <= c,
            id == c * n + k,
    ;
    lemma_completes_frame(pkt_id);
}

proof fn lemma_fill_run(p: Seq<RawDataType>, pkts: Seq<DbfDataFrame>, c: int)
    requires
        p.len() == CORR_PAYLOAD_LEN,
        is_frame_run(pkts, c),
        0 <= c,
        c * NPKT_PER_CORR + NPKT_PER_CORR <= usize::MAX,
    ensures
        fill_all(p, pkts) == run_samples(pkts),
{
    let n = NPKT_PER_CORR as int;
    lemma_fill_prefix(p, pkts, c, n);
    assert(pkts.take(n) =~= pkts);
    let got = fill_all(p, pkts);
    assert(n * PKT_PAYLOAD_LEN == CORR_PAYLOAD_LEN);
    assert forall|x: int| 0 <= x < CORR_PAYLOAD_LEN implies #[trigger] got[x] == run_samples(pkts)[x] by {}
    assert(got =~= run_samples(pkts));
}

} // verus!
