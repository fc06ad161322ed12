//! Beamforming weights of a station: which antenna ports take part, and the
//! file image of a weight table.
//!
//! A weight table holds one complex weight per frequency channel and port
//! of a station, channel by channel. Its file image holds each weight as its
//! real and imaginary part, scaled to signed 16-bit integers, two
//! little-endian bytes each.
use vstd::prelude::*;
use crate::bytes::{i16s_le, le_i16s_at, push_i16s_le, read_le_i16s};
use crate::cfg::{NCH_TOTAL, NPORTS_PER_STATION};

verus! {

/// Number of 16-bit values in a weight table: real and imaginary part of
/// each weight.
pub const WGT_WORDS: usize = NCH_TOTAL * NPORTS_PER_STATION * 2;

/// Length in bytes of the file image of a weight table.
pub const WGT_RAW_LEN: usize = WGT_WORDS * 2;

/// Which ports of a station take part in beamforming.
#[derive(Debug, Clone)]
pub enum WgtFlags {
    /// Only the listed ports.
    Enable(Vec<usize>),
    /// All ports but the listed ones.
    Disable(Vec<usize>),
    /// All ports (no port flagged).
    AllPorts,
}

/// Every listed port is a port of the station.
pub open spec fn ports_valid(pid: Seq<usize>) -> bool {
    forall|i: int| 0 <= i < pid.len() ==> #[trigger] pid[i] < NPORTS_PER_STATION
}

/// The mask with the listed ports set to `value` and the others to `!value`.
pub open spec fn spec_ports_mask(pid: Seq<usize>, value: bool) -> Seq<bool> {
    Seq::new(NPORTS_PER_STATION as nat, |p: int| if pid.contains(p as usize) { value } else { !value })
}

impl WgtFlags {
    /// The flags name only ports of the station.
    pub open spec fn wf(self) -> bool {
        match self {
            WgtFlags::Enable(v) => ports_valid(v@),
            WgtFlags::Disable(v) => ports_valid(v@),
            WgtFlags::AllPorts => true,
        }
    }

    /// For each port of the station, whether it takes part.
    pub open spec fn spec_mask(self) -> Seq<bool> {
        match self {
            WgtFlags::Enable(v) => spec_ports_mask(v@, true),
            WgtFlags::Disable(v) => spec_ports_mask(v@, false),
            WgtFlags::AllPorts => Seq::new(NPORTS_PER_STATION as nat, |p: int| true),
        }
    }

    /// For each port of the station, whether it takes part.
    pub fn port_mask(&self) -> (r: Vec<bool>)
        requires
            self.wf(),
        ensures
            r@ == self.spec_mask(),
    {
        match self {
            WgtFlags::Enable(v) => ports_mask(v.as_slice(), true),
            WgtFlags::Disable(v) => ports_mask(v.as_slice(), false),
            WgtFlags::AllPorts => {
                let r = vec![true; NPORTS_PER_STATION];
                assert(r@ =~= Seq::new(NPORTS_PER_STATION as nat, |p: int| true));
                r
            },
        }
    }
}

/// For each port of the station, `value` where it is listed in `pid` and
/// `!value` where it is not.
pub fn ports_mask(pid: &[usize], value: bool) -> (r: Vec<bool>)
    requires
        ports_valid(pid@),
    ensures
        r@ == spec_ports_mask(pid@, value),
{
    let mut r = vec![!value; NPORTS_PER_STATION];
    let n = pid.len();
    let mut i: usize = 0;
    while i < n
        invariant
            n == pid@.len(),
            i <= n,
            ports_valid(pid@),
            r@.len() == NPORTS_PER_STATION,
            forall|p: int|
                0 <= p < NPORTS_PER_STATION ==> #[trigger] r@[p] == if pid@.take(i as int).contains(
                    p as usize,
                ) {
                    value
                } else {
                    !value
                },
        decreases n - i,
    {
        let q = pid[i];
        r.set(q, value);
        proof {
            let t = pid@.take(i as int + 1);
            assert(t =~= pid@.take(i as int).push(q));
            assert forall|p: int| 0 <= p < NPORTS_PER_STATION implies #[trigger] r@[p] == if t.contains(
                p as usize,
            ) {
                value
            } else {
                !value
            } by {
                if p == q as int {
                    assert(t[i as int] == q);
                } else {
                    if t.contains(p as usize) {
                        let k = choose|k: int| 0 <= k < t.len() && t[k] == p as usize;
                        assert(pid@.take(i as int)[k] == p as usize);
                    }
                    if pid@.take(i as int).contains(p as usize) {
                        let k = choose|k: int| 0 <= k < i && pid@.take(i as int)[k] == p as usize;
                        assert(t[k] == p as usize);
                    }
                }
            }
        }
        i = i + 1;
    }
    assert(pid@.take(n as int) =~= pid@);
    assert(r@ =~= spec_ports_mask(pid@, value));
    r
}

/// Enabling a list of ports turns on exactly the listed ports; disabling
/// it turns off exactly the listed ports; with no flags every port is on.
pub proof fn lemma_port_masks(pid: Seq<usize>, p: int)
    requires
        0 <= p < NPORTS_PER_STATION,
    ensures
        spec_ports_mask(pid, true)[p] == pid.contains(p as usize),
        spec_ports_mask(pid, false)[p] == !pid.contains(p as usize),
        WgtFlags::AllPorts.spec_mask()[p],
        WgtFlags::AllPorts.spec_mask().len() == NPORTS_PER_STATION,
{
}

/// Enabling a list of ports and disabling the same list give opposite
/// masks: a port takes part in one exactly when it does not in the other.
pub proof fn lemma_enable_disable_complement(pid: Seq<usize>)
    ensures
        spec_ports_mask(pid, true).len() == NPORTS_PER_STATION,
        spec_ports_mask(pid, false).len() == NPORTS_PER_STATION,
        forall|p: int|
            0 <= p < NPORTS_PER_STATION ==> #[trigger] spec_ports_mask(pid, true)[p] == !spec_ports_mask(
                pid,
                false,
            )[p],
{
}

/// The file image of a weight table given as its 16-bit values.
pub fn wgt_to_bytes(words: &[i16]) -> (r: Vec<u8>)
    requires
        words@.len() == WGT_WORDS,
    ensures
        r@ == i16s_le(words@),
{
    let mut r: Vec<u8> = Vec::new();
    push_i16s_le(&mut r, words);
    r
}

/// The 16-bit values of a weight table in its file image.
pub fn wgt_from_bytes(bytes: &[u8]) -> (r: Vec<i16>)
    requires
        bytes@.len() == WGT_RAW_LEN,
    ensures
        r@ == le_i16s_at(bytes@, 0, WGT_WORDS as nat),
{
    read_le_i16s(bytes, 0, WGT_WORDS)
}

} // verus!
