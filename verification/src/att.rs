//! Attenuator settings of a station.
//!
//! The file image of the settings is one little-endian 16-bit word per
//! antenna port of the station.
use vstd::prelude::*;
use crate::bytes::{le16_at, le_u16s_at, lemma_u16s_le_roundtrip, push_u16s_le, u16s_le};
use crate::cfg::NPORTS_PER_STATION;

verus! {

/// Attenuation of each antenna port of a station.
#[derive(Debug, Clone)]
pub struct AttCfg {
    pub value: Vec<u16>,
}

impl Default for AttCfg {
    fn default() -> (r: AttCfg)
        ensures
            r.value@ == Seq::new(NPORTS_PER_STATION as nat, |i: int| 0u16),
    {
        let r = AttCfg { value: vec![0u16; NPORTS_PER_STATION] };
        assert(r.value@ =~= Seq::new(NPORTS_PER_STATION as nat, |i: int| 0u16));
        r
    }
}

impl AttCfg {
    /// The file image of the settings: the first `NPORTS_PER_STATION` values,
    /// two little-endian bytes each.
    pub open spec fn spec_raw(self) -> Seq<u8> {
        u16s_le(self.value@.take(NPORTS_PER_STATION as int))
    }

    /// Appends the file image of the settings.
    pub fn write(&self, w: &mut Vec<u8>)
        requires
            self.value@.len() >= NPORTS_PER_STATION,
        ensures
            final(w)@ == old(w)@ + self.spec_raw(),
    {
        let ports = &self.value.as_slice()[0..NPORTS_PER_STATION];
        push_u16s_le(w, ports);
    }
}

/// The file image of attenuator settings is 16 bytes: the value of port
/// `k`, for each of the eight ports, as the little-endian pair of bytes
/// `2 * k` and `2 * k + 1`; values beyond the eighth are not written.
pub proof fn lemma_att_layout(a: AttCfg, k: int)
    requires
        a.value@.len() >= NPORTS_PER_STATION,
        0 <= k < NPORTS_PER_STATION,
    ensures
        a.spec_raw().len() == 16,
        le16_at(a.spec_raw(), 2 * k) == a.value@[k],
{
    let s = a.value@.take(NPORTS_PER_STATION as int);
    lemma_u16s_le_roundtrip(s);
    assert(le_u16s_at(a.spec_raw(), 0, 8)[k] == s[k]);
}

} // verus!
