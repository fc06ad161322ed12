//! Fixed geometry of the beamformer data streams and of the station hardware.
use vstd::prelude::*;

verus! {

/// Coarse channels carried by one data stream.
pub const NCH_PER_STREAM: usize = 100;

/// Time frames carried by one data packet.
pub const NFRAME_PER_PKT: usize = 20;

/// Samples (interleaved real and imaginary parts) in the payload of one data packet.
pub const PKT_PAYLOAD_LEN: usize = NCH_PER_STREAM * 2 * NFRAME_PER_PKT;

/// The sample type of the raw data streams.
pub type RawDataType = i16;

/// Packets gathered into one correlation frame (2^15).
pub const NPKT_PER_CORR: usize = 32768;

/// Time frames gathered into one correlation frame.
pub const NFRAME_PER_CORR: usize = NPKT_PER_CORR * NFRAME_PER_PKT;

/// Samples in the payload of one correlation frame.
pub const CORR_PAYLOAD_LEN: usize = PKT_PAYLOAD_LEN * NPKT_PER_CORR;

/// Frequency channels of the beamformer.
pub const NCH_TOTAL: usize = 512;

/// Beams formed by the beamformer.
pub const NBEAMS: usize = 2;

/// Antenna ports of the whole array.
pub const NPORTS_TOTAL: usize = 16;

/// Antenna ports of one station.
pub const NPORTS_PER_STATION: usize = 8;

/// Samples per channel block of the beamformer.
pub const SMP_LEN: usize = 1024;

/// Length in bytes of one raw data packet: nine 64-bit header words,
/// the 16-bit payload samples and one 64-bit tail word.
pub const PKT_LEN: usize = 9 * 8 + PKT_PAYLOAD_LEN * 2 + 8;

} // verus!
