//! Geometry of the polyphase channelizer and of the correlator that works on
//! its output. The signal processing itself runs in an accelerator library;
//! what is decided here is how large its buffers are and whether two
//! channelizers and a correlator fit together.
use vstd::prelude::*;
use crate::cfg::NCH_PER_STREAM;

verus! {

/// The shape of a channelizer: time steps per call, coarse channels in, and
/// fine channels made of each coarse channel.
#[derive(Debug, Clone, Copy, PartialEq, Eq)]
pub struct CspChannelizer {
    pub nsteps: usize,
    pub nch_coarse: usize,
    pub nch_fine_per_coarse_full: usize,
}

/// The shape of a correlator: fine channels and time steps.
#[derive(Debug, Clone, Copy, PartialEq, Eq)]
pub struct Correlator {
    pub nsteps: usize,
    pub nch: usize,
}

fn mul_fits(a: usize, b: usize) -> (r: Option<usize>)
    ensures
        match r {
            Some(p) => p == a * b,
            None => a * b > usize::MAX,
        },
{
    a.checked_mul(b)
}

impl CspChannelizer {
    /// Samples in the input of one call on a full data stream: real and
    /// imaginary part of each stream channel at each time step.
    pub fn input_buf_len(&self) -> (r: usize)
        requires
            NCH_PER_STREAM * self.nsteps * 2 <= usize::MAX,
        ensures
            r == NCH_PER_STREAM * self.nsteps * 2,
    {
        NCH_PER_STREAM * self.nsteps * 2
    }

    /// Values in the output of one call on a full data stream.
    pub fn output_buf_len(&self) -> (r: usize)
        requires
            NCH_PER_STREAM * self.nsteps <= usize::MAX,
        ensures
            r == NCH_PER_STREAM * self.nsteps,
    {
        NCH_PER_STREAM * self.nsteps
    }

    /// Whether an input of `len` samples fits the channelizer: two per coarse
    /// channel and time step (and that count fits in `usize`).
    pub fn accepts_input(&self, len: usize) -> (r: bool)
        ensures
            r == (self.nsteps * self.nch_coarse * 2 <= usize::MAX && len == self.nsteps
                * self.nch_coarse * 2),
    {
        match mul_fits(self.nsteps, self.nch_coarse) {
            None => {
                assert(self.nsteps * self.nch_coarse * 2 > usize::MAX) by (nonlinear_arith)
                    requires
                        self.nsteps * self.nch_coarse > usize::MAX,
                ;
                false
            },
            Some(n) => match mul_fits(n, 2) {
                None => false,
                Some(m) => len == m,
            },
        }
    }

    /// Whether an output of `len` values fits the channelizer: one per coarse
    /// channel and time step (and that count fits in `usize`).
    pub fn accepts_output(&self, len: usize) -> (r: bool)
        ensures
            r == (self.nsteps * self.nch_coarse <= usize::MAX && len == self.nsteps
                * self.nch_coarse),
    {
        match mul_fits(self.nsteps, self.nch_coarse) {
            None => false,
            Some(n) => len == n,
        }
    }
}

impl Correlator {
    /// The correlator, the two channelizers and a result of `result_len`
    /// values fit together: the result holds a complex value per fine
    /// channel; the channelizers make as many fine channels, over as many
    /// samples, as the correlator takes; and both channelizers have the same
    /// shape.
    pub open spec fn spec_shapes_match(
        self,
        ch1: CspChannelizer,
        ch2: CspChannelizer,
        result_len: usize,
    ) -> bool {
        &&& self.nch * 2 <= usize::MAX
        &&& ch1.nch_coarse * ch1.nch_fine_per_coarse_full <= usize::MAX
        &&& self.nch * self.nsteps * 2 <= usize::MAX
        &&& ch1.nch_coarse * ch1.nsteps <= usize::MAX
        &&& result_len == self.nch * 2
        &&& self.nch * 2 == ch1.nch_coarse * ch1.nch_fine_per_coarse_full
        &&& self.nch * self.nsteps * 2 == ch1.nch_coarse * ch1.nsteps
        &&& ch1.nsteps == ch2.nsteps
        &&& ch1.nch_coarse == ch2.nch_coarse
        &&& ch1.nch_fine_per_coarse_full == ch2.nch_fine_per_coarse_full
    }

    /// Whether the correlator can correlate the output of `ch1` and `ch2` into
    /// a result of `result_len` values.
    pub fn shapes_match(&self, ch1: &CspChannelizer, ch2: &CspChannelizer, result_len: usize) -> (r: bool)
        ensures
            r == self.spec_shapes_match(*ch1, *ch2, result_len),
    {
        let a = mul_fits(self.nch, 2);
        let b = mul_fits(ch1.nch_coarse, ch1.nch_fine_per_coarse_full);
        let c0 = mul_fits(self.nch, self.nsteps);
        let d = mul_fits(ch1.nch_coarse, ch1.nsteps);
        match (a, b, c0, d) {
            (Some(a), Some(b), Some(c0), Some(d)) => {
                let c = mul_fits(c0, 2);
                match c {
                    Some(c) => {
                        result_len == a && a == b && c == d && ch1.nsteps == ch2.nsteps
                            && ch1.nch_coarse == ch2.nch_coarse && ch1.nch_fine_per_coarse_full
                            == ch2.nch_fine_per_coarse_full
                    },
                    None => false,
                }
            },
            _ => {
                proof {
                    if c0 is None {
                        assert(self.nch * self.nsteps * 2 > usize::MAX) by (nonlinear_arith)
                            requires
                                self.nch * self.nsteps > usize::MAX,
                        ;
                    }
                }
                false
            },
        }
    }
}

/// A correlator fits two channelizers and a result buffer exactly when
/// the two channelizers have the same shape, the result holds a complex
/// value (two numbers) per fine channel of the correlator, the channelizers
/// make as many fine channels as the correlator takes, and they deliver as
/// many values as the correlator reads (all counts fitting in `usize`).
pub proof fn lemma_shapes_match(
    c: Correlator,
    ch1: CspChannelizer,
    ch2: CspChannelizer,
    result_len: usize,
)
    ensures
        c.spec_shapes_match(ch1, ch2, result_len) <==> {
            &&& ch1 == ch2
            &&& result_len == 2 * c.nch
            &&& ch1.nch_coarse * ch1.nch_fine_per_coarse_full == 2 * c.nch
            &&& ch1.nch_coarse * ch1.nsteps == 2 * c.nch * c.nsteps
            &&& ch1.nch_coarse * ch1.nsteps <= usize::MAX
        },
{
    assert(c.nch * c.nsteps * 2 == 2 * c.nch * c.nsteps) by (nonlinear_arith);
    assert(c.nch * 2 == 2 * c.nch);
}

} // verus!
