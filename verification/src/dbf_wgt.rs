//! The beamformer's weight coefficients: one complex 16-bit weight per
//! frequency channel, antenna port and beam, held in a three-dimensional
//! `ndarray` array (channel, port, beam) in row-major order.
//!
//! Their file image holds the weights in that order, each as its real and
//! its imaginary part, two big-endian bytes each.
use vstd::prelude::*;
use ndarray::{Array3, ArrayView1};
use crate::bytes::{be16, be16_at, lemma_be16_roundtrip, push_be16, read_be16};
use crate::cfg::{NBEAMS, NCH_TOTAL, NPORTS_PER_STATION, NPORTS_TOTAL};

verus! {

/// A complex number with 16-bit integer parts.
#[derive(Debug, Clone, Copy, PartialEq, Eq, Default)]
pub struct ComplexI16 {
    pub re: i16,
    pub im: i16,
}

/// Number of weights in a coefficient table.
pub const NCOEFFS: usize = NCH_TOTAL * NPORTS_TOTAL * NBEAMS;

/// Length in bytes of the file image of a coefficient table.
pub const COEFFS_RAW_LEN: usize = NCOEFFS * 4;

/// A three-dimensional `ndarray` array of weights.
#[verifier::external_body]
pub struct CoeffGrid {
    grid: Array3<ComplexI16>,
}

/// The weights of the grid in row-major order.
pub uninterp spec fn grid_elems(g: CoeffGrid) -> Seq<ComplexI16>;

/// The lengths of the three axes of the grid.
pub uninterp spec fn grid_shape(g: CoeffGrid) -> Seq<usize>;

/// Calls `ArrayView1::from`, `into_shape` and `to_owned`: a grid of shape
/// `(d0, d1, d2)` holding `data` in row-major order. `into_shape` fails (and
/// the call panics) where the shape does not hold exactly `data.len()`
/// elements, or where the product of its non-zero axes exceeds `isize::MAX`;
/// the precondition rules out both.
#[verifier::external_body]
fn grid_from_slice(data: &[ComplexI16], d0: usize, d1: usize, d2: usize) -> (g: CoeffGrid)
    requires
        d0 > 0,
        d1 > 0,
        d2 > 0,
        d0 * d1 * d2 <= isize::MAX,
        data@.len() == d0 * d1 * d2,
    ensures
        grid_elems(g) == data@,
        grid_shape(g) == seq![d0, d1, d2],
{
    CoeffGrid {
        grid: ArrayView1::from(data).into_shape((d0, d1, d2)).expect("unable to reshape").to_owned(),
    }
}

/// Calls the `Index<(usize, usize, usize)>` impl: the weight at `(i, j, k)`.
/// It panics outside the shape.
#[verifier::external_body]
fn grid_get(g: &CoeffGrid, i: usize, j: usize, k: usize) -> (r: ComplexI16)
    requires
        grid_shape(*g).len() == 3,
        i < grid_shape(*g)[0],
        j < grid_shape(*g)[1],
        k < grid_shape(*g)[2],
    ensures
        r == grid_elems(*g)[(i * grid_shape(*g)[1] + j) * grid_shape(*g)[2] + k],
{
    g.grid[(i, j, k)]
}

/// Calls the `IndexMut<(usize, usize, usize)>` impl: stores `x` at
/// `(i, j, k)`. It panics outside the shape.
#[verifier::external_body]
fn grid_set(g: &mut CoeffGrid, i: usize, j: usize, k: usize, x: ComplexI16)
    requires
        grid_shape(*old(g)).len() == 3,
        i < grid_shape(*old(g))[0],
        j < grid_shape(*old(g))[1],
        k < grid_shape(*old(g))[2],
    ensures
        grid_shape(*final(g)) == grid_shape(*old(g)),
        grid_elems(*final(g)) == grid_elems(*old(g)).update(
            (i * grid_shape(*old(g))[1] + j) * grid_shape(*old(g))[2] + k,
            x,
        ),
{
    g.grid[(i, j, k)] = x;
}

/// Calls `iter` and collects: the weights of the grid in row-major order.
#[verifier::external_body]
fn grid_to_vec(g: &CoeffGrid) -> (r: Vec<ComplexI16>)
    ensures
        r@ == grid_elems(*g),
{
    g.grid.iter().copied().collect()
}

impl Clone for CoeffGrid {
    /// Calls `Array3::clone`: a grid with the same shape and weights.
    #[verifier::external_body]
    fn clone(&self) -> (r: CoeffGrid)
        ensures
            grid_elems(r) == grid_elems(*self),
            grid_shape(r) == grid_shape(*self),
    {
        CoeffGrid { grid: self.grid.clone() }
    }
}

/// Where the weight of channel `ch`, port `pid` and beam `beam` stands in row-major order.
pub open spec fn coeff_index(ch: int, pid: int, beam: int) -> int {
    (ch * NPORTS_TOTAL + pid) * NBEAMS + beam
}

/// The weight with the phase reversed.
pub open spec fn conj(x: ComplexI16) -> ComplexI16 {
    ComplexI16 { re: x.re, im: (-x.im) as i16 }
}

/// The file image of one weight: real, then imaginary part, big-endian.
pub open spec fn complex_be(x: ComplexI16) -> Seq<u8> {
    be16(x.re as u16) + be16(x.im as u16)
}

/// The file image of a sequence of weights.
pub open spec fn complexes_be(s: Seq<ComplexI16>) -> Seq<u8> {
    Seq::new(4 * s.len(), |k: int| complex_be(s[k / 4])[k % 4])
}

/// The `n` weights in the file image `b`.
pub open spec fn be_complexes_at(b: Seq<u8>, n: nat) -> Seq<ComplexI16> {
    Seq::new(n, |k: int| ComplexI16 { re: be16_at(b, 4 * k) as i16, im: be16_at(b, 4 * k + 2) as i16 })
}

/// The weight coefficients of the beamformer.
#[derive(Clone)]
pub struct DbfCoeffs(pub CoeffGrid);

impl DbfCoeffs {
    /// The table has the shape (channels, ports, beams).
    pub open spec fn wf(self) -> bool {
        &&& grid_shape(self.0) == seq![NCH_TOTAL, NPORTS_TOTAL, NBEAMS]
        &&& grid_elems(self.0).len() == NCOEFFS
    }

    /// The weights in row-major order.
    pub open spec fn spec_elems(self) -> Seq<ComplexI16> {
        grid_elems(self.0)
    }

    /// The table holding `data` in row-major order.
    pub fn new(data: &[ComplexI16]) -> (r: DbfCoeffs)
        requires
            data@.len() == NCOEFFS,
        ensures
            r.wf(),
            r.spec_elems() == data@,
    {
        DbfCoeffs(grid_from_slice(data, NCH_TOTAL, NPORTS_TOTAL, NBEAMS))
    }

    /// The weight of port `port_id` of station `board_id`, channel `ch`, beam `beam_id`.
    pub fn get_wgt(self, board_id: usize, port_id: usize, ch: usize, beam_id: usize) -> (r: ComplexI16)
        requires
            self.wf(),
            board_id * NPORTS_PER_STATION + port_id < NPORTS_TOTAL,
            ch < NCH_TOTAL,
            beam_id < NBEAMS,
        ensures
            r == self.spec_elems()[coeff_index(
                ch as int,
                board_id * NPORTS_PER_STATION + port_id,
                beam_id as int,
            )],
    {
        let pid = board_id * NPORTS_PER_STATION + port_id;
        grid_get(&self.0, ch, pid, beam_id)
    }

    /// Sets the weight of port `port_id` of station `board_id`, channel `ch`, beam `beam_id`.
    pub fn set_wgt(&mut self, x: ComplexI16, board_id: usize, port_id: usize, ch: usize, beam_id: usize)
        requires
            old(self).wf(),
            board_id * NPORTS_PER_STATION + port_id < NPORTS_TOTAL,
            ch < NCH_TOTAL,
            beam_id < NBEAMS,
        ensures
            final(self).wf(),
            final(self).spec_elems() == old(self).spec_elems().update(
                coeff_index(ch as int, board_id * NPORTS_PER_STATION + port_id, beam_id as int),
                x,
            ),
    {
        let pid = board_id * NPORTS_PER_STATION + port_id;
        grid_set(&mut self.0, ch, pid, beam_id, x);
    }

    /// The table in its file image.
    pub fn read_from(bytes: &[u8]) -> (r: DbfCoeffs)
        requires
            bytes@.len() == COEFFS_RAW_LEN,
        ensures
            r.wf(),
            r.spec_elems() == be_complexes_at(bytes@, NCOEFFS as nat),
    {
        let mut data: Vec<ComplexI16> = Vec::new();
        let mut k: usize = 0;
        while k < NCOEFFS
            invariant
                k <= NCOEFFS,
                bytes@.len() == COEFFS_RAW_LEN,
                data@ == be_complexes_at(bytes@, k as nat),
            decreases NCOEFFS - k,
        {
            let re = read_be16(bytes, 4 * k) as i16;
            let im = read_be16(bytes, 4 * k + 2) as i16;
            data.push(ComplexI16 { re, im });
            assert(data@ =~= be_complexes_at(bytes@, (k + 1) as nat));
            k = k + 1;
        }
        DbfCoeffs::new(data.as_slice())
    }

    /// Appends the file image of the table.
    pub fn write_to(&self, w: &mut Vec<u8>)
        requires
            self.wf(),
        ensures
            final(w)@ == old(w)@ + complexes_be(self.spec_elems()),
    {
        let data = grid_to_vec(&self.0);
        let ghost start = w@;
        let n = data.len();
        let mut k: usize = 0;
        while k < n
            invariant
                k <= n,
                n == data@.len(),
                w@ == start + complexes_be(data@.take(k as int)),
            decreases n - k,
        {
            let x = data[k];
            push_be16(w, x.re as u16);
            push_be16(w, x.im as u16);
            proof {
                let t = data@.take(k as int + 1);
                let e = complexes_be(data@.take(k as int)) + complex_be(x);
                assert forall|j: int| 0 <= j < 4 * (k + 1) implies complexes_be(t)[j] == e[j] by {
                    if j < 4 * k {
                        assert(j / 4 < k && 0 <= j / 4) by (nonlinear_arith)
                            requires
                                0 <= j < 4 * k,
                        ;
                    } else {
                        assert(j / 4 == k && j % 4 == j - 4 * k) by (nonlinear_arith)
                            requires
                                4 * k <= j < 4 * k + 4,
                        ;
                    }
                }
                assert(complexes_be(t) =~= e);
            }
            k = k + 1;
        }
        assert(data@.take(n as int) =~= data@);
    }

    /// Reverses the phase of every weight: each imaginary part is negated.
    pub fn reverse_phase(&mut self)
        requires
            old(self).wf(),
            forall|i: int| 0 <= i < old(self).spec_elems().len() ==> #[trigger] old(self).spec_elems()[i].im != i16::MIN,
        ensures
            final(self).wf(),
            final(self).spec_elems() == old(self).spec_elems().map_values(|x: ComplexI16| conj(x)),
    {
        let mut data = grid_to_vec(&self.0);
        let ghost before = data@;
        let n = data.len();
        assert forall|i: int| 0 <= i < n implies #[trigger] before[i].im != i16::MIN by {
            assert(old(self).spec_elems()[i].im != i16::MIN);
        }
        let mut k: usize = 0;
        while k < n
            invariant
                k <= n,
                n == data@.len(),
                before.len() == n,
                forall|i: int| 0 <= i < n ==> #[trigger] before[i].im != i16::MIN,
                forall|i: int| 0 <= i < n ==> #[trigger] data@[i] == if i < k { conj(before[i]) } else { before[i] },
            decreases n - k,
        {
            let x = data[k];
            data.set(k, ComplexI16 { re: x.re, im: -x.im });
            k = k + 1;
        }
        assert(data@ =~= before.map_values(|x: ComplexI16| conj(x)));
        self.0 = grid_from_slice(data.as_slice(), NCH_TOTAL, NPORTS_TOTAL, NBEAMS);
    }
}

impl Default for DbfCoeffs {
    /// Every weight is `i16::MAX` + 0i.
    fn default() -> (r: DbfCoeffs)
        ensures
            r.wf(),
            r.spec_elems() == Seq::new(NCOEFFS as nat, |i: int| ComplexI16 { re: i16::MAX, im: 0 }),
    {
        let data = vec![ComplexI16 { re: i16::MAX, im: 0 }; NCOEFFS];
        assert(data@ =~= Seq::new(NCOEFFS as nat, |i: int| ComplexI16 { re: i16::MAX, im: 0 }));
        DbfCoeffs::new(data.as_slice())
    }
}

/// Reading the file image of a table gives back its weights.
pub proof fn lemma_coeffs_roundtrip(s: Seq<ComplexI16>)
    ensures
        complexes_be(s).len() == 4 * s.len(),
        be_complexes_at(complexes_be(s), s.len()) == s,
{
    let b = complexes_be(s);
    let r = be_complexes_at(b, s.len());
    assert forall|k: int| 0 <= k < s.len() implies r[k] == s[k] by {
        let x = s[k];
        let e = complex_be(x);
        assert(b[4 * k] == e[0] && b[4 * k + 1] == e[1] && b[4 * k + 2] == e[2] && b[4 * k + 3]
            == e[3]) by {
            assert((4 * k) / 4 == k && (4 * k) % 4 == 0 && (4 * k + 1) / 4 == k && (4 * k + 1)
                % 4 == 1 && (4 * k + 2) / 4 == k && (4 * k + 2) % 4 == 2 && (4 * k + 3) / 4 == k
                && (4 * k + 3) % 4 == 3) by (nonlinear_arith)
                requires
                    0 <= k,
            ;
        }
        let xr = x.re;
        let xi = x.im;
        let ur = xr as u16;
        let ui = xi as u16;
        lemma_be16_roundtrip(ur);
        lemma_be16_roundtrip(ui);
        assert(be16_at(b, 4 * k) == be16_at(be16(ur), 0));
        assert(be16_at(b, 4 * k + 2) == be16_at(be16(ui), 0));
        assert(ur as i16 == xr) by (bit_vector)
            requires
                ur == xr as u16,
        ;
        assert(ui as i16 == xi) by (bit_vector)
            requires
                ui == xi as u16,
        ;
    }
    assert(r =~= s);
}

/// The weight of channel `ch`, port `pid` and beam `beam` is number
/// `32 * ch + 2 * pid + beam` in row-major order, and reversing the phase
/// of a weight keeps its real part and negates its imaginary part.
pub proof fn lemma_coeff_layout(ch: int, pid: int, beam: int, x: ComplexI16)
    requires
        x.im != i16::MIN,
    ensures
        coeff_index(ch, pid, beam) == 32 * ch + 2 * pid + beam,
        conj(x).re == x.re,
        conj(x).im == -x.im,
{
}

/// The file image of a weight is four bytes: the real part, then the
/// imaginary part, each as a big-endian 16-bit two's-complement number.
pub proof fn lemma_complex_image(x: ComplexI16)
    ensures
        complex_be(x).len() == 4,
        complex_be(x)[0] == ((x.re as u16) / 0x100) as u8,
        complex_be(x)[1] == ((x.re as u16) % 0x100) as u8,
        complex_be(x)[2] == ((x.im as u16) / 0x100) as u8,
        complex_be(x)[3] == ((x.im as u16) % 0x100) as u8,
{
}

/// Reversing the phase twice gives back the weights.
pub proof fn lemma_reverse_phase_twice(s: Seq<ComplexI16>)
    requires
        forall|i: int| 0 <= i < s.len() ==> #[trigger] s[i].im != i16::MIN,
    ensures
        s.map_values(|x: ComplexI16| conj(x)).map_values(|x: ComplexI16| conj(x)) == s,
{
    let t = s.map_values(|x: ComplexI16| conj(x)).map_values(|x: ComplexI16| conj(x));
    assert forall|i: int| 0 <= i < s.len() implies t[i] == s[i] by {
        assert(s[i].im != i16::MIN);
    }
    assert(t =~= s);
}

/// A weight set at channel `ch`, port `pid` and beam `beam` is the one read
/// back there, and the weight at every other position is unchanged.
pub proof fn lemma_set_then_get(
    s: Seq<ComplexI16>,
    x: ComplexI16,
    ch: int,
    pid: int,
    beam: int,
    ch2: int,
    pid2: int,
    beam2: int,
)
    requires
        s.len() == NCOEFFS,
        0 <= ch < NCH_TOTAL,
        0 <= pid < NPORTS_TOTAL,
        0 <= beam < NBEAMS,
        0 <= ch2 < NCH_TOTAL,
        0 <= pid2 < NPORTS_TOTAL,
        0 <= beam2 < NBEAMS,
    ensures
        0 <= coeff_index(ch, pid, beam) < NCOEFFS,
        s.update(coeff_index(ch, pid, beam), x)[coeff_index(ch2, pid2, beam2)] == if ch == ch2
            && pid == pid2 && beam == beam2 {
            x
        } else {
            s[coeff_index(ch2, pid2, beam2)]
        },
{
}

} // verus!
