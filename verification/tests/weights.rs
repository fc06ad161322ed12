use csp::dbf_wgt::{ComplexI16, DbfCoeffs, NCOEFFS};
use csp::wgt::{ports_mask, wgt_from_bytes, wgt_to_bytes, WgtFlags, WGT_WORDS};

#[test]
fn port_masks() {
    assert_eq!(WgtFlags::Enable(vec![0, 3]).port_mask(), vec![true, false, false, true, false, false, false, false]);
    assert_eq!(WgtFlags::Disable(vec![7, 7, 1]).port_mask(), vec![true, false, true, true, true, true, true, false]);
    assert_eq!(WgtFlags::AllPorts.port_mask(), vec![true; 8]);
    assert_eq!(WgtFlags::Enable(vec![]).port_mask(), vec![false; 8]);
    assert_eq!(ports_mask(&[2], true), vec![false, false, true, false, false, false, false, false]);
}

#[test]
fn wgt_bytes_roundtrip() {
    let words: Vec<i16> = (0..WGT_WORDS).map(|i| (i as i16).wrapping_mul(31)).collect();
    let bytes = wgt_to_bytes(&words);
    assert_eq!(bytes.len(), WGT_WORDS * 2);
    assert_eq!(&bytes[2..4], &31i16.to_le_bytes());
    assert_eq!(wgt_from_bytes(&bytes), words);
}

fn sample_coeffs() -> Vec<ComplexI16> {
    (0..NCOEFFS).map(|i| ComplexI16 { re: i as i16, im: -(i as i16) - 1 }).collect()
}

#[test]
fn coeffs_index_row_major() {
    let c = DbfCoeffs::new(&sample_coeffs());
    // channel 3, station 1 port 2 (port 10 of the array), beam 1
    let idx = (3 * 16 + 10) * 2 + 1;
    assert_eq!(c.clone().get_wgt(1, 2, 3, 1), ComplexI16 { re: idx as i16, im: -(idx as i16) - 1 });
    assert_eq!(c.get_wgt(0, 0, 0, 0), ComplexI16 { re: 0, im: -1 });
}

#[test]
fn coeffs_set_then_get() {
    let mut c = DbfCoeffs::new(&sample_coeffs());
    let x = ComplexI16 { re: 100, im: -200 };
    c.set_wgt(x, 1, 7, 511, 0);
    assert_eq!(c.clone().get_wgt(1, 7, 511, 0), x);
    assert_eq!(c.clone().get_wgt(1, 7, 511, 1), ComplexI16 { re: (((511 * 16 + 15) * 2 + 1) as i32 as i16), im: -((((511 * 16 + 15) * 2 + 1) as i32 as i16)) - 1 });
}

#[test]
fn coeffs_default_weights() {
    let c = DbfCoeffs::default();
    assert_eq!(c.clone().get_wgt(0, 0, 0, 0), ComplexI16 { re: i16::MAX, im: 0 });
    assert_eq!(c.get_wgt(1, 7, 511, 1), ComplexI16 { re: i16::MAX, im: 0 });
}

#[test]
fn coeffs_file_image() {
    let c = DbfCoeffs::new(&sample_coeffs());
    let mut out = Vec::new();
    c.write_to(&mut out);
    assert_eq!(out.len(), NCOEFFS * 4);
    assert_eq!(&out[0..4], &[0, 0, 0xff, 0xff]);
    assert_eq!(&out[4..8], &[0, 1, 0xff, 0xfe]);
    let back = DbfCoeffs::read_from(&out);
    let mut out2 = Vec::new();
    back.write_to(&mut out2);
    assert_eq!(out, out2);
    assert_eq!(back.get_wgt(0, 1, 2, 1), ComplexI16 { re: ((2 * 16 + 1) * 2 + 1) as i16, im: -(((2 * 16 + 1) * 2 + 1) as i16) - 1 });
}

#[test]
fn coeffs_reverse_phase() {
    let mut c = DbfCoeffs::new(&sample_coeffs());
    c.reverse_phase();
    assert_eq!(c.clone().get_wgt(0, 0, 0, 1), ComplexI16 { re: 1, im: 2 });
    c.reverse_phase();
    assert_eq!(c.get_wgt(0, 0, 0, 1), ComplexI16 { re: 1, im: -2 });
}
