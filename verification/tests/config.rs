use csp::addr_cfg::{AddrCfg, FiberAddrPair};
use csp::att::AttCfg;
use csp::cspch::{Correlator, CspChannelizer};

fn sample_cfg() -> AddrCfg {
    let mut c = AddrCfg::default();
    for i in 0..4 {
        let k = i as u16;
        c.beam1[i] = FiberAddrPair { srv_addr: [192, 168, 1, 10 + k], srv_port: 4000 + k, dev_addr: [192, 168, 1, 20 + k], dev_port: 5000 + k };
        c.beam2[i] = FiberAddrPair { srv_addr: [10, 0, 0, 30 + k], srv_port: 6000 + k, dev_addr: [10, 0, 0, 40 + k], dev_port: 7000 + k };
    }
    c
}

#[test]
fn addr_cfg_raw_layout() {
    let raw = sample_cfg().to_raw();
    assert_eq!(raw.len(), 160);
    assert_eq!(&raw[0..2], &192u16.to_le_bytes());
    assert_eq!(&raw[6..8], &10u16.to_le_bytes());
    assert_eq!(&raw[8..10], &4000u16.to_le_bytes());
    assert_eq!(&raw[18..20], &5000u16.to_le_bytes());
    assert_eq!(&raw[20..22], &192u16.to_le_bytes());
    assert_eq!(&raw[80..82], &10u16.to_le_bytes());
    assert_eq!(&raw[98..100], &7000u16.to_le_bytes());
    assert_eq!(&raw[158..160], &7003u16.to_le_bytes());
}

#[test]
fn addr_cfg_roundtrip() {
    let c = sample_cfg();
    let raw = c.to_raw();
    assert_eq!(AddrCfg::from_raw(&raw), c);
}

#[test]
fn addr_cfg_raw_roundtrip() {
    let raw: Vec<u8> = (0..160u32).map(|i| (i * 37 % 251) as u8).collect();
    let c = AddrCfg::from_raw(&raw);
    assert_eq!(c.to_raw(), raw);
    assert_eq!(c.beam1[0].srv_addr[0], u16::from_le_bytes([raw[0], raw[1]]));
    assert_eq!(c.beam2[3].dev_port, u16::from_le_bytes([raw[158], raw[159]]));
}

#[test]
fn addr_cfg_default_is_zero() {
    assert_eq!(AddrCfg::default().to_raw(), vec![0u8; 160]);
}

#[test]
fn att_default_writes_zeros() {
    let a = AttCfg::default();
    assert_eq!(a.value, vec![0u16; 8]);
    let mut out = Vec::new();
    a.write(&mut out);
    assert_eq!(out, vec![0u8; 16]);
}

#[test]
fn att_write_first_eight_values() {
    let a = AttCfg { value: vec![1, 2, 3, 0x0405, 5, 6, 7, 0xff00, 99] };
    let mut out = vec![0xee];
    a.write(&mut out);
    assert_eq!(out, vec![0xee, 1, 0, 2, 0, 3, 0, 5, 4, 5, 0, 6, 0, 7, 0, 0, 0xff]);
}

#[test]
fn channelizer_buffer_lengths() {
    let ch = CspChannelizer { nsteps: 655360, nch_coarse: 100, nch_fine_per_coarse_full: 32 };
    assert_eq!(ch.input_buf_len(), 100 * 655360 * 2);
    assert_eq!(ch.output_buf_len(), 100 * 655360);
    assert!(ch.accepts_input(655360 * 100 * 2));
    assert!(!ch.accepts_input(655360 * 100));
    assert!(ch.accepts_output(655360 * 100));
    assert!(!ch.accepts_output(655360 * 100 + 1));
}

#[test]
fn channelizer_overflowing_shape() {
    let ch = CspChannelizer { nsteps: usize::MAX / 2, nch_coarse: 3, nch_fine_per_coarse_full: 1 };
    assert!(!ch.accepts_input(0));
    assert!(!ch.accepts_output(0));
}

#[test]
fn correlator_shapes() {
    let nfine_eff = 16;
    let nfine_full = nfine_eff * 2;
    let nframe = 655360;
    let ch = CspChannelizer { nsteps: nframe, nch_coarse: 100, nch_fine_per_coarse_full: nfine_full };
    let corr = Correlator { nsteps: nframe / nfine_full, nch: 100 * nfine_eff };
    assert!(corr.shapes_match(&ch, &ch, 100 * nfine_eff * 2));
    assert!(!corr.shapes_match(&ch, &ch, 100 * nfine_eff));
    let other = CspChannelizer { nsteps: nframe, nch_coarse: 100, nch_fine_per_coarse_full: 16 };
    assert!(!corr.shapes_match(&ch, &other, 100 * nfine_eff * 2));
    let big = Correlator { nsteps: usize::MAX, nch: 2 };
    assert!(!big.shapes_match(&ch, &ch, 4));
}
