use csp::cfg::{CORR_PAYLOAD_LEN, NPKT_PER_CORR, PKT_LEN, PKT_PAYLOAD_LEN};
use csp::data_frame::{CorrDataFrame, CorrQueueState, DbfDataFrame};

fn raw_packet(pkt_id: u64) -> Vec<u8> {
    let mut b = Vec::new();
    let words: [u64; 9] = [
        0xa5a5_a5a5_a5a5_a5a5,
        0xa5a5_a5a5_a5a5_a5a5,
        0xbc55_0000_bc55_0000,
        0xeeee_0000_0000_0000,
        0x0102_0304_0506_0708,
        11,
        1,
        pkt_id,
        0x7777_7777_7777_7777,
    ];
    for w in words {
        b.extend_from_slice(&w.to_le_bytes());
    }
    for i in 0..PKT_PAYLOAD_LEN {
        let x = (i as i16).wrapping_mul(7).wrapping_sub(1000);
        b.extend_from_slice(&x.to_le_bytes());
    }
    b.extend_from_slice(&0xbcbc_bcbc_bcbc_bcbc_u64.to_le_bytes());
    b
}

#[test]
fn packet_length_constant() {
    assert_eq!(PKT_LEN, 8080);
    assert_eq!(raw_packet(0).len(), PKT_LEN);
}

#[test]
fn raw_packet_validity() {
    let b = raw_packet(3);
    assert!(DbfDataFrame::is_valid_raw(&b));
    assert!(!DbfDataFrame::is_valid_raw(&b[..PKT_LEN - 1]));
    let mut bad = b.clone();
    bad[0] = 0;
    assert!(!DbfDataFrame::is_valid_raw(&bad));
    let mut bad = b.clone();
    bad[PKT_LEN - 1] = 0;
    assert!(!DbfDataFrame::is_valid_raw(&bad));
    let mut bad = b.clone();
    bad[64] = 0;
    assert!(!DbfDataFrame::is_valid_raw(&bad));
}

#[test]
fn from_raw_reads_fields() {
    let b = raw_packet(0x1234_5678_9abc);
    let f = DbfDataFrame::from_raw(&b);
    assert_eq!(f.head1, 0xa5a5_a5a5_a5a5_a5a5);
    assert_eq!(f.head3, 0xbc55_0000_bc55_0000);
    assert_eq!(f.date, 0x0102_0304_0506_0708);
    assert_eq!(f.subsec, 11);
    assert_eq!(f.beam_id, 1);
    assert_eq!(f.pkt_id, 0x1234_5678_9abc);
    assert_eq!(f.start, 0x7777_7777_7777_7777);
    assert_eq!(f.tail, 0xbcbc_bcbc_bcbc_bcbc);
    assert_eq!(f.payload[0], -1000);
    assert_eq!(f.payload[1], -993);
    assert_eq!(f.payload[3999], (3999i16).wrapping_mul(7).wrapping_sub(1000));
}

#[test]
fn from_bytes_keeps_broken_markers() {
    let mut b = raw_packet(9);
    b[0] = 0x11;
    b[PKT_LEN - 8] = 0x22;
    assert!(!DbfDataFrame::is_valid_raw(&b));
    let f = DbfDataFrame::from_bytes(&b);
    assert_eq!(f.head1, 0xa5a5_a5a5_a5a5_a511);
    assert_eq!(f.tail, 0xbcbc_bcbc_bcbc_bc22);
    assert_eq!(f.pkt_id, 9);
    assert_eq!(f.payload[2], -986);
}

#[test]
fn dbf_write_payload_gives_sample_bytes() {
    let b = raw_packet(1);
    let f = DbfDataFrame::from_raw(&b);
    let mut out = Vec::new();
    f.write_payload(&mut out);
    assert_eq!(out.len(), PKT_PAYLOAD_LEN * 2);
    assert_eq!(&out[..], &b[72..72 + PKT_PAYLOAD_LEN * 2]);
}

#[test]
fn dbf_default_is_zero() {
    let f = DbfDataFrame::default();
    assert_eq!(f.pkt_id, 0);
    assert_eq!(f.head1, 0);
    assert!(f.payload.iter().all(|&x| x == 0));
}

#[test]
fn corr_frame_fill_places_samples() {
    let mut frame = CorrDataFrame::default();
    assert_eq!(frame.payload.len(), CORR_PAYLOAD_LEN);
    let pkt_id = 3 * NPKT_PER_CORR as u64 + 5;
    let f = DbfDataFrame::from_raw(&raw_packet(pkt_id));
    let offset = frame.fill(&f);
    assert_eq!(offset, 5 * PKT_PAYLOAD_LEN);
    assert_eq!(frame.corr_id, 3);
    assert_eq!(&frame.payload[offset..offset + PKT_PAYLOAD_LEN], &f.payload[..]);
    assert_eq!(frame.payload[offset - 1], 0);
    assert_eq!(frame.payload[offset + PKT_PAYLOAD_LEN], 0);
    frame.clear();
    assert_eq!(frame.corr_id, 0);
    assert_eq!(frame.payload.len(), CORR_PAYLOAD_LEN);
    assert!(frame.payload[offset..offset + PKT_PAYLOAD_LEN].iter().all(|&x| x == 0));
}

#[test]
fn corr_frame_last_slot() {
    let mut frame = CorrDataFrame::default();
    let f = DbfDataFrame::from_raw(&raw_packet(NPKT_PER_CORR as u64 - 1));
    let offset = frame.fill(&f);
    assert_eq!(offset, CORR_PAYLOAD_LEN - PKT_PAYLOAD_LEN);
    assert_eq!(frame.corr_id, 0);
    assert_eq!(frame.payload[CORR_PAYLOAD_LEN - 1], f.payload[PKT_PAYLOAD_LEN - 1]);
}

#[test]
fn corr_frame_write_payload() {
    let mut payload = vec![0i16; CORR_PAYLOAD_LEN];
    payload[0] = 1;
    payload[1] = -2;
    payload[CORR_PAYLOAD_LEN - 1] = 0x0102;
    let frame = CorrDataFrame { corr_id: 2, payload };
    let mut out = vec![9];
    frame.write_payload(&mut out);
    assert_eq!(out.len(), 1 + 2 * CORR_PAYLOAD_LEN);
    assert_eq!(&out[..5], &[9, 1, 0, 0xfe, 0xff]);
    assert_eq!(&out[out.len() - 2..], &[0x02, 0x01]);
}

#[test]
fn corr_frame_write_payload_longer_frame() {
    let mut payload = vec![0i16; CORR_PAYLOAD_LEN + 3];
    payload[CORR_PAYLOAD_LEN - 1] = 7;
    payload[CORR_PAYLOAD_LEN] = 5;
    let frame = CorrDataFrame { corr_id: 0, payload };
    let mut out = Vec::new();
    frame.write_payload(&mut out);
    assert_eq!(out.len(), 262_144_000);
    assert_eq!(&out[out.len() - 2..], &[7, 0]);
}

#[test]
fn corr_frame_fill_short_frame() {
    let mut frame = CorrDataFrame { corr_id: 9, payload: vec![3i16; 2 * PKT_PAYLOAD_LEN + 1] };
    let f = DbfDataFrame::from_raw(&raw_packet(1));
    let offset = frame.fill(&f);
    assert_eq!(offset, PKT_PAYLOAD_LEN);
    assert_eq!(frame.corr_id, 0);
    assert_eq!(frame.payload.len(), 2 * PKT_PAYLOAD_LEN + 1);
    assert_eq!(&frame.payload[PKT_PAYLOAD_LEN..2 * PKT_PAYLOAD_LEN], &f.payload[..]);
    assert_eq!(frame.payload[PKT_PAYLOAD_LEN - 1], 3);
    assert_eq!(frame.payload[2 * PKT_PAYLOAD_LEN], 3);
}

#[test]
fn packet_samples_written_back_are_source_bytes() {
    let b = raw_packet(77);
    let f = DbfDataFrame::from_raw(&b);
    let mut out = Vec::new();
    f.write_payload(&mut out);
    assert_eq!(out, b[72..8072].to_vec());
}

#[test]
fn frame_run_fills_whole_frame() {
    let mut state = CorrQueueState::new();
    let mut frame = CorrDataFrame::default();
    let mut pkt = DbfDataFrame::default();
    let c = 2u64;
    for k in 0..NPKT_PER_CORR as u64 {
        pkt.pkt_id = c * NPKT_PER_CORR as u64 + k;
        pkt.payload[0] = k as i16;
        pkt.payload[PKT_PAYLOAD_LEN - 1] = -(k as i16);
        let step = state.push(pkt.pkt_id);
        if k > 0 {
            assert_eq!(step.dropped, None);
        }
        assert_eq!(step.frame_id, c as usize);
        assert_eq!(step.completes_frame, k == NPKT_PER_CORR as u64 - 1);
        frame.fill(&pkt);
    }
    assert_eq!(frame.corr_id, c as usize);
    assert_eq!(state.last_pkt_id, Some((c as usize + 1) * NPKT_PER_CORR - 1));
    for k in [0usize, 1, 1000, NPKT_PER_CORR - 1] {
        assert_eq!(frame.payload[k * PKT_PAYLOAD_LEN], k as i16);
        assert_eq!(frame.payload[(k + 1) * PKT_PAYLOAD_LEN - 1], -(k as i16));
    }
}

#[test]
fn queue_state_reports_drops_and_frame_ends() {
    let mut s = CorrQueueState::new();
    assert_eq!(s.last_pkt_id, None);
    let r = s.push(10);
    assert_eq!(r.dropped, None);
    assert_eq!(r.frame_id, 0);
    assert!(!r.completes_frame);
    let r = s.push(11);
    assert_eq!(r.dropped, None);
    let r = s.push(15);
    assert_eq!(r.dropped, Some(3));
    let r = s.push(NPKT_PER_CORR as u64 - 1);
    assert!(r.completes_frame);
    assert_eq!(r.frame_id, 0);
    let r = s.push(NPKT_PER_CORR as u64);
    assert_eq!(r.dropped, None);
    assert_eq!(r.frame_id, 1);
    assert!(!r.completes_frame);
    let r = s.push(4);
    assert_eq!(r.dropped, Some(4 - NPKT_PER_CORR as i64 - 1));
    assert_eq!(s.last_pkt_id, Some(4));
}

#[test]
fn queue_state_overflow_guard() {
    let s = CorrQueueState::new();
    assert!(s.can_push(5));
    assert!(!s.can_push(u64::MAX));
    let s = CorrQueueState { last_pkt_id: Some(usize::MAX) };
    assert!(!s.can_push(5));
    let s = CorrQueueState { last_pkt_id: Some(0) };
    assert!(s.can_push(1));
    assert!(s.can_push(1 << 62));
    assert!(!s.can_push(1 << 63));
}
