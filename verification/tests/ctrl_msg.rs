use csp::ctrl_msg::{CtrlMsg, MsgContent, MsgError, MsgHeader, MsgTail, HEADER_LEN, TAIL_LEN};

fn all_contents() -> Vec<MsgContent> {
    vec![
        MsgContent::WorkMode(7),
        MsgContent::Status([1, 2]),
        MsgContent::Reset(0xdead_beef),
        MsgContent::SelfTest { magic: [1, 2, 3, 4, 5], action: 6 },
        MsgContent::AcquireSample { acq_ad: 1, acq_ch: 2, ch: 3 },
        MsgContent::BitCut { board_id: 4, filter_cut: 5, dbf_cut: 6 },
        MsgContent::BaseCh { board_id: 1, beam1: [2, 3, 4, 5], beam2: [6, 7, 8, 9] },
        MsgContent::BeamCtrl { beam_id: [1, 2, 3, 4], calc_wgt: 5, apply_wgt: 6 },
        MsgContent::MultiCtrl { cmd: 0x11, param: [0x22, 0x33, 0x44] },
        MsgContent::AttSet([3; 16]),
    ]
}

#[test]
fn type_codes_of_all_variants() {
    let codes: Vec<u16> = all_contents().iter().map(|c| c.to_msg_type_code()).collect();
    assert_eq!(
        codes,
        vec![0x1001, 0x1002, 0x1007, 0x1004, 0x1008, 0x1009, 0x100a, 0x100b, 0x1011, 0x3201]
    );
}

#[test]
fn to_bytes_is_code_and_big_endian_fields() {
    let (code, payload) = MsgContent::WorkMode(0x0102_0304).to_bytes();
    assert_eq!(code, 0x1001);
    assert_eq!(payload, vec![1, 2, 3, 4]);

    let (code, payload) = MsgContent::SelfTest { magic: [1, 2, 3, 4, 5], action: 0x0a0b_0c0d }.to_bytes();
    assert_eq!(code, 0x1004);
    assert_eq!(payload.len(), 24);
    assert_eq!(&payload[0..4], &[0, 0, 0, 1]);
    assert_eq!(&payload[16..20], &[0, 0, 0, 5]);
    assert_eq!(&payload[20..24], &[0x0a, 0x0b, 0x0c, 0x0d]);
}

#[test]
fn payload_lengths_follow_field_counts() {
    let lens: Vec<usize> = all_contents().iter().map(|c| c.to_bytes().1.len()).collect();
    assert_eq!(lens, vec![4, 8, 4, 24, 12, 12, 36, 24, 16, 64]);
}

#[test]
fn content_write_starts_with_code() {
    let mut out = vec![0xff];
    MsgContent::AttSet([0x0102_0304; 16]).write(&mut out);
    assert_eq!(out.len(), 1 + 2 + 64);
    assert_eq!(&out[0..3], &[0xff, 0x32, 0x01]);
    assert_eq!(&out[3..7], &[1, 2, 3, 4]);
}

#[test]
fn content_read_back_from_write() {
    for c in all_contents() {
        let mut buf = Vec::new();
        c.write(&mut buf);
        buf.extend_from_slice(&[9, 9, 9]);
        assert_eq!(MsgContent::read(&buf), Ok(c));
    }
}

#[test]
fn content_read_unknown_code() {
    assert_eq!(MsgContent::read(&[0x12, 0x34, 0, 0, 0, 1]), Err(MsgError::NoVariantMatch));
}

#[test]
fn content_read_too_short() {
    assert_eq!(MsgContent::read(&[0x10]), Err(MsgError::NoVariantMatch));
    assert_eq!(MsgContent::read(&[]), Err(MsgError::NoVariantMatch));
    assert_eq!(MsgContent::read(&[0x10, 0x02, 0, 0, 0, 1, 0, 0, 0]), Err(MsgError::NoVariantMatch));
    assert_eq!(
        MsgContent::read(&[0x10, 0x02, 0, 0, 0, 1, 0, 0, 0, 2]),
        Ok(MsgContent::Status([1, 2]))
    );
}

#[test]
fn content_show_bytes_text() {
    let text = MsgContent::MultiCtrl { cmd: 0x0102_0304, param: [0xa0b0_c0d0, 0, 0xffff_ffff] }.show_bytes();
    let expected = "10 11\n0000 01 02 03 04 \n0001 a0 b0 c0 d0 \n0002 00 00 00 00 \n0003 ff ff ff ff \n";
    assert_eq!(String::from_utf8(text).unwrap(), expected);
}

#[test]
fn header_at_time_splits_seconds() {
    let h = MsgHeader::at_time(0x1001, 48, 3, 1_700_000_000_123_456);
    assert_eq!(h.header, 0x5a5a5a5a);
    assert_eq!(h.pkt_len, 48);
    assert_eq!(h.rev1, [0; 6]);
    assert_eq!(h.msg_type, 0x1001);
    assert_eq!(h.timestamp, 1_700_000_000);
    assert_eq!(h.microsecs, 123_456);
    assert_eq!(h.msg_cnt, 3);
    assert_eq!(h.rev2, [0; 6]);
}

#[test]
fn header_at_time_before_epoch() {
    let h = MsgHeader::at_time(0x1001, 48, 3, -1_500_001);
    assert_eq!(h.timestamp, (-1i64) as u32);
    assert_eq!(h.microsecs, (-500_001i64) as u32);
}

#[test]
fn header_new_has_fixed_fields() {
    let h = MsgHeader::new(0x3201, 108, 9);
    assert_eq!(h.header, 0x5a5a5a5a);
    assert_eq!(h.pkt_len, 108);
    assert_eq!(h.msg_type, 0x3201);
    assert_eq!(h.msg_cnt, 9);
    assert!(h.microsecs < 1_000_000);
}

#[test]
fn header_write_read_roundtrip() {
    let h = MsgHeader {
        header: 0x5a5a5a5a,
        pkt_len: 0x0102_0304,
        rev1: [1, 2, 3, 4, 5, 6],
        msg_type: 0xabcd,
        timestamp: 0x1122_3344,
        microsecs: 0x5566_7788,
        msg_cnt: 0x99aa,
        rev2: [7, 8, 9, 10, 11, 12],
    };
    let mut buf = Vec::new();
    h.write(&mut buf);
    assert_eq!(buf.len(), HEADER_LEN);
    assert_eq!(&buf[0..8], &[0x5a, 0x5a, 0x5a, 0x5a, 1, 2, 3, 4]);
    assert_eq!(&buf[14..16], &[0xab, 0xcd]);
    assert_eq!(&buf[24..26], &[0x99, 0xaa]);
    assert_eq!(MsgHeader::read(&buf), Ok(h));
}

#[test]
fn header_read_too_short() {
    assert_eq!(MsgHeader::read(&[0; 31]), Err(MsgError::UnexpectedEof));
}

#[test]
fn header_show_bytes_text() {
    let h = MsgHeader::at_time(0x1001, 48, 1, 0);
    let text = String::from_utf8(h.show_bytes()).unwrap();
    let lines: Vec<&str> = text.lines().collect();
    assert_eq!(lines.len(), 8);
    assert_eq!(lines[0], "0000 5a 5a 5a 5a ");
    assert_eq!(lines[1], "0001 00 00 00 30 ");
    assert_eq!(lines[3], "0003 00 00 10 01 ");
    assert_eq!(lines[6], "0006 00 01 00 00 ");
}

#[test]
fn tail_write_read_show() {
    let t = MsgTail { rev: [0; 3], checksum: 0x5c, tail: [0xaa; 8] };
    let mut buf = Vec::new();
    t.write(&mut buf);
    assert_eq!(buf.len(), TAIL_LEN);
    assert_eq!(MsgTail::read(&buf), Ok(t));
    assert_eq!(MsgTail::read(&buf[..11]), Err(MsgError::UnexpectedEof));
    let text = String::from_utf8(t.show_bytes()).unwrap();
    assert_eq!(text, "0000 00 00 00 5c \n0001 aa aa aa aa \n0002 aa aa aa aa \n");
}

#[test]
fn calc_msg_len_counts_header_and_tail() {
    assert_eq!(CtrlMsg::calc_msg_len(0), 44);
    assert_eq!(CtrlMsg::calc_msg_len(64), 108);
}

#[test]
fn new_message_structure() {
    let c = MsgContent::BitCut { board_id: 1, filter_cut: 2, dbf_cut: 3 };
    let m = CtrlMsg::new(c, 5);
    assert_eq!(m.head.header, 0x5a5a5a5a);
    assert_eq!(m.head.pkt_len, 44 + 12);
    assert_eq!(m.head.msg_type, 0x1009);
    assert_eq!(m.head.msg_cnt, 5);
    assert_eq!(m.payload, vec![0, 0, 0, 1, 0, 0, 0, 2, 0, 0, 0, 3]);
    assert_eq!(m.tail.rev, [0; 3]);
    assert_eq!(m.tail.tail, [0xaa; 8]);
    assert_eq!(m.get_payload(), Ok(c));
}

#[test]
fn new_message_checksum_zeroes_byte_sum() {
    for (i, c) in all_contents().into_iter().enumerate() {
        let m = CtrlMsg::new(c, i as u16);
        let mut buf = Vec::new();
        m.write(&mut buf);
        assert_eq!(buf.len(), m.head.pkt_len as usize);
        let end = HEADER_LEN + m.payload.len() + 4;
        let sum: u32 = buf[4..end].iter().map(|&b| b as u32).sum();
        assert_eq!(sum % 256, 0);
    }
}

#[test]
fn message_write_read_roundtrip() {
    let m = CtrlMsg::new(MsgContent::BaseCh { board_id: 1, beam1: [2; 4], beam2: [3; 4] }, 77);
    let mut buf = Vec::new();
    m.write(&mut buf);
    buf.extend_from_slice(&[1, 2, 3]);
    let r = CtrlMsg::read(&buf).unwrap();
    assert_eq!(r.head, m.head);
    assert_eq!(r.payload, m.payload);
    assert_eq!(r.tail, m.tail);
    assert_eq!(r.get_payload(), Ok(MsgContent::BaseCh { board_id: 1, beam1: [2; 4], beam2: [3; 4] }));
}

#[test]
fn message_read_too_short() {
    let m = CtrlMsg::new(MsgContent::Reset(1), 1);
    let mut buf = Vec::new();
    m.write(&mut buf);
    assert!(CtrlMsg::read(&buf[..buf.len() - 1]).is_err());
    assert_eq!(CtrlMsg::read(&buf[..20]).err(), Some(MsgError::UnexpectedEof));
    assert_eq!(CtrlMsg::read(&buf[..47]).err(), Some(MsgError::UnexpectedEof));
}

#[test]
fn get_payload_unknown_type() {
    let mut m = CtrlMsg::new(MsgContent::Reset(1), 1);
    m.head.msg_type = 0x2002;
    assert_eq!(m.get_payload(), Err(MsgError::NoVariantMatch));
    m.head.msg_type = 0x1002;
    assert_eq!(m.get_payload(), Err(MsgError::NoVariantMatch));
}

#[test]
fn message_show_bytes_text() {
    let m = CtrlMsg {
        head: MsgHeader::at_time(0x1001, 48, 1, 0),
        payload: vec![0, 0, 0, 2],
        tail: MsgTail { rev: [0; 3], checksum: 0x01, tail: [0xaa; 8] },
    };
    let text = String::from_utf8(m.show_bytes()).unwrap();
    let expected_head = String::from_utf8(m.head.show_bytes()).unwrap();
    let expected = format!(
        "{}10 01\n0000 00 00 00 02 \n0000 00 00 00 01 \n0001 aa aa aa aa \n0002 aa aa aa aa \n",
        expected_head
    );
    assert_eq!(text, expected);
}

#[test]
fn verify_reply_by_type_name() {
    let reply = br#"{"msg_type": "WorkMode", "status": 0}"#;
    assert!(MsgContent::WorkMode(1).verify_reply(reply));
    assert!(!MsgContent::Status([0, 0]).verify_reply(reply));
    let reply = br#"{"msg_type": "AttSet"}"#;
    assert!(MsgContent::AttSet([0; 16]).verify_reply(reply));
}

#[test]
fn verify_reply_multi_ctrl_accepts_ip_addr() {
    let c = MsgContent::MultiCtrl { cmd: 0, param: [0; 3] };
    assert!(c.verify_reply(br#"{"msg_type": "MultiCtrl"}"#));
    assert!(c.verify_reply(br#"{"msg_type": "IPAddr"}"#));
    assert!(!c.verify_reply(br#"{"msg_type": "BeamCtrl"}"#));
    assert!(!MsgContent::Reset(0).verify_reply(br#"{"msg_type": "IPAddr"}"#));
}

#[test]
fn try_verify_reply_malformed() {
    let c = MsgContent::Reset(0);
    assert_eq!(c.try_verify_reply(br#"{"msg_type": "Reset"}"#), Some(true));
    assert_eq!(c.try_verify_reply(br#"{"msg_type": "Status"}"#), Some(false));
    assert_eq!(c.try_verify_reply(b"not json"), None);
    assert_eq!(c.try_verify_reply(br#"{"msg_type": 5}"#), None);
    assert_eq!(c.try_verify_reply(br#"{"other": "Reset"}"#), None);
    assert_eq!(c.try_verify_reply(&[0xff, 0xfe]), None);
}

#[test]
fn accepts_reply_type_names() {
    assert!(MsgContent::BeamCtrl { beam_id: [0; 4], calc_wgt: 0, apply_wgt: 0 }.accepts_reply_type("BeamCtrl"));
    assert!(!MsgContent::BeamCtrl { beam_id: [0; 4], calc_wgt: 0, apply_wgt: 0 }.accepts_reply_type("beamctrl"));
}
