use csp::capture::{
    align_round, capture_finished, lagging_streams, latest_frame, LossCounter, LossStep, StationDump, StreamWatch,
    WatchStep, DUMP_NPKT_PER_FRAME,
};
use csp::cfg::PKT_PAYLOAD_LEN;
use csp::data_frame::DbfDataFrame;
use std::collections::VecDeque;

fn packet(pkt_id: u64, fill: i16) -> DbfDataFrame {
    let mut p = DbfDataFrame::default();
    p.pkt_id = pkt_id;
    for i in 0..PKT_PAYLOAD_LEN {
        p.payload[i] = fill.wrapping_add(i as i16);
    }
    p
}

#[test]
fn latest_frame_is_the_maximum() {
    assert_eq!(latest_frame(&[3, 7, 5]), 7);
    assert_eq!(latest_frame(&[]), 0);
    assert_eq!(latest_frame(&[4]), 4);
}

#[test]
fn lagging_streams_are_those_behind() {
    assert_eq!(lagging_streams(&[3, 7, 5, 7]), vec![true, false, true, false]);
    assert_eq!(lagging_streams(&[2, 2]), vec![false, false]);
    assert!(lagging_streams(&[]).is_empty());
}

#[test]
fn loss_counter_in_order() {
    let mut c = LossCounter::new(100);
    assert!(c.can_take(101));
    let s = c.take(101);
    assert_eq!(s, LossStep { dropped: None, report: None });
    assert_eq!(c.npkt, 1);
    assert_eq!(c.npkt_dropped, 1);
    assert_eq!(c.last_pkt_id, 101);
}

#[test]
fn loss_counter_counts_gaps() {
    let mut c = LossCounter::new(10);
    for id in 11..21 {
        c.take(id);
    }
    let s = c.take(25);
    assert_eq!(s.dropped, Some((4, 2)));
    assert_eq!(c.npkt, 11);
    assert_eq!(c.npkt_dropped, 5);
}

#[test]
fn loss_counter_reports_every_65536() {
    let mut c = LossCounter::new(0);
    let mut last = LossStep { dropped: None, report: None };
    for id in 1..=65536u64 {
        last = c.take(id);
        if id < 65536 {
            assert_eq!(last.report, None);
        }
    }
    assert_eq!(last.report, Some(65536));
}

#[test]
fn loss_counter_refuses_old_packets() {
    let c = LossCounter::new(10);
    assert!(!c.can_take(10));
    assert!(!c.can_take(3));
    let full = LossCounter { last_pkt_id: 0, npkt: 0, npkt_dropped: u64::MAX };
    assert!(full.can_take(1));
    assert!(!full.can_take(2));
}

#[test]
fn station_dump_fills_slots_and_dumps_first_frame() {
    let mut d = StationDump::new(4);
    assert_eq!(d.samples.len(), 4 * PKT_PAYLOAD_LEN);
    let s = d.take(&packet(1, 10));
    assert_eq!(s.dropped, None);
    assert_eq!(s.frame_id, 0);
    assert!(!s.dump);
    assert_eq!(d.pkt_ids, vec![0, 1, 0, 0]);
    assert_eq!(d.samples[PKT_PAYLOAD_LEN], 10);
    assert_eq!(d.samples[2 * PKT_PAYLOAD_LEN - 1], 10 + (PKT_PAYLOAD_LEN as i16) - 1);
    assert_eq!(d.samples[0], 0);
    let s = d.take(&packet(3, -5));
    assert_eq!(s.dropped, Some(1));
    assert_eq!(s.next_frame_id, 1);
    assert!(s.dump);
    assert_eq!(d.pkt_ids, vec![0, 1, 0, 3]);
    d.clear();
    assert!(d.samples.iter().all(|&x| x == 0));
    assert_eq!(d.pkt_ids, vec![0, 0, 0, 0]);
    assert_eq!(d.last_pkt_id, Some(3));
    let s = d.take(&packet(7, 1));
    assert_eq!(s.frame_id, 1);
    assert_eq!(s.next_frame_id, 2);
    assert!(!s.dump);
    assert_eq!(d.pkt_ids[3], 7);
}

#[test]
fn station_dump_refuses_overflow() {
    let mut d = StationDump::new(2);
    assert!(!d.can_take(u64::MAX));
    d.take(&packet(5, 0));
    assert!(!d.can_take(5));
    assert!(!d.can_take(4));
    assert!(d.can_take(6));
}

#[test]
fn dump_frame_size_constant() {
    assert_eq!(DUMP_NPKT_PER_FRAME, 1 << 18);
}

#[test]
fn capture_finished_rule() {
    assert!(capture_finished(&[9, 9, 9], 10));
    assert!(!capture_finished(&[9, 8, 9], 10));
    assert!(!capture_finished(&[9, 9], 1));
    assert!(capture_finished(&[], 10));
}

#[test]
fn stream_watch_steps() {
    let mut w = StreamWatch::new();
    assert_eq!(w.see(40), WatchStep::First(40));
    assert_eq!(w.see(41), WatchStep::InOrder);
    assert_eq!(w.see(45), WatchStep::Dropped(3));
    assert_eq!(w.pkt_cnt, 3);
    assert_eq!(w.old_pkt_id, 45);
    assert!(!w.can_see(45));
    assert!(w.can_see(46));
}

#[test]
fn align_round_takes_aligned_fronts() {
    let mut bufs: Vec<VecDeque<(usize, &str)>> = vec![VecDeque::new(), VecDeque::new()];
    assert_eq!(align_round(&mut bufs, vec![(5, "a"), (5, "b")]), Some((5, vec!["a", "b"])));
    assert!(bufs.iter().all(|d| d.is_empty()));
}

#[test]
fn align_round_drops_older_frames() {
    let mut bufs: Vec<VecDeque<(usize, char)>> = vec![VecDeque::from(vec![(3, 'x'), (4, 'y')]), VecDeque::new()];
    assert_eq!(align_round(&mut bufs, vec![(7, 'p'), (6, 'q')]), Some((6, vec!['p', 'q'])));
    assert!(bufs[0].is_empty());
    assert!(bufs[1].is_empty());
}

#[test]
fn align_round_waits_when_a_queue_runs_dry() {
    let mut bufs: Vec<VecDeque<(usize, u32)>> = vec![VecDeque::new(), VecDeque::new(), VecDeque::new()];
    assert_eq!(align_round(&mut bufs, vec![(2, 20), (9, 90), (4, 40)]), None);
    assert!(bufs[0].is_empty());
    assert_eq!(bufs[1], VecDeque::from(vec![(9, 90)]));
    assert!(bufs[2].is_empty());
    assert_eq!(
        align_round(&mut bufs, vec![(9, 91), (10, 100), (9, 92)]),
        Some((9, vec![91, 90, 92]))
    );
    assert_eq!(bufs[1], VecDeque::from(vec![(10, 100)]));
}
