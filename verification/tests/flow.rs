use sender_receiver::interface::{find_interface, interface_args, ChannelError};
use sender_receiver::packet::{decode_sequence_num, encode_sequence_num, get_ipv4_packet};
use sender_receiver::receiver::{
    is_readable, Phase as ReceivePhase, ReceiveAction, ReceiveEvent, Receiver,
};
use sender_receiver::record::{header_line, tx_file_name, Row};
use sender_receiver::sender::{
    sleep_time, Phase, Plan, SendAction, SendEvent, SendFault, Sender,
};
use sender_receiver::text::push_decimal;

fn plan(num_pkts: usize, lengths: Vec<i32>, save_data: bool, report_every: usize) -> Plan {
    Plan {
        ip_src: [10, 7, 0, 4],
        ip_dst: [10, 7, 0, 5],
        flow: 6,
        num_pkts,
        lengths,
        save_data,
        interval: 1000,
        report_every,
    }
}

fn frame(seq: usize, len: usize) -> Vec<u8> {
    let mut frame = get_ipv4_packet([10, 7, 0, 4], [10, 7, 0, 5], 6, len);
    encode_sequence_num(&mut frame, seq);
    frame
}

fn transmitted(action: SendAction) -> Vec<u8> {
    match action {
        SendAction::Transmit(frame) => frame,
        other => panic!("not a packet: {other:?}"),
    }
}

fn arrive(receiver: &mut Receiver, pkt: &[u8]) {
    assert!(matches!(receiver.phase, ReceivePhase::Waiting));
    assert!(is_readable(pkt));
    assert!(matches!(
        receiver.step(ReceiveEvent::Packet(pkt)),
        ReceiveAction::Poll
    ));
    receiver.step(ReceiveEvent::NoReport);
}

#[test]
fn numbers_are_written_in_decimal() {
    for n in [0u128, 7, 10, 99, 100, 1_234_567_890, u128::MAX] {
        let mut out = "n=".to_string();
        push_decimal(&mut out, n);
        assert_eq!(out, format!("n={n}"));
    }
}

#[test]
fn rows_and_names_are_exact() {
    assert_eq!(header_line(), "Seq,Time,Flow");
    assert_eq!(tx_file_name(0), "tx_data_0.csv");
    assert_eq!(tx_file_name(255), "tx_data_255.csv");
    let row = Row { seq: 12, flow: 3 };
    assert_eq!(row.line(1_700_000_000_000_000_001), "12,1700000000000000001,3");
}

#[test]
fn sleep_fills_the_interval() {
    assert_eq!(sleep_time(1000, 0), 1000);
    assert_eq!(sleep_time(1000, 999), 1);
    assert_eq!(sleep_time(1000, 1000), 0);
    assert_eq!(sleep_time(1000, u128::MAX), 0);
    assert_eq!(sleep_time(0, 0), 0);
}

#[test]
fn sender_goes_through_its_plan() {
    let mut sender = Sender::new(plan(2, vec![40, 50], true, 2));
    assert_eq!(transmitted(sender.step(SendEvent::Done)), frame(0, 40));
    assert!(matches!(sender.step(SendEvent::Done), SendAction::ReadClock));
    match sender.step(SendEvent::Clock(77)) {
        SendAction::WriteRow(line) => assert_eq!(line, "0,77,6"),
        other => panic!("{other:?}"),
    }
    assert!(matches!(sender.step(SendEvent::Done), SendAction::Report(0)));
    assert!(matches!(sender.step(SendEvent::Done), SendAction::ReadTimer));
    assert!(matches!(sender.step(SendEvent::Elapsed(400)), SendAction::Sleep(600)));
    assert_eq!(transmitted(sender.step(SendEvent::Done)), frame(1, 50));
    assert!(matches!(sender.step(SendEvent::Done), SendAction::ReadClock));
    match sender.step(SendEvent::Clock(78)) {
        SendAction::WriteRow(line) => assert_eq!(line, "1,78,6"),
        other => panic!("{other:?}"),
    }
    assert!(matches!(sender.step(SendEvent::Done), SendAction::ReadTimer));
    assert!(matches!(sender.step(SendEvent::Elapsed(1001)), SendAction::Sleep(0)));
    assert!(matches!(sender.step(SendEvent::Done), SendAction::Finish));
    assert_eq!(sender.count, 2);
}

#[test]
fn sender_without_records_reports_at_once() {
    let mut sender = Sender::new(plan(1, vec![29], false, 1));
    assert_eq!(transmitted(sender.step(SendEvent::Done)).len(), 29);
    assert!(matches!(sender.step(SendEvent::Done), SendAction::Report(0)));
    assert!(matches!(sender.step(SendEvent::Done), SendAction::ReadTimer));
    assert!(matches!(sender.step(SendEvent::Elapsed(0)), SendAction::Sleep(1000)));
    assert!(matches!(sender.step(SendEvent::Done), SendAction::Finish));
}

#[test]
fn only_the_first_million_packets_are_recorded() {
    let mut sender = Sender::new(plan(1_000_001, vec![29; 1_000_001], true, 1));
    sender.count = 999_999;
    transmitted(sender.step(SendEvent::Done));
    assert!(matches!(sender.step(SendEvent::Done), SendAction::ReadClock));
    let mut last = Sender::new(plan(1_000_001, vec![29; 1_000_001], true, 1));
    last.count = 1_000_000;
    transmitted(last.step(SendEvent::Done));
    assert!(matches!(last.step(SendEvent::Done), SendAction::Report(1_000_000)));
}

#[test]
fn empty_plan_is_finished() {
    let mut sender = Sender::new(plan(0, vec![], true, 0));
    assert_eq!(sender.fault(), None);
    assert!(matches!(sender.step(SendEvent::Done), SendAction::Finish));
}

#[test]
fn faults_are_found_before_they_hurt() {
    let mut short = Sender::new(plan(2, vec![29], false, 1));
    assert_eq!(short.fault(), None);
    transmitted(short.step(SendEvent::Done));
    short.step(SendEvent::Done);
    short.step(SendEvent::Done);
    short.step(SendEvent::Elapsed(0));
    assert_eq!(short.phase, Phase::Ready);
    assert_eq!(short.fault(), Some(SendFault::NoLength));

    let mut unreported = Sender::new(plan(1, vec![29], false, 0));
    assert_eq!(unreported.fault(), None);
    transmitted(unreported.step(SendEvent::Done));
    assert_eq!(unreported.fault(), Some(SendFault::ZeroReportInterval));

    let mut recorded = Sender::new(plan(1, vec![29], true, 0));
    transmitted(recorded.step(SendEvent::Done));
    assert_eq!(recorded.fault(), None);
    recorded.step(SendEvent::Done);
    recorded.step(SendEvent::Clock(1));
    assert_eq!(recorded.fault(), Some(SendFault::ZeroReportInterval));
}

#[test]
fn receiver_records_and_counts() {
    let mut receiver = Receiver::new(1, true);
    assert!(matches!(receiver.step(ReceiveEvent::Done), ReceiveAction::Receive));
    assert!(matches!(receiver.step(ReceiveEvent::Failed), ReceiveAction::Receive));
    let pkt = frame(5, 60);
    assert!(matches!(
        receiver.step(ReceiveEvent::Packet(&pkt)),
        ReceiveAction::ReadClock
    ));
    match receiver.step(ReceiveEvent::Clock(9)) {
        ReceiveAction::WriteRow(line) => assert_eq!(line, "5,9,6"),
        other => panic!("{other:?}"),
    }
    assert!(matches!(receiver.step(ReceiveEvent::Done), ReceiveAction::Poll));
    match receiver.step(ReceiveEvent::Report(4)) {
        ReceiveAction::ShowLag { reported, count, summary } => {
            assert_eq!(reported, 4);
            assert_eq!(count, 1);
            assert_eq!(
                summary,
                "Average reordering of 0, max of 5, received 1 packets"
            );
        }
        other => panic!("{other:?}"),
    }
    assert!(matches!(receiver.step(ReceiveEvent::Done), ReceiveAction::Finish));
}

#[test]
fn receiver_of_nothing_is_finished() {
    let mut receiver = Receiver::new(0, true);
    assert!(matches!(receiver.step(ReceiveEvent::Done), ReceiveAction::Finish));
}

#[test]
fn foreign_packets_are_polled_but_not_counted() {
    let mut receiver = Receiver::new(3, true);
    receiver.step(ReceiveEvent::Done);
    let foreign = get_ipv4_packet([10, 7, 0, 5], [10, 7, 0, 4], 1, 29);
    arrive(&mut receiver, &foreign);
    arrive(&mut receiver, &[0u8; 16]);
    assert_eq!(receiver.count, 0);
    assert_eq!(receiver.max_seq_mismatch, 0);
}

#[test]
fn in_order_delivery_has_no_mismatch() {
    let mut sender = Sender::new(plan(3, vec![29, 1400, 100], false, 1));
    let mut receiver = Receiver::new(3, false);
    receiver.step(ReceiveEvent::Done);
    for i in 0..3 {
        let pkt = transmitted(sender.step(SendEvent::Done));
        assert_eq!(decode_sequence_num(&pkt), i);
        assert_eq!(pkt[pkt.len() - 1], 6);
        arrive(&mut receiver, &pkt);
        assert!(matches!(sender.step(SendEvent::Done), SendAction::Report(_)));
        sender.step(SendEvent::Done);
        sender.step(SendEvent::Elapsed(0));
    }
    assert_eq!(receiver.count, 3);
    assert_eq!(receiver.max_seq_mismatch, 0);
    assert!(matches!(receiver.step(ReceiveEvent::Done), ReceiveAction::Finish));
}

#[test]
fn reordering_is_measured() {
    let mut receiver = Receiver::new(10, false);
    receiver.step(ReceiveEvent::Done);
    for seq in [0, 2, 1, 7, 4] {
        arrive(&mut receiver, &frame(seq, 29));
    }
    assert_eq!(receiver.count, 5);
    assert_eq!(receiver.max_seq_mismatch, 4);
    assert_eq!(
        receiver.summary(),
        "Average reordering of 0, max of 4, received 5 packets"
    );
}

#[test]
fn short_packets_are_not_readable() {
    assert!(!is_readable(&[]));
    assert!(!is_readable(&[0u8; 15]));
    assert!(is_readable(&[0u8; 16]));
    let pkt = frame(1, 29);
    assert!(!is_readable(&pkt[..16]));
    assert!(!is_readable(&pkt[..27]));
    assert!(is_readable(&pkt[..28]));
}

#[test]
fn interfaces_are_found_by_name() {
    let names = vec!["lo".to_string(), "eth0".to_string(), "eth0".to_string()];
    assert_eq!(find_interface(&names, &"eth0".to_string()), Ok(1));
    assert_eq!(find_interface(&names, &"lo".to_string()), Ok(0));
    let error = find_interface(&names, &"eth".to_string()).unwrap_err();
    assert_eq!(error, ChannelError::NoSuchInterface);
    assert_eq!(error.message(), "Failed to find network interface");
    assert_eq!(
        ChannelError::UnknownChannelType.message(),
        "Unknown channel type"
    );
}

#[test]
fn last_two_arguments_are_the_interfaces() {
    let args = |list: &[&str]| -> Vec<String> { list.iter().map(|s| s.to_string()).collect() };
    assert_eq!(interface_args(&args(&[])), None);
    assert_eq!(interface_args(&args(&["prog", "a"])), None);
    assert_eq!(
        interface_args(&args(&["prog", "a", "b"])),
        Some(("a".to_string(), "b".to_string()))
    );
    assert_eq!(
        interface_args(&args(&["prog", "x", "a", "b"])),
        Some(("a".to_string(), "b".to_string()))
    );
}

#[test]
fn different_rows_have_different_lines() {
    let lines = [
        Row { seq: 1, flow: 2 }.line(34),
        Row { seq: 13, flow: 2 }.line(4),
        Row { seq: 1, flow: 42 }.line(3),
        Row { seq: 1, flow: 2 }.line(35),
    ];
    for i in 0..lines.len() {
        for j in 0..i {
            assert_ne!(lines[i], lines[j]);
        }
    }
}

#[test]
fn complete_plan_has_no_fault() {
    let mut sender = Sender::new(plan(3, vec![29, 30, 31], true, 2));
    let mut event = SendEvent::Done;
    let mut frames = Vec::new();
    loop {
        assert_eq!(sender.fault(), None);
        event = match sender.step(event) {
            SendAction::Transmit(frame) => {
                frames.push(frame);
                SendEvent::Done
            }
            SendAction::ReadClock => SendEvent::Clock(5),
            SendAction::ReadTimer => SendEvent::Elapsed(5),
            SendAction::Finish => break,
            _ => SendEvent::Done,
        };
    }
    assert_eq!(frames, vec![frame(0, 29), frame(1, 30), frame(2, 31)]);
}

#[test]
fn both_sides_write_the_same_line() {
    let mut sender = Sender::new(plan(1, vec![200], true, 1));
    let pkt = transmitted(sender.step(SendEvent::Done));
    sender.step(SendEvent::Done);
    let mut receiver = Receiver::new(1, true);
    receiver.step(ReceiveEvent::Done);
    receiver.step(ReceiveEvent::Packet(&pkt));
    match (sender.step(SendEvent::Clock(8)), receiver.step(ReceiveEvent::Clock(8))) {
        (SendAction::WriteRow(sent), ReceiveAction::WriteRow(received)) => {
            assert_eq!(sent, "0,8,6");
            assert_eq!(received, sent);
        }
        other => panic!("{other:?}"),
    }
}

#[test]
fn tally_depends_on_the_packets_alone() {
    let mut plain = Receiver::new(5, false);
    let mut busy = Receiver::new(5, true);
    plain.step(ReceiveEvent::Done);
    busy.step(ReceiveEvent::Done);
    for seq in [3, 0] {
        let pkt = frame(seq, 29);
        arrive(&mut plain, &pkt);
        busy.step(ReceiveEvent::Failed);
        busy.step(ReceiveEvent::Packet(&pkt));
        busy.step(ReceiveEvent::Clock(1));
        busy.step(ReceiveEvent::Done);
        busy.step(ReceiveEvent::Report(9));
        busy.step(ReceiveEvent::Done);
    }
    assert_eq!((plain.count, plain.max_seq_mismatch), (2, 3));
    assert_eq!((busy.count, busy.max_seq_mismatch), (2, 3));
}

#[test]
fn rows_record_the_packets_of_the_peer_in_order() {
    let foreign = get_ipv4_packet([10, 7, 0, 5], [10, 7, 0, 4], 1, 29);
    let arrivals = [
        Some(frame(2, 40)), Some(foreign), None, Some(frame(0, 29)), Some(frame(2, 1400)),
        Some(frame(7, 29)),
    ];
    let mut receiver = Receiver::new(3, true);
    let mut arrivals = arrivals.iter();
    let mut clock = 100;
    let mut rows = Vec::new();
    let mut lags = Vec::new();
    let mut action = receiver.step(ReceiveEvent::Done);
    loop {
        action = match action {
            ReceiveAction::Receive => match arrivals.next().unwrap() {
                Some(pkt) => {
                    assert!(is_readable(pkt));
                    receiver.step(ReceiveEvent::Packet(pkt))
                }
                None => receiver.step(ReceiveEvent::Failed),
            },
            ReceiveAction::ReadClock => {
                clock += 1;
                receiver.step(ReceiveEvent::Clock(clock))
            }
            ReceiveAction::WriteRow(line) => {
                rows.push(line);
                receiver.step(ReceiveEvent::Done)
            }
            ReceiveAction::Poll if receiver.count == 2 => receiver.step(ReceiveEvent::Report(8)),
            ReceiveAction::Poll => receiver.step(ReceiveEvent::NoReport),
            ReceiveAction::ShowLag { reported, count, .. } => {
                lags.push((reported, count));
                receiver.step(ReceiveEvent::Done)
            }
            ReceiveAction::Finish => break,
        };
    }
    assert_eq!(rows, vec!["2,101,6", "0,102,6", "2,103,6"]);
    assert_eq!(lags, vec![(8, 2)]);
    assert_eq!(receiver.count, 3);
    assert_eq!(arrivals.len(), 1);
}

#[test]
fn receiver_stops_when_the_count_is_reached() {
    let mut receiver = Receiver::new(2, false);
    assert!(matches!(receiver.step(ReceiveEvent::Done), ReceiveAction::Receive));
    for seq in [0, 1] {
        assert!(receiver.count < 2);
        let pkt = frame(seq, 29);
        assert!(matches!(
            receiver.step(ReceiveEvent::Packet(&pkt)),
            ReceiveAction::Poll
        ));
        let action = receiver.step(ReceiveEvent::NoReport);
        assert_eq!(matches!(action, ReceiveAction::Finish), receiver.count == 2);
        assert_eq!(matches!(action, ReceiveAction::Receive), receiver.count < 2);
    }
}
