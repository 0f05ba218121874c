//! The course of a whole reception, arrival by arrival.

use crate::packet::comes_from_peer;
use crate::receiver::{
    packet_row, read_sequence, readable, summary_text, Phase, Progress, ReceiveActionView,
    ReceiveEventView, Tally,
};
use crate::record::Row;
use vstd::prelude::*;

verus! {

/// What comes of waiting for a packet.
pub enum Arrival {
    /// This packet, with the time that is told for it, if asked for, and what the sender has
    /// reported when it is looked up afterwards.
    Packet { packet: Seq<u8>, time: u128, report: Option<i64> },
    /// Nothing could be read.
    Failed,
}

impl Arrival {
    /// A packet is long enough to be taken in.
    pub open spec fn acceptable(self) -> bool {
        self is Packet ==> readable(self->packet)
    }

    /// The packet is recorded.
    pub open spec fn recorded(self, save_data: bool) -> bool {
        save_data && self is Packet && comes_from_peer(self->packet)
    }

    /// The tally with what has come.
    pub open spec fn counted(self, tally: Tally) -> Tally {
        match self {
            Arrival::Packet { packet, .. } => tally.with(packet),
            Arrival::Failed => tally,
        }
    }

    /// What is told to a receiver in the course of the arrival.
    pub open spec fn events(self, save_data: bool) -> Seq<ReceiveEventView> {
        match self {
            Arrival::Packet { packet, time, report } => seq![ReceiveEventView::Packet(packet)] + (
            if self.recorded(save_data) {
                seq![ReceiveEventView::Clock(time), ReceiveEventView::Done]
            } else {
                Seq::empty()
            }) + (match report {
                Some(number) => seq![ReceiveEventView::Report(number), ReceiveEventView::Done],
                None => seq![ReceiveEventView::NoReport],
            }),
            Arrival::Failed => seq![ReceiveEventView::Failed],
        }
    }

    /// What is done on the arrival by a receiver whose tally it finds: a packet of the peer is
    /// recorded, where packets are; then, after every packet, the sender's report is looked up,
    /// and shown where there is one; and then comes the next turn.
    pub open spec fn actions(self, num_pkts: int, save_data: bool, tally: Tally) -> Seq<
        ReceiveActionView,
    > {
        match self {
            Arrival::Packet { packet, time, report } => (if self.recorded(save_data) {
                seq![
                    ReceiveActionView::ReadClock,
                    ReceiveActionView::WriteRow(packet_row(packet, time)),
                ]
            } else {
                Seq::empty()
            }) + seq![ReceiveActionView::Poll] + (match report {
                Some(number) => seq![
                    ReceiveActionView::ShowLag {
                        reported: number as int,
                        count: tally.with(packet).count as int,
                        summary: summary_text(tally.with(packet)),
                    },
                ],
                None => Seq::empty(),
            }) + seq![turn_action(num_pkts, tally.with(packet))],
            Arrival::Failed => seq![ReceiveActionView::Receive],
        }
    }
}

/// What is done at a turn: wait for a packet, if one is missing, and else stop.
pub open spec fn turn_action(num_pkts: int, tally: Tally) -> ReceiveActionView {
    if tally.count < num_pkts {
        ReceiveActionView::Receive
    } else {
        ReceiveActionView::Finish
    }
}

/// How far a receiver is after a turn.
pub open spec fn turned(num_pkts: int, tally: Tally) -> Progress {
    Progress {
        tally,
        phase: if tally.count < num_pkts {
            Phase::Waiting
        } else {
            Phase::Ready
        },
    }
}

/// The tally after all of `arrivals`, in their order.
pub open spec fn tally_of(arrivals: Seq<Arrival>) -> Tally
    decreases arrivals.len(),
{
    if arrivals.len() == 0 {
        Tally::start()
    } else {
        arrivals.last().counted(tally_of(arrivals.drop_last()))
    }
}

/// What is told to a receiver in the course of a reception.
pub open spec fn reception_events(save_data: bool, arrivals: Seq<Arrival>) -> Seq<ReceiveEventView>
    decreases arrivals.len(),
{
    if arrivals.len() == 0 {
        seq![ReceiveEventView::Done]
    } else {
        reception_events(save_data, arrivals.drop_last()) + arrivals.last().events(save_data)
    }
}

/// What is done in the course of a reception: the first turn, and then on each arrival what is
/// to be done with it.
pub open spec fn reception_actions(
    num_pkts: int,
    save_data: bool,
    arrivals: Seq<Arrival>,
) -> Seq<ReceiveActionView>
    decreases arrivals.len(),
{
    if arrivals.len() == 0 {
        seq![turn_action(num_pkts, Tally::start())]
    } else {
        reception_actions(num_pkts, save_data, arrivals.drop_last()) + arrivals.last().actions(
            num_pkts,
            save_data,
            tally_of(arrivals.drop_last()),
        )
    }
}

/// Before each of `arrivals` a packet is missing, and each can be taken in.
pub open spec fn is_reception(num_pkts: int, arrivals: Seq<Arrival>) -> bool {
    forall|k: int|
        0 <= k < arrivals.len() ==> tally_of(arrivals.take(k)).count < num_pkts && (
        #[trigger] arrivals[k]).acceptable()
}

/// A receiver goes from one progress to another on `events`, each of which it waits for, and does
/// `actions` on the way.
#[verifier::opaque]
spec fn goes(
    from: Progress,
    num_pkts: int,
    save_data: bool,
    events: Seq<ReceiveEventView>,
    to: Progress,
    actions: Seq<ReceiveActionView>,
) -> bool {
    &&& from.after(num_pkts, save_data, events) == to
    &&& from.actions(num_pkts, save_data, events) == actions
    &&& from.awaits_all(num_pkts, save_data, events)
}

proof fn lemma_goes_step(from: Progress, num_pkts: int, save_data: bool, event: ReceiveEventView)
    requires
        from.awaits(event),
    ensures
        goes(
            from,
            num_pkts,
            save_data,
            seq![event],
            from.step(num_pkts, save_data, event).0,
            seq![from.step(num_pkts, save_data, event).1],
        ),
{
    reveal(goes);
    let events = seq![event];
    assert(events.drop_last() =~= Seq::empty());
    assert(from.after(num_pkts, save_data, events.drop_last()) == from);
    assert(from.actions(num_pkts, save_data, events.drop_last()) =~= Seq::empty());
    assert(from.actions(num_pkts, save_data, events) =~= seq![
        from.step(num_pkts, save_data, event).1,
    ]);
    assert forall|j: int| 0 <= j < events.len() implies from.after(
        num_pkts,
        save_data,
        events.take(j),
    ).awaits(#[trigger] events[j]) by {
        assert(events.take(j) =~= Seq::empty());
    }
}

proof fn lemma_in_two_parts(
    from: Progress,
    num_pkts: int,
    save_data: bool,
    first: Seq<ReceiveEventView>,
    second: Seq<ReceiveEventView>,
)
    ensures
        from.after(num_pkts, save_data, first + second) == from.after(
            num_pkts,
            save_data,
            first,
        ).after(num_pkts, save_data, second),
        from.actions(num_pkts, save_data, first + second) == from.actions(
            num_pkts,
            save_data,
            first,
        ) + from.after(num_pkts, save_data, first).actions(num_pkts, save_data, second),
    decreases second.len(),
{
    let middle = from.after(num_pkts, save_data, first);
    let done = from.actions(num_pkts, save_data, first);
    if second.len() == 0 {
        assert(first + second =~= first);
        assert(done =~= done + middle.actions(num_pkts, save_data, second));
    } else {
        lemma_in_two_parts(from, num_pkts, save_data, first, second.drop_last());
        assert((first + second).drop_last() =~= first + second.drop_last());
        assert(from.actions(num_pkts, save_data, first + second) =~= done + middle.actions(
            num_pkts,
            save_data,
            second,
        ));
    }
}

proof fn lemma_goes_on(
    from: Progress,
    num_pkts: int,
    save_data: bool,
    first: Seq<ReceiveEventView>,
    middle: Progress,
    first_actions: Seq<ReceiveActionView>,
    second: Seq<ReceiveEventView>,
    to: Progress,
    second_actions: Seq<ReceiveActionView>,
)
    requires
        goes(from, num_pkts, save_data, first, middle, first_actions),
        goes(middle, num_pkts, save_data, second, to, second_actions),
    ensures
        goes(from, num_pkts, save_data, first + second, to, first_actions + second_actions),
{
    reveal(goes);
    let events = first + second;
    lemma_in_two_parts(from, num_pkts, save_data, first, second);
    assert forall|j: int| 0 <= j < events.len() implies from.after(
        num_pkts,
        save_data,
        events.take(j),
    ).awaits(#[trigger] events[j]) by {
        if j < first.len() {
            assert(events.take(j) =~= first.take(j));
            assert(events[j] == first[j]);
        } else {
            let k = j - first.len();
            assert(events.take(j) =~= first + second.take(k));
            assert(events[j] == second[k]);
            lemma_in_two_parts(from, num_pkts, save_data, first, second.take(k));
        }
    }
}

/// A packet that is recorded: it is counted, stamped and written.
proof fn lemma_recording(num_pkts: int, tally: Tally, packet: Seq<u8>, time: u128)
    requires
        readable(packet),
        comes_from_peer(packet),
    ensures
        goes(
            Progress { tally, phase: Phase::Waiting },
            num_pkts,
            true,
            seq![ReceiveEventView::Packet(packet), ReceiveEventView::Clock(time)],
            Progress { tally: tally.with(packet), phase: Phase::Recorded },
            seq![
                ReceiveActionView::ReadClock,
                ReceiveActionView::WriteRow(packet_row(packet, time)),
            ],
        ),
{
    let waiting = Progress { tally, phase: Phase::Waiting };
    let row = Row { seq: read_sequence(packet) as usize, flow: packet.last() };
    let stamping = Progress { tally: tally.with(packet), phase: Phase::Stamping(row) };
    let recorded = Progress { tally: tally.with(packet), phase: Phase::Recorded };
    let e1 = seq![ReceiveEventView::Packet(packet)];
    let e2 = seq![ReceiveEventView::Clock(time)];
    let a1 = seq![ReceiveActionView::ReadClock];
    let a2 = seq![ReceiveActionView::WriteRow(packet_row(packet, time))];
    crate::receiver::lemma_read_sequence_fits(packet);
    lemma_goes_step(waiting, num_pkts, true, ReceiveEventView::Packet(packet));
    lemma_goes_step(stamping, num_pkts, true, ReceiveEventView::Clock(time));
    lemma_goes_on(waiting, num_pkts, true, e1, stamping, a1, e2, recorded, a2);
    assert(e1 + e2 =~= seq![ReceiveEventView::Packet(packet), ReceiveEventView::Clock(time)]);
    assert(a1 + a2 =~= seq![
        ReceiveActionView::ReadClock,
        ReceiveActionView::WriteRow(packet_row(packet, time)),
    ]);
}

/// A packet up to the question for the sender's report.
proof fn lemma_taking_in(
    num_pkts: int,
    save_data: bool,
    tally: Tally,
    packet: Seq<u8>,
    time: u128,
)
    requires
        readable(packet),
    ensures
        goes(
            Progress { tally, phase: Phase::Waiting },
            num_pkts,
            save_data,
            seq![ReceiveEventView::Packet(packet)] + (if save_data && comes_from_peer(packet) {
                seq![ReceiveEventView::Clock(time), ReceiveEventView::Done]
            } else {
                Seq::empty()
            }),
            Progress { tally: tally.with(packet), phase: Phase::Polling },
            (if save_data && comes_from_peer(packet) {
                seq![
                    ReceiveActionView::ReadClock,
                    ReceiveActionView::WriteRow(packet_row(packet, time)),
                ]
            } else {
                Seq::empty()
            }) + seq![ReceiveActionView::Poll],
        ),
{
    let waiting = Progress { tally, phase: Phase::Waiting };
    let recorded = Progress { tally: tally.with(packet), phase: Phase::Recorded };
    let polling = Progress { tally: tally.with(packet), phase: Phase::Polling };
    let come = seq![ReceiveEventView::Packet(packet)];
    let poll = seq![ReceiveActionView::Poll];
    if save_data && comes_from_peer(packet) {
        let e1 = seq![ReceiveEventView::Packet(packet), ReceiveEventView::Clock(time)];
        let e2 = seq![ReceiveEventView::Done];
        let a1 = seq![
            ReceiveActionView::ReadClock,
            ReceiveActionView::WriteRow(packet_row(packet, time)),
        ];
        lemma_recording(num_pkts, tally, packet, time);
        lemma_goes_step(recorded, num_pkts, save_data, ReceiveEventView::Done);
        lemma_goes_on(waiting, num_pkts, save_data, e1, recorded, a1, e2, polling, poll);
        assert(e1 + e2 =~= come + seq![ReceiveEventView::Clock(time), ReceiveEventView::Done]);
    } else {
        lemma_goes_step(waiting, num_pkts, save_data, ReceiveEventView::Packet(packet));
        assert(come + Seq::empty() =~= come);
        assert(Seq::<ReceiveActionView>::empty() + poll =~= poll);
    }
}

/// The sender's report and the turn behind it.
proof fn lemma_looking_up(num_pkts: int, save_data: bool, tally: Tally, report: Option<i64>)
    ensures
        goes(
            Progress { tally, phase: Phase::Polling },
            num_pkts,
            save_data,
            match report {
                Some(number) => seq![ReceiveEventView::Report(number), ReceiveEventView::Done],
                None => seq![ReceiveEventView::NoReport],
            },
            turned(num_pkts, tally),
            (match report {
                Some(number) => seq![
                    ReceiveActionView::ShowLag {
                        reported: number as int,
                        count: tally.count as int,
                        summary: summary_text(tally),
                    },
                ],
                None => Seq::empty(),
            }) + seq![turn_action(num_pkts, tally)],
        ),
{
    let polling = Progress { tally, phase: Phase::Polling };
    let ready = Progress { tally, phase: Phase::Ready };
    let end = turned(num_pkts, tally);
    let turn = seq![turn_action(num_pkts, tally)];
    match report {
        Some(number) => {
            let e1 = seq![ReceiveEventView::Report(number)];
            let e2 = seq![ReceiveEventView::Done];
            let a1 = seq![
                ReceiveActionView::ShowLag {
                    reported: number as int,
                    count: tally.count as int,
                    summary: summary_text(tally),
                },
            ];
            lemma_goes_step(polling, num_pkts, save_data, ReceiveEventView::Report(number));
            lemma_goes_step(ready, num_pkts, save_data, ReceiveEventView::Done);
            lemma_goes_on(polling, num_pkts, save_data, e1, ready, a1, e2, end, turn);
            assert(e1 + e2 =~= seq![ReceiveEventView::Report(number), ReceiveEventView::Done]);
        },
        None => {
            lemma_goes_step(polling, num_pkts, save_data, ReceiveEventView::NoReport);
            assert(Seq::<ReceiveActionView>::empty() + turn =~= turn);
        },
    }
}

proof fn lemma_arrival_goes(num_pkts: int, save_data: bool, tally: Tally, arrival: Arrival)
    requires
        tally.count < num_pkts,
        arrival.acceptable(),
    ensures
        goes(
            Progress { tally, phase: Phase::Waiting },
            num_pkts,
            save_data,
            arrival.events(save_data),
            turned(num_pkts, arrival.counted(tally)),
            arrival.actions(num_pkts, save_data, tally),
        ),
{
    let waiting = Progress { tally, phase: Phase::Waiting };
    match arrival {
        Arrival::Packet { packet, time, report } => {
            let saved = save_data && comes_from_peer(packet);
            let e1 = seq![ReceiveEventView::Packet(packet)] + (if saved {
                seq![ReceiveEventView::Clock(time), ReceiveEventView::Done]
            } else {
                Seq::empty()
            });
            let a1 = (if saved {
                seq![
                    ReceiveActionView::ReadClock,
                    ReceiveActionView::WriteRow(packet_row(packet, time)),
                ]
            } else {
                Seq::empty()
            }) + seq![ReceiveActionView::Poll];
            let e2 = match report {
                Some(number) => seq![ReceiveEventView::Report(number), ReceiveEventView::Done],
                None => seq![ReceiveEventView::NoReport],
            };
            let shown = match report {
                Some(number) => seq![
                    ReceiveActionView::ShowLag {
                        reported: number as int,
                        count: tally.with(packet).count as int,
                        summary: summary_text(tally.with(packet)),
                    },
                ],
                None => Seq::empty(),
            };
            let turn = seq![turn_action(num_pkts, tally.with(packet))];
            lemma_taking_in(num_pkts, save_data, tally, packet, time);
            lemma_looking_up(num_pkts, save_data, tally.with(packet), report);
            lemma_goes_on(
                waiting,
                num_pkts,
                save_data,
                e1,
                Progress { tally: tally.with(packet), phase: Phase::Polling },
                a1,
                e2,
                turned(num_pkts, tally.with(packet)),
                shown + turn,
            );
            assert(a1 + (shown + turn) =~= a1 + shown + turn);
        },
        Arrival::Failed => {
            lemma_goes_step(waiting, num_pkts, save_data, ReceiveEventView::Failed);
        },
    }
}

proof fn lemma_reception_front(num_pkts: int, arrivals: Seq<Arrival>)
    requires
        arrivals.len() > 0,
        is_reception(num_pkts, arrivals),
    ensures
        is_reception(num_pkts, arrivals.drop_last()),
        tally_of(arrivals.drop_last()).count < num_pkts,
        arrivals.last().acceptable(),
{
    let front = arrivals.drop_last();
    assert forall|k: int| 0 <= k < front.len() implies tally_of(front.take(k)).count < num_pkts && (
    #[trigger] front[k]).acceptable() by {
        assert(arrivals[k] == front[k]);
        assert(arrivals.take(k) =~= front.take(k));
    }
    assert(arrivals[arrivals.len() - 1] == arrivals.last());
    assert(arrivals.take(arrivals.len() - 1) =~= front);
}

proof fn lemma_reception_goes(num_pkts: int, save_data: bool, arrivals: Seq<Arrival>)
    requires
        is_reception(num_pkts, arrivals),
    ensures
        goes(
            Progress::start(),
            num_pkts,
            save_data,
            reception_events(save_data, arrivals),
            turned(num_pkts, tally_of(arrivals)),
            reception_actions(num_pkts, save_data, arrivals),
        ),
    decreases arrivals.len(),
{
    let start = Progress::start();
    if arrivals.len() == 0 {
        lemma_goes_step(start, num_pkts, save_data, ReceiveEventView::Done);
    } else {
        let front = arrivals.drop_last();
        let last = arrivals.last();
        lemma_reception_front(num_pkts, arrivals);
        lemma_reception_goes(num_pkts, save_data, front);
        lemma_arrival_goes(num_pkts, save_data, tally_of(front), last);
        lemma_goes_on(
            start,
            num_pkts,
            save_data,
            reception_events(save_data, front),
            turned(num_pkts, tally_of(front)),
            reception_actions(num_pkts, save_data, front),
            last.events(save_data),
            turned(num_pkts, tally_of(arrivals)),
            last.actions(num_pkts, save_data, tally_of(front)),
        );
    }
}

/// A receiver does on each arrival, one after the other, what is to be done with it, and waits
/// for each thing that it is told on the way. It stops behind the arrival with which the count
/// reaches the number of packets that are waited for, and not before.
pub proof fn reception_course(num_pkts: int, save_data: bool, arrivals: Seq<Arrival>)
    requires
        is_reception(num_pkts, arrivals),
    ensures
        Progress::start().awaits_all(num_pkts, save_data, reception_events(save_data, arrivals)),
        Progress::start().after(num_pkts, save_data, reception_events(save_data, arrivals))
            == turned(num_pkts, tally_of(arrivals)),
        Progress::start().actions(num_pkts, save_data, reception_events(save_data, arrivals))
            == reception_actions(num_pkts, save_data, arrivals),
        reception_actions(num_pkts, save_data, arrivals).last() is Finish <==> tally_of(
            arrivals,
        ).count >= num_pkts,
        forall|i: int|
            0 <= i < reception_actions(num_pkts, save_data, arrivals).len() - 1 ==> !((
            #[trigger] reception_actions(num_pkts, save_data, arrivals)[i]) is Finish),
{
    lemma_reception_goes(num_pkts, save_data, arrivals);
    reveal(goes);
    lemma_finish_is_last(num_pkts, save_data, arrivals);
}

proof fn lemma_finish_is_last(num_pkts: int, save_data: bool, arrivals: Seq<Arrival>)
    requires
        is_reception(num_pkts, arrivals),
    ensures
        reception_actions(num_pkts, save_data, arrivals).len() > 0,
        reception_actions(num_pkts, save_data, arrivals).last() is Finish <==> tally_of(
            arrivals,
        ).count >= num_pkts,
        forall|i: int|
            0 <= i < reception_actions(num_pkts, save_data, arrivals).len() - 1 ==> !((
            #[trigger] reception_actions(num_pkts, save_data, arrivals)[i]) is Finish),
    decreases arrivals.len(),
{
    if arrivals.len() > 0 {
        let front = arrivals.drop_last();
        let last = arrivals.last();
        let before = reception_actions(num_pkts, save_data, front);
        let here = last.actions(num_pkts, save_data, tally_of(front));
        let all = reception_actions(num_pkts, save_data, arrivals);
        lemma_reception_front(num_pkts, arrivals);
        lemma_finish_is_last(num_pkts, save_data, front);
        assert(all == before + here);
        assert(all.last() == here.last());
        assert forall|i: int| 0 <= i < all.len() - 1 implies !((#[trigger] all[i]) is Finish) by {
            if i < before.len() {
                assert(all[i] == before[i]);
                if i == before.len() - 1 {
                    assert(before[i] == before.last());
                }
            } else {
                assert(all[i] == here[i - before.len()]);
            }
        }
    }
}

} // verus!
