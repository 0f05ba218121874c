//! The sending side: what to do, step by step, from the first packet of a plan to the last.

use crate::lengths::{has_room, MAX_PKT_LEN, MIN_PKT_LEN};
use crate::packet::{
    encode_sequence_num, get_ipv4_packet, number_at, probe, probe_describes_itself,
};
use crate::record::{row_text, Row};
use vstd::prelude::*;

verus! {

/// How many packets are recorded at most.
pub const MAX_ROWS: usize = 1_000_000;

/// What is to be sent.
#[derive(Debug)]
pub struct Plan {
    pub ip_src: [u8; 4],
    pub ip_dst: [u8; 4],
    pub flow: u8,
    /// How many packets.
    pub num_pkts: usize,
    /// Their lengths.
    pub lengths: Vec<i32>,
    /// Whether to record them.
    pub save_data: bool,
    /// The time to fill with each packet, in nanoseconds.
    pub interval: u64,
    /// After how many packets to report.
    pub report_every: usize,
}

impl Plan {
    /// The lengths are ones that go in one piece and leave room for the payload.
    pub open spec fn valid(&self) -> bool {
        &&& has_room(self.num_pkts)
        &&& forall|i: int|
            0 <= i < self.lengths@.len() ==> MIN_PKT_LEN <= #[trigger] self.lengths@[i]
                <= MAX_PKT_LEN
    }

    /// There is a length for each packet and a number of packets after which to report.
    pub open spec fn complete(&self) -> bool {
        self.lengths@.len() >= self.num_pkts && self.report_every != 0
    }

    /// The packet number `i` as it goes out.
    pub open spec fn frame(&self, i: int) -> Seq<u8> {
        probe(self.ip_src@, self.ip_dst@, self.flow, self.lengths@[i] as int, i as nat)
    }

    /// The packet number `i` is recorded.
    pub open spec fn records(&self, i: int) -> bool {
        self.save_data && i < MAX_ROWS
    }

    /// A report is made after the packet number `i`.
    pub open spec fn reports(&self, i: int) -> bool {
        i % self.report_every as int == 0
    }
}

/// The time to wait so that `elapsed` grows to at least `interval`.
pub open spec fn remaining(interval: int, elapsed: int) -> int {
    if elapsed < interval {
        interval - elapsed
    } else {
        0
    }
}

/// How long to wait where `elapsed` nanoseconds have passed since the timer was last read, so that
/// both times together fill `interval` nanoseconds.
pub fn sleep_time(interval: u64, elapsed: u128) -> (wait: u64)
    ensures
        wait == remaining(interval as int, elapsed as int),
        wait <= interval,
        elapsed + wait >= interval,
        elapsed <= interval ==> elapsed + wait == interval,
        elapsed >= interval ==> wait == 0,
{
    if elapsed < interval as u128 {
        interval - elapsed as u64
    } else {
        0
    }
}

/// Where a sender stands with the packet at hand.
#[derive(Clone, Copy, Debug, PartialEq, Eq, Structural)]
pub enum Phase {
    /// It is not out yet.
    Ready,
    /// It is out.
    Sent,
    /// It is out, and the time for its record was asked for.
    Stamping,
    /// It is out and recorded.
    Recorded,
    /// It is out and reported.
    Reported,
    /// All is done with it, and a reading of the timer was asked for.
    Pacing,
}

/// What a sender is told.
#[derive(Clone, Copy, Debug, PartialEq, Eq, Structural)]
pub enum SendEvent {
    /// The last action was carried out.
    Done,
    /// The time of day, in nanoseconds.
    Clock(u128),
    /// The time since the timer was last read, in nanoseconds.
    Elapsed(u128),
}

/// What a sender wants done.
#[derive(Debug)]
pub enum SendAction {
    /// Send this packet.
    Transmit(Vec<u8>),
    /// Tell the time of day.
    ReadClock,
    /// Write this line to the file of records.
    WriteRow(String),
    /// Report that this many packets went before.
    Report(i64),
    /// Tell the time since the timer was last read.
    ReadTimer,
    /// Wait for this many nanoseconds.
    Sleep(u64),
    /// Stop: all packets are out.
    Finish,
}

/// What an action stands for.
pub enum SendActionView {
    Transmit(Seq<u8>),
    ReadClock,
    WriteRow(Seq<char>),
    Report(int),
    ReadTimer,
    Sleep(int),
    Finish,
}

impl View for SendAction {
    type V = SendActionView;

    open spec fn view(&self) -> SendActionView {
        match self {
            SendAction::Transmit(frame) => SendActionView::Transmit(frame@),
            SendAction::ReadClock => SendActionView::ReadClock,
            SendAction::WriteRow(line) => SendActionView::WriteRow(line@),
            SendAction::Report(number) => SendActionView::Report(*number as int),
            SendAction::ReadTimer => SendActionView::ReadTimer,
            SendAction::Sleep(wait) => SendActionView::Sleep(*wait as int),
            SendAction::Finish => SendActionView::Finish,
        }
    }
}

/// Why a sender cannot go on.
#[derive(Clone, Copy, Debug, PartialEq, Eq, Structural)]
pub enum SendFault {
    /// The plan has fewer lengths than packets.
    NoLength,
    /// The plan says to report after every zero packets.
    ZeroReportInterval,
}

/// How far a sender is: how many packets it is done with, and where it stands with the next.
#[verifier::ext_equal]
pub struct Progress {
    pub count: int,
    pub phase: Phase,
}

impl Progress {
    /// Why a sender that is so far with `plan` cannot go on, if so.
    pub open spec fn fault(self, plan: Plan) -> Option<SendFault> {
        match self.phase {
            Phase::Ready => if self.count < plan.num_pkts && self.count >= plan.lengths@.len() {
                Some(SendFault::NoLength)
            } else {
                None
            },
            Phase::Sent => if !plan.records(self.count) && plan.report_every == 0 {
                Some(SendFault::ZeroReportInterval)
            } else {
                None
            },
            Phase::Recorded => if plan.report_every == 0 {
                Some(SendFault::ZeroReportInterval)
            } else {
                None
            },
            _ => None,
        }
    }

    /// The event is one that a sender which is so far waits for.
    pub open spec fn awaits(self, event: SendEvent) -> bool {
        match self.phase {
            Phase::Stamping => event is Clock,
            Phase::Pacing => event is Elapsed,
            _ => event is Done,
        }
    }

    /// What a sender that is done with recording does: it reports, if it is time to, and else
    /// goes on to pacing.
    pub open spec fn after_recording(self, plan: Plan) -> (Progress, SendActionView) {
        if plan.reports(self.count) {
            (
                Progress { count: self.count, phase: Phase::Reported },
                SendActionView::Report(self.count),
            )
        } else {
            self.after_reporting()
        }
    }

    /// What a sender that is done with reporting does: it counts the packet and asks for a reading
    /// of the timer.
    pub open spec fn after_reporting(self) -> (Progress, SendActionView) {
        (Progress { count: self.count + 1, phase: Phase::Pacing }, SendActionView::ReadTimer)
    }

    /// How far a sender of `plan` is after `event`, and what it wants done.
    pub open spec fn step(self, plan: Plan, event: SendEvent) -> (Progress, SendActionView) {
        match self.phase {
            Phase::Ready => if self.count < plan.num_pkts {
                (
                    Progress { count: self.count, phase: Phase::Sent },
                    SendActionView::Transmit(plan.frame(self.count)),
                )
            } else {
                (self, SendActionView::Finish)
            },
            Phase::Sent => if plan.records(self.count) {
                (
                    Progress { count: self.count, phase: Phase::Stamping },
                    SendActionView::ReadClock,
                )
            } else {
                self.after_recording(plan)
            },
            Phase::Stamping => (
                Progress { count: self.count, phase: Phase::Recorded },
                SendActionView::WriteRow(
                    row_text(self.count as nat, event->Clock_0 as nat, plan.flow as nat),
                ),
            ),
            Phase::Recorded => self.after_recording(plan),
            Phase::Reported => self.after_reporting(),
            Phase::Pacing => (
                Progress { count: self.count, phase: Phase::Ready },
                SendActionView::Sleep(remaining(plan.interval as int, event->Elapsed_0 as int)),
            ),
        }
    }

    /// How far a sender of `plan` is after all of `events`, in their order.
    pub open spec fn after(self, plan: Plan, events: Seq<SendEvent>) -> Progress
        decreases events.len(),
    {
        if events.len() == 0 {
            self
        } else {
            self.after(plan, events.drop_last()).step(plan, events.last()).0
        }
    }

    /// What a sender of `plan` wants done on each of `events`, in their order.
    pub open spec fn actions(self, plan: Plan, events: Seq<SendEvent>) -> Seq<SendActionView>
        decreases events.len(),
    {
        if events.len() == 0 {
            Seq::empty()
        } else {
            self.actions(plan, events.drop_last()).push(
                self.after(plan, events.drop_last()).step(plan, events.last()).1,
            )
        }
    }

    /// Each of `events` is one that the sender waits for when it comes.
    pub open spec fn awaits_all(self, plan: Plan, events: Seq<SendEvent>) -> bool {
        forall|j: int|
            0 <= j < events.len() ==> self.after(plan, events.take(j)).awaits(#[trigger] events[j])
    }
}

/// A sender on its way through a plan.
#[derive(Debug)]
pub struct Sender {
    pub plan: Plan,
    /// How many packets it is done with.
    pub count: usize,
    /// Where it stands with the next.
    pub phase: Phase,
}

impl View for Sender {
    type V = Progress;

    open spec fn view(&self) -> Progress {
        Progress { count: self.count as int, phase: self.phase }
    }
}

impl Sender {
    /// The plan is valid, no more packets are out than it holds, and there is one at hand where
    /// the phase says so.
    pub open spec fn wf(&self) -> bool {
        &&& self.plan.valid()
        &&& self.count <= self.plan.num_pkts
        &&& !(self.phase is Ready || self.phase is Pacing) ==> self.count < self.plan.num_pkts
    }

    /// A sender that has sent nothing.
    pub fn new(plan: Plan) -> (sender: Sender)
        requires
            plan.valid(),
        ensures
            sender.wf(),
            sender.plan == plan,
            sender@ == (Progress { count: 0, phase: Phase::Ready }),
    {
        Sender { plan, count: 0, phase: Phase::Ready }
    }

    fn saves(&self) -> (saves: bool)
        ensures
            saves == self.plan.records(self.count as int),
    {
        self.plan.save_data && self.count < MAX_ROWS
    }

    /// Why the sender cannot go on, if so.
    pub fn fault(&self) -> (fault: Option<SendFault>)
        ensures
            fault == self@.fault(self.plan),
    {
        let no_length = self.count < self.plan.num_pkts && self.count >= self.plan.lengths.len();
        let zero_interval = self.plan.report_every == 0;
        match self.phase {
            Phase::Ready if no_length => Some(SendFault::NoLength),
            Phase::Sent if !self.saves() && zero_interval => Some(SendFault::ZeroReportInterval),
            Phase::Recorded if zero_interval => Some(SendFault::ZeroReportInterval),
            _ => None,
        }
    }

    /// Builds the packet at hand.
    fn frame(&self) -> (frame: Vec<u8>)
        requires
            self.wf(),
            self.count < self.plan.lengths@.len(),
        ensures
            frame@ == self.plan.frame(self.count as int),
    {
        let mut frame: Vec<u8> = get_ipv4_packet(
            self.plan.ip_src,
            self.plan.ip_dst,
            self.plan.flow,
            self.plan.lengths[self.count] as usize,
        );
        encode_sequence_num(&mut frame, self.count);
        frame
    }

    fn go_on_after_reporting(&mut self) -> (action: SendAction)
        requires
            old(self).wf(),
            old(self).count < old(self).plan.num_pkts,
        ensures
            final(self).wf(),
            final(self).plan == old(self).plan,
            (final(self)@, action@) == old(self)@.after_reporting(),
    {
        self.count = self.count + 1;
        self.phase = Phase::Pacing;
        SendAction::ReadTimer
    }

    fn go_on_after_recording(&mut self) -> (action: SendAction)
        requires
            old(self).wf(),
            old(self).count < old(self).plan.num_pkts,
            old(self).plan.report_every != 0,
        ensures
            final(self).wf(),
            final(self).plan == old(self).plan,
            (final(self)@, action@) == old(self)@.after_recording(old(self).plan),
    {
        if self.count % self.plan.report_every == 0 && self.count < self.plan.num_pkts {
            self.phase = Phase::Reported;
            SendAction::Report(self.count as i64)
        } else {
            self.go_on_after_reporting()
        }
    }

    /// Takes an event in and says what to do next.
    pub fn step(&mut self, event: SendEvent) -> (action: SendAction)
        requires
            old(self).wf(),
            old(self)@.fault(old(self).plan) is None,
            old(self)@.awaits(event),
        ensures
            final(self).wf(),
            final(self).plan == old(self).plan,
            (final(self)@, action@) == old(self)@.step(old(self).plan, event),
    {
        match self.phase {
            Phase::Ready => {
                if self.count < self.plan.num_pkts {
                    let frame: Vec<u8> = self.frame();
                    self.phase = Phase::Sent;
                    SendAction::Transmit(frame)
                } else {
                    SendAction::Finish
                }
            },
            Phase::Sent => {
                if self.saves() {
                    self.phase = Phase::Stamping;
                    SendAction::ReadClock
                } else {
                    self.go_on_after_recording()
                }
            },
            Phase::Stamping => {
                let time: u128 = match event {
                    SendEvent::Clock(time) => time,
                    _ => 0,
                };
                let row = Row { seq: self.count, flow: self.plan.flow };
                self.phase = Phase::Recorded;
                SendAction::WriteRow(row.line(time))
            },
            Phase::Recorded => self.go_on_after_recording(),
            Phase::Reported => self.go_on_after_reporting(),
            Phase::Pacing => {
                let elapsed: u128 = match event {
                    SendEvent::Elapsed(elapsed) => elapsed,
                    _ => 0,
                };
                self.phase = Phase::Ready;
                SendAction::Sleep(sleep_time(self.plan.interval, elapsed))
            },
        }
    }
}

/// What is told to a sender of `plan` in the course of its packet number `i`.
pub open spec fn packet_events(plan: Plan, i: int, time: u128, elapsed: u128) -> Seq<SendEvent> {
    seq![SendEvent::Done] + (if plan.records(i) {
        seq![SendEvent::Done, SendEvent::Clock(time)]
    } else {
        Seq::empty()
    }) + (if plan.reports(i) {
        seq![SendEvent::Done]
    } else {
        Seq::empty()
    }) + seq![SendEvent::Done, SendEvent::Elapsed(elapsed)]
}

/// What is done with the packet number `i` of `plan`: it goes out, it is recorded where the plan
/// says so, it is reported where it is time to, and then there is a pause.
pub open spec fn packet_actions(
    plan: Plan,
    i: int,
    time: u128,
    elapsed: u128,
) -> Seq<SendActionView> {
    seq![SendActionView::Transmit(plan.frame(i))] + (if plan.records(i) {
        seq![
            SendActionView::ReadClock,
            SendActionView::WriteRow(row_text(i as nat, time as nat, plan.flow as nat)),
        ]
    } else {
        Seq::empty()
    }) + (if plan.reports(i) {
        seq![SendActionView::Report(i)]
    } else {
        Seq::empty()
    }) + seq![
        SendActionView::ReadTimer,
        SendActionView::Sleep(remaining(plan.interval as int, elapsed as int)),
    ]
}

/// A sender of `plan` goes from one progress to another on `events`, each of which it waits for,
/// and does `actions` on the way.
#[verifier::opaque]
spec fn goes(
    from: Progress,
    plan: Plan,
    events: Seq<SendEvent>,
    to: Progress,
    actions: Seq<SendActionView>,
) -> bool {
    &&& from.after(plan, events) == to
    &&& from.actions(plan, events) == actions
    &&& from.awaits_all(plan, events)
}

proof fn lemma_goes_nowhere(from: Progress, plan: Plan)
    ensures
        goes(from, plan, Seq::empty(), from, Seq::empty()),
{
    reveal(goes);
}

proof fn lemma_goes_step(from: Progress, plan: Plan, event: SendEvent)
    requires
        from.awaits(event),
    ensures
        goes(
            from,
            plan,
            seq![event],
            from.step(plan, event).0,
            seq![from.step(plan, event).1],
        ),
{
    reveal(goes);
    let events = seq![event];
    assert(events.drop_last() =~= Seq::empty());
    assert(from.after(plan, events.drop_last()) == from);
    assert(from.actions(plan, events.drop_last()) =~= Seq::empty());
    assert(from.actions(plan, events) =~= seq![from.step(plan, event).1]);
    assert forall|j: int| 0 <= j < events.len() implies from.after(plan, events.take(j)).awaits(
        #[trigger] events[j],
    ) by {
        assert(events.take(j) =~= Seq::empty());
    }
}

proof fn lemma_in_two_parts(
    from: Progress,
    plan: Plan,
    first: Seq<SendEvent>,
    second: Seq<SendEvent>,
)
    ensures
        from.after(plan, first + second) == from.after(plan, first).after(plan, second),
        from.actions(plan, first + second) == from.actions(plan, first) + from.after(
            plan,
            first,
        ).actions(plan, second),
    decreases second.len(),
{
    let middle = from.after(plan, first);
    if second.len() == 0 {
        assert(first + second =~= first);
        assert(from.actions(plan, first) =~= from.actions(plan, first) + middle.actions(
            plan,
            second,
        ));
    } else {
        lemma_in_two_parts(from, plan, first, second.drop_last());
        assert((first + second).drop_last() =~= first + second.drop_last());
        assert(from.actions(plan, first + second) =~= from.actions(plan, first) + middle.actions(
            plan,
            second,
        ));
    }
}

proof fn lemma_goes_on(
    from: Progress,
    plan: Plan,
    first: Seq<SendEvent>,
    middle: Progress,
    first_actions: Seq<SendActionView>,
    second: Seq<SendEvent>,
    to: Progress,
    second_actions: Seq<SendActionView>,
)
    requires
        goes(from, plan, first, middle, first_actions),
        goes(middle, plan, second, to, second_actions),
    ensures
        goes(from, plan, first + second, to, first_actions + second_actions),
{
    reveal(goes);
    let events = first + second;
    lemma_in_two_parts(from, plan, first, second);
    assert forall|j: int| 0 <= j < events.len() implies from.after(plan, events.take(j)).awaits(
        #[trigger] events[j],
    ) by {
        if j < first.len() {
            assert(events.take(j) =~= first.take(j));
            assert(events[j] == first[j]);
        } else {
            let k = j - first.len();
            assert(events.take(j) =~= first + second.take(k));
            assert(events[j] == second[k]);
            lemma_in_two_parts(from, plan, first, second.take(k));
            assert(from.after(plan, events.take(j)) == middle.after(plan, second.take(k)));
            assert(middle.after(plan, second.take(k)).awaits(second[k]));
        }
    }
}

/// The progress of a sender that is done with recording its packet number `i`.
spec fn recorded(plan: Plan, i: int) -> Progress {
    Progress {
        count: i,
        phase: if plan.records(i) {
            Phase::Recorded
        } else {
            Phase::Sent
        },
    }
}

/// The progress of a sender that is done with reporting its packet number `i`.
spec fn reported(plan: Plan, i: int) -> Progress {
    if plan.reports(i) {
        Progress { count: i, phase: Phase::Reported }
    } else {
        recorded(plan, i)
    }
}

proof fn lemma_recording(plan: Plan, i: int, time: u128)
    ensures
        goes(
            Progress { count: i, phase: Phase::Sent },
            plan,
            if plan.records(i) {
                seq![SendEvent::Done, SendEvent::Clock(time)]
            } else {
                Seq::empty()
            },
            recorded(plan, i),
            if plan.records(i) {
                seq![
                    SendActionView::ReadClock,
                    SendActionView::WriteRow(row_text(i as nat, time as nat, plan.flow as nat)),
                ]
            } else {
                Seq::empty()
            },
        ),
{
    let sent = Progress { count: i, phase: Phase::Sent };
    let stamping = Progress { count: i, phase: Phase::Stamping };
    let row = SendActionView::WriteRow(row_text(i as nat, time as nat, plan.flow as nat));
    if plan.records(i) {
        let e1 = seq![SendEvent::Done];
        let e2 = seq![SendEvent::Clock(time)];
        let a1 = seq![SendActionView::ReadClock];
        let a2 = seq![row];
        lemma_goes_step(sent, plan, SendEvent::Done);
        lemma_goes_step(stamping, plan, SendEvent::Clock(time));
        lemma_goes_on(sent, plan, e1, stamping, a1, e2, recorded(plan, i), a2);
        assert(e1 + e2 =~= seq![SendEvent::Done, SendEvent::Clock(time)]);
        assert(a1 + a2 =~= seq![SendActionView::ReadClock, row]);
    } else {
        lemma_goes_nowhere(sent, plan);
    }
}

proof fn lemma_reporting(plan: Plan, i: int)
    ensures
        goes(
            recorded(plan, i),
            plan,
            if plan.reports(i) {
                seq![SendEvent::Done]
            } else {
                Seq::empty()
            },
            reported(plan, i),
            if plan.reports(i) {
                seq![SendActionView::Report(i)]
            } else {
                Seq::empty()
            },
        ),
{
    if plan.reports(i) {
        lemma_goes_step(recorded(plan, i), plan, SendEvent::Done);
    } else {
        lemma_goes_nowhere(recorded(plan, i), plan);
    }
}

proof fn lemma_pacing(plan: Plan, i: int, elapsed: u128)
    ensures
        goes(
            reported(plan, i),
            plan,
            seq![SendEvent::Done, SendEvent::Elapsed(elapsed)],
            Progress { count: i + 1, phase: Phase::Ready },
            seq![
                SendActionView::ReadTimer,
                SendActionView::Sleep(remaining(plan.interval as int, elapsed as int)),
            ],
        ),
{
    let pacing = Progress { count: i + 1, phase: Phase::Pacing };
    let ready = Progress { count: i + 1, phase: Phase::Ready };
    let sleep = SendActionView::Sleep(remaining(plan.interval as int, elapsed as int));
    let e1 = seq![SendEvent::Done];
    let e2 = seq![SendEvent::Elapsed(elapsed)];
    let a1 = seq![SendActionView::ReadTimer];
    let a2 = seq![sleep];
    lemma_goes_step(reported(plan, i), plan, SendEvent::Done);
    lemma_goes_step(pacing, plan, SendEvent::Elapsed(elapsed));
    lemma_goes_on(reported(plan, i), plan, e1, pacing, a1, e2, ready, a2);
    assert(e1 + e2 =~= seq![SendEvent::Done, SendEvent::Elapsed(elapsed)]);
    assert(a1 + a2 =~= seq![SendActionView::ReadTimer, sleep]);
}

proof fn lemma_packet_goes(plan: Plan, i: int, time: u128, elapsed: u128)
    requires
        0 <= i < plan.num_pkts,
    ensures
        goes(
            Progress { count: i, phase: Phase::Ready },
            plan,
            packet_events(plan, i, time, elapsed),
            Progress { count: i + 1, phase: Phase::Ready },
            packet_actions(plan, i, time, elapsed),
        ),
{
    let ready = Progress { count: i, phase: Phase::Ready };
    let sent = Progress { count: i, phase: Phase::Sent };
    let next = Progress { count: i + 1, phase: Phase::Ready };
    let e1 = seq![SendEvent::Done];
    let a1 = seq![SendActionView::Transmit(plan.frame(i))];
    lemma_goes_step(ready, plan, SendEvent::Done);
    let e2 = if plan.records(i) {
        seq![SendEvent::Done, SendEvent::Clock(time)]
    } else {
        Seq::empty()
    };
    let a2 = if plan.records(i) {
        seq![
            SendActionView::ReadClock,
            SendActionView::WriteRow(row_text(i as nat, time as nat, plan.flow as nat)),
        ]
    } else {
        Seq::empty()
    };
    lemma_recording(plan, i, time);
    lemma_goes_on(ready, plan, e1, sent, a1, e2, recorded(plan, i), a2);
    let e3 = if plan.reports(i) {
        seq![SendEvent::Done]
    } else {
        Seq::empty()
    };
    let a3 = if plan.reports(i) {
        seq![SendActionView::Report(i)]
    } else {
        Seq::empty()
    };
    lemma_reporting(plan, i);
    lemma_goes_on(ready, plan, e1 + e2, recorded(plan, i), a1 + a2, e3, reported(plan, i), a3);
    let e4 = seq![SendEvent::Done, SendEvent::Elapsed(elapsed)];
    let a4 = seq![
        SendActionView::ReadTimer,
        SendActionView::Sleep(remaining(plan.interval as int, elapsed as int)),
    ];
    lemma_pacing(plan, i, elapsed);
    lemma_goes_on(ready, plan, e1 + e2 + e3, reported(plan, i), a1 + a2 + a3, e4, next, a4);
}

/// Every packet of a plan takes the same course: a sender that is ready for it, and is told what
/// it asks for, does with it what is to be done, and is then ready for the next.
pub proof fn packet_course(plan: Plan, i: int, time: u128, elapsed: u128)
    requires
        0 <= i < plan.num_pkts,
    ensures
        (Progress { count: i, phase: Phase::Ready }).awaits_all(
            plan,
            packet_events(plan, i, time, elapsed),
        ),
        (Progress { count: i, phase: Phase::Ready }).after(
            plan,
            packet_events(plan, i, time, elapsed),
        ) == (Progress { count: i + 1, phase: Phase::Ready }),
        (Progress { count: i, phase: Phase::Ready }).actions(
            plan,
            packet_events(plan, i, time, elapsed),
        ) == packet_actions(plan, i, time, elapsed),
{
    lemma_packet_goes(plan, i, time, elapsed);
    reveal(goes);
}

/// What is told to a sender of `plan` in the course of its first `n` packets, given the times
/// that it is told in the course of each.
pub open spec fn plan_events(
    plan: Plan,
    n: nat,
    time: spec_fn(int) -> u128,
    elapsed: spec_fn(int) -> u128,
) -> Seq<SendEvent>
    decreases n,
{
    if n == 0 {
        Seq::empty()
    } else {
        plan_events(plan, (n - 1) as nat, time, elapsed) + packet_events(
            plan,
            n - 1,
            time(n - 1),
            elapsed(n - 1),
        )
    }
}

/// What is done with the first `n` packets of `plan`, one after the other.
pub open spec fn plan_actions(
    plan: Plan,
    n: nat,
    time: spec_fn(int) -> u128,
    elapsed: spec_fn(int) -> u128,
) -> Seq<SendActionView>
    decreases n,
{
    if n == 0 {
        Seq::empty()
    } else {
        plan_actions(plan, (n - 1) as nat, time, elapsed) + packet_actions(
            plan,
            n - 1,
            time(n - 1),
            elapsed(n - 1),
        )
    }
}

proof fn lemma_plan_goes(
    plan: Plan,
    n: nat,
    time: spec_fn(int) -> u128,
    elapsed: spec_fn(int) -> u128,
)
    requires
        n <= plan.num_pkts,
    ensures
        goes(
            Progress { count: 0, phase: Phase::Ready },
            plan,
            plan_events(plan, n, time, elapsed),
            Progress { count: n as int, phase: Phase::Ready },
            plan_actions(plan, n, time, elapsed),
        ),
    decreases n,
{
    let start = Progress { count: 0, phase: Phase::Ready };
    if n == 0 {
        lemma_goes_nowhere(start, plan);
    } else {
        let last = n - 1;
        lemma_plan_goes(plan, last as nat, time, elapsed);
        lemma_packet_goes(plan, last, time(last), elapsed(last));
        lemma_goes_on(
            start,
            plan,
            plan_events(plan, last as nat, time, elapsed),
            Progress { count: last, phase: Phase::Ready },
            plan_actions(plan, last as nat, time, elapsed),
            packet_events(plan, last, time(last), elapsed(last)),
            Progress { count: n as int, phase: Phase::Ready },
            packet_actions(plan, last, time(last), elapsed(last)),
        );
    }
}

/// A sender of a plan does with its packets, in their order and each once, what is to be done,
/// whatever times it is told, and stops behind the last. It waits for each thing that it is told
/// on the way, and where the plan is complete nothing keeps it from going on.
pub proof fn plan_course(
    plan: Plan,
    n: nat,
    time: spec_fn(int) -> u128,
    elapsed: spec_fn(int) -> u128,
)
    requires
        n <= plan.num_pkts,
    ensures
        (Progress { count: 0, phase: Phase::Ready }).awaits_all(
            plan,
            plan_events(plan, n, time, elapsed),
        ),
        plan.complete() ==> forall|j: int|
            0 <= j <= plan_events(plan, n, time, elapsed).len() ==> (#[trigger] (Progress {
                count: 0,
                phase: Phase::Ready,
            }).after(plan, plan_events(plan, n, time, elapsed).take(j))).fault(plan) is None,
        (Progress { count: 0, phase: Phase::Ready }).after(
            plan,
            plan_events(plan, n, time, elapsed),
        ) == (Progress { count: n as int, phase: Phase::Ready }),
        (Progress { count: 0, phase: Phase::Ready }).actions(
            plan,
            plan_events(plan, n, time, elapsed),
        ) == plan_actions(plan, n, time, elapsed),
        n == plan.num_pkts ==> (Progress { count: n as int, phase: Phase::Ready }).step(
            plan,
            SendEvent::Done,
        ).1 is Finish,
{
    lemma_plan_goes(plan, n, time, elapsed);
    reveal(goes);
}

/// Nothing keeps a sender from going on where the plan has a length for each packet and a
/// number of packets after which to report.
pub proof fn complete_plan_never_faults(plan: Plan, progress: Progress)
    requires
        plan.complete(),
    ensures
        progress.fault(plan) is None,
{
}

/// The wait and the time that has passed make up the interval exactly, and there is no wait
/// where the interval is over.
pub proof fn pause_makes_up_the_interval(interval: u64, elapsed: u128)
    ensures
        elapsed <= interval ==> elapsed + remaining(interval as int, elapsed as int) == interval,
        elapsed >= interval ==> remaining(interval as int, elapsed as int) == 0,
{
}

/// The packets that go out among `actions`, in their order.
pub open spec fn transmissions(actions: Seq<SendActionView>) -> Seq<SendActionView> {
    actions.filter(|a: SendActionView| a is Transmit)
}

/// The lines written to the file of records among `actions`, in their order.
pub open spec fn rows_written(actions: Seq<SendActionView>) -> Seq<SendActionView> {
    actions.filter(|a: SendActionView| a is WriteRow)
}

/// The reports among `actions`, in their order.
pub open spec fn reports_made(actions: Seq<SendActionView>) -> Seq<SendActionView> {
    actions.filter(|a: SendActionView| a is Report)
}

/// The pauses among `actions`, in their order.
pub open spec fn pauses_made(actions: Seq<SendActionView>) -> Seq<SendActionView> {
    actions.filter(|a: SendActionView| a is Sleep)
}

proof fn lemma_filter_one(a: SendActionView, pred: spec_fn(SendActionView) -> bool)
    ensures
        seq![a].filter(pred) == (if pred(a) {
            seq![a]
        } else {
            Seq::<SendActionView>::empty()
        }),
{
    reveal(Seq::filter);
    let one = seq![a];
    assert(one.drop_last() =~= Seq::<SendActionView>::empty());
    assert(one.last() == a);
    assert(one.drop_last().filter(pred) =~= Seq::<SendActionView>::empty());
    if pred(a) {
        assert(one.filter(pred) =~= one);
    }
}

/// What is left of one action.
spec fn kept(a: SendActionView, pred: spec_fn(SendActionView) -> bool) -> Seq<SendActionView> {
    if pred(a) {
        seq![a]
    } else {
        Seq::empty()
    }
}

proof fn lemma_packet_filtered(
    plan: Plan,
    i: int,
    time: u128,
    elapsed: u128,
    pred: spec_fn(SendActionView) -> bool,
)
    ensures
        packet_actions(plan, i, time, elapsed).filter(pred) == kept(
            SendActionView::Transmit(plan.frame(i)),
            pred,
        ) + (if plan.records(i) {
            kept(SendActionView::ReadClock, pred) + kept(
                SendActionView::WriteRow(row_text(i as nat, time as nat, plan.flow as nat)),
                pred,
            )
        } else {
            Seq::empty()
        }) + (if plan.reports(i) {
            kept(SendActionView::Report(i), pred)
        } else {
            Seq::empty()
        }) + (kept(SendActionView::ReadTimer, pred) + kept(
            SendActionView::Sleep(remaining(plan.interval as int, elapsed as int)),
            pred,
        )),
{
    let a1 = seq![SendActionView::Transmit(plan.frame(i))];
    let a2 = if plan.records(i) {
        seq![
            SendActionView::ReadClock,
            SendActionView::WriteRow(row_text(i as nat, time as nat, plan.flow as nat)),
        ]
    } else {
        Seq::empty()
    };
    let a3 = if plan.reports(i) {
        seq![SendActionView::Report(i)]
    } else {
        Seq::empty()
    };
    let a4 = seq![
        SendActionView::ReadTimer,
        SendActionView::Sleep(remaining(plan.interval as int, elapsed as int)),
    ];
    lemma_filter_one(a1[0], pred);
    lemma_filter_one(a4[0], pred);
    lemma_filter_one(a4[1], pred);
    if plan.records(i) {
        lemma_filter_one(a2[0], pred);
        lemma_filter_one(a2[1], pred);
        assert(a2 =~= seq![a2[0]] + seq![a2[1]]);
        Seq::filter_distributes_over_add(seq![a2[0]], seq![a2[1]], pred);
    } else {
        a2.lemma_filter_len(pred);
        assert(a2.filter(pred) =~= Seq::empty());
    }
    if plan.reports(i) {
        lemma_filter_one(a3[0], pred);
    } else {
        a3.lemma_filter_len(pred);
        assert(a3.filter(pred) =~= Seq::empty());
    }
    assert(a4 =~= seq![a4[0]] + seq![a4[1]]);
    Seq::filter_distributes_over_add(seq![a4[0]], seq![a4[1]], pred);
    Seq::filter_distributes_over_add(a1, a2, pred);
    Seq::filter_distributes_over_add(a1 + a2, a3, pred);
    Seq::filter_distributes_over_add(a1 + a2 + a3, a4, pred);
}

proof fn lemma_packet_projections(plan: Plan, i: int, time: u128, elapsed: u128)
    ensures
        ({
            let actions = packet_actions(plan, i, time, elapsed);
            &&& transmissions(actions) == seq![SendActionView::Transmit(plan.frame(i))]
            &&& rows_written(actions) == (if plan.save_data && i < 1_000_000 {
                seq![SendActionView::WriteRow(row_text(i as nat, time as nat, plan.flow as nat))]
            } else {
                Seq::empty()
            })
            &&& reports_made(actions) == (if i % plan.report_every as int == 0 {
                seq![SendActionView::Report(i)]
            } else {
                Seq::empty()
            })
            &&& pauses_made(actions) == seq![
                SendActionView::Sleep(remaining(plan.interval as int, elapsed as int)),
            ]
        }),
{
    let actions = packet_actions(plan, i, time, elapsed);
    let transmits = |a: SendActionView| a is Transmit;
    lemma_packet_filtered(plan, i, time, elapsed, transmits);
    assert(transmissions(actions) =~= seq![SendActionView::Transmit(plan.frame(i))]);
    let writes = |a: SendActionView| a is WriteRow;
    lemma_packet_filtered(plan, i, time, elapsed, writes);
    assert(rows_written(actions) =~= (if plan.save_data && i < 1_000_000 {
        seq![SendActionView::WriteRow(row_text(i as nat, time as nat, plan.flow as nat))]
    } else {
        Seq::empty()
    }));
    let reports = |a: SendActionView| a is Report;
    lemma_packet_filtered(plan, i, time, elapsed, reports);
    assert(reports_made(actions) =~= (if i % plan.report_every as int == 0 {
        seq![SendActionView::Report(i)]
    } else {
        Seq::empty()
    }));
    let sleeps = |a: SendActionView| a is Sleep;
    lemma_packet_filtered(plan, i, time, elapsed, sleeps);
    assert(pauses_made(actions) =~= seq![
        SendActionView::Sleep(remaining(plan.interval as int, elapsed as int)),
    ]);
}

/// The projections of the actions for `n` packets, from those for one packet less and for the
/// last of them.
proof fn lemma_plan_projections(
    plan: Plan,
    n: nat,
    time: spec_fn(int) -> u128,
    elapsed: spec_fn(int) -> u128,
)
    requires
        n > 0,
    ensures
        ({
            let all = plan_actions(plan, n, time, elapsed);
            let front = plan_actions(plan, (n - 1) as nat, time, elapsed);
            let last = packet_actions(plan, n - 1, time(n - 1), elapsed(n - 1));
            &&& transmissions(all) == transmissions(front) + transmissions(last)
            &&& rows_written(all) == rows_written(front) + rows_written(last)
            &&& reports_made(all) == reports_made(front) + reports_made(last)
            &&& pauses_made(all) == pauses_made(front) + pauses_made(last)
        }),
{
    let front = plan_actions(plan, (n - 1) as nat, time, elapsed);
    let last = packet_actions(plan, n - 1, time(n - 1), elapsed(n - 1));
    Seq::filter_distributes_over_add(front, last, |a: SendActionView| a is Transmit);
    Seq::filter_distributes_over_add(front, last, |a: SendActionView| a is WriteRow);
    Seq::filter_distributes_over_add(front, last, |a: SendActionView| a is Report);
    Seq::filter_distributes_over_add(front, last, |a: SendActionView| a is Sleep);
}

proof fn lemma_nothing_planned(
    plan: Plan,
    time: spec_fn(int) -> u128,
    elapsed: spec_fn(int) -> u128,
)
    ensures
        transmissions(plan_actions(plan, 0, time, elapsed)).len() == 0,
        rows_written(plan_actions(plan, 0, time, elapsed)).len() == 0,
        reports_made(plan_actions(plan, 0, time, elapsed)).len() == 0,
        pauses_made(plan_actions(plan, 0, time, elapsed)).len() == 0,
{
    let none = plan_actions(plan, 0, time, elapsed);
    none.lemma_filter_len(|a: SendActionView| a is Transmit);
    none.lemma_filter_len(|a: SendActionView| a is WriteRow);
    none.lemma_filter_len(|a: SendActionView| a is Report);
    none.lemma_filter_len(|a: SendActionView| a is Sleep);
}

proof fn lemma_rows_written(
    plan: Plan,
    n: nat,
    time: spec_fn(int) -> u128,
    elapsed: spec_fn(int) -> u128,
)
    ensures
        rows_written(plan_actions(plan, n, time, elapsed)) == Seq::new(
            if !plan.save_data {
                0
            } else if n <= 1_000_000 {
                n
            } else {
                1_000_000
            },
            |k: int|
                SendActionView::WriteRow(row_text(k as nat, time(k) as nat, plan.flow as nat)),
        ),
    decreases n,
{
    let rows = Seq::new(
        if !plan.save_data {
            0
        } else if n <= 1_000_000 {
            n
        } else {
            1_000_000
        },
        |k: int| SendActionView::WriteRow(row_text(k as nat, time(k) as nat, plan.flow as nat)),
    );
    if n == 0 {
        lemma_nothing_planned(plan, time, elapsed);
        assert(rows_written(plan_actions(plan, n, time, elapsed)) =~= rows);
    } else {
        let written = rows_written(plan_actions(plan, n, time, elapsed));
        let front = rows_written(plan_actions(plan, (n - 1) as nat, time, elapsed));
        lemma_rows_written(plan, (n - 1) as nat, time, elapsed);
        assert(written == front + (if plan.save_data && n - 1 < 1_000_000 {
            seq![
                SendActionView::WriteRow(
                    row_text((n - 1) as nat, time(n - 1) as nat, plan.flow as nat),
                ),
            ]
        } else {
            Seq::empty()
        })) by {
            lemma_plan_projections(plan, n, time, elapsed);
            lemma_packet_projections(plan, n - 1, time(n - 1), elapsed(n - 1));
        }
        assert(rows_written(plan_actions(plan, n, time, elapsed)) =~= rows);
    }
}

/// With `save_data` a sender writes one row for each packet that it sends, in the order of the
/// packets and none left out, up to the first million: the row number `k` tells the sequence
/// number `k`, the time that was told for it, and the flow. Without it no row is written.
pub proof fn every_packet_has_its_row(
    plan: Plan,
    n: nat,
    time: spec_fn(int) -> u128,
    elapsed: spec_fn(int) -> u128,
)
    requires
        n <= plan.num_pkts,
    ensures
        ({
            let actions = (Progress { count: 0, phase: Phase::Ready }).actions(
                plan,
                plan_events(plan, n, time, elapsed),
            );
            let rows = rows_written(actions);
            &&& !plan.save_data ==> rows.len() == 0
            &&& plan.save_data && n <= 1_000_000 ==> rows.len() == n
            &&& plan.save_data && n > 1_000_000 ==> rows.len() == 1_000_000
            &&& forall|k: int|
                0 <= k < rows.len() ==> #[trigger] rows[k] == SendActionView::WriteRow(
                    row_text(k as nat, time(k) as nat, plan.flow as nat),
                )
        }),
{
    plan_course(plan, n, time, elapsed);
    lemma_rows_written(plan, n, time, elapsed);
}

proof fn lemma_transmissions(
    plan: Plan,
    n: nat,
    time: spec_fn(int) -> u128,
    elapsed: spec_fn(int) -> u128,
)
    ensures
        transmissions(plan_actions(plan, n, time, elapsed)) == Seq::new(
            n,
            |k: int| SendActionView::Transmit(plan.frame(k)),
        ),
    decreases n,
{
    let out = transmissions(plan_actions(plan, n, time, elapsed));
    if n == 0 {
        lemma_nothing_planned(plan, time, elapsed);
    } else {
        let front = transmissions(plan_actions(plan, (n - 1) as nat, time, elapsed));
        lemma_transmissions(plan, (n - 1) as nat, time, elapsed);
        assert(out == front + seq![SendActionView::Transmit(plan.frame(n - 1))]) by {
            lemma_plan_projections(plan, n, time, elapsed);
            lemma_packet_projections(plan, n - 1, time(n - 1), elapsed(n - 1));
        }
    }
    assert(out =~= Seq::new(n, |k: int| SendActionView::Transmit(plan.frame(k))));
}

proof fn lemma_pauses_made(
    plan: Plan,
    n: nat,
    time: spec_fn(int) -> u128,
    elapsed: spec_fn(int) -> u128,
)
    ensures
        pauses_made(plan_actions(plan, n, time, elapsed)) == Seq::new(
            n,
            |k: int| SendActionView::Sleep(remaining(plan.interval as int, elapsed(k) as int)),
        ),
    decreases n,
{
    let pauses = pauses_made(plan_actions(plan, n, time, elapsed));
    if n == 0 {
        lemma_nothing_planned(plan, time, elapsed);
    } else {
        let front = pauses_made(plan_actions(plan, (n - 1) as nat, time, elapsed));
        let wait = remaining(plan.interval as int, elapsed(n - 1) as int);
        lemma_pauses_made(plan, (n - 1) as nat, time, elapsed);
        assert(pauses == front + seq![SendActionView::Sleep(wait)]) by {
            lemma_plan_projections(plan, n, time, elapsed);
            lemma_packet_projections(plan, n - 1, time(n - 1), elapsed(n - 1));
        }
    }
    assert(pauses =~= Seq::new(
        n,
        |k: int| SendActionView::Sleep(remaining(plan.interval as int, elapsed(k) as int)),
    ));
}

/// A sender sends as many packets as the plan says, each once and in their order: the packet
/// number `k` has the length that the plan gives it, tells that length in its header, carries the
/// sequence number `k`, and has the plan's addresses and flow.
pub proof fn packets_go_out_as_planned(
    plan: Plan,
    n: nat,
    time: spec_fn(int) -> u128,
    elapsed: spec_fn(int) -> u128,
)
    requires
        plan.valid(),
        n <= plan.num_pkts,
        n <= plan.lengths@.len(),
    ensures
        ({
            let actions = (Progress { count: 0, phase: Phase::Ready }).actions(
                plan,
                plan_events(plan, n, time, elapsed),
            );
            let out = transmissions(actions);
            &&& out.len() == n
            &&& forall|k: int|
                0 <= k < n ==> {
                    let p = (#[trigger] out[k])->Transmit_0;
                    &&& p.len() == plan.lengths@[k]
                    &&& p[2] * 256 + p[3] == p.len()
                    &&& p[12] == plan.ip_src[0] && p[13] == plan.ip_src[1]
                    &&& p[14] == plan.ip_src[2] && p[15] == plan.ip_src[3]
                    &&& p[16] == plan.ip_dst[0] && p[17] == plan.ip_dst[1]
                    &&& p[18] == plan.ip_dst[2] && p[19] == plan.ip_dst[3]
                    &&& number_at(p, 20) == k
                    &&& p[p.len() - 1] == plan.flow
                }
        }),
{
    plan_course(plan, n, time, elapsed);
    lemma_transmissions(plan, n, time, elapsed);
    let out = transmissions(plan_actions(plan, n, time, elapsed));
    assert forall|k: int| 0 <= k < n implies {
        let p = (#[trigger] out[k])->Transmit_0;
        &&& p.len() == plan.lengths@[k]
        &&& p[2] * 256 + p[3] == p.len()
        &&& p[12] == plan.ip_src[0] && p[13] == plan.ip_src[1]
        &&& p[14] == plan.ip_src[2] && p[15] == plan.ip_src[3]
        &&& p[16] == plan.ip_dst[0] && p[17] == plan.ip_dst[1]
        &&& p[18] == plan.ip_dst[2] && p[19] == plan.ip_dst[3]
        &&& number_at(p, 20) == k
        &&& p[p.len() - 1] == plan.flow
    } by {
        assert(out[k]->Transmit_0 == plan.frame(k));
        probe_describes_itself(
            plan.ip_src,
            plan.ip_dst,
            plan.flow,
            plan.lengths@[k] as int,
            k as usize,
        );
    }
}

/// A sender pauses once for each packet. The pause and the time that was told before it make up
/// the interval exactly; where that time is not below the interval, the pause is none.
pub proof fn pauses_make_up_the_interval(
    plan: Plan,
    n: nat,
    time: spec_fn(int) -> u128,
    elapsed: spec_fn(int) -> u128,
)
    requires
        n <= plan.num_pkts,
    ensures
        ({
            let actions = (Progress { count: 0, phase: Phase::Ready }).actions(
                plan,
                plan_events(plan, n, time, elapsed),
            );
            let pauses = pauses_made(actions);
            &&& pauses.len() == n
            &&& forall|k: int|
                0 <= k < n ==> {
                    let wait = (#[trigger] pauses[k])->Sleep_0;
                    &&& elapsed(k) <= plan.interval ==> elapsed(k) + wait == plan.interval
                    &&& elapsed(k) >= plan.interval ==> wait == 0
                }
        }),
{
    plan_course(plan, n, time, elapsed);
    lemma_pauses_made(plan, n, time, elapsed);
}

proof fn lemma_reports_made(
    plan: Plan,
    n: nat,
    time: spec_fn(int) -> u128,
    elapsed: spec_fn(int) -> u128,
)
    requires
        plan.report_every > 0,
    ensures
        ({
            let reports = reports_made(plan_actions(plan, n, time, elapsed));
            let every = plan.report_every as int;
            &&& (reports.len() - 1) * every < n <= reports.len() * every
            &&& forall|j: int|
                0 <= j < reports.len() ==> #[trigger] reports[j] == SendActionView::Report(
                    j * every,
                )
        }),
    decreases n,
{
    let every = plan.report_every as int;
    let reports = reports_made(plan_actions(plan, n, time, elapsed));
    if n == 0 {
        lemma_nothing_planned(plan, time, elapsed);
        assert(reports.len() == 0);
        assert((-1) * every < 0) by (nonlinear_arith)
            requires
                every > 0,
        ;
        assert(0 * every == 0) by (nonlinear_arith);
    } else {
        let front = reports_made(plan_actions(plan, (n - 1) as nat, time, elapsed));
        let m = front.len() as int;
        lemma_reports_made(plan, (n - 1) as nat, time, elapsed);
        assert(reports == front + (if (n - 1) % every == 0 {
            seq![SendActionView::Report(n - 1)]
        } else {
            Seq::empty()
        })) by {
            lemma_plan_projections(plan, n, time, elapsed);
            lemma_packet_projections(plan, n - 1, time(n - 1), elapsed(n - 1));
        }
        lemma_multiple_between(n - 1, m, every);
        if (n - 1) % every == 0 {
            assert(n - 1 == m * every);
            assert(reports =~= front.push(SendActionView::Report(n - 1)));
            assert((m + 1) * every == m * every + every) by (nonlinear_arith);
        } else {
            assert(n - 1 < m * every);
            assert(reports =~= front);
        }
    }
}

proof fn lemma_multiple_between(i: int, m: int, every: int)
    requires
        every > 0,
        (m - 1) * every < i <= m * every,
    ensures
        i % every == 0 <==> i == m * every,
{
    vstd::arithmetic::div_mod::lemma_fundamental_div_mod(i, every);
    vstd::arithmetic::div_mod::lemma_mod_multiples_basic(m, every);
    if i % every == 0 {
        let q = i / every;
        assert(i == q * every) by (nonlinear_arith)
            requires
                i == every * q,
        ;
        assert(q == m) by (nonlinear_arith)
            requires
                every > 0,
                (m - 1) * every < q * every <= m * every,
        ;
    }
}

/// A sender reports before which packet it is, beginning with the first and then after every
/// `report_every` packets: the report number `j` tells `j` times as many, and there are as many
/// reports as such numbers below the number of packets sent.
pub proof fn reports_are_evenly_spaced(
    plan: Plan,
    n: nat,
    time: spec_fn(int) -> u128,
    elapsed: spec_fn(int) -> u128,
)
    requires
        n <= plan.num_pkts,
        plan.report_every > 0,
    ensures
        ({
            let actions = (Progress { count: 0, phase: Phase::Ready }).actions(
                plan,
                plan_events(plan, n, time, elapsed),
            );
            let reports = reports_made(actions);
            let every = plan.report_every as int;
            &&& (reports.len() - 1) * every < n <= reports.len() * every
            &&& forall|j: int|
                0 <= j < reports.len() ==> #[trigger] reports[j] == SendActionView::Report(
                    j * every,
                )
        }),
{
    plan_course(plan, n, time, elapsed);
    lemma_reports_made(plan, n, time, elapsed);
}

proof fn lemma_packet_order(plan: Plan, i: int, time: u128, elapsed: u128)
    ensures
        ({
            let actions = packet_actions(plan, i, time, elapsed);
            let recorded = plan.save_data && i < 1_000_000;
            let reported = i % plan.report_every as int == 0;
            let n = actions.len() as int;
            &&& n == 3 + (if recorded {
                2int
            } else {
                0
            }) + (if reported {
                1int
            } else {
                0
            })
            &&& actions[0] is Transmit
            &&& recorded ==> actions[1] is ReadClock && actions[2] is WriteRow
            &&& reported ==> actions[n - 3] is Report
            &&& actions[n - 2] is ReadTimer && actions[n - 1] is Sleep
        }),
{
}

/// For every packet a sender first sends it, then asks for the time and writes the row at once,
/// if it is one of those that are recorded, then reports, if it is time to, and last asks for a
/// reading of the timer and pauses. It does nothing else, and does not stop before it is through.
pub proof fn packet_actions_are_in_order(plan: Plan, i: int, time: u128, elapsed: u128)
    requires
        0 <= i < plan.num_pkts,
    ensures
        ({
            let actions = (Progress { count: i, phase: Phase::Ready }).actions(
                plan,
                packet_events(plan, i, time, elapsed),
            );
            let recorded = plan.save_data && i < 1_000_000;
            let reported = i % plan.report_every as int == 0;
            let n = actions.len() as int;
            &&& n == 3 + (if recorded {
                2int
            } else {
                0
            }) + (if reported {
                1int
            } else {
                0
            })
            &&& actions[0] is Transmit
            &&& recorded ==> actions[1] is ReadClock && actions[2] is WriteRow
            &&& reported ==> actions[n - 3] is Report
            &&& actions[n - 2] is ReadTimer && actions[n - 1] is Sleep
        }),
{
    let events = packet_events(plan, i, time, elapsed);
    let start = Progress { count: i, phase: Phase::Ready };
    assert(start.actions(plan, events) == packet_actions(plan, i, time, elapsed)) by {
        packet_course(plan, i, time, elapsed);
    }
    lemma_packet_order(plan, i, time, elapsed);
}

proof fn lemma_last_event(plan: Plan, i: int, time: u128, elapsed: u128, j: int)
    requires
        0 <= j < packet_events(plan, i, time, elapsed).len() - 1,
    ensures
        !(packet_events(plan, i, time, elapsed)[j] is Elapsed),
{
}

proof fn lemma_packet_awaits(plan: Plan, i: int, time: u128, elapsed: u128, j: int)
    requires
        0 <= i < plan.num_pkts,
        0 <= j < packet_events(plan, i, time, elapsed).len(),
    ensures
        (Progress { count: i, phase: Phase::Ready }).after(
            plan,
            packet_events(plan, i, time, elapsed).take(j),
        ).awaits(packet_events(plan, i, time, elapsed)[j]),
{
    packet_course(plan, i, time, elapsed);
}

proof fn lemma_within_packet(plan: Plan, i: int, time: u128, elapsed: u128, j: int)
    requires
        0 <= i < plan.num_pkts,
        0 <= j < packet_events(plan, i, time, elapsed).len(),
    ensures
        ({
            let at = (Progress { count: i, phase: Phase::Ready }).after(
                plan,
                packet_events(plan, i, time, elapsed).take(j),
            );
            at.count == i || at.phase is Pacing
        }),
    decreases j,
{
    let events = packet_events(plan, i, time, elapsed);
    let start = Progress { count: i, phase: Phase::Ready };
    if j > 0 {
        lemma_within_packet(plan, i, time, elapsed, j - 1);
        lemma_packet_awaits(plan, i, time, elapsed, j - 1);
        lemma_last_event(plan, i, time, elapsed, j - 1);
        lemma_one_more(start, plan, events, j - 1);
    }
}

proof fn lemma_one_more(start: Progress, plan: Plan, events: Seq<SendEvent>, j: int)
    requires
        0 <= j < events.len(),
    ensures
        start.after(plan, events.take(j + 1)) == start.after(plan, events.take(j)).step(
            plan,
            events[j],
        ).0,
{
    assert(events.take(j + 1).drop_last() =~= events.take(j));
}

proof fn lemma_within_plan(
    plan: Plan,
    n: nat,
    time: spec_fn(int) -> u128,
    elapsed: spec_fn(int) -> u128,
    j: int,
)
    requires
        n <= plan.num_pkts,
        0 <= j < plan_events(plan, n, time, elapsed).len(),
    ensures
        ({
            let at = (Progress { count: 0, phase: Phase::Ready }).after(
                plan,
                plan_events(plan, n, time, elapsed).take(j),
            );
            at.count < n || at.phase is Pacing
        }),
    decreases n,
{
    let start = Progress { count: 0, phase: Phase::Ready };
    if n > 0 {
        let last = n - 1;
        let front = plan_events(plan, last as nat, time, elapsed);
        let events = plan_events(plan, n, time, elapsed);
        let packet = packet_events(plan, last, time(last), elapsed(last));
        if j < front.len() {
            lemma_within_plan(plan, last as nat, time, elapsed, j);
            assert(events.take(j) =~= front.take(j));
        } else {
            let k = j - front.len();
            plan_course(plan, last as nat, time, elapsed);
            lemma_within_packet(plan, last, time(last), elapsed(last), k);
            assert(events.take(j) =~= front + packet.take(k));
            lemma_in_two_parts(start, plan, front, packet.take(k));
        }
    }
}

/// A sender of a plan that has too few lengths sends a packet for each of them, and cannot go on
/// exactly then.
pub proof fn sender_stops_where_lengths_end(
    plan: Plan,
    time: spec_fn(int) -> u128,
    elapsed: spec_fn(int) -> u128,
)
    requires
        plan.lengths@.len() < plan.num_pkts,
        plan.report_every > 0 || plan.lengths@.len() == 0,
    ensures
        ({
            let start = Progress { count: 0, phase: Phase::Ready };
            let events = plan_events(plan, plan.lengths@.len(), time, elapsed);
            &&& forall|j: int|
                0 <= j < events.len() ==> (#[trigger] start.after(plan, events.take(j))).fault(
                    plan,
                ) is None
            &&& start.after(plan, events).fault(plan) == Some(SendFault::NoLength)
        }),
{
    let n = plan.lengths@.len();
    let start = Progress { count: 0, phase: Phase::Ready };
    let events = plan_events(plan, n, time, elapsed);
    plan_course(plan, n, time, elapsed);
    assert forall|j: int| 0 <= j < events.len() implies (#[trigger] start.after(
        plan,
        events.take(j),
    )).fault(plan) is None by {
        lemma_within_plan(plan, n, time, elapsed, j);
    }
}

/// A sender of a plan that says to report after every zero packets sends its first packet, writes
/// its row, where rows are written, and cannot go on then.
pub proof fn sender_stops_where_it_cannot_report(plan: Plan, time: u128)
    requires
        plan.num_pkts > 0,
        plan.lengths@.len() > 0,
        plan.report_every == 0,
    ensures
        ({
            let start = Progress { count: 0, phase: Phase::Ready };
            let sent = start.step(plan, SendEvent::Done).0;
            let asked = sent.step(plan, SendEvent::Done).0;
            let recorded = asked.step(plan, SendEvent::Clock(time)).0;
            &&& start.fault(plan) is None
            &&& start.step(plan, SendEvent::Done).1 is Transmit
            &&& !plan.save_data ==> sent.fault(plan) == Some(SendFault::ZeroReportInterval)
            &&& plan.save_data ==> {
                &&& sent.fault(plan) is None && asked.fault(plan) is None
                &&& asked.step(plan, SendEvent::Clock(time)).1 is WriteRow
                &&& recorded.fault(plan) == Some(SendFault::ZeroReportInterval)
            }
        }),
{
}

/// What a sender wants done and what it waits for fit together: it waits for the time of day
/// where it asked for that, for a reading of the timer where it asked for one, and else for its
/// action to be carried out.
pub proof fn sender_waits_for_what_it_asked(
    progress: Progress,
    plan: Plan,
    event: SendEvent,
    answer: SendEvent,
)
    requires
        progress.awaits(event),
    ensures
        ({
            let (after, action) = progress.step(plan, event);
            after.awaits(answer) <==> match action {
                SendActionView::ReadClock => answer is Clock,
                SendActionView::ReadTimer => answer is Elapsed,
                _ => answer is Done,
            }
        }),
{
}

/// An action is what it says: the packet, the line, the number and the wait that it holds are the
/// ones that count.
pub proof fn send_action_is_taken_at_its_word(action: SendAction)
    ensures
        match action {
            SendAction::Transmit(frame) => action@ == SendActionView::Transmit(frame@),
            SendAction::ReadClock => action@ is ReadClock,
            SendAction::WriteRow(line) => action@ == SendActionView::WriteRow(line@),
            SendAction::Report(number) => action@ == SendActionView::Report(number as int),
            SendAction::ReadTimer => action@ is ReadTimer,
            SendAction::Sleep(wait) => action@ == SendActionView::Sleep(wait as int),
            SendAction::Finish => action@ is Finish,
        },
{
}

/// How far a sender is shows in its count and its phase.
pub proof fn sender_shows_its_progress(sender: Sender)
    ensures
        sender@.count == sender.count,
        sender@.phase == sender.phase,
{
}

} // verus!
