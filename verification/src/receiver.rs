//! The receiving side: what to do, step by step, until the last packet that is waited for.

use crate::packet::{
    carried_sequence, comes_from_peer, decode_sequence_num, in_machine_word, is_ip_addr_matching,
    number_at, peer_is_told_by_address, probe_carries_all, sequence_is_big_endian,
};
use crate::record::{row_text, Row};
use crate::sender::Plan;
use crate::text::{decimal, digits_value, is_canonical, lemma_decimal_reads_back, push_decimal};
use vstd::prelude::*;

verus! {

/// What a receiver knows of the packets that came so far.
#[verifier::ext_equal]
pub struct Tally {
    /// How many were counted.
    pub count: nat,
    /// The largest distance between a packet's sequence number and its place in the count.
    pub max_seq_mismatch: nat,
}

/// The distance between two numbers.
pub open spec fn distance(m: nat, n: nat) -> nat {
    if m < n {
        (n - m) as nat
    } else {
        (m - n) as nat
    }
}

/// The sequence number that is read from a packet.
pub open spec fn read_sequence(packet: Seq<u8>) -> nat {
    in_machine_word(carried_sequence(packet))
}

impl Tally {
    /// Before any packet.
    pub open spec fn start() -> Tally {
        Tally { count: 0, max_seq_mismatch: 0 }
    }

    /// After one more packet: one from elsewhere is not counted.
    pub open spec fn with(self, packet: Seq<u8>) -> Tally {
        if comes_from_peer(packet) {
            let mismatch = distance(read_sequence(packet), self.count);
            Tally {
                count: self.count + 1,
                max_seq_mismatch: if mismatch > self.max_seq_mismatch {
                    mismatch
                } else {
                    self.max_seq_mismatch
                },
            }
        } else {
            self
        }
    }

    /// After all of `packets`, in their order.
    pub open spec fn with_all(self, packets: Seq<Seq<u8>>) -> Tally
        decreases packets.len(),
    {
        if packets.len() == 0 {
            self
        } else {
            self.with_all(packets.drop_last()).with(packets.last())
        }
    }
}

/// `packet` is long enough to hold a source address, and a sequence number where it comes from
/// the peer.
pub open spec fn readable(packet: Seq<u8>) -> bool {
    packet.len() >= 16 && (comes_from_peer(packet) ==> packet.len() >= 28)
}

/// `pkt` is long enough to be taken in.
pub fn is_readable(pkt: &[u8]) -> (long_enough: bool)
    ensures
        long_enough == readable(pkt@),
        pkt@.len() >= 28 ==> long_enough,
        pkt@.len() < 16 ==> !long_enough,
        16 <= pkt@.len() < 28 ==> (long_enough <==> !(pkt@[12] == 10 && pkt@[13] == 7 && pkt@[14]
            == 0 && pkt@[15] == 4)),
{
    proof {
        if pkt@.len() >= 16 {
            peer_is_told_by_address(pkt@);
        }
    }
    pkt.len() >= 16 && (pkt.len() >= 28 || !is_ip_addr_matching(pkt, false))
}

/// Where a receiver stands.
#[derive(Clone, Copy, Debug, PartialEq, Eq, Structural)]
pub enum Phase {
    /// It is about to wait for a packet.
    Ready,
    /// It waits for a packet.
    Waiting,
    /// It asked for the time at which to record this packet.
    Stamping(Row),
    /// It has recorded a packet.
    Recorded,
    /// It asked whether the sender has reported.
    Polling,
}

/// What a receiver is told.
#[derive(Clone, Copy, Debug)]
pub enum ReceiveEvent<'a> {
    /// The last action was carried out.
    Done,
    /// This packet came.
    Packet(&'a [u8]),
    /// No packet could be read.
    Failed,
    /// The time of day, in nanoseconds.
    Clock(u128),
    /// The sender has reported that this many packets went before.
    Report(i64),
    /// The sender has not reported.
    NoReport,
}

/// What an event stands for.
pub enum ReceiveEventView {
    Done,
    Packet(Seq<u8>),
    Failed,
    Clock(u128),
    Report(i64),
    NoReport,
}

impl<'a> View for ReceiveEvent<'a> {
    type V = ReceiveEventView;

    open spec fn view(&self) -> ReceiveEventView {
        match self {
            ReceiveEvent::Done => ReceiveEventView::Done,
            ReceiveEvent::Packet(pkt) => ReceiveEventView::Packet(pkt@),
            ReceiveEvent::Failed => ReceiveEventView::Failed,
            ReceiveEvent::Clock(time) => ReceiveEventView::Clock(*time),
            ReceiveEvent::Report(number) => ReceiveEventView::Report(*number),
            ReceiveEvent::NoReport => ReceiveEventView::NoReport,
        }
    }
}

/// What a receiver wants done.
#[derive(Debug)]
pub enum ReceiveAction {
    /// Wait for a packet.
    Receive,
    /// Tell the time of day.
    ReadClock,
    /// Write this line to the file of records.
    WriteRow(String),
    /// See whether the sender has reported.
    Poll,
    /// Show how far the count is behind the number that the sender reported.
    ShowLag {
        reported: i64,
        count: usize,
        /// What to say of the reordering.
        summary: String,
    },
    /// Stop: all packets that are waited for were counted.
    Finish,
}

/// What an action stands for.
pub enum ReceiveActionView {
    Receive,
    ReadClock,
    WriteRow(Seq<char>),
    Poll,
    ShowLag { reported: int, count: int, summary: Seq<char> },
    Finish,
}

impl View for ReceiveAction {
    type V = ReceiveActionView;

    open spec fn view(&self) -> ReceiveActionView {
        match self {
            ReceiveAction::Receive => ReceiveActionView::Receive,
            ReceiveAction::ReadClock => ReceiveActionView::ReadClock,
            ReceiveAction::WriteRow(line) => ReceiveActionView::WriteRow(line@),
            ReceiveAction::Poll => ReceiveActionView::Poll,
            ReceiveAction::ShowLag { reported, count, summary } => ReceiveActionView::ShowLag {
                reported: *reported as int,
                count: *count as int,
                summary: summary@,
            },
            ReceiveAction::Finish => ReceiveActionView::Finish,
        }
    }
}

/// What is said of the reordering. The average is not kept and always given as zero.
pub open spec fn summary_text(tally: Tally) -> Seq<char> {
    "Average reordering of 0, max of "@ + decimal(tally.max_seq_mismatch) + ", received "@
        + decimal(tally.count) + " packets"@
}

/// How far a receiver is.
#[verifier::ext_equal]
pub struct Progress {
    pub tally: Tally,
    pub phase: Phase,
}

impl Progress {
    /// The event is one that a receiver which is so far waits for, and a packet in it can be
    /// read.
    pub open spec fn awaits(self, event: ReceiveEventView) -> bool {
        match self.phase {
            Phase::Ready | Phase::Recorded => event is Done,
            Phase::Waiting => event is Failed || (event is Packet && readable(event->Packet_0)),
            Phase::Stamping(_) => event is Clock,
            Phase::Polling => event is Report || event is NoReport,
        }
    }

    /// What a receiver of `num_pkts` packets does that is done with a packet: it waits for
    /// another, if one is missing.
    pub open spec fn turn(self, num_pkts: int) -> (Progress, ReceiveActionView) {
        if self.tally.count < num_pkts {
            (Progress { tally: self.tally, phase: Phase::Waiting }, ReceiveActionView::Receive)
        } else {
            (Progress { tally: self.tally, phase: Phase::Ready }, ReceiveActionView::Finish)
        }
    }

    /// How far a receiver of `num_pkts` packets is after `event`, and what it wants done. With
    /// `save_data` it records the packets that it counts.
    pub open spec fn step(self, num_pkts: int, save_data: bool, event: ReceiveEventView) -> (
        Progress,
        ReceiveActionView,
    ) {
        match self.phase {
            Phase::Ready => self.turn(num_pkts),
            Phase::Waiting => match event {
                ReceiveEventView::Packet(packet) => if comes_from_peer(packet) && save_data {
                    let row = Row { seq: read_sequence(packet) as usize, flow: packet.last() };
                    (
                        Progress { tally: self.tally.with(packet), phase: Phase::Stamping(row) },
                        ReceiveActionView::ReadClock,
                    )
                } else {
                    (
                        Progress { tally: self.tally.with(packet), phase: Phase::Polling },
                        ReceiveActionView::Poll,
                    )
                },
                _ => (self, ReceiveActionView::Receive),
            },
            Phase::Stamping(row) => (
                Progress { tally: self.tally, phase: Phase::Recorded },
                ReceiveActionView::WriteRow(
                    row_text(row.seq as nat, event->Clock_0 as nat, row.flow as nat),
                ),
            ),
            Phase::Recorded => (
                Progress { tally: self.tally, phase: Phase::Polling },
                ReceiveActionView::Poll,
            ),
            Phase::Polling => match event {
                ReceiveEventView::Report(number) => (
                    Progress { tally: self.tally, phase: Phase::Ready },
                    ReceiveActionView::ShowLag {
                        reported: number as int,
                        count: self.tally.count as int,
                        summary: summary_text(self.tally),
                    },
                ),
                _ => self.turn(num_pkts),
            },
        }
    }

    /// How far a receiver is after all of `events`, in their order.
    pub open spec fn after(
        self,
        num_pkts: int,
        save_data: bool,
        events: Seq<ReceiveEventView>,
    ) -> Progress
        decreases events.len(),
    {
        if events.len() == 0 {
            self
        } else {
            self.after(num_pkts, save_data, events.drop_last()).step(
                num_pkts,
                save_data,
                events.last(),
            ).0
        }
    }

    /// What a receiver wants done on each of `events`, in their order.
    pub open spec fn actions(
        self,
        num_pkts: int,
        save_data: bool,
        events: Seq<ReceiveEventView>,
    ) -> Seq<ReceiveActionView>
        decreases events.len(),
    {
        if events.len() == 0 {
            Seq::empty()
        } else {
            self.actions(num_pkts, save_data, events.drop_last()).push(
                self.after(num_pkts, save_data, events.drop_last()).step(
                    num_pkts,
                    save_data,
                    events.last(),
                ).1,
            )
        }
    }

    /// Each of `events` is one that the receiver waits for when it comes.
    pub open spec fn awaits_all(
        self,
        num_pkts: int,
        save_data: bool,
        events: Seq<ReceiveEventView>,
    ) -> bool {
        forall|j: int|
            0 <= j < events.len() ==> self.after(num_pkts, save_data, events.take(j)).awaits(
                #[trigger] events[j],
            )
    }

    /// A receiver that has been told nothing.
    pub open spec fn start() -> Progress {
        Progress { tally: Tally::start(), phase: Phase::Ready }
    }
}

/// The packets among `events`, in their order.
pub open spec fn packets_among(events: Seq<ReceiveEventView>) -> Seq<Seq<u8>>
    decreases events.len(),
{
    if events.len() == 0 {
        Seq::empty()
    } else {
        match events.last() {
            ReceiveEventView::Packet(packet) => packets_among(events.drop_last()).push(packet),
            _ => packets_among(events.drop_last()),
        }
    }
}

/// A receiver that waits for a number of packets.
#[derive(Debug)]
pub struct Receiver {
    /// How many packets to wait for.
    pub num_pkts: usize,
    /// Whether to record them.
    pub save_data: bool,
    /// How many packets were counted.
    pub count: usize,
    /// The largest distance between a packet's sequence number and its place in the count.
    pub max_seq_mismatch: usize,
    /// Where it stands.
    pub phase: Phase,
}

impl View for Receiver {
    type V = Progress;

    open spec fn view(&self) -> Progress {
        Progress {
            tally: Tally {
                count: self.count as nat,
                max_seq_mismatch: self.max_seq_mismatch as nat,
            },
            phase: self.phase,
        }
    }
}

impl Receiver {
    /// No more packets are counted than are waited for, and one is missing where the receiver
    /// waits for one.
    pub open spec fn wf(&self) -> bool {
        &&& self.count <= self.num_pkts
        &&& self.phase is Waiting ==> self.count < self.num_pkts
    }

    /// A receiver that has counted nothing.
    pub fn new(num_pkts: usize, save_data: bool) -> (receiver: Receiver)
        ensures
            receiver.wf(),
            receiver.num_pkts == num_pkts,
            receiver.save_data == save_data,
            receiver@ == Progress::start(),
    {
        Receiver { num_pkts, save_data, count: 0, max_seq_mismatch: 0, phase: Phase::Ready }
    }

    /// Counts a packet, unless it comes from elsewhere, and says what to record of it, if
    /// anything.
    fn on_packet(&mut self, pkt: &[u8]) -> (row: Option<Row>)
        requires
            old(self).count < old(self).num_pkts,
            readable(pkt@),
        ensures
            final(self).num_pkts == old(self).num_pkts,
            final(self).save_data == old(self).save_data,
            final(self).phase == old(self).phase,
            final(self).count <= final(self).num_pkts,
            final(self)@.tally == old(self)@.tally.with(pkt@),
            row == (if comes_from_peer(pkt@) && old(self).save_data {
                Some(Row { seq: read_sequence(pkt@) as usize, flow: pkt@.last() })
            } else {
                None
            }),
    {
        if !is_ip_addr_matching(pkt, false) {
            return None;
        }
        let seq: usize = decode_sequence_num(pkt);
        let mismatch: usize = if seq < self.count {
            self.count - seq
        } else {
            seq - self.count
        };
        if mismatch > self.max_seq_mismatch {
            self.max_seq_mismatch = mismatch;
        }
        self.count = self.count + 1;
        if self.save_data {
            Some(Row { seq, flow: pkt[pkt.len() - 1] })
        } else {
            None
        }
    }

    /// What to say of the reordering so far.
    pub fn summary(&self) -> (text: String)
        ensures
            text@ == summary_text(self@.tally),
    {
        let mut text: String = "Average reordering of 0, max of ".to_owned();
        push_decimal(&mut text, self.max_seq_mismatch as u128);
        text.append(", received ");
        push_decimal(&mut text, self.count as u128);
        text.append(" packets");
        text
    }

    fn turn(&mut self) -> (action: ReceiveAction)
        requires
            old(self).count <= old(self).num_pkts,
        ensures
            final(self).wf(),
            final(self).num_pkts == old(self).num_pkts,
            final(self).save_data == old(self).save_data,
            (final(self)@, action@) == old(self)@.turn(old(self).num_pkts as int),
    {
        if self.count < self.num_pkts {
            self.phase = Phase::Waiting;
            ReceiveAction::Receive
        } else {
            self.phase = Phase::Ready;
            ReceiveAction::Finish
        }
    }

    /// Takes an event in and says what to do next.
    pub fn step(&mut self, event: ReceiveEvent<'_>) -> (action: ReceiveAction)
        requires
            old(self).wf(),
            old(self)@.awaits(event@),
        ensures
            final(self).wf(),
            final(self).num_pkts == old(self).num_pkts,
            final(self).save_data == old(self).save_data,
            (final(self)@, action@) == old(self)@.step(
                old(self).num_pkts as int,
                old(self).save_data,
                event@,
            ),
    {
        match self.phase {
            Phase::Ready => self.turn(),
            Phase::Waiting => match event {
                ReceiveEvent::Packet(pkt) => match self.on_packet(pkt) {
                    Some(row) => {
                        self.phase = Phase::Stamping(row);
                        ReceiveAction::ReadClock
                    },
                    None => {
                        self.phase = Phase::Polling;
                        ReceiveAction::Poll
                    },
                },
                _ => ReceiveAction::Receive,
            },
            Phase::Stamping(row) => {
                let time: u128 = match event {
                    ReceiveEvent::Clock(time) => time,
                    _ => 0,
                };
                self.phase = Phase::Recorded;
                ReceiveAction::WriteRow(row.line(time))
            },
            Phase::Recorded => {
                self.phase = Phase::Polling;
                ReceiveAction::Poll
            },
            Phase::Polling => match event {
                ReceiveEvent::Report(reported) => {
                    self.phase = Phase::Ready;
                    ReceiveAction::ShowLag { reported, count: self.count, summary: self.summary() }
                },
                _ => self.turn(),
            },
        }
    }
}

proof fn lemma_awaits_front(
    start: Progress,
    num_pkts: int,
    save_data: bool,
    events: Seq<ReceiveEventView>,
)
    requires
        events.len() > 0,
        start.awaits_all(num_pkts, save_data, events),
    ensures
        start.awaits_all(num_pkts, save_data, events.drop_last()),
        start.after(num_pkts, save_data, events.drop_last()).awaits(events.last()),
{
    let front = events.drop_last();
    assert forall|j: int| 0 <= j < front.len() implies start.after(
        num_pkts,
        save_data,
        front.take(j),
    ).awaits(#[trigger] front[j]) by {
        assert(front.take(j) =~= events.take(j));
        assert(front[j] == events[j]);
    }
    assert(events.take(events.len() - 1) =~= front);
    assert(events[events.len() - 1] == events.last());
}

/// The tally of a receiver depends on the packets that came alone: not on failed readings, the
/// times it was told, or what the sender reported, nor on whether it records the packets.
pub proof fn tally_follows_packets(num_pkts: int, save_data: bool, events: Seq<ReceiveEventView>)
    requires
        Progress::start().awaits_all(num_pkts, save_data, events),
    ensures
        Progress::start().after(num_pkts, save_data, events).tally == Tally::start().with_all(
            packets_among(events),
        ),
    decreases events.len(),
{
    if events.len() > 0 {
        lemma_awaits_front(Progress::start(), num_pkts, save_data, events);
        tally_follows_packets(num_pkts, save_data, events.drop_last());
        if events.last() is Packet {
            assert(packets_among(events).drop_last() =~= packets_among(events.drop_last()));
        }
    }
}

/// The times of day among `events`, in their order.
pub open spec fn times_among(events: Seq<ReceiveEventView>) -> Seq<u128>
    decreases events.len(),
{
    if events.len() == 0 {
        Seq::empty()
    } else {
        match events.last() {
            ReceiveEventView::Clock(time) => times_among(events.drop_last()).push(time),
            _ => times_among(events.drop_last()),
        }
    }
}

/// The lines written to the file of records among `actions`, in their order.
pub open spec fn rows_among(actions: Seq<ReceiveActionView>) -> Seq<Seq<char>>
    decreases actions.len(),
{
    if actions.len() == 0 {
        Seq::empty()
    } else {
        match actions.last() {
            ReceiveActionView::WriteRow(line) => rows_among(actions.drop_last()).push(line),
            _ => rows_among(actions.drop_last()),
        }
    }
}

/// The packets of the peer among `packets`, in their order.
pub open spec fn from_peer(packets: Seq<Seq<u8>>) -> Seq<Seq<u8>> {
    packets.filter(|p: Seq<u8>| comes_from_peer(p))
}

/// The line that records a packet of the peer.
pub open spec fn packet_row(packet: Seq<u8>, time: u128) -> Seq<char> {
    row_text(read_sequence(packet), time as nat, packet.last() as nat)
}

pub(crate) proof fn lemma_read_sequence_fits(packet: Seq<u8>)
    ensures
        read_sequence(packet) <= usize::MAX,
{
    vstd::arithmetic::div_mod::lemma_mod_bound(
        carried_sequence(packet) as int,
        usize::MAX as int + 1,
    );
}

/// With `save_data` the lines that a receiver writes record the packets of the peer in the order
/// in which they came, each with its own sequence number and flow and the time that was told for
/// it: all of them, but for one whose time is still asked for. Without it no line is written.
pub proof fn rows_follow_packets(num_pkts: int, save_data: bool, events: Seq<ReceiveEventView>)
    requires
        Progress::start().awaits_all(num_pkts, save_data, events),
    ensures
        ({
            let end = Progress::start().after(num_pkts, save_data, events);
            let rows = rows_among(Progress::start().actions(num_pkts, save_data, events));
            let peer = from_peer(packets_among(events));
            let times = times_among(events);
            if save_data {
                &&& peer.len() == times.len() + (if end.phase is Stamping {
                    1int
                } else {
                    0
                })
                &&& rows == Seq::new(times.len(), |k: int| packet_row(peer[k], times[k]))
                &&& end.phase is Stamping ==> end.phase == Phase::Stamping(
                    Row { seq: read_sequence(peer.last()) as usize, flow: peer.last().last() },
                )
            } else {
                rows.len() == 0 && times.len() == 0 && !(end.phase is Stamping)
            }
        }),
    decreases events.len(),
{
    reveal(Seq::filter);
    if events.len() > 0 {
        let front = events.drop_last();
        let last = events.last();
        let before = Progress::start().after(num_pkts, save_data, front);
        let actions = Progress::start().actions(num_pkts, save_data, events);
        let peer = from_peer(packets_among(events));
        let front_peer = from_peer(packets_among(front));
        let times = times_among(events);
        lemma_awaits_front(Progress::start(), num_pkts, save_data, events);
        rows_follow_packets(num_pkts, save_data, front);
        assert(actions.drop_last() =~= Progress::start().actions(num_pkts, save_data, front));
        if last is Packet {
            assert(packets_among(events).drop_last() =~= packets_among(front));
        } else {
            assert(peer == front_peer);
        }
        if save_data {
            if before.phase is Stamping {
                lemma_read_sequence_fits(peer.last());
            }
            assert(rows_among(actions) =~= Seq::new(
                times.len(),
                |k: int| packet_row(peer[k], times[k]),
            ));
        }
    }
}

proof fn lemma_action_at(
    start: Progress,
    num_pkts: int,
    save_data: bool,
    events: Seq<ReceiveEventView>,
    i: int,
)
    requires
        0 <= i < events.len(),
    ensures
        start.actions(num_pkts, save_data, events).len() == events.len(),
        start.actions(num_pkts, save_data, events)[i] == start.after(
            num_pkts,
            save_data,
            events.take(i),
        ).step(num_pkts, save_data, events[i]).1,
        start.after(num_pkts, save_data, events.take(i + 1)) == start.after(
            num_pkts,
            save_data,
            events.take(i),
        ).step(num_pkts, save_data, events[i]).0,
    decreases events.len(),
{
    let front = events.drop_last();
    assert(events.take(i + 1).drop_last() =~= events.take(i));
    if i == events.len() - 1 {
        assert(events.take(i) =~= front);
        if i > 0 {
            lemma_action_at(start, num_pkts, save_data, front, 0);
        } else {
            assert(start.actions(num_pkts, save_data, front).len() == 0);
        }
    } else {
        lemma_action_at(start, num_pkts, save_data, front, i);
        assert(front.take(i) =~= events.take(i));
    }
}

proof fn lemma_count_stays_within(
    num_pkts: int,
    save_data: bool,
    events: Seq<ReceiveEventView>,
)
    requires
        num_pkts >= 0,
        Progress::start().awaits_all(num_pkts, save_data, events),
    ensures
        Progress::start().after(num_pkts, save_data, events).tally.count <= num_pkts,
        Progress::start().after(num_pkts, save_data, events).phase is Waiting
            ==> Progress::start().after(num_pkts, save_data, events).tally.count < num_pkts,
    decreases events.len(),
{
    if events.len() > 0 {
        lemma_awaits_front(Progress::start(), num_pkts, save_data, events);
        lemma_count_stays_within(num_pkts, save_data, events.drop_last());
    }
}

/// One step of a receiver that counts no more than it waits for.
proof fn lemma_step_turns(
    before: Progress,
    num_pkts: int,
    save_data: bool,
    event: ReceiveEventView,
)
    requires
        before.awaits(event),
        before.tally.count <= num_pkts,
        before.phase is Waiting ==> before.tally.count < num_pkts,
    ensures
        ({
            let (after, action) = before.step(num_pkts, save_data, event);
            let turns = before.phase is Ready || (before.phase is Polling && event is NoReport);
            &&& after.tally.count <= num_pkts
            &&& action is Finish <==> turns && after.tally.count == num_pkts
            &&& action is Receive <==> (turns && after.tally.count < num_pkts) || event is Failed
            &&& action is Receive ==> after.tally.count < num_pkts
        }),
{
}

/// A receiver never counts more packets than it waits for. Whenever it is done with a packet, it
/// stops exactly where the count has reached their number, and waits for another exactly where it
/// has not; at no other time does it stop.
pub proof fn finish_follows_count(
    num_pkts: int,
    save_data: bool,
    events: Seq<ReceiveEventView>,
    i: int,
)
    requires
        num_pkts >= 0,
        Progress::start().awaits_all(num_pkts, save_data, events),
        0 <= i < events.len(),
    ensures
        ({
            let before = Progress::start().after(num_pkts, save_data, events.take(i));
            let after = Progress::start().after(num_pkts, save_data, events.take(i + 1));
            let action = Progress::start().actions(num_pkts, save_data, events)[i];
            let turns = before.phase is Ready || (before.phase is Polling
                && events[i] is NoReport);
            &&& after.tally.count <= num_pkts
            &&& action is Finish <==> turns && after.tally.count == num_pkts
            &&& action is Receive <==> (turns && after.tally.count < num_pkts) || events[
                i
            ] is Failed
            &&& action is Receive ==> after.tally.count < num_pkts
        }),
{
    let upto = events.take(i);
    assert forall|j: int| 0 <= j < upto.len() implies Progress::start().after(
        num_pkts,
        save_data,
        upto.take(j),
    ).awaits(#[trigger] upto[j]) by {
        assert(upto.take(j) =~= events.take(j));
        assert(upto[j] == events[j]);
    }
    lemma_count_stays_within(num_pkts, save_data, upto);
    lemma_action_at(Progress::start(), num_pkts, save_data, events, i);
    lemma_step_turns(
        Progress::start().after(num_pkts, save_data, upto),
        num_pkts,
        save_data,
        events[i],
    );
}

/// Packets from elsewhere make no difference: a receiver is where it would be had only the
/// packets of the peer come.
pub proof fn foreign_packets_ignored(start: Tally, packets: Seq<Seq<u8>>)
    ensures
        start.with_all(packets) == start.with_all(from_peer(packets)),
    decreases packets.len(),
{
    reveal(Seq::filter);
    if packets.len() > 0 {
        let front = packets.drop_last();
        foreign_packets_ignored(start, front);
        if comes_from_peer(packets.last()) {
            assert(from_peer(packets) == from_peer(front).push(packets.last()));
            assert(from_peer(packets).drop_last() =~= from_peer(front));
        }
    }
}

/// The count is the number of packets of the peer, and the maximum is the largest distance
/// between the sequence number of one of them and its place among them: none is farther off,
/// and one is as far off, or there is none and the maximum is zero.
pub proof fn maximum_is_attained(packets: Seq<Seq<u8>>)
    ensures
        ({
            let peer = from_peer(packets);
            let tally = Tally::start().with_all(packets);
            &&& tally.count == peer.len()
            &&& forall|k: int|
                0 <= k < peer.len() ==> distance(read_sequence(#[trigger] peer[k]), k as nat)
                    <= tally.max_seq_mismatch
            &&& tally.max_seq_mismatch > 0 ==> exists|k: int|
                0 <= k < peer.len() && distance(read_sequence(#[trigger] peer[k]), k as nat)
                    == tally.max_seq_mismatch
        }),
    decreases packets.len(),
{
    let peer = from_peer(packets);
    let tally = Tally::start().with_all(packets);
    reveal(Seq::filter);
    if packets.len() > 0 {
        let front = packets.drop_last();
        let front_peer = from_peer(front);
        let front_tally = Tally::start().with_all(front);
        maximum_is_attained(front);
        if comes_from_peer(packets.last()) {
            assert(peer == front_peer.push(packets.last()));
            assert forall|k: int| 0 <= k < peer.len() implies distance(
                read_sequence(#[trigger] peer[k]),
                k as nat,
            ) <= tally.max_seq_mismatch by {
                if k < front_peer.len() {
                    assert(peer[k] == front_peer[k]);
                }
            }
            if tally.max_seq_mismatch > front_tally.max_seq_mismatch {
                assert(peer[front_peer.len() as int] == packets.last());
            } else if tally.max_seq_mismatch > 0 {
                let k = choose|k: int|
                    0 <= k < front_peer.len() && distance(
                        read_sequence(#[trigger] front_peer[k]),
                        k as nat,
                    ) == front_tally.max_seq_mismatch;
                assert(peer[k] == front_peer[k]);
            }
        }
    }
}

/// A receiver that gets the packets of a plan in the order in which they are sent, from the
/// address that it listens to, counts every one of them and finds none out of place.
pub proof fn in_order_delivery(plan: Plan, sent: nat)
    requires
        plan.valid(),
        plan.ip_src@ == crate::packet::IP_ADDR_LISTEN_TO@,
        sent <= plan.num_pkts,
        sent <= plan.lengths@.len(),
    ensures
        Tally::start().with_all(Seq::new(sent, |i: int| plan.frame(i))) == (Tally {
            count: sent,
            max_seq_mismatch: 0,
        }),
    decreases sent,
{
    let frames = Seq::new(sent, |i: int| plan.frame(i));
    if sent > 0 {
        let last = (sent - 1) as nat;
        in_order_delivery(plan, last);
        assert(frames.drop_last() =~= Seq::new(last, |i: int| plan.frame(i)));
        assert(frames.last() == plan.frame(last as int));
        probe_carries_all(
            plan.ip_src,
            plan.ip_dst,
            plan.flow,
            plan.lengths@[last as int] as int,
            last as usize,
        );
    }
}

/// Where both sides record, they record the same of a packet: the receiver finds in it the
/// sequence number and the flow under which it was sent.
pub proof fn both_sides_record_alike(plan: Plan, i: int, progress: Progress, num_pkts: int)
    requires
        plan.valid(),
        plan.ip_src@ == crate::packet::IP_ADDR_LISTEN_TO@,
        0 <= i < plan.lengths@.len(),
        i < plan.num_pkts,
        progress.phase is Waiting,
    ensures
        progress.awaits(ReceiveEventView::Packet(plan.frame(i))),
        progress.step(num_pkts, true, ReceiveEventView::Packet(plan.frame(i))).0.phase
            == Phase::Stamping(Row { seq: i as usize, flow: plan.flow }),
{
    probe_carries_all(
        plan.ip_src,
        plan.ip_dst,
        plan.flow,
        plan.lengths@[i] as int,
        i as usize,
    );
}

/// The number that the eight bytes behind the header of `packet` spell, in a machine word.
pub open spec fn told_sequence(packet: Seq<u8>) -> int {
    number_at(packet, 20) % (usize::MAX + 1)
}

proof fn lemma_told_sequence(packet: Seq<u8>)
    requires
        packet.len() >= 28,
    ensures
        told_sequence(packet) == read_sequence(packet),
{
    sequence_is_big_endian(packet, 0);
}

proof fn lemma_packets_readable(num_pkts: int, save_data: bool, events: Seq<ReceiveEventView>)
    requires
        Progress::start().awaits_all(num_pkts, save_data, events),
    ensures
        forall|k: int|
            0 <= k < packets_among(events).len() ==> readable(#[trigger] packets_among(events)[k]),
    decreases events.len(),
{
    if events.len() > 0 {
        let front = events.drop_last();
        lemma_awaits_front(Progress::start(), num_pkts, save_data, events);
        lemma_packets_readable(num_pkts, save_data, front);
        assert forall|k: int| 0 <= k < packets_among(events).len() implies readable(
            #[trigger] packets_among(events)[k],
        ) by {
            if k < packets_among(front).len() {
                assert(packets_among(events)[k] == packets_among(front)[k]);
            }
        }
    }
}

proof fn lemma_peer_long_enough(packets: Seq<Seq<u8>>)
    requires
        forall|k: int| 0 <= k < packets.len() ==> readable(#[trigger] packets[k]),
    ensures
        forall|k: int|
            0 <= k < from_peer(packets).len() ==> (#[trigger] from_peer(packets)[k]).len() >= 28,
    decreases packets.len(),
{
    reveal(Seq::filter);
    if packets.len() > 0 {
        let front = packets.drop_last();
        assert forall|k: int| 0 <= k < front.len() implies readable(#[trigger] front[k]) by {
            assert(packets[k] == front[k]);
        }
        lemma_peer_long_enough(front);
        assert(readable(packets[packets.len() - 1]));
        assert forall|k: int| 0 <= k < from_peer(packets).len() implies (
        #[trigger] from_peer(packets)[k]).len() >= 28 by {
            if k < from_peer(front).len() {
                assert(from_peer(packets)[k] == from_peer(front)[k]);
            }
        }
    }
}

/// The maximum is how far a packet of the peer was away from its place: no packet came so much
/// too early or too late as to differ by more from its sequence number, and if the maximum is not
/// zero, some packet differs by just as much, to the one side or to the other.
pub proof fn maximum_is_largest_displacement(
    num_pkts: int,
    save_data: bool,
    events: Seq<ReceiveEventView>,
)
    requires
        Progress::start().awaits_all(num_pkts, save_data, events),
    ensures
        ({
            let peer = from_peer(packets_among(events));
            let tally = Progress::start().after(num_pkts, save_data, events).tally;
            &&& tally.count == peer.len()
            &&& forall|k: int|
                0 <= k < peer.len() ==> told_sequence(#[trigger] peer[k]) - k
                    <= tally.max_seq_mismatch && k - told_sequence(peer[k])
                    <= tally.max_seq_mismatch
            &&& tally.max_seq_mismatch > 0 ==> exists|k: int|
                0 <= k < peer.len() && (told_sequence(#[trigger] peer[k]) - k
                    == tally.max_seq_mismatch || k - told_sequence(peer[k])
                    == tally.max_seq_mismatch)
        }),
{
    let packets = packets_among(events);
    let peer = from_peer(packets);
    let tally = Progress::start().after(num_pkts, save_data, events).tally;
    tally_follows_packets(num_pkts, save_data, events);
    maximum_is_attained(packets);
    lemma_packets_readable(num_pkts, save_data, events);
    lemma_peer_long_enough(packets);
    assert forall|k: int| 0 <= k < peer.len() implies told_sequence(#[trigger] peer[k]) - k
        <= tally.max_seq_mismatch && k - told_sequence(peer[k]) <= tally.max_seq_mismatch by {
        lemma_told_sequence(peer[k]);
        assert(distance(read_sequence(peer[k]), k as nat) <= tally.max_seq_mismatch);
    }
    if tally.max_seq_mismatch > 0 {
        let k = choose|k: int|
            0 <= k < peer.len() && distance(read_sequence(#[trigger] peer[k]), k as nat)
                == tally.max_seq_mismatch;
        lemma_told_sequence(peer[k]);
        assert(told_sequence(peer[k]) - k == tally.max_seq_mismatch || k - told_sequence(peer[k])
            == tally.max_seq_mismatch);
    }
}

/// The distance is the same both ways, and a number is as far from another as it takes to add to
/// the smaller one to get the larger.
pub proof fn distance_is_symmetric(m: nat, d: nat)
    ensures
        distance(m + d, m) == d,
        distance(m, m + d) == d,
{
}

/// With `save_data` each packet of the peer has its line, in the order in which they came: the
/// number in its bytes 20 to 27, the time that was told for it and its last byte. The last one
/// has none yet where its time is still asked for.
pub proof fn rows_tell_what_came(num_pkts: int, save_data: bool, events: Seq<ReceiveEventView>)
    requires
        Progress::start().awaits_all(num_pkts, save_data, events),
    ensures
        ({
            let end = Progress::start().after(num_pkts, save_data, events);
            let rows = rows_among(Progress::start().actions(num_pkts, save_data, events));
            let peer = from_peer(packets_among(events));
            let times = times_among(events);
            &&& !save_data ==> rows.len() == 0
            &&& save_data ==> rows.len() == times.len() && rows.len() == peer.len() - (
            if end.awaits(ReceiveEventView::Clock(0)) {
                1int
            } else {
                0
            })
            &&& forall|k: int|
                0 <= k < rows.len() ==> #[trigger] rows[k] == row_text(
                    told_sequence(peer[k]) as nat,
                    times[k] as nat,
                    peer[k][peer[k].len() - 1] as nat,
                )
        }),
{
    let rows = rows_among(Progress::start().actions(num_pkts, save_data, events));
    let peer = from_peer(packets_among(events));
    let times = times_among(events);
    rows_follow_packets(num_pkts, save_data, events);
    lemma_packets_readable(num_pkts, save_data, events);
    lemma_peer_long_enough(packets_among(events));
    assert forall|k: int| 0 <= k < rows.len() implies #[trigger] rows[k] == row_text(
        told_sequence(peer[k]) as nat,
        times[k] as nat,
        peer[k][peer[k].len() - 1] as nat,
    ) by {
        assert(rows[k] == packet_row(peer[k], times[k]));
        lemma_told_sequence(peer[k]);
    }
}

/// What a receiver wants done and what it waits for fit together: it waits for a packet, or word
/// that there is none, where it asked for one, for the time where it asked for the time, for what
/// the sender reported where it asked for that, and else for its action to be carried out.
pub proof fn receiver_waits_for_what_it_asked(
    progress: Progress,
    num_pkts: int,
    save_data: bool,
    event: ReceiveEventView,
    answer: ReceiveEventView,
)
    requires
        progress.awaits(event),
    ensures
        ({
            let (after, action) = progress.step(num_pkts, save_data, event);
            after.awaits(answer) <==> match action {
                ReceiveActionView::Receive => answer is Failed || (answer is Packet && readable(
                    answer->Packet_0,
                )),
                ReceiveActionView::ReadClock => answer is Clock,
                ReceiveActionView::Poll => answer is Report || answer is NoReport,
                _ => answer is Done,
            }
        }),
{
}

/// What a receiver does on what it is told. On a packet it asks for the time, if the packet is to
/// be recorded, and else for what the sender reported. A time is written down, and then the
/// sender's report is asked for. A report is shown, with how many packets of the peer came so
/// far. After that, or where there is no report, or nothing could be read, it goes on receiving,
/// or stops where as many packets of the peer came as it waits for.
pub proof fn each_event_has_its_action(
    num_pkts: int,
    save_data: bool,
    events: Seq<ReceiveEventView>,
    i: int,
)
    requires
        num_pkts >= 0,
        Progress::start().awaits_all(num_pkts, save_data, events),
        0 <= i < events.len(),
    ensures
        ({
            let actions = Progress::start().actions(num_pkts, save_data, events);
            let came = from_peer(packets_among(events.take(i))).len();
            let turn = if came < num_pkts {
                ReceiveActionView::Receive
            } else {
                ReceiveActionView::Finish
            };
            match events[i] {
                ReceiveEventView::Packet(p) => actions[i] == (if save_data && p[12] == 10 && p[13]
                    == 7 && p[14] == 0 && p[15] == 4 {
                    ReceiveActionView::ReadClock
                } else {
                    ReceiveActionView::Poll
                }),
                ReceiveEventView::Failed => actions[i] is Receive,
                ReceiveEventView::Clock(_) => actions[i] is WriteRow,
                ReceiveEventView::Report(number) => actions[i] is ShowLag
                    && actions[i]->reported == number && actions[i]->count == came,
                ReceiveEventView::NoReport => actions[i] == turn,
                ReceiveEventView::Done => actions[i] == (if i > 0 && actions[i - 1] is WriteRow {
                    ReceiveActionView::Poll
                } else {
                    turn
                }),
            }
        }),
{
    let start = Progress::start();
    let upto = events.take(i);
    let before = start.after(num_pkts, save_data, upto);
    assert forall|j: int| 0 <= j < upto.len() implies start.after(
        num_pkts,
        save_data,
        upto.take(j),
    ).awaits(#[trigger] upto[j]) by {
        assert(upto.take(j) =~= events.take(j));
        assert(upto[j] == events[j]);
    }
    assert(before.awaits(events[i]));
    lemma_action_at(start, num_pkts, save_data, events, i);
    assert(before.tally.count == from_peer(packets_among(upto)).len()) by {
        tally_follows_packets(num_pkts, save_data, upto);
        maximum_is_attained(packets_among(upto));
    }
    if events[i] is Packet {
        peer_is_told_by_address(events[i]->Packet_0);
    }
    if events[i] is Done && i > 0 {
        lemma_action_at(start, num_pkts, save_data, events, i - 1);
        assert(start.after(num_pkts, save_data, events.take(i - 1)).awaits(events[i - 1]));
        lemma_recorded_after_row(
            start.after(num_pkts, save_data, events.take(i - 1)),
            num_pkts,
            save_data,
            events[i - 1],
        );
    } else if events[i] is Done {
        assert(upto =~= Seq::empty());
    }
}

proof fn lemma_recorded_after_row(
    progress: Progress,
    num_pkts: int,
    save_data: bool,
    event: ReceiveEventView,
)
    requires
        progress.awaits(event),
    ensures
        progress.step(num_pkts, save_data, event).0.phase is Recorded <==> progress.step(
            num_pkts,
            save_data,
            event,
        ).1 is WriteRow,
{
}

/// What is shown of the reordering tells the maximum and the count in decimal, and nothing else
/// that changes.
pub proof fn summary_tells_maximum_and_count(tally: Tally) -> (parts: (Seq<char>, Seq<char>))
    ensures
        summary_text(tally) == "Average reordering of 0, max of "@ + parts.0 + ", received "@
            + parts.1 + " packets"@,
        is_canonical(parts.0),
        digits_value(parts.0) == tally.max_seq_mismatch,
        is_canonical(parts.1),
        digits_value(parts.1) == tally.count,
{
    lemma_decimal_reads_back(tally.max_seq_mismatch);
    lemma_decimal_reads_back(tally.count);
    (decimal(tally.max_seq_mismatch), decimal(tally.count))
}

/// What is shown with a report is the summary of what came so far.
pub proof fn lag_comes_with_summary(
    num_pkts: int,
    save_data: bool,
    events: Seq<ReceiveEventView>,
    i: int,
)
    requires
        Progress::start().awaits_all(num_pkts, save_data, events),
        0 <= i < events.len(),
        events[i] is Report,
    ensures
        Progress::start().actions(num_pkts, save_data, events)[i]->summary == summary_text(
            Progress::start().after(num_pkts, save_data, events.take(i)).tally,
        ),
{
    lemma_action_at(Progress::start(), num_pkts, save_data, events, i);
    assert(Progress::start().after(num_pkts, save_data, events.take(i)).awaits(events[i]));
}

/// An action is what it says: the line and the numbers that it holds are the ones that count.
pub proof fn receive_action_is_taken_at_its_word(action: ReceiveAction)
    ensures
        match action {
            ReceiveAction::Receive => action@ is Receive,
            ReceiveAction::ReadClock => action@ is ReadClock,
            ReceiveAction::WriteRow(line) => action@ == ReceiveActionView::WriteRow(line@),
            ReceiveAction::Poll => action@ is Poll,
            ReceiveAction::ShowLag { reported, count, summary } => action@ is ShowLag
                && action@->reported == reported && action@->count == count && action@->summary
                == summary@,
            ReceiveAction::Finish => action@ is Finish,
        },
{
}

/// An event is what it says: the packet, the time and the number that it holds are the ones that
/// count.
pub proof fn receive_event_is_taken_at_its_word(event: ReceiveEvent<'_>)
    ensures
        match event {
            ReceiveEvent::Done => event@ is Done,
            ReceiveEvent::Packet(pkt) => event@ == ReceiveEventView::Packet(pkt@),
            ReceiveEvent::Failed => event@ is Failed,
            ReceiveEvent::Clock(time) => event@ == ReceiveEventView::Clock(time),
            ReceiveEvent::Report(number) => event@ == ReceiveEventView::Report(number),
            ReceiveEvent::NoReport => event@ is NoReport,
        },
{
}

/// How far a receiver is shows in its count, its maximum and its phase.
pub proof fn receiver_shows_its_progress(receiver: Receiver)
    ensures
        receiver@.tally.count == receiver.count,
        receiver@.tally.max_seq_mismatch == receiver.max_seq_mismatch,
        receiver@.phase == receiver.phase,
{
}

} // verus!
