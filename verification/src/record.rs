//! The files in which sent and received packets are recorded.

use crate::text::{
    decimal, digits_value, is_canonical, is_digit, lemma_decimal_injective,
    lemma_decimal_reads_back, push_decimal,
};
use vstd::prelude::*;

verus! {

/// A packet to record.
#[derive(Clone, Copy, Debug, PartialEq, Eq, Structural)]
pub struct Row {
    /// Its sequence number.
    pub seq: usize,
    /// Its flow.
    pub flow: u8,
}

/// The line that records the sequence number `seq`, the time and the flow.
pub open spec fn row_text(seq: nat, time: nat, flow: nat) -> Seq<char> {
    decimal(seq) + seq![','] + decimal(time) + seq![','] + decimal(flow)
}

impl Row {
    /// The line that records the packet, stamped with a time in nanoseconds.
    pub fn line(&self, time: u128) -> (line: String)
        ensures
            line@ == row_text(self.seq as nat, time as nat, self.flow as nat),
    {
        proof {
            reveal_strlit(",");
            assert(","@ =~= seq![',']);
        }
        let mut line: String = String::new();
        push_decimal(&mut line, self.seq as u128);
        line.append(",");
        push_decimal(&mut line, time);
        line.append(",");
        push_decimal(&mut line, self.flow as u128);
        assert(line@ =~= row_text(self.seq as nat, time as nat, self.flow as nat));
        line
    }
}

/// The first line of a file of records.
pub fn header_line() -> (line: &'static str)
    ensures
        line@ == "Seq,Time,Flow"@,
{
    "Seq,Time,Flow"
}

/// The file in which the packets that a flow sends are recorded.
pub fn tx_file_name(flow: u8) -> (name: String)
    ensures
        name@ == "tx_data_"@ + decimal(flow as nat) + ".csv"@,
        digits_value(name@.subrange(8, name@.len() - 4)) == flow,
{
    let mut name: String = "tx_data_".to_owned();
    push_decimal(&mut name, flow as u128);
    name.append(".csv");
    proof {
        reveal_strlit("tx_data_");
        reveal_strlit(".csv");
        lemma_decimal_reads_back(flow as nat);
        assert(name@.subrange(8, name@.len() - 4) =~= decimal(flow as nat));
    }
    name
}

proof fn lemma_split_at_comma(m: nat, n: nat, rest_m: Seq<char>, rest_n: Seq<char>)
    requires
        decimal(m) + seq![','] + rest_m == decimal(n) + seq![','] + rest_n,
    ensures
        m == n,
        rest_m == rest_n,
{
    let whole_m = decimal(m) + seq![','] + rest_m;
    let whole_n = decimal(n) + seq![','] + rest_n;
    let a = decimal(m).len() as int;
    let b = decimal(n).len() as int;
    lemma_decimal_reads_back(m);
    lemma_decimal_reads_back(n);
    assert(whole_m[a] == ',');
    assert(whole_n[b] == ',');
    if a < b {
        assert(whole_n[a] == decimal(n)[a]);
        assert(is_digit(decimal(n)[a]));
    } else if b < a {
        assert(whole_m[b] == decimal(m)[b]);
        assert(is_digit(decimal(m)[b]));
    }
    assert(whole_m.take(a) =~= decimal(m));
    assert(whole_n.take(a) =~= decimal(n));
    assert(whole_m.skip(a + 1) =~= rest_m);
    assert(whole_n.skip(a + 1) =~= rest_n);
    lemma_decimal_injective(m, n);
}

/// A line of a file of records tells the sequence number, the time and the flow that were
/// recorded: no other three numbers give the same line.
pub proof fn row_text_injective(
    seq: nat,
    time: nat,
    flow: nat,
    other_seq: nat,
    other_time: nat,
    other_flow: nat,
)
    requires
        row_text(seq, time, flow) == row_text(other_seq, other_time, other_flow),
    ensures
        seq == other_seq,
        time == other_time,
        flow == other_flow,
{
    let rest = decimal(time) + seq![','] + decimal(flow);
    let other_rest = decimal(other_time) + seq![','] + decimal(other_flow);
    assert(row_text(seq, time, flow) =~= decimal(seq) + seq![','] + rest);
    assert(row_text(other_seq, other_time, other_flow) =~= decimal(other_seq) + seq![',']
        + other_rest);
    lemma_split_at_comma(seq, other_seq, rest, other_rest);
    lemma_split_at_comma(time, other_time, decimal(flow), decimal(other_flow));
    lemma_decimal_injective(flow, other_flow);
}

/// A line of a file of records has three columns, as its first line says: the sequence number,
/// the time and the flow. Two commas part them, and what stands before the first comma, between
/// the two and behind the second spells the three numbers, without superfluous zeros.
pub proof fn row_has_three_columns(seq: nat, time: nat, flow: nat) -> (commas: (int, int))
    ensures
        ({
            let line = row_text(seq, time, flow);
            let (a, b) = commas;
            let first = line.subrange(0, a);
            let second = line.subrange(a + 1, b);
            let third = line.subrange(b + 1, line.len() as int);
            &&& 0 < a < b - 1 && b < line.len() - 1
            &&& line[a] == ',' && line[b] == ','
            &&& is_canonical(first) && digits_value(first) == seq
            &&& is_canonical(second) && digits_value(second) == time
            &&& is_canonical(third) && digits_value(third) == flow
        }),
{
    let line = row_text(seq, time, flow);
    let a = decimal(seq).len() as int;
    let b = a + 1 + decimal(time).len();
    lemma_decimal_reads_back(seq);
    lemma_decimal_reads_back(time);
    lemma_decimal_reads_back(flow);
    assert(line.subrange(0, a) =~= decimal(seq));
    assert(line.subrange(a + 1, b) =~= decimal(time));
    assert(line.subrange(b + 1, line.len() as int) =~= decimal(flow));
    (a, b)
}

} // verus!
