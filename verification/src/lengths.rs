//! The lengths of the packets to send: drawn at random, or taken from a recorded trace.

use crate::packet::{IP_HEADER_LEN, MIN_PAYLOAD_LEN, MTU, VPN_HEADER_LEN};
use crate::text::{all_digits, digits_value, is_digit};
use rand::Rng;
use vstd::prelude::*;

verus! {

/// The shortest packet that holds a header, a sequence number and a flow.
pub const MIN_PKT_LEN: usize = IP_HEADER_LEN + MIN_PAYLOAD_LEN;

/// The longest packet that the tunnel carries in one piece.
pub const MAX_PKT_LEN: usize = MTU - IP_HEADER_LEN - VPN_HEADER_LEN;

/// How many lengths a vector can make room for.
pub open spec fn has_room(num_pkts: usize) -> bool {
    num_pkts * 4 <= isize::MAX
}

/// `rand::Rng::gen_range` over an inclusive range, on the generator of the current thread
/// (`rand::thread_rng`): some number within the range. Which one is left to chance, and nothing
/// is said of how the numbers are distributed.
#[verifier::external_body]
fn random_between(low: i32, high: i32) -> (n: i32)
    requires
        low <= high,
    ensures
        low <= n <= high,
{
    rand::thread_rng().gen_range(low..=high)
}

/// Draws `num_pkts` lengths at random.
pub fn get_random_pkt_lengths(num_pkts: usize) -> (pkt_lengths: Vec<i32>)
    requires
        has_room(num_pkts),
    ensures
        pkt_lengths@.len() == num_pkts,
        forall|i: int|
            0 <= i < num_pkts ==> MIN_PKT_LEN <= #[trigger] pkt_lengths@[i] <= MAX_PKT_LEN,
{
    let mut pkt_lengths: Vec<i32> = Vec::with_capacity(num_pkts);
    for i in 0..num_pkts
        invariant
            pkt_lengths@.len() == i,
            forall|j: int|
                0 <= j < i ==> MIN_PKT_LEN <= #[trigger] pkt_lengths@[j] <= MAX_PKT_LEN,
    {
        let length: i32 = random_between(MIN_PKT_LEN as i32, MAX_PKT_LEN as i32);
        pkt_lengths.push(length);
    }
    pkt_lengths
}

/// A record of a CSV file.
#[verifier::external_type_specification]
#[verifier::external_body]
pub struct ExStringRecord(csv::StringRecord);

/// The fields of a record, in order.
pub uninterp spec fn record_fields(record: csv::StringRecord) -> Seq<Seq<char>>;

/// The records of a CSV file behind its header line, each with its fields, or with what is wrong
/// with it where it cannot be read.
pub uninterp spec fn csv_records(data: Seq<u8>) -> Seq<Result<Seq<Seq<char>>, Seq<char>>>;

/// What a reading of a record tells: its fields, or what is wrong with it.
pub open spec fn record_view(record: Result<csv::StringRecord, String>) -> Result<
    Seq<Seq<char>>,
    Seq<char>,
> {
    match record {
        Ok(record) => Ok(record_fields(record)),
        Err(error) => Err(error@),
    }
}

/// `csv::StringRecord::get`: the field number `i` of the record, or `None` where the record has
/// no such field.
pub assume_specification[ csv::StringRecord::get ](record: &csv::StringRecord, i: usize) -> (field:
    Option<&str>)
    ensures
        match field {
            Some(text) => i < record_fields(*record).len() && text@ == record_fields(
                *record,
            )[i as int],
            None => i >= record_fields(*record).len(),
        },
;

/// `csv::Reader::records` on a reader that `csv::ReaderBuilder` made with a header line and its
/// defaults otherwise, run to its end over bytes in memory; of an error, its `Debug` text. The
/// result is named, not described: it is what `csv` makes of the bytes.
#[verifier::external_body]
fn read_records(data: &[u8]) -> (records: Vec<Result<csv::StringRecord, String>>)
    ensures
        records@.map_values(|r: Result<csv::StringRecord, String>| record_view(r)) == csv_records(
            data@,
        ),
{
    let mut reader = csv::ReaderBuilder::new().has_headers(true).from_reader(data);
    reader.records().map(|r| r.map_err(|error| format!("{error:?}"))).collect()
}

/// The number that `s` spells: an optional sign, then one or more digits.
pub open spec fn spelled_integer(s: Seq<char>) -> Option<int> {
    let signed = s.len() > 0 && (s[0] == '+' || s[0] == '-');
    let digits = if signed {
        s.skip(1)
    } else {
        s
    };
    if digits.len() == 0 || !all_digits(digits) {
        None
    } else if s[0] == '-' {
        Some(-(digits_value(digits) as int))
    } else {
        Some(digits_value(digits) as int)
    }
}

/// The `i32` that `s` spells, if it spells one.
pub open spec fn spelled_i32(s: Seq<char>) -> Option<i32> {
    match spelled_integer(s) {
        Some(n) => if i32::MIN <= n <= i32::MAX {
            Some(n as i32)
        } else {
            None
        },
        None => None,
    }
}

/// `str::parse::<i32>` of std: an optional sign and decimal digits, nothing else, within the
/// range of the type.
#[verifier::external_body]
fn parse_i32(s: &str) -> (n: Option<i32>)
    ensures
        n == spelled_i32(s@),
{
    s.parse::<i32>().ok()
}

/// What a record of a trace holds in its first field.
#[derive(Debug)]
pub enum FirstField {
    /// The record could not be read, for this reason.
    Unreadable(String),
    /// The record has no field.
    Missing,
    /// The text of the field.
    Text(String),
}

/// What a first field stands for: the text, if any, of a record that could be read, and else the
/// reason why it could not.
pub type FieldView = Result<Option<Seq<char>>, Seq<char>>;

impl View for FirstField {
    type V = FieldView;

    open spec fn view(&self) -> FieldView {
        match self {
            FirstField::Unreadable(error) => Err(error@),
            FirstField::Missing => Ok(None),
            FirstField::Text(text) => Ok(Some(text@)),
        }
    }
}

/// The first field of a record with the given fields, if it could be read.
pub open spec fn first_of(record: Result<Seq<Seq<char>>, Seq<char>>) -> FieldView {
    match record {
        Ok(fields) => Ok(
            if fields.len() > 0 {
                Some(fields[0])
            } else {
                None
            },
        ),
        Err(error) => Err(error),
    }
}

/// The views of a trace's first fields.
pub open spec fn field_views(fields: Seq<FirstField>) -> Seq<FieldView> {
    fields.map_values(|f: FirstField| f@)
}

/// Why a record of a trace gave no length.
#[derive(Clone, Copy, Debug, PartialEq, Eq, Structural)]
pub enum Note {
    /// The first field is no `i32`.
    NotANumber,
    /// There is no first field.
    MissingField,
}

impl Note {
    /// What is said of the record.
    pub open spec fn text(self) -> Seq<char> {
        match self {
            Note::NotANumber => "Error: Failed to parse i32"@,
            Note::MissingField => "Error: Missing csv field"@,
        }
    }

    /// What to say of the record.
    pub fn message(&self) -> (message: &'static str)
        ensures
            message@ == self.text(),
    {
        match self {
            Note::NotANumber => "Error: Failed to parse i32",
            Note::MissingField => "Error: Missing csv field",
        }
    }
}

/// The length that a record with this first field contributes. One that is too long for the
/// tunnel is cut to what goes in one piece, as the first fragment; one that leaves no room for
/// the payload is left out.
pub open spec fn usable_length(field: FieldView) -> Option<i32> {
    match field {
        Ok(Some(text)) => match spelled_i32(text) {
            Some(n) => if n > MAX_PKT_LEN {
                Some(MAX_PKT_LEN as i32)
            } else if n > MIN_PKT_LEN {
                Some(n)
            } else {
                None
            },
            None => None,
        },
        _ => None,
    }
}

/// What is noted of a record with this first field.
pub open spec fn note_on(field: FieldView) -> Option<Note> {
    match field {
        Ok(Some(text)) => if spelled_i32(text) is None {
            Some(Note::NotANumber)
        } else {
            None
        },
        Ok(None) => Some(Note::MissingField),
        Err(_) => None,
    }
}

/// The lengths that the records contribute, in their order.
pub open spec fn usable_lengths(fields: Seq<FieldView>) -> Seq<i32>
    decreases fields.len(),
{
    if fields.len() == 0 {
        Seq::empty()
    } else {
        match usable_length(fields.last()) {
            Some(n) => usable_lengths(fields.drop_last()).push(n),
            None => usable_lengths(fields.drop_last()),
        }
    }
}

/// What is noted of the records, in their order.
pub open spec fn notes_on(fields: Seq<FieldView>) -> Seq<Note>
    decreases fields.len(),
{
    if fields.len() == 0 {
        Seq::empty()
    } else {
        match note_on(fields.last()) {
            Some(note) => notes_on(fields.drop_last()).push(note),
            None => notes_on(fields.drop_last()),
        }
    }
}

/// How many records, counted from `from` on, are used up before there are `num_pkts` lengths.
pub open spec fn used_from(
    fields: Seq<FieldView>,
    num_pkts: nat,
    from: nat,
) -> nat
    decreases fields.len() - from,
{
    if from >= fields.len() || usable_lengths(fields.take(from as int)).len() >= num_pkts {
        from
    } else {
        used_from(fields, num_pkts, from + 1)
    }
}

/// How many records of a trace are used up before there are `num_pkts` lengths.
pub open spec fn used(fields: Seq<FieldView>, num_pkts: nat) -> nat {
    used_from(fields, num_pkts, 0)
}

/// Every record that is used, and the one behind them, can be read.
pub open spec fn readable(fields: Seq<FieldView>, num_pkts: nat) -> bool {
    forall|i: int|
        0 <= i <= used(fields, num_pkts) && i < fields.len() ==> (#[trigger] fields[i]) is Ok
}

/// The lengths taken from a trace, and what was noted on the way.
#[derive(Debug)]
pub struct Selection {
    pub lengths: Vec<i32>,
    pub notes: Vec<Note>,
}

/// A record that could not be read, and what was noted before it.
#[derive(Debug)]
pub struct UnreadableRecord {
    /// The number of the record, counted from zero behind the header line.
    pub index: usize,
    /// Why it could not be read.
    pub error: String,
    pub notes: Vec<Note>,
}

/// `selected` is what a trace with these first fields gives when `num_pkts` lengths are asked
/// for: the lengths, or else the first record that cannot be read.
pub open spec fn selects(
    fields: Seq<FieldView>,
    num_pkts: nat,
    selected: Result<Selection, UnreadableRecord>,
) -> bool {
    match selected {
        Ok(selection) => {
            &&& readable(fields, num_pkts)
            &&& selection.lengths@ == usable_lengths(fields.take(used(fields, num_pkts) as int))
            &&& selection.notes@ == notes_on(fields.take(used(fields, num_pkts) as int))
        },
        Err(unreadable) => {
            &&& !readable(fields, num_pkts)
            &&& unreadable.index < fields.len()
            &&& fields[unreadable.index as int] == FieldView::Err(unreadable.error@)
            &&& forall|i: int| 0 <= i < unreadable.index ==> (#[trigger] fields[i]) is Ok
            &&& unreadable.notes@ == notes_on(fields.take(unreadable.index as int))
        },
    }
}

/// There are at most `num_pkts` lengths, and each leaves room for the payload and goes through
/// the tunnel in one piece.
pub open spec fn lengths_fit(lengths: Seq<i32>, num_pkts: nat) -> bool {
    &&& lengths.len() <= num_pkts
    &&& forall|i: int|
        0 <= i < lengths.len() ==> MIN_PKT_LEN < #[trigger] lengths[i] <= MAX_PKT_LEN
}

proof fn lemma_used_from(fields: Seq<FieldView>, num_pkts: nat, from: nat)
    requires
        from <= fields.len(),
    ensures
        from <= used_from(fields, num_pkts, from) <= fields.len(),
        used_from(fields, num_pkts, from) < fields.len() ==> usable_lengths(
            fields.take(used_from(fields, num_pkts, from) as int),
        ).len() >= num_pkts,
        forall|j: int|
            from <= j < used_from(fields, num_pkts, from) ==> #[trigger] usable_lengths(
                fields.take(j),
            ).len() < num_pkts,
    decreases fields.len() - from,
{
    if from < fields.len() && usable_lengths(fields.take(from as int)).len() < num_pkts {
        lemma_used_from(fields, num_pkts, from + 1);
    }
}

proof fn lemma_usable_in_range(fields: Seq<FieldView>)
    ensures
        forall|i: int|
            0 <= i < usable_lengths(fields).len() ==> MIN_PKT_LEN < #[trigger] usable_lengths(
                fields,
            )[i] <= MAX_PKT_LEN,
    decreases fields.len(),
{
    if fields.len() > 0 {
        let front = usable_lengths(fields.drop_last());
        lemma_usable_in_range(fields.drop_last());
        assert forall|i: int| 0 <= i < usable_lengths(fields).len() implies MIN_PKT_LEN
            < #[trigger] usable_lengths(fields)[i] <= MAX_PKT_LEN by {
            if i < front.len() {
                assert(usable_lengths(fields)[i] == front[i]);
            }
        }
    }
}

proof fn lemma_usable_grows(fields: Seq<FieldView>, k: int)
    requires
        0 <= k <= fields.len(),
    ensures
        usable_lengths(fields.take(k)).len() <= usable_lengths(fields).len(),
        usable_lengths(fields.take(k)) == usable_lengths(fields).take(
            usable_lengths(fields.take(k)).len() as int,
        ),
    decreases fields.len(),
{
    if k == fields.len() {
        assert(fields.take(k) =~= fields);
        assert(usable_lengths(fields).take(usable_lengths(fields).len() as int) =~= usable_lengths(
            fields,
        ));
    } else {
        lemma_usable_grows(fields.drop_last(), k);
        assert(fields.drop_last().take(k) =~= fields.take(k));
        assert(usable_lengths(fields.take(k)) =~= usable_lengths(fields).take(
            usable_lengths(fields.take(k)).len() as int,
        ));
    }
}

/// The lengths taken from a trace are the first `num_pkts` usable ones that it holds, or all of
/// them where it holds fewer.
pub proof fn takes_first_usable(fields: Seq<FieldView>, num_pkts: nat)
    ensures
        used(fields, num_pkts) <= fields.len(),
        usable_lengths(fields.take(used(fields, num_pkts) as int)) == (if usable_lengths(
            fields,
        ).len() <= num_pkts {
            usable_lengths(fields)
        } else {
            usable_lengths(fields).take(num_pkts as int)
        }),
{
    let k = used(fields, num_pkts) as int;
    let taken = usable_lengths(fields.take(k));
    lemma_used_from(fields, num_pkts, 0);
    lemma_usable_grows(fields, k);
    assert(fields.take(0) =~= Seq::empty());
    assert(taken.len() <= num_pkts) by {
        if k > 0 {
            assert(fields.take(k).drop_last() =~= fields.take(k - 1));
            assert(usable_lengths(fields.take(k - 1)).len() < num_pkts);
        }
    }
    if k == fields.len() {
        assert(fields.take(k) =~= fields);
        if taken.len() == num_pkts {
            assert(usable_lengths(fields).take(num_pkts as int) =~= usable_lengths(fields));
        }
    } else {
        assert(usable_lengths(fields).len() == num_pkts ==> usable_lengths(fields).take(
            num_pkts as int,
        ) =~= usable_lengths(fields));
    }
}

/// Takes up to `num_pkts` lengths from the records of a trace, whose first fields are given. A
/// record that cannot be read ends it, if it comes before the lengths are complete or is the
/// first one behind them.
pub fn select_lengths(fields: &Vec<FirstField>, num_pkts: usize) -> (selected: Result<
    Selection,
    UnreadableRecord,
>)
    requires
        has_room(num_pkts),
    ensures
        selects(field_views(fields@), num_pkts as nat, selected),
        selected is Ok ==> lengths_fit(selected->Ok_0.lengths@, num_pkts as nat),
{
    let ghost views = field_views(fields@);
    let mut lengths: Vec<i32> = Vec::with_capacity(num_pkts);
    let mut notes: Vec<Note> = Vec::new();
    let mut i: usize = 0;
    proof {
        lemma_used_from(views, num_pkts as nat, 0);
        assert(views.take(0) =~= Seq::empty());
    }
    while i < fields.len()
        invariant_except_break
            i <= used(views, num_pkts as nat),
        invariant
            views == field_views(fields@),
            i <= fields.len(),
            lengths@ == usable_lengths(views.take(i as int)),
            notes@ == notes_on(views.take(i as int)),
            lengths@.len() <= num_pkts,
            forall|j: int| 0 <= j < i ==> (#[trigger] views[j]) is Ok,
            used(views, num_pkts as nat) <= views.len(),
            used(views, num_pkts as nat) < views.len() ==> usable_lengths(
                views.take(used(views, num_pkts as nat) as int),
            ).len() >= num_pkts,
            forall|j: int|
                0 <= j < used(views, num_pkts as nat) ==> #[trigger] usable_lengths(
                    views.take(j),
                ).len() < num_pkts,
        ensures
            i == used(views, num_pkts as nat),
            i < fields.len() ==> views[i as int] is Ok,
        decreases fields.len() - i,
    {
        let ghost next = views.take(i + 1);
        assert(views[i as int] == fields@[i as int]@);
        match &fields[i] {
            FirstField::Unreadable(error) => {
                assert(!readable(views, num_pkts as nat));
                return Err(UnreadableRecord { index: i, error: error.clone(), notes });
            },
            field => {
                if lengths.len() >= num_pkts {
                    break;
                }
                proof {
                    assert(next.drop_last() =~= views.take(i as int));
                    assert(next.last() == views[i as int]);
                }
                match field {
                    FirstField::Text(text) => match parse_i32(text.as_str()) {
                        Some(length) => {
                            if length > MAX_PKT_LEN as i32 {
                                lengths.push(MAX_PKT_LEN as i32);
                            } else if length > MIN_PKT_LEN as i32 {
                                lengths.push(length);
                            }
                        },
                        None => {
                            notes.push(Note::NotANumber);
                        },
                    },
                    _ => {
                        notes.push(Note::MissingField);
                    },
                }
                i = i + 1;
            },
        }
    }
    proof {
        lemma_usable_in_range(views.take(i as int));
    }
    Ok(Selection { lengths, notes })
}

/// What the trace in the CSV file `data` holds in the first field of its records.
pub open spec fn trace_fields(data: Seq<u8>) -> Seq<FieldView> {
    csv_records(data).map_values(|r: Result<Seq<Seq<char>>, Seq<char>>| first_of(r))
}

/// The first field of each record of a CSV file, the header line left out.
fn first_fields(data: &[u8]) -> (fields: Vec<FirstField>)
    ensures
        field_views(fields@) == trace_fields(data@),
{
    let records: Vec<Result<csv::StringRecord, String>> = read_records(data);
    let ghost views = csv_records(data@);
    let mut fields: Vec<FirstField> = Vec::new();
    let mut i: usize = 0;
    while i < records.len()
        invariant
            views == records@.map_values(
                |r: Result<csv::StringRecord, String>| record_view(r),
            ),
            i <= records.len(),
            fields@.len() == i,
            forall|j: int| 0 <= j < i ==> (#[trigger] fields@[j])@ == first_of(views[j]),
        decreases records.len() - i,
    {
        assert(views[i as int] == record_view(records@[i as int]));
        let field = match &records[i] {
            Ok(record) => match record.get(0) {
                Some(text) => FirstField::Text(text.to_owned()),
                None => FirstField::Missing,
            },
            Err(error) => FirstField::Unreadable(error.clone()),
        };
        fields.push(field);
        i = i + 1;
    }
    assert(field_views(fields@) =~= trace_fields(data@));
    fields
}

/// Takes up to `num_pkts` lengths from a recorded trace: the CSV file `data` with a header line
/// and one length in the first field of each record.
pub fn get_caida_lengths(data: &[u8], num_pkts: usize) -> (selected: Result<
    Selection,
    UnreadableRecord,
>)
    requires
        has_room(num_pkts),
    ensures
        selects(trace_fields(data@), num_pkts as nat, selected),
        selected is Ok ==> lengths_fit(selected->Ok_0.lengths@, num_pkts as nat),
{
    let fields: Vec<FirstField> = first_fields(data);
    select_lengths(&fields, num_pkts)
}

/// The number that a record tells in its first field, if it tells one.
pub open spec fn told_number(field: FieldView) -> Option<i32> {
    match field {
        Ok(Some(text)) => spelled_i32(text),
        _ => None,
    }
}

/// The numbers above 29 that records tell, in their order, with 1400 in place of what is above
/// 1400.
pub open spec fn told_lengths(fields: Seq<FieldView>) -> Seq<i32> {
    fields.filter(|f: FieldView| told_number(f) is Some && told_number(f)->0 > 29).map_values(
        |f: FieldView|
            if told_number(f)->0 > 1400 {
                1400i32
            } else {
                told_number(f)->0
            },
    )
}

/// What there is to note of records that can be read and tell no number, in their order.
pub open spec fn told_notes(fields: Seq<FieldView>) -> Seq<Note> {
    fields.filter(|f: FieldView| f is Ok && told_number(f) is None).map_values(
        |f: FieldView|
            if f->Ok_0 is None {
                Note::MissingField
            } else {
                Note::NotANumber
            },
    )
}

/// Digits spell a number, also with a sign before them, where it is within the range of an
/// `i32`, and no other text does.
pub proof fn signs_and_digits_spell(s: Seq<char>, digits: Seq<char>)
    requires
        digits.len() > 0,
        all_digits(digits),
    ensures
        spelled_i32(digits) == (if digits_value(digits) <= 0x7FFF_FFFF {
            Some(digits_value(digits) as i32)
        } else {
            None
        }),
        spelled_i32(seq!['+'] + digits) == spelled_i32(digits),
        spelled_i32(seq!['-'] + digits) == (if digits_value(digits) <= 0x8000_0000 {
            Some((-digits_value(digits)) as i32)
        } else {
            None
        }),
        spelled_i32(s) is Some ==> (s.len() > 0 && all_digits(s)) || (s.len() > 1 && (s[0] == '+'
            || s[0] == '-') && all_digits(s.skip(1))),
{
    let plus = seq!['+'] + digits;
    let minus = seq!['-'] + digits;
    assert(is_digit(digits[0]));
    assert(plus.skip(1) =~= digits);
    assert(minus.skip(1) =~= digits);
}

proof fn lemma_usable_is_told(fields: Seq<FieldView>)
    ensures
        usable_lengths(fields) == told_lengths(fields),
        notes_on(fields) == told_notes(fields),
    decreases fields.len(),
{
    reveal(Seq::filter);
    if fields.len() > 0 {
        lemma_usable_is_told(fields.drop_last());
        assert(usable_lengths(fields) =~= told_lengths(fields));
        assert(notes_on(fields) =~= told_notes(fields));
    } else {
        assert(usable_lengths(fields) =~= told_lengths(fields));
        assert(notes_on(fields) =~= told_notes(fields));
    }
}

/// A record whose first field spells a number from 30 to 1400 gives that number as a length, one
/// with a larger number gives 1400, and any other gives none. The lengths taken are those, in the
/// order of the records, up to the number asked for.
pub proof fn lengths_are_the_numbers_told(
    fields: Seq<FieldView>,
    num_pkts: nat,
    selected: Result<Selection, UnreadableRecord>,
)
    requires
        selects(fields, num_pkts, selected),
        selected is Ok,
    ensures
        selected->Ok_0.lengths@ == (if told_lengths(fields).len() <= num_pkts {
            told_lengths(fields)
        } else {
            told_lengths(fields).take(num_pkts as int)
        }),
{
    takes_first_usable(fields, num_pkts);
    lemma_usable_is_told(fields);
}

/// A trace whose records all spell numbers from 30 to 1400 gives those numbers, one by one and
/// unchanged, and there is nothing to note.
pub proof fn plain_trace_is_taken_as_it_is(
    fields: Seq<FieldView>,
    num_pkts: nat,
    selected: Result<Selection, UnreadableRecord>,
)
    requires
        selects(fields, num_pkts, selected),
        forall|i: int|
            0 <= i < fields.len() ==> told_number(#[trigger] fields[i]) is Some && 30
                <= told_number(fields[i])->0 <= 1400,
    ensures
        selected is Ok,
        selected->Ok_0.notes@.len() == 0,
        selected->Ok_0.lengths@.len() == (if fields.len() <= num_pkts {
            fields.len()
        } else {
            num_pkts
        }),
        forall|i: int|
            0 <= i < selected->Ok_0.lengths@.len() ==> Some(#[trigger] selected->Ok_0.lengths@[i])
                == told_number(fields[i]),
{
    let k = used(fields, num_pkts) as int;
    takes_first_usable(fields, num_pkts);
    lemma_plain_lengths(fields);
    lemma_plain_lengths(fields.take(k));
}

proof fn lemma_plain_lengths(fields: Seq<FieldView>)
    requires
        forall|i: int|
            0 <= i < fields.len() ==> told_number(#[trigger] fields[i]) is Some && 30
                <= told_number(fields[i])->0 <= 1400,
    ensures
        notes_on(fields).len() == 0,
        usable_lengths(fields).len() == fields.len(),
        forall|i: int|
            0 <= i < fields.len() ==> Some(#[trigger] usable_lengths(fields)[i]) == told_number(
                fields[i],
            ),
    decreases fields.len(),
{
    if fields.len() > 0 {
        let front = fields.drop_last();
        lemma_plain_lengths(front);
        assert(fields[fields.len() - 1] == fields.last());
        assert forall|i: int| 0 <= i < fields.len() implies Some(
            #[trigger] usable_lengths(fields)[i],
        ) == told_number(fields[i]) by {
            if i < front.len() {
                assert(usable_lengths(fields)[i] == usable_lengths(front)[i]);
                assert(front[i] == fields[i]);
            }
        }
    }
}

/// `k` records are read: lengths were missing before the last of them, and none is missing behind
/// them, or there are no more.
pub open spec fn reads_up_to(fields: Seq<FieldView>, num_pkts: nat, k: int) -> bool {
    &&& 0 <= k <= fields.len()
    &&& k > 0 ==> told_lengths(fields.take(k - 1)).len() < num_pkts
    &&& k < fields.len() ==> told_lengths(fields.take(k)).len() >= num_pkts
}

/// What is noted are the records that tell no number, in their order, among those that are read:
/// the ones up to the last that was needed, or up to the first that cannot be read.
pub proof fn notes_are_of_records_without_number(
    fields: Seq<FieldView>,
    num_pkts: nat,
    selected: Result<Selection, UnreadableRecord>,
)
    requires
        selects(fields, num_pkts, selected),
    ensures
        match selected {
            Ok(selection) => exists|k: int| #[trigger]
                reads_up_to(fields, num_pkts, k) && selection.notes@ == told_notes(fields.take(k)),
            Err(unreadable) => unreadable.notes@ == told_notes(
                fields.take(unreadable.index as int),
            ),
        },
{
    match selected {
        Ok(selection) => {
            let k = used(fields, num_pkts) as int;
            lemma_used_from(fields, num_pkts, 0);
            lemma_usable_is_told(fields.take(k));
            if k > 0 {
                assert(usable_lengths(fields.take(k - 1)).len() < num_pkts);
                lemma_usable_is_told(fields.take(k - 1));
            }
            assert(reads_up_to(fields, num_pkts, k));
        },
        Err(unreadable) => {
            lemma_usable_is_told(fields.take(unreadable.index as int));
        },
    }
}

/// A record that cannot be read is met exactly where all before it can be read and lengths were
/// still missing before the one in front of it. Then it is the one that is told, with the reason
/// why it cannot be read; and where no such record is met, there are lengths.
pub proof fn unreadable_record_is_told_where_it_is_met(
    fields: Seq<FieldView>,
    num_pkts: nat,
    selected: Result<Selection, UnreadableRecord>,
    u: int,
)
    requires
        selects(fields, num_pkts, selected),
        0 <= u < fields.len(),
        fields[u] is Err,
        forall|j: int| 0 <= j < u ==> (#[trigger] fields[j]) is Ok,
    ensures
        selected is Err <==> (u > 0 ==> told_lengths(fields.take(u - 1)).len() < num_pkts),
        selected is Err ==> selected->Err_0.index == u && FieldView::Err(selected->Err_0.error@)
            == fields[u],
{
    let k = used(fields, num_pkts) as int;
    lemma_used_from(fields, num_pkts, 0);
    if u > 0 {
        lemma_usable_is_told(fields.take(u - 1));
        if u > k {
            lemma_usable_grows(fields.take(u - 1), k);
            assert(fields.take(u - 1).take(k) =~= fields.take(k));
        } else {
            assert(usable_lengths(fields.take(u - 1)).len() < num_pkts);
        }
    }
    if u <= k {
        assert(!(fields[u] is Ok));
        assert(!readable(fields, num_pkts));
    } else {
        assert(readable(fields, num_pkts));
    }
    if selected is Err {
        let index = selected->Err_0.index as int;
        assert(fields[index] is Err);
        assert(index == u);
    }
}

/// Where every record can be read, there are lengths.
pub proof fn readable_trace_is_accepted(
    fields: Seq<FieldView>,
    num_pkts: nat,
    selected: Result<Selection, UnreadableRecord>,
)
    requires
        selects(fields, num_pkts, selected),
        forall|j: int| 0 <= j < fields.len() ==> (#[trigger] fields[j]) is Ok,
    ensures
        selected is Ok,
{
}

/// A trace is read record by record, and of each record by its first field alone.
pub proof fn first_fields_make_the_trace(data: Seq<u8>, i: int)
    requires
        0 <= i < csv_records(data).len(),
    ensures
        trace_fields(data).len() == csv_records(data).len(),
        match csv_records(data)[i] {
            Ok(fields) => trace_fields(data)[i] == FieldView::Ok(
                if fields.len() == 0 {
                    None
                } else {
                    Some(fields[0])
                },
            ),
            Err(error) => trace_fields(data)[i] == FieldView::Err(error),
        },
{
}

/// A first field is what it says: the text of a record that has one, nothing for one that has
/// none, and the reason for one that cannot be read.
pub proof fn first_field_is_taken_at_its_word(field: FirstField)
    ensures
        match field {
            FirstField::Unreadable(error) => field@ == FieldView::Err(error@),
            FirstField::Missing => field@ == FieldView::Ok(None),
            FirstField::Text(text) => field@ == FieldView::Ok(Some(text@)),
        },
{
}

} // verus!
