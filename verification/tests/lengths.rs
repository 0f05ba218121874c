use sender_receiver::lengths::{
    get_caida_lengths, get_random_pkt_lengths, select_lengths, FirstField, Note,
};

fn text(s: &str) -> FirstField {
    FirstField::Text(s.to_string())
}

fn unreadable(error: &str) -> FirstField {
    FirstField::Unreadable(error.to_string())
}

#[test]
fn random_lengths_are_in_range() {
    let lengths = get_random_pkt_lengths(5000);
    assert_eq!(lengths.len(), 5000);
    assert!(lengths.iter().all(|n| (29..=1400).contains(n)));
    assert!(lengths.iter().any(|n| *n != lengths[0]));
    assert!(lengths.iter().any(|n| *n != 29 && *n != 1400));
    assert!(get_random_pkt_lengths(0).is_empty());
}

#[test]
fn trace_lengths_are_capped_and_short_ones_left_out() {
    let data = b"length\n40\n1400\n1401\n65535\n29\n30\n0\n-5\n";
    let selection = get_caida_lengths(data, 100).unwrap();
    assert_eq!(selection.lengths, vec![40, 1400, 1400, 1400, 30]);
    assert!(selection.notes.is_empty());
}

#[test]
fn header_line_is_no_record() {
    let selection = get_caida_lengths(b"100\n200\n", 10).unwrap();
    assert_eq!(selection.lengths, vec![200]);
    assert!(get_caida_lengths(b"", 10).unwrap().lengths.is_empty());
}

#[test]
fn only_the_first_field_counts() {
    let selection = get_caida_lengths(b"length,proto\n50,udp\n\"60\",tcp\n", 10).unwrap();
    assert_eq!(selection.lengths, vec![50, 60]);
}

#[test]
fn first_usable_lengths_are_taken() {
    let data = b"length\n10\n100\nx\n200\n300\ny\n400\n";
    let selection = get_caida_lengths(data, 2).unwrap();
    assert_eq!(selection.lengths, vec![100, 200]);
    assert_eq!(selection.notes, vec![Note::NotANumber]);
    assert!(get_caida_lengths(data, 0).unwrap().lengths.is_empty());
}

#[test]
fn texts_that_are_no_number_are_noted() {
    let fields = vec![
        text("100"), text(""), text("+"), text("-"), text(" 100"), text("100 "), text("1_0"),
        text("2147483648"), text("-2147483649"), text("0x40"), text("10.0"),
    ];
    let selection = select_lengths(&fields, 100).unwrap();
    assert_eq!(selection.lengths, vec![100]);
    assert_eq!(selection.notes, vec![Note::NotANumber; 10]);
}

#[test]
fn signs_and_extremes_are_read() {
    let fields = vec![
        text("+100"), text("0100"), text("2147483647"), text("-2147483648"), text("-100"),
        text("-0"),
    ];
    let selection = select_lengths(&fields, 100).unwrap();
    assert_eq!(selection.lengths, vec![100, 100, 1400]);
    assert!(selection.notes.is_empty());
}

#[test]
fn missing_fields_are_noted() {
    let fields = vec![FirstField::Missing, text("64"), text("?"), FirstField::Missing];
    let selection = select_lengths(&fields, 100).unwrap();
    assert_eq!(selection.lengths, vec![64]);
    assert_eq!(
        selection.notes,
        vec![Note::MissingField, Note::NotANumber, Note::MissingField]
    );
    assert_eq!(Note::NotANumber.message(), "Error: Failed to parse i32");
    assert_eq!(Note::MissingField.message(), "Error: Missing csv field");
}

#[test]
fn unreadable_record_ends_the_selection() {
    let data = b"length\n100\nx\n200,300\n400\n";
    let unreadable = get_caida_lengths(data, 10).unwrap_err();
    assert_eq!(unreadable.index, 2);
    assert_eq!(unreadable.notes, vec![Note::NotANumber]);
    assert!(unreadable.error.contains("UnequalLengths"));
}

#[test]
fn record_behind_the_last_length_must_be_readable() {
    let fields = vec![text("100"), unreadable("a"), text("200")];
    assert_eq!(select_lengths(&fields, 1).unwrap_err().index, 1);
    assert_eq!(select_lengths(&fields, 2).unwrap_err().index, 1);
    let later = vec![text("100"), text("200"), unreadable("b")];
    assert_eq!(select_lengths(&later, 1).unwrap().lengths, vec![100]);
    assert_eq!(select_lengths(&later, 2).unwrap_err().index, 2);
    let first = vec![unreadable("c")];
    assert_eq!(select_lengths(&first, 0).unwrap_err().index, 0);
    assert_eq!(select_lengths(&first, 0).unwrap_err().error, "c");
    let both = vec![unreadable("a"), unreadable("b")];
    assert_eq!(select_lengths(&both, 5).unwrap_err().error, "a");
}

#[test]
fn bytes_that_are_no_text_are_unreadable() {
    let unreadable = get_caida_lengths(b"length\n100\n\xff\xfe\n", 10).unwrap_err();
    assert_eq!(unreadable.index, 1);
    assert!(unreadable.error.contains("Utf8"));
}
