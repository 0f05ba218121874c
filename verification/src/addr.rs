//! IPv4 addresses in dotted decimal.

use crate::text::{
    all_digits, decimal, digits_value, is_canonical, is_digit, lemma_canonical_is_decimal,
    lemma_decimal_reads_back, lemma_decimal_short,
};
use vstd::prelude::*;

verus! {

/// The text is not four decimal octets with dots between them.
#[derive(Clone, Copy, Debug, PartialEq, Eq, Structural)]
pub struct AddrParseError;

/// The address in dotted decimal, its octets without leading zeros.
pub open spec fn dotted(a: Seq<u8>) -> Seq<char> {
    decimal(a[0] as nat) + seq!['.'] + decimal(a[1] as nat) + seq!['.'] + decimal(a[2] as nat)
        + seq!['.'] + decimal(a[3] as nat)
}

/// From `start` on, `s` holds `v` in decimal and then no further digit.
spec fn octet_at(s: Seq<char>, start: int, v: u8) -> bool {
    let end = start + decimal(v as nat).len();
    &&& end <= s.len()
    &&& s.subrange(start, end) == decimal(v as nat)
    &&& end < s.len() ==> !is_digit(s[end])
}

/// From `start` on, `s` holds `v` in decimal and then a dot.
spec fn octet_dot_at(s: Seq<char>, start: int, v: u8) -> bool {
    let end = start + decimal(v as nat).len();
    octet_at(s, start, v) && end < s.len() && s[end] == '.'
}

/// The run of digits that starts at `start` ends at `end`.
spec fn digit_run(s: Seq<char>, start: int, end: int) -> bool {
    &&& start <= end <= s.len()
    &&& all_digits(s.subrange(start, end))
    &&& end < s.len() ==> !is_digit(s[end])
}

proof fn lemma_runs_agree(s: Seq<char>, start: int, end: int, other: int)
    requires
        0 <= start,
        digit_run(s, start, end),
        digit_run(s, start, other),
    ensures
        end == other,
{
    if end < other {
        assert(s.subrange(start, other)[end - start] == s[end]);
    } else if other < end {
        assert(s.subrange(start, end)[other - start] == s[other]);
    }
}

proof fn lemma_octet_is_run(s: Seq<char>, start: int, v: u8)
    requires
        0 <= start,
        octet_at(s, start, v),
    ensures
        digit_run(s, start, start + decimal(v as nat).len()),
        1 <= decimal(v as nat).len() <= 3,
{
    lemma_decimal_reads_back(v as nat);
    lemma_decimal_short(v as nat);
}

/// At one place of a text at most one octet can be read.
proof fn lemma_octet_unique(s: Seq<char>, start: int, v: u8, w: u8)
    requires
        0 <= start,
        octet_at(s, start, v),
        octet_at(s, start, w),
    ensures
        v == w,
{
    lemma_octet_is_run(s, start, v);
    lemma_octet_is_run(s, start, w);
    lemma_runs_agree(
        s,
        start,
        start + decimal(v as nat).len(),
        start + decimal(w as nat).len(),
    );
    lemma_decimal_reads_back(v as nat);
    lemma_decimal_reads_back(w as nat);
}

/// `s` is `a` in dotted decimal, told octet by octet.
spec fn spells(s: Seq<char>, a: Seq<u8>) -> bool {
    let e0 = decimal(a[0] as nat).len() as int;
    let e1 = e0 + 1 + decimal(a[1] as nat).len();
    let e2 = e1 + 1 + decimal(a[2] as nat).len();
    let e3 = e2 + 1 + decimal(a[3] as nat).len();
    &&& octet_dot_at(s, 0, a[0])
    &&& octet_dot_at(s, e0 + 1, a[1])
    &&& octet_dot_at(s, e1 + 1, a[2])
    &&& octet_at(s, e2 + 1, a[3])
    &&& e3 == s.len()
}

proof fn lemma_spells_is_dotted(s: Seq<char>, a: Seq<u8>)
    ensures
        spells(s, a) <==> s == dotted(a),
{
    let d0 = decimal(a[0] as nat);
    let d1 = decimal(a[1] as nat);
    let d2 = decimal(a[2] as nat);
    let d3 = decimal(a[3] as nat);
    let e0 = d0.len() as int;
    let e1 = e0 + 1 + d1.len();
    let e2 = e1 + 1 + d2.len();
    let e3 = e2 + 1 + d3.len();
    let t = dotted(a);
    assert(t.len() == e3);
    assert(t.subrange(0, e0) =~= d0);
    assert(t[e0] == '.');
    assert(t.subrange(e0 + 1, e1) =~= d1);
    assert(t[e1] == '.');
    assert(t.subrange(e1 + 1, e2) =~= d2);
    assert(t[e2] == '.');
    assert(t.subrange(e2 + 1, e3) =~= d3);
    assert(!is_digit('.'));
    if spells(s, a) {
        assert(s =~= s.subrange(0, e0) + seq!['.'] + s.subrange(e0 + 1, e1) + seq!['.']
            + s.subrange(e1 + 1, e2) + seq!['.'] + s.subrange(e2 + 1, e3));
    }
}

/// Different addresses are written differently.
pub proof fn dotted_injective(a: [u8; 4], b: [u8; 4])
    requires
        dotted(a@) == dotted(b@),
    ensures
        a@ == b@,
{
    let s = dotted(a@);
    lemma_spells_is_dotted(s, a@);
    lemma_spells_is_dotted(s, b@);
    lemma_octet_unique(s, 0, a@[0], b@[0]);
    let e0 = decimal(a@[0] as nat).len() as int;
    lemma_octet_unique(s, e0 + 1, a@[1], b@[1]);
    let e1 = e0 + 1 + decimal(a@[1] as nat).len();
    lemma_octet_unique(s, e1 + 1, a@[2], b@[2]);
    let e2 = e1 + 1 + decimal(a@[2] as nat).len();
    lemma_octet_unique(s, e2 + 1, a@[3], b@[3]);
    assert(a@ =~= b@);
}

/// Reads the octet that starts at `start`, with the place behind it.
fn read_octet(s: &str, len: usize, start: usize) -> (found: Option<(u8, usize)>)
    requires
        len == s@.len(),
        start <= len,
    ensures
        match found {
            Some((v, end)) => octet_at(s@, start as int, v) && end == start + decimal(
                v as nat,
            ).len(),
            None => forall|v: u8| !octet_at(s@, start as int, v),
        },
{
    let mut end: usize = start;
    let mut value: u32 = 0;
    while end < len && end - start < 3
        invariant_except_break
            end - start <= 3,
        invariant
            len == s@.len(),
            start <= end <= len,
            all_digits(s@.subrange(start as int, end as int)),
            value == digits_value(s@.subrange(start as int, end as int)),
            end - start == 0 ==> value == 0,
            end - start == 1 ==> value < 10,
            end - start == 2 ==> value < 100,
            end - start == 3 ==> value < 1000,
        ensures
            end - start <= 3,
            end < len && end - start < 3 ==> !is_digit(s@[end as int]),
        decreases len - end,
    {
        let c = s.get_char(end);
        if !('0' <= c && c <= '9') {
            break;
        }
        let ghost before = s@.subrange(start as int, end as int);
        let ghost after = s@.subrange(start as int, end + 1);
        proof {
            assert(after.drop_last() =~= before);
            assert(after.last() == c);
            assert forall|i: int| 0 <= i < after.len() implies is_digit(#[trigger] after[i]) by {
                if i < before.len() {
                    assert(after[i] == before[i]);
                }
            }
        }
        value = value * 10 + (c as u32 - 48);
        end = end + 1;
    }
    let ghost run = s@.subrange(start as int, end as int);
    if end == start || (end < len && is_digit_char(s.get_char(end))) || (end - start > 1
        && s.get_char(start) == '0') || value > 255 {
        proof {
            assert forall|v: u8| !octet_at(s@, start as int, v) by {
                if octet_at(s@, start as int, v) {
                    let stop = start + decimal(v as nat).len();
                    lemma_octet_is_run(s@, start as int, v);
                    lemma_decimal_reads_back(v as nat);
                    if end < len && is_digit(s@[end as int]) {
                        assert(end - start == 3);
                        assert(stop <= end);
                        if stop < end {
                            assert(run[stop - start] == s@[stop]);
                        }
                    } else {
                        lemma_runs_agree(s@, start as int, end as int, stop);
                        assert(run == decimal(v as nat));
                    }
                }
            }
        }
        return None;
    }
    proof {
        assert(run[0] == s@[start as int]);
        lemma_canonical_is_decimal(run);
    }
    Some((value as u8, end))
}

fn is_digit_char(c: char) -> (digit: bool)
    ensures
        digit == is_digit(c),
{
    '0' <= c && c <= '9'
}

/// Reads the octet that starts at `start` and the dot behind it, with the place behind both.
fn read_octet_dot(s: &str, len: usize, start: usize) -> (found: Option<(u8, usize)>)
    requires
        len == s@.len(),
        start <= len,
    ensures
        match found {
            Some((v, next)) => octet_dot_at(s@, start as int, v) && next == start + decimal(
                v as nat,
            ).len() + 1,
            None => forall|v: u8| !octet_dot_at(s@, start as int, v),
        },
{
    match read_octet(s, len, start) {
        None => None,
        Some((v, end)) => if end < len && s.get_char(end) == '.' {
            Some((v, end + 1))
        } else {
            proof {
                assert forall|w: u8| !octet_dot_at(s@, start as int, w) by {
                    if octet_at(s@, start as int, w) {
                        lemma_octet_unique(s@, start as int, v, w);
                    }
                }
            }
            None
        },
    }
}

/// Reads four octets from the start of `s`, which must end behind them.
fn read_octets(s: &str) -> (found: Option<[u8; 4]>)
    ensures
        match found {
            Some(a) => spells(s@, a@),
            None => forall|a: [u8; 4]| !spells(s@, #[trigger] a@),
        },
{
    let len: usize = s.unicode_len();
    let (a0, n0) = match read_octet_dot(s, len, 0) {
        Some(found) => found,
        None => return None,
    };
    proof {
        assert forall|a: [u8; 4]| spells(s@, #[trigger] a@) implies a@[0] == a0 by {
            lemma_octet_unique(s@, 0, a@[0], a0);
        }
    }
    let (a1, n1) = match read_octet_dot(s, len, n0) {
        Some(found) => found,
        None => return None,
    };
    proof {
        assert forall|a: [u8; 4]| spells(s@, #[trigger] a@) implies a@[1] == a1 by {
            lemma_octet_unique(s@, n0 as int, a@[1], a1);
        }
    }
    let (a2, n2) = match read_octet_dot(s, len, n1) {
        Some(found) => found,
        None => return None,
    };
    proof {
        assert forall|a: [u8; 4]| spells(s@, #[trigger] a@) implies a@[2] == a2 by {
            lemma_octet_unique(s@, n1 as int, a@[2], a2);
        }
    }
    let (a3, n3) = match read_octet(s, len, n2) {
        Some(found) => found,
        None => return None,
    };
    proof {
        assert forall|a: [u8; 4]| spells(s@, #[trigger] a@) implies a@[3] == a3 by {
            lemma_octet_unique(s@, n2 as int, a@[3], a3);
        }
    }
    if n3 == len {
        Some([a0, a1, a2, a3])
    } else {
        None
    }
}

/// Reads an address in dotted decimal: four octets of 0 to 255 without leading zeros, a dot
/// between each two, and nothing else.
pub fn parse_ip(ip_str: String) -> (parsed: Result<[u8; 4], AddrParseError>)
    ensures
        match parsed {
            Ok(addr) => ip_str@ == dotted(addr@),
            Err(_) => forall|addr: [u8; 4]| ip_str@ != #[trigger] dotted(addr@),
        },
{
    match read_octets(ip_str.as_str()) {
        Some(addr) => {
            proof {
                lemma_spells_is_dotted(ip_str@, addr@);
            }
            Ok(addr)
        },
        None => {
            proof {
                assert forall|addr: [u8; 4]| ip_str@ != #[trigger] dotted(addr@) by {
                    lemma_spells_is_dotted(ip_str@, addr@);
                }
            }
            Err(AddrParseError)
        },
    }
}

/// An address in dotted decimal has four parts, with a dot between each two, that spell its
/// octets in their order, without superfluous zeros; none of them holds a dot.
pub proof fn dotted_has_four_parts(addr: [u8; 4]) -> (dots: (int, int, int))
    ensures
        ({
            let text = dotted(addr@);
            let (a, b, c) = dots;
            let first = text.subrange(0, a);
            let second = text.subrange(a + 1, b);
            let third = text.subrange(b + 1, c);
            let fourth = text.subrange(c + 1, text.len() as int);
            &&& 0 < a < b - 1 && b < c - 1 && c < text.len() - 1
            &&& text[a] == '.' && text[b] == '.' && text[c] == '.'
            &&& is_canonical(first) && digits_value(first) == addr[0]
            &&& is_canonical(second) && digits_value(second) == addr[1]
            &&& is_canonical(third) && digits_value(third) == addr[2]
            &&& is_canonical(fourth) && digits_value(fourth) == addr[3]
        }),
{
    let text = dotted(addr@);
    let a = decimal(addr@[0] as nat).len() as int;
    let b = a + 1 + decimal(addr@[1] as nat).len();
    let c = b + 1 + decimal(addr@[2] as nat).len();
    lemma_decimal_reads_back(addr@[0] as nat);
    lemma_decimal_reads_back(addr@[1] as nat);
    lemma_decimal_reads_back(addr@[2] as nat);
    lemma_decimal_reads_back(addr@[3] as nat);
    assert(text.subrange(0, a) =~= decimal(addr@[0] as nat));
    assert(text.subrange(a + 1, b) =~= decimal(addr@[1] as nat));
    assert(text.subrange(b + 1, c) =~= decimal(addr@[2] as nat));
    assert(text.subrange(c + 1, text.len() as int) =~= decimal(addr@[3] as nat));
    (a, b, c)
}

/// Whatever reads as four octets is read: a text of four numbers up to 255, without superfluous
/// zeros and with a dot between each two, is the address with those octets.
pub proof fn four_parts_are_dotted(
    first: Seq<char>,
    second: Seq<char>,
    third: Seq<char>,
    fourth: Seq<char>,
    addr: [u8; 4],
)
    requires
        is_canonical(first) && digits_value(first) == addr[0],
        is_canonical(second) && digits_value(second) == addr[1],
        is_canonical(third) && digits_value(third) == addr[2],
        is_canonical(fourth) && digits_value(fourth) == addr[3],
    ensures
        dotted(addr@) == first + seq!['.'] + second + seq!['.'] + third + seq!['.'] + fourth,
{
    lemma_canonical_is_decimal(first);
    lemma_canonical_is_decimal(second);
    lemma_canonical_is_decimal(third);
    lemma_canonical_is_decimal(fourth);
}

} // verus!
