//! Nested packets: numbers and lists of packets, compared
//! lexicographically with a number treated as a one-element list. The
//! first puzzle sums the indices of ordered pairs; the second sorts
//! all packets together with two divider packets and multiplies the
//! dividers' positions.

use vstd::prelude::*;

use crate::numfmt::dec_digits;
use crate::numfmt::u64_string;
use crate::scan::dec_val;
use crate::scan::is_numeral;
use crate::scan::parse_u64;
use crate::scan::split_bytes;
use core::cmp::Ordering;
use vstd::string::StringSliceAdditionalSpecFns;

verus! {

/// One packet element: a number or a list of elements.
#[derive(Debug, PartialEq, Eq)]
pub enum ListElement {
    Number(u8),
    List(Vec<ListElement>),
}

impl Clone for ListElement {
    /// A deep copy representing the same packet.
    fn clone(&self) -> (res: Self)
        ensures
            res.model() == (*self).model(),
        decreases *self,
    {
        match self {
            ListElement::Number(n) => {
                let r = ListElement::Number(*n);
                proof {
                    assert(r.model() == self.model());
                }
                r
            },
            ListElement::List(v) => {
                let mut out: Vec<ListElement> = Vec::new();
                let mut i: usize = 0;
                while i < v.len()
                    invariant
                        *self matches ListElement::List(vv) && vv == v,
                        0 <= i <= v@.len(),
                        out@.len() == i,
                        forall|j: int|
                            0 <= j < i ==> (#[trigger] out@[j]).model() == v@[j].model(),
                    decreases v@.len() - i,
                {
                    let e = v[i].clone();
                    out.push(e);
                    i = i + 1;
                }
                proof {
                    assert(models(out@) =~= models(v@));
                }
                let ghost vsnap = *v;
                let res0 = ListElement::List(out);
                proof {
                    lemma_list_model(res0->List_0);
                    lemma_list_model(vsnap);
                    assert(res0.model() == (*self).model());
                }
                res0
            },
        }
    }
}

/// The mathematical shape of a packet.
#[verifier::ext_equal]
pub enum Packet {
    Num(int),
    Lst(Seq<Packet>),
}

impl ListElement {
    /// The mathematical packet this element represents.
    pub open spec fn model(self) -> Packet
        decreases self,
    {
        match self {
            ListElement::Number(n) => Packet::Num(n as int),
            ListElement::List(v) => Packet::Lst(
                Seq::new(
                    v@.len(),
                    |i: int|
                        if 0 <= i < v@.len() {
                            v@[i].model()
                        } else {
                            Packet::Num(0)
                        },
                ),
            ),
        }
    }
}

/// The models of a list of elements.
pub open spec fn models(v: Seq<ListElement>) -> Seq<Packet> {
    Seq::new(
        v.len(),
        |i: int|
            if 0 <= i < v.len() {
                v[i].model()
            } else {
                Packet::Num(0)
            },
    )
}

/// A list element's model is the list of its elements' models.
pub proof fn lemma_list_model(v: Vec<ListElement>)
    ensures
        ListElement::List(v).model() == Packet::Lst(models(v@)),
{
    let m = ListElement::List(v).model();
    assert(m matches Packet::Lst(_));
    assert(models(v@) =~= m->Lst_0);
    assert(m == Packet::Lst(m->Lst_0));
}

/// The packet ordering: numbers compare as numbers, lists compare
/// lexicographically, and a number against a list compares as the
/// one-element list holding it.
pub open spec fn pcmp(a: Packet, b: Packet) -> Ordering
    decreases a, b, 1int, 0int,
{
    match (a, b) {
        (Packet::Num(x), Packet::Num(y)) => if x < y {
            Ordering::Less
        } else if x > y {
            Ordering::Greater
        } else {
            Ordering::Equal
        },
        (Packet::Lst(_), Packet::Lst(_)) => lex(a, b, 0),
        (Packet::Num(_), Packet::Lst(ys)) => if ys.len() == 0 {
            Ordering::Greater
        } else {
            let c = pcmp(a, ys[0]);
            if c != Ordering::Equal {
                c
            } else if ys.len() == 1 {
                Ordering::Equal
            } else {
                Ordering::Less
            }
        },
        (Packet::Lst(xs), Packet::Num(_)) => if xs.len() == 0 {
            Ordering::Less
        } else {
            let c = pcmp(xs[0], b);
            if c != Ordering::Equal {
                c
            } else if xs.len() == 1 {
                Ordering::Equal
            } else {
                Ordering::Greater
            }
        },
    }
}

/// How many elements of a list packet remain from position `i`.
pub open spec fn lst_rem(a: Packet, i: int) -> int {
    match a {
        Packet::Lst(xs) => xs.len() - i,
        _ => 0,
    }
}

/// How many elements of a list element remain from position `i`.
pub open spec fn elems_rem(a: ListElement, i: int) -> int {
    match a {
        ListElement::List(v) => v@.len() - i,
        _ => 0,
    }
}

/// Lexicographic comparison of two list packets from position `i`.
pub open spec fn lex(a: Packet, b: Packet, i: int) -> Ordering
    decreases a, b, 0int, lst_rem(a, i),
{
    match (a, b) {
        (Packet::Lst(xs), Packet::Lst(ys)) => {
            if i < 0 {
                Ordering::Equal
            } else if i >= xs.len() && i >= ys.len() {
                Ordering::Equal
            } else if i >= xs.len() {
                Ordering::Less
            } else if i >= ys.len() {
                Ordering::Greater
            } else {
                let c = pcmp(xs[i], ys[i]);
                if c != Ordering::Equal {
                    c
                } else {
                    lex(a, b, i + 1)
                }
            }
        },
        _ => Ordering::Equal,
    }
}

/// Compares two packets by the packet ordering.
pub fn compare(a: &ListElement, b: &ListElement) -> (r: Ordering)
    ensures
        r == pcmp(a.model(), b.model()),
    decreases *a, *b, 1int, 0int,
{
    match (a, b) {
        (ListElement::Number(x), ListElement::Number(y)) => {
            if x < y {
                Ordering::Less
            } else if x > y {
                Ordering::Greater
            } else {
                Ordering::Equal
            }
        },
        (ListElement::List(_), ListElement::List(_)) => compare_lists(a, b, 0),
        (ListElement::Number(_), ListElement::List(ys)) => {
            if ys.len() == 0 {
                Ordering::Greater
            } else {
                proof {
                    assert(b.model() matches Packet::Lst(s) && s[0] == ys@[0].model());
                }
                let c = compare(a, &ys[0]);
                if !matches!(c, Ordering::Equal) {
                    c
                } else if ys.len() == 1 {
                    Ordering::Equal
                } else {
                    Ordering::Less
                }
            }
        },
        (ListElement::List(xs), ListElement::Number(_)) => {
            if xs.len() == 0 {
                Ordering::Less
            } else {
                proof {
                    assert(a.model() matches Packet::Lst(s) && s[0] == xs@[0].model());
                }
                let c = compare(&xs[0], b);
                if !matches!(c, Ordering::Equal) {
                    c
                } else if xs.len() == 1 {
                    Ordering::Equal
                } else {
                    Ordering::Greater
                }
            }
        },
    }
}

/// Lexicographic comparison of two list elements from position `i`.
fn compare_lists(a: &ListElement, b: &ListElement, i: usize) -> (r: Ordering)
    requires
        a matches ListElement::List(_),
        b matches ListElement::List(_),
    ensures
        r == lex(a.model(), b.model(), i as int),
    decreases *a, *b, 0int, elems_rem(*a, i as int),
{
    match (a, b) {
        (ListElement::List(xs), ListElement::List(ys)) => {
            if i >= xs.len() && i >= ys.len() {
                Ordering::Equal
            } else if i >= xs.len() {
                Ordering::Less
            } else if i >= ys.len() {
                Ordering::Greater
            } else {
                proof {
                    assert(a.model() matches Packet::Lst(s) && s[i as int] == xs@[i as int].model());
                    assert(b.model() matches Packet::Lst(s) && s[i as int] == ys@[i as int].model());
                }
                let c = compare(&xs[i], &ys[i]);
                if !matches!(c, Ordering::Equal) {
                    c
                } else {
                    compare_lists(a, b, i + 1)
                }
            }
        },
        _ => Ordering::Equal,
    }
}


impl PartialOrd for ListElement {
    /// Compares by the packet ordering.
    fn partial_cmp(&self, other: &Self) -> (r: Option<Ordering>) {
        Some(compare(self, other))
    }
}

impl vstd::std_specs::cmp::PartialOrdSpecImpl for ListElement {
    open spec fn obeys_partial_cmp_spec() -> bool {
        true
    }

    open spec fn partial_cmp_spec(&self, other: &Self) -> Option<Ordering> {
        Some(pcmp(self.model(), other.model()))
    }
}

/// Parses one packet: a number, or `[` comma-separated packets `]`.
/// Empty fragments parse to nothing, as in `[]`.
pub fn parse_input_list(input: &str) -> (r: Option<ListElement>)
    ensures
        input@.len() == 0 ==> r is None,
{
    parse_packet(input.as_bytes())
}

fn parse_packet(s: &[u8]) -> (r: Option<ListElement>)
    ensures
        s@.len() == 0 ==> r is None,
    decreases s@.len(),
{
    let n = s.len();
    if n == 0 {
        return None;
    }
    if (n as u64) > 1000000000000 {
        return None;
    }
    if !(s[0] == 91 && s[n - 1] == 93) {
        return match parse_u64(s) {
            Some(v) if v <= 255 => Some(ListElement::Number(v as u8)),
            _ => None,
        };
    }
    let mut res: Vec<ListElement> = Vec::new();
    let mut buf: Vec<u8> = Vec::new();
    let mut depth: i64 = 0;
    let mut j: usize = 1;
    while j < n - 1
        invariant
            n == s@.len(),
            2 <= n && (n as u64) <= 1000000000000,
            1 <= j <= n - 1,
            buf@.len() < j,
            -(j as int) <= depth <= j as int,
        decreases n - 1 - j,
    {
        let c = s[j];
        if c == 44 && depth == 0 {
            if buf.len() > 0 {
                let parsed = parse_packet(buf.as_slice());
                match parsed {
                    Some(e) => {
                        res.push(e);
                    },
                    None => {},
                }
            }
            buf.clear();
        } else if c == 91 {
            depth = depth + 1;
            buf.push(c);
        } else if c == 93 {
            depth = depth - 1;
            buf.push(c);
        } else {
            buf.push(c);
        }
        j = j + 1;
    }
    if buf.len() > 0 {
        let parsed = parse_packet(buf.as_slice());
        match parsed {
            Some(e) => {
                res.push(e);
            },
            None => {},
        }
    }
    Some(ListElement::List(res))
}

/// Parses the packet pairs: non-empty lines two at a time.
pub fn parse_input(input: &str) -> (r: Vec<(ListElement, ListElement)>)
    ensures
        2 * r@.len() <= crate::scan::split_spec(input.spec_bytes(), 10).len(),
{
    let lines = split_bytes(input.as_bytes(), 10);
    let mut packets: Vec<ListElement> = Vec::new();
    let mut i: usize = 0;
    while i < lines.len()
        invariant
            0 <= i <= lines@.len(),
            packets@.len() <= i,
            lines@.len() == crate::scan::split_spec(input.spec_bytes(), 10).len(),
        decreases lines@.len() - i,
    {
        let line = &lines[i];
        if line.len() > 0 {
            match parse_packet(line.as_slice()) {
                Some(e) => {
                    packets.push(e);
                },
                None => {},
            }
        }
        i = i + 1;
    }
    let mut pairs: Vec<(ListElement, ListElement)> = Vec::new();
    let mut k: usize = 0;
    while k < packets.len() && k + 1 < packets.len()
        invariant
            k <= packets@.len(),
            packets@.len() <= lines@.len(),
            lines@.len() == crate::scan::split_spec(input.spec_bytes(), 10).len(),
            2 * pairs@.len() == k,
        decreases packets@.len() - k,
    {
        let a = packets[k].clone();
        let b = packets[k + 1].clone();
        pairs.push((a, b));
        k = k + 2;
    }
    pairs
}

/// Sums the one-based indices of the pairs that are in order.
pub fn puzzle_1(input: &str) -> (r: String)
    ensures
        exists|v: nat| r@ == dec_digits(v),
{
    let pairs = parse_input(input);
    let mut sum: u64 = 0;
    let mut i: usize = 0;
    while i < pairs.len()
        invariant
            0 <= i <= pairs@.len(),
            sum <= 4000000000000000000,
        decreases pairs@.len() - i,
    {
        let pair = &pairs[i];
        let c = compare(&pair.0, &pair.1);
        if !matches!(c, Ordering::Greater) {
            if sum < 3000000000000000000 && i < 2000000000 {
                sum = sum + (i as u64) + 1;
            }
        }
        i = i + 1;
    }
    u64_string(sum)
}

/// Sorts every packet together with the dividers `[[2]]` and `[[6]]`,
/// keeping one copy of equal packets, and multiplies the dividers'
/// one-based positions.
pub fn puzzle_2(input: &str) -> (r: String)
    ensures
        exists|v: nat| r@ == dec_digits(v),
{
    let pairs = parse_input(input);
    let mut sorted: Vec<ListElement> = Vec::new();
    let mut i: usize = 0;
    while i < pairs.len()
        invariant
            0 <= i <= pairs@.len(),
        decreases pairs@.len() - i,
    {
        let pair = &pairs[i];
        insert_unique(&mut sorted, pair.0.clone());
        insert_unique(&mut sorted, pair.1.clone());
        i = i + 1;
    }
    let divider_1 = make_divider(2);
    let divider_2 = make_divider(6);
    insert_unique(&mut sorted, divider_1.clone());
    insert_unique(&mut sorted, divider_2.clone());
    let p1 = position_of(&sorted, &divider_1);
    let p2 = position_of(&sorted, &divider_2);
    if p1 >= 2000000000 || p2 >= 2000000000 {
        return u64_string(0);
    }
    let a = (p1 as u64) + 1;
    let b = (p2 as u64) + 1;
    proof {
        assert(a * b <= 2000000001 * 2000000001) by (nonlinear_arith)
            requires
                0 < a <= 2000000001,
                0 < b <= 2000000001,
        ;
    }
    u64_string(a * b)
}

/// The divider packet `[[n]]`.
fn make_divider(n: u8) -> (r: ListElement) {
    let mut inner: Vec<ListElement> = Vec::new();
    inner.push(ListElement::Number(n));
    let mut outer: Vec<ListElement> = Vec::new();
    outer.push(ListElement::List(inner));
    ListElement::List(outer)
}

/// Inserts `e` keeping the list sorted by the packet ordering, unless
/// an equal packet is already present.
fn insert_unique(sorted: &mut Vec<ListElement>, e: ListElement) {
    let mut j: usize = 0;
    while j < sorted.len()
        invariant
            0 <= j <= sorted@.len(),
        decreases sorted@.len() - j,
    {
        let c = compare(&sorted[j], &e);
        if matches!(c, Ordering::Equal) {
            return;
        }
        if matches!(c, Ordering::Greater) {
            sorted.insert(j, e);
            return;
        }
        j = j + 1;
    }
    sorted.push(e);
}

/// The index of the first packet comparing equal to `e`, or the length
/// when none does.
fn position_of(sorted: &Vec<ListElement>, e: &ListElement) -> (r: usize)
    ensures
        r <= sorted@.len(),
{
    let mut j: usize = 0;
    while j < sorted.len()
        invariant
            0 <= j <= sorted@.len(),
        decreases sorted@.len() - j,
    {
        let c = compare(&sorted[j], e);
        if matches!(c, Ordering::Equal) {
            return j;
        }
        j = j + 1;
    }
    sorted.len()
}

} // verus!
