//! Byte-level scanning and number parsing, verified against
//! sequence-level specifications. All puzzle inputs are ASCII, so the
//! solvers work on the byte view of the input text.

use vstd::prelude::*;

verus! {

/// `b` is an ASCII decimal digit.
pub open spec fn is_digit(b: u8) -> bool {
    48 <= b <= 57
}

/// The numeric value of an ASCII digit.
pub open spec fn digit_val(b: u8) -> nat {
    (b - 48) as nat
}

/// Every byte of `s` is an ASCII digit.
pub open spec fn all_digits(s: Seq<u8>) -> bool {
    forall|i: int| 0 <= i < s.len() ==> is_digit(#[trigger] s[i])
}

/// The value of `s` read as an unsigned decimal numeral.
pub open spec fn dec_val(s: Seq<u8>) -> nat
    decreases s.len(),
{
    if s.len() == 0 {
        0
    } else {
        dec_val(s.drop_last()) * 10 + digit_val(s.last())
    }
}

/// The value of `s` read as a decimal numeral with an optional leading minus.
pub open spec fn int_val(s: Seq<u8>) -> int {
    if s.len() > 0 && s[0] == 45 {
        -(dec_val(s.skip(1)) as int)
    } else {
        dec_val(s) as int
    }
}

/// `s` is a well-formed unsigned numeral.
pub open spec fn is_numeral(s: Seq<u8>) -> bool {
    s.len() > 0 && all_digits(s)
}

/// `s` is a well-formed numeral with an optional leading minus.
pub open spec fn is_signed_numeral(s: Seq<u8>) -> bool {
    if s.len() > 0 && s[0] == 45 {
        is_numeral(s.skip(1))
    } else {
        is_numeral(s)
    }
}

pub open spec fn pow10(k: nat) -> nat
    decreases k,
{
    if k == 0 {
        1
    } else {
        10 * pow10((k - 1) as nat)
    }
}

/// Dropping trailing digits never increases a numeral's value.
pub proof fn lemma_dec_val_prefix(s: Seq<u8>, k: int)
    requires
        all_digits(s),
        0 <= k <= s.len(),
    ensures
        dec_val(s.take(k)) <= dec_val(s),
    decreases s.len() - k,
{
    if k < s.len() {
        lemma_dec_val_prefix(s, k + 1);
        assert(s.take(k + 1).drop_last() =~= s.take(k));
        assert(dec_val(s.take(k + 1)) == dec_val(s.take(k)) * 10 + digit_val(s[k]));
    } else {
        assert(s.take(k) =~= s);
    }
}

/// The index of the first occurrence of `sep` in `s`, or `s.len()` when absent.
pub open spec fn first_sep(s: Seq<u8>, sep: u8) -> int
    decreases s.len(),
{
    if s.len() == 0 {
        0
    } else if s[0] == sep {
        0
    } else {
        1 + first_sep(s.skip(1), sep)
    }
}

/// `first_sep` is the least index holding `sep`, or the length.
pub proof fn lemma_first_sep(s: Seq<u8>, sep: u8)
    ensures
        0 <= first_sep(s, sep) <= s.len(),
        first_sep(s, sep) < s.len() ==> s[first_sep(s, sep)] == sep,
        forall|j: int| 0 <= j < first_sep(s, sep) ==> s[j] != sep,
    decreases s.len(),
{
    if s.len() > 0 && s[0] != sep {
        lemma_first_sep(s.skip(1), sep);
        assert forall|j: int| 0 <= j < first_sep(s, sep) implies s[j] != sep by {
            if j > 0 {
                assert(s.skip(1)[j - 1] != sep);
            }
        }
    }
}

/// The pieces of `s` between occurrences of `sep`.
pub open spec fn split_spec(s: Seq<u8>, sep: u8) -> Seq<Seq<u8>>
    decreases s.len(),
{
    let i = first_sep(s, sep);
    if !(0 <= i < s.len()) {
        seq![s]
    } else {
        seq![s.take(i)] + split_spec(s.skip(i + 1), sep)
    }
}

/// Finds the first occurrence of `b` in `s` at or after `from`.
pub fn find_byte(s: &[u8], from: usize, b: u8) -> (r: Option<usize>)
    requires
        from <= s@.len(),
    ensures
        match r {
            Some(i) => from <= i < s@.len() && s@[i as int] == b && forall|j: int|
                from <= j < i ==> s@[j] != b,
            None => forall|j: int| from <= j < s@.len() ==> s@[j] != b,
        },
{
    let mut i = from;
    while i < s.len()
        invariant
            from <= i <= s@.len(),
            forall|j: int| from <= j < i ==> s@[j] != b,
        decreases s@.len() - i,
    {
        if s[i] == b {
            return Some(i);
        }
        i = i + 1;
    }
    None
}

/// Whether two byte slices hold the same bytes.
pub fn bytes_eq(a: &[u8], b: &[u8]) -> (r: bool)
    ensures
        r == (a@ =~= b@),
{
    if a.len() != b.len() {
        return false;
    }
    let mut i: usize = 0;
    while i < a.len()
        invariant
            a@.len() == b@.len(),
            i <= a@.len(),
            forall|j: int| 0 <= j < i ==> a@[j] == b@[j],
        decreases a@.len() - i,
    {
        if a[i] != b[i] {
            return false;
        }
        i = i + 1;
    }
    true
}

/// Parses `s` as an unsigned decimal numeral.
pub fn parse_u64(s: &[u8]) -> (r: Option<u64>)
    ensures
        match r {
            Some(v) => is_numeral(s@) && v == dec_val(s@),
            None => !is_numeral(s@) || dec_val(s@) > u64::MAX,
        },
{
    if s.len() == 0 {
        return None;
    }
    let mut acc: u64 = 0;
    let mut i: usize = 0;
    while i < s.len()
        invariant
            0 < s@.len(),
            i <= s@.len(),
            all_digits(s@.take(i as int)),
            acc == dec_val(s@.take(i as int)),
        decreases s@.len() - i,
    {
        let b = s[i];
        if b < 48 || b > 57 {
            return None;
        }
        let d: u64 = (b - 48) as u64;
        let limit = (u64::MAX - d) / 10;
        proof {
            assert(s@.take(i + 1).drop_last() =~= s@.take(i as int));
            assert(u64::MAX - d == 10 * limit + ((u64::MAX - d) as u64 % 10));
        }
        if acc > limit {
            proof {
                assert(dec_val(s@.take(i + 1)) == acc * 10 + d);
                if is_numeral(s@) {
                    lemma_dec_val_prefix(s@, i + 1);
                }
            }
            return None;
        }
        acc = acc * 10 + d;
        i = i + 1;
    }
    proof {
        assert(s@.take(s@.len() as int) =~= s@);
    }
    Some(acc)
}

/// Parses `s` as a decimal numeral with an optional leading minus.
pub fn parse_i64(s: &[u8]) -> (r: Option<i64>)
    ensures
        match r {
            Some(v) => is_signed_numeral(s@) && v == int_val(s@),
            None => !is_signed_numeral(s@) || int_val(s@) > i64::MAX || int_val(s@)
                < i64::MIN,
        },
{
    if s.len() > 0 && s[0] == 45 {
        let rest = vstd::slice::slice_subrange(s, 1, s.len());
        proof {
            assert(rest@ =~= s@.skip(1));
        }
        match parse_u64(rest) {
            Some(v) => {
                if v <= 9223372036854775808u64 {
                    let r: i64 = if v == 9223372036854775808u64 {
                        i64::MIN
                    } else {
                        -(v as i64)
                    };
                    Some(r)
                } else {
                    None
                }
            },
            None => None,
        }
    } else {
        match parse_u64(s) {
            Some(v) => {
                if v <= i64::MAX as u64 {
                    Some(v as i64)
                } else {
                    None
                }
            },
            None => None,
        }
    }
}

/// Splits `s` at every occurrence of `sep`.
pub fn split_bytes(s: &[u8], sep: u8) -> (r: Vec<Vec<u8>>)
    ensures
        r@.len() == split_spec(s@, sep).len(),
        forall|i: int| 0 <= i < r@.len() ==> r@[i]@ == split_spec(s@, sep)[i],
    decreases s@.len(),
{
    proof {
        lemma_first_sep(s@, sep);
    }
    let n = s.len();
    match find_byte(s, 0, sep) {
        None => {
            proof {
                assert(first_sep(s@, sep) == s@.len()) by {
                    lemma_first_sep(s@, sep);
                    if first_sep(s@, sep) < s@.len() {
                        assert(s@[first_sep(s@, sep)] == sep);
                    }
                }
            }
            let mut r: Vec<Vec<u8>> = Vec::new();
            r.push(vstd::slice::slice_to_vec(s));
            r
        },
        Some(i) => {
            proof {
                assert(first_sep(s@, sep) == i) by {
                    lemma_first_sep(s@, sep);
                    if first_sep(s@, sep) < i {
                        assert(s@[first_sep(s@, sep)] == sep);
                    }
                }
            }
            let head = vstd::slice::slice_to_vec(vstd::slice::slice_subrange(s, 0, i));
            let tail = vstd::slice::slice_subrange(s, i + 1, n);
            proof {
                assert(tail@ =~= s@.skip(i + 1));
            }
            let mut rest = split_bytes(tail, sep);
            let mut r: Vec<Vec<u8>> = Vec::new();
            r.push(head);
            r.append(&mut rest);
            proof {
                assert(head@ =~= s@.take(i as int));
                assert(forall|k: int| 0 <= k < r@.len() ==> r@[k]@ == split_spec(s@, sep)[k]);
            }
            r
        },
    }
}

/// The index of the first byte of `s` that is not a space.
pub open spec fn lead_spaces(s: Seq<u8>) -> int
    decreases s.len(),
{
    if s.len() == 0 {
        0
    } else if s[0] != 32 {
        0
    } else {
        1 + lead_spaces(s.skip(1))
    }
}

/// `s` with leading and trailing spaces removed.
pub open spec fn trim_spec(s: Seq<u8>) -> Seq<u8> {
    let t = s.skip(lead_spaces(s));
    t.take(t.len() - lead_spaces(t.reverse()))
}

/// Removes leading and trailing spaces.
pub fn trim_bytes<'a>(s: &'a [u8]) -> (r: &'a [u8])
    ensures
        r@ == trim_spec(s@),
{
    proof {
        lemma_lead_spaces_le(s@);
    }
    let mut a: usize = 0;
    while a < s.len() && s[a] == 32
        invariant
            a <= s@.len(),
            forall|j: int| 0 <= j < a ==> s@[j] == 32,
            lead_spaces(s@) >= a,
        decreases s@.len() - a,
    {
        proof {
            lemma_lead_spaces_step(s@, a as int + 1);
        }
        a = a + 1;
    }
    proof {
        lemma_lead_spaces_le(s@);
        if a < s@.len() {
            lemma_lead_spaces_stop(s@, a as int);
        }
        assert(lead_spaces(s@) == a);
    }
    let mut b: usize = s.len();
    while b > a && s[b - 1] == 32
        invariant
            a <= b <= s@.len(),
            forall|j: int| b <= j < s@.len() ==> s@[j] == 32,
        decreases b,
    {
        b = b - 1;
    }
    let r = vstd::slice::slice_subrange(s, a, b);
    proof {
        let t = s@.skip(a as int);
        lemma_lead_spaces_rev(t, (b - a) as int);
        assert(r@ =~= trim_spec(s@));
    }
    r
}

proof fn lemma_lead_spaces_le(s: Seq<u8>)
    ensures
        0 <= lead_spaces(s) <= s.len(),
    decreases s.len(),
{
    if s.len() > 0 && s[0] == 32 {
        lemma_lead_spaces_le(s.skip(1));
    }
}

/// When the first `k` bytes are spaces, at least `k` bytes are skipped.
proof fn lemma_lead_spaces_step(s: Seq<u8>, k: int)
    requires
        0 <= k <= s.len(),
        forall|j: int| 0 <= j < k ==> s[j] == 32,
    ensures
        lead_spaces(s) >= k,
    decreases k,
{
    lemma_lead_spaces_le(s);
    if k > 0 {
        assert(s[0] == 32);
        assert forall|j: int| 0 <= j < k - 1 implies s.skip(1)[j] == 32 by {
            assert(s[j + 1] == 32);
        }
        lemma_lead_spaces_step(s.skip(1), k - 1);
    }
}

/// A non-space byte at `k` bounds the skipped prefix.
proof fn lemma_lead_spaces_stop(s: Seq<u8>, k: int)
    requires
        0 <= k < s.len(),
        s[k] != 32,
    ensures
        lead_spaces(s) <= k,
    decreases k,
{
    if s.len() > 0 && s[0] == 32 && k > 0 {
        lemma_lead_spaces_stop(s.skip(1), k - 1);
    }
}

/// Characterises the reversed skip count used for trailing spaces.
proof fn lemma_lead_spaces_rev(t: Seq<u8>, b: int)
    requires
        0 <= b <= t.len(),
        forall|j: int| b <= j < t.len() ==> t[j] == 32,
        b > 0 ==> t[b - 1] != 32,
    ensures
        lead_spaces(t.reverse()) == t.len() - b,
{
    let rev = t.reverse();
    assert forall|j: int| 0 <= j < t.len() - b implies rev[j] == 32 by {
        assert(rev[j] == t[t.len() - 1 - j]);
    }
    lemma_lead_spaces_step(rev, t.len() - b);
    lemma_lead_spaces_le(rev);
    if b > 0 {
        assert(rev[t.len() - b] == t[b - 1]);
        lemma_lead_spaces_stop(rev, t.len() - b);
    }
}

} // verus!
