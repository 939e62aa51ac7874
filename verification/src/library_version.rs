//! Numeric library version directory names (`1.3.9`, `1.10.0`) and their
//! ordering.
use vstd::prelude::*;
use vstd::string::*;

use crate::text::{find_char, first_index_of, lemma_first_index_of_bounds};

verus! {

/// The value of an ASCII decimal digit.
pub open spec fn digit_value(c: char) -> nat {
    (c as nat - '0' as nat) as nat
}

pub open spec fn is_digit(c: char) -> bool {
    '0' <= c && c <= '9'
}

/// The value of a string of decimal digits.
pub open spec fn decimal_value(digits: Seq<char>) -> nat
    decreases digits.len(),
{
    if digits.len() == 0 {
        0
    } else {
        decimal_value(digits.drop_last()) * 10 + digit_value(digits.last())
    }
}

/// Version parts widened to natural numbers.
pub open spec fn to_nats(parts: Seq<u64>) -> Seq<nat> {
    parts.map_values(|p: u64| p as nat)
}

/// The digits of a version part: the part without one leading `+`.
pub open spec fn digits_of(part: Seq<char>) -> Seq<char> {
    if part.len() > 0 && part[0] == '+' {
        part.drop_first()
    } else {
        part
    }
}

/// `true` when every character of `s` is a decimal digit.
pub open spec fn all_digits(s: Seq<char>) -> bool {
    forall|i: int| 0 <= i < s.len() ==> is_digit(#[trigger] s[i])
}

/// The unsigned integer a version part denotes, as `u64::from_str` reads it:
/// an optional `+` followed by one or more decimal digits whose value fits a
/// `u64`.
pub open spec fn parse_part(part: Seq<char>) -> Option<nat> {
    let digits = digits_of(part);
    if digits.len() == 0 || !all_digits(digits) {
        None
    } else if decimal_value(digits) > u64::MAX {
        None
    } else {
        Some(decimal_value(digits))
    }
}

/// The numbers of the `.`-separated parts of `name`, if every part parses.
pub open spec fn parse_parts(name: Seq<char>) -> Option<Seq<nat>>
    decreases name.len(),
{
    let k = first_index_of(name, '.');
    match parse_part(name.take(k)) {
        None => None,
        Some(value) => if 0 <= k < name.len() {
            proof {
                lemma_first_index_of_bounds(name, '.');
            }
            match parse_parts(name.skip(k + 1)) {
                Some(rest) => Some(seq![value] + rest),
                None => None,
            }
        } else {
            Some(seq![value])
        },
    }
}

/// `true` when every number of `parts` is zero.
pub open spec fn all_zero(parts: Seq<nat>) -> bool {
    forall|i: int| 0 <= i < parts.len() ==> parts[i] == 0
}

/// The version a directory name denotes: its parts must all parse and must
/// not all be zero.
pub open spec fn parse_version(name: Seq<char>) -> Option<Seq<nat>> {
    match parse_parts(name) {
        Some(parts) => if all_zero(parts) {
            None
        } else {
            Some(parts)
        },
        None => None,
    }
}

/// Lexicographic order on version numbers; a proper prefix is smaller.
pub open spec fn version_lt(a: Seq<nat>, b: Seq<nat>) -> bool
    decreases a.len(),
{
    if a.len() == 0 {
        b.len() > 0
    } else if b.len() == 0 {
        false
    } else if a[0] < b[0] {
        true
    } else if a[0] > b[0] {
        false
    } else {
        version_lt(a.drop_first(), b.drop_first())
    }
}

pub proof fn lemma_version_lt_irreflexive(a: Seq<nat>)
    ensures
        !version_lt(a, a),
    decreases a.len(),
{
    if a.len() > 0 {
        lemma_version_lt_irreflexive(a.drop_first());
    }
}

pub proof fn lemma_version_lt_transitive(a: Seq<nat>, b: Seq<nat>, c: Seq<nat>)
    requires
        version_lt(a, b),
        version_lt(b, c),
    ensures
        version_lt(a, c),
    decreases a.len(),
{
    if a.len() > 0 && b.len() > 0 && c.len() > 0 && a[0] == b[0] && b[0] == c[0] {
        lemma_version_lt_transitive(a.drop_first(), b.drop_first(), c.drop_first());
    }
}

pub proof fn lemma_version_lt_total(a: Seq<nat>, b: Seq<nat>)
    requires
        a != b,
    ensures
        version_lt(a, b) || version_lt(b, a),
    decreases a.len(),
{
    if a.len() > 0 && b.len() > 0 && a[0] == b[0] {
        if a.drop_first() == b.drop_first() {
            assert(a =~= seq![a[0]] + a.drop_first());
            assert(b =~= seq![b[0]] + b.drop_first());
        }
        lemma_version_lt_total(a.drop_first(), b.drop_first());
    } else if a.len() == 0 && b.len() == 0 {
        assert(a =~= b);
    }
}

/// A parsed library version directory name.
#[derive(Debug, PartialEq, Eq)]
pub struct LibraryVersion {
    parts: Vec<u64>,
}

impl View for LibraryVersion {
    type V = Seq<nat>;

    closed spec fn view(&self) -> Seq<nat> {
        to_nats(self.parts@)
    }
}

proof fn lemma_decimal_prefix_monotone(digits: Seq<char>, i: int)
    requires
        0 <= i <= digits.len(),
    ensures
        decimal_value(digits.take(i)) <= decimal_value(digits),
    decreases digits.len() - i,
{
    if i < digits.len() {
        lemma_decimal_prefix_monotone(digits, i + 1);
        assert(digits.take(i + 1).drop_last() =~= digits.take(i));
    } else {
        assert(digits.take(i) =~= digits);
    }
}

/// Parses one version part.
fn parse_number(part: &str) -> (value: Option<u64>)
    ensures
        match parse_part(part@) {
            Some(v) => value == Some(v as u64),
            None => value is None,
        },
{
    let len = part.unicode_len();
    let mut start: usize = 0;
    if len > 0 && part.get_char(0) == '+' {
        start = 1;
    }
    let ghost digits = digits_of(part@);
    assert(digits =~= part@.skip(start as int));
    if start == len {
        return None;
    }
    let mut value: u64 = 0;
    let mut i: usize = start;
    while i < len
        invariant
            len == part@.len(),
            start <= i <= len,
            digits == part@.skip(start as int),
            digits == digits_of(part@),
            digits.len() > 0,
            forall|j: int| 0 <= j < i - start ==> is_digit(digits[j]),
            value == decimal_value(digits.take(i - start)),
        decreases len - i,
    {
        let c = part.get_char(i);
        assert(digits[i - start] == c);
        if c < '0' || c > '9' {
            assert(!is_digit(digits[i - start]));
            assert(parse_part(part@) is None);
            return None;
        }
        let d = (c as u32 - '0' as u32) as u64;
        assert(digits.take(i - start + 1).drop_last() =~= digits.take(i - start));
        proof {
            lemma_decimal_prefix_monotone(digits, i - start + 1);
        }
        assert(digits.take(i - start + 1).last() == c);
        assert(decimal_value(digits.take(i - start + 1)) == value * 10 + d);
        let scaled = value.checked_mul(10);
        if scaled.is_none() {
            assert(decimal_value(digits) > u64::MAX);
            return None;
        }
        let next = scaled.unwrap().checked_add(d);
        if next.is_none() {
            assert(decimal_value(digits) > u64::MAX);
            return None;
        }
        value = next.unwrap();
        i = i + 1;
    }
    assert(digits.take(i - start) =~= digits);
    Some(value)
}

fn parse_all_parts(name: &str) -> (parts: Option<Vec<u64>>)
    ensures
        match parse_parts(name@) {
            Some(ps) => parts is Some && to_nats(parts.unwrap()@) == ps,
            None => parts is None,
        },
    decreases name@.len(),
{
    let len = name.unicode_len();
    let k = find_char(name, '.');
    proof {
        lemma_first_index_of_bounds(name@, '.');
    }
    let head = name.substring_char(0, k);
    assert(head@ =~= name@.take(k as int));
    let value = parse_number(head);
    if value.is_none() {
        return None;
    }
    let value = value.unwrap();
    if k < len {
        let tail = name.substring_char(k + 1, len);
        assert(tail@ =~= name@.skip(k + 1));
        let rest = parse_all_parts(tail);
        match rest {
            None => None,
            Some(rest) => {
                let mut parts: Vec<u64> = Vec::new();
                parts.push(value);
                let mut rest = rest;
                let ghost rest_view = rest@;
                parts.append(&mut rest);
                assert(to_nats(parts@) =~= seq![value as nat] + to_nats(rest_view));
                Some(parts)
            },
        }
    } else {
        let mut parts: Vec<u64> = Vec::new();
        parts.push(value);
        assert(to_nats(parts@) =~= seq![value as nat]);
        Some(parts)
    }
}

impl LibraryVersion {
    /// Parses a version directory name such as `1.10.0`.
    pub fn parse(name: &str) -> (version: Option<LibraryVersion>)
        ensures
            match parse_version(name@) {
                Some(v) => version is Some && version.unwrap()@ == v,
                None => version is None,
            },
    {
        let parts = parse_all_parts(name);
        match parts {
            None => None,
            Some(parts) => {
                let mut i: usize = 0;
                let ghost view = to_nats(parts@);
                while i < parts.len()
                    invariant
                        i <= parts@.len(),
                        view == to_nats(parts@),
                        parse_parts(name@) == Some(view),
                        forall|j: int| 0 <= j < i ==> view[j] == 0,
                    decreases parts@.len() - i,
                {
                    if parts[i] != 0 {
                        assert(view[i as int] != 0);
                        assert(!all_zero(view));
                        assert(parse_version(name@) == Some(view));
                        let result = LibraryVersion { parts };
                        assert(result@ == view);
                        return Some(result);
                    }
                    i = i + 1;
                }
                assert(all_zero(view));
                None
            },
        }
    }

    /// `true` when `self` orders strictly before `other`.
    pub fn is_older_than(&self, other: &LibraryVersion) -> (older: bool)
        ensures
            older == version_lt(self@, other@),
    {
        let mut i: usize = 0;
        let ghost a = self@;
        let ghost b = other@;
        assert(a.skip(0) =~= a);
        assert(b.skip(0) =~= b);
        while i < self.parts.len() && i < other.parts.len()
            invariant
                i <= self.parts@.len(),
                i <= other.parts@.len(),
                a == to_nats(self.parts@),
                b == to_nats(other.parts@),
                version_lt(a, b) == version_lt(a.skip(i as int), b.skip(i as int)),
            decreases self.parts@.len() - i,
        {
            let x = self.parts[i];
            let y = other.parts[i];
            assert(a.skip(i as int)[0] == x as nat);
            assert(b.skip(i as int)[0] == y as nat);
            if x < y {
                return true;
            }
            if x > y {
                return false;
            }
            assert(a.skip(i as int).drop_first() =~= a.skip(i as int + 1));
            assert(b.skip(i as int).drop_first() =~= b.skip(i as int + 1));
            i = i + 1;
        }
        i < other.parts.len()
    }
}

} // verus!
