//! Character-level helpers over `str` and `String` shared by the path,
//! version and diagnostic code.
use vstd::prelude::*;
use vstd::string::*;

verus! {

/// Index of the first occurrence of `c` in `s`, or `s.len()` when absent.
pub open spec fn first_index_of(s: Seq<char>, c: char) -> int
    decreases s.len(),
{
    if s.len() == 0 {
        0
    } else if s[0] == c {
        0
    } else {
        1 + first_index_of(s.drop_first(), c)
    }
}

pub proof fn lemma_first_index_of_bounds(s: Seq<char>, c: char)
    ensures
        0 <= first_index_of(s, c) <= s.len(),
        first_index_of(s, c) < s.len() ==> s[first_index_of(s, c)] == c,
        forall|j: int| 0 <= j < first_index_of(s, c) ==> s[j] != c,
    decreases s.len(),
{
    if s.len() > 0 && s[0] != c {
        lemma_first_index_of_bounds(s.drop_first(), c);
        let k = first_index_of(s.drop_first(), c);
        assert forall|j: int| 0 <= j < first_index_of(s, c) implies s[j] != c by {
            if j > 0 {
                assert(s[j] == s.drop_first()[j - 1]);
            }
        }
    }
}

/// The first index is the unique position before which `c` does not occur and
/// at which `c` occurs (or the end of `s`).
pub proof fn lemma_first_index_of_unique(s: Seq<char>, c: char, i: int)
    requires
        0 <= i <= s.len(),
        forall|j: int| 0 <= j < i ==> s[j] != c,
        i == s.len() || s[i] == c,
    ensures
        first_index_of(s, c) == i,
    decreases s.len(),
{
    if s.len() > 0 && s[0] != c {
        assert(i > 0);
        let t = s.drop_first();
        assert forall|j: int| 0 <= j < i - 1 implies t[j] != c by {
            assert(t[j] == s[j + 1]);
        }
        if i < s.len() {
            assert(t[i - 1] == s[i]);
        }
        lemma_first_index_of_unique(t, c, i - 1);
    }
}

/// Compares two strings character by character.
pub fn str_eq(a: &str, b: &str) -> (equal: bool)
    ensures
        equal == (a@ == b@),
{
    let la = a.unicode_len();
    let lb = b.unicode_len();
    if la != lb {
        return false;
    }
    let mut i: usize = 0;
    while i < la
        invariant
            la == a@.len(),
            lb == b@.len(),
            la == lb,
            i <= la,
            forall|j: int| 0 <= j < i ==> a@[j] == b@[j],
        decreases la - i,
    {
        if a.get_char(i) != b.get_char(i) {
            return false;
        }
        i = i + 1;
    }
    assert(a@ =~= b@);
    true
}

/// `true` when `s` begins with `c`.
pub fn starts_with_char(s: &str, c: char) -> (starts: bool)
    ensures
        starts == (s@.len() > 0 && s@[0] == c),
{
    let len = s.unicode_len();
    len > 0 && s.get_char(0) == c
}

/// Finds the first position of `c` in `s`.
pub fn find_char(s: &str, c: char) -> (index: usize)
    ensures
        index == first_index_of(s@, c),
        index <= s@.len(),
{
    let len = s.unicode_len();
    let mut i: usize = 0;
    while i < len
        invariant
            len == s@.len(),
            i <= len,
            forall|j: int| 0 <= j < i ==> s@[j] != c,
        decreases len - i,
    {
        if s.get_char(i) == c {
            proof {
                lemma_first_index_of_unique(s@, c, i as int);
            }
            return i;
        }
        i = i + 1;
    }
    proof {
        lemma_first_index_of_unique(s@, c, i as int);
    }
    i
}

/// `s` holds `a` immediately followed by `b`.
pub open spec fn has_pair(s: Seq<char>, a: char, b: char) -> bool {
    exists|i: int| 0 <= i && i + 1 < s.len() && #[trigger] s[i] == a && s[i + 1] == b
}

/// Whether `s` holds `a` immediately followed by `b`.
pub fn contains_pair(s: &str, a: char, b: char) -> (found: bool)
    ensures
        found == has_pair(s@, a, b),
{
    let len = s.unicode_len();
    let mut i: usize = 0;
    while i < len && i + 1 < len
        invariant
            len == s@.len(),
            i <= len,
            forall|j: int| 0 <= j < i && j + 1 < len ==> !(#[trigger] s@[j] == a && s@[j + 1] == b),
        decreases len - i,
    {
        if s.get_char(i) == a && s.get_char(i + 1) == b {
            return true;
        }
        i = i + 1;
    }
    false
}

/// An owned copy of `s`.
pub fn owned(s: &str) -> (copy: String)
    ensures
        copy@ == s@,
{
    String::from_str(s)
}

/// An owned copy of the characters of `s` in `[from, to)`.
pub fn owned_range(s: &str, from: usize, to: usize) -> (copy: String)
    requires
        from <= to <= s@.len(),
    ensures
        copy@ == s@.subrange(from as int, to as int),
{
    let part = s.substring_char(from, to);
    String::from_str(part)
}

/// The concatenation of `a` and `b`.
pub fn concat2(a: &str, b: &str) -> (joined: String)
    ensures
        joined@ == a@ + b@,
{
    let mut out = String::from_str(a);
    out.append(b);
    out
}

/// The concatenation of `a`, `b` and `c`.
pub fn concat3(a: &str, b: &str, c: &str) -> (joined: String)
    ensures
        joined@ == a@ + b@ + c@,
{
    let mut out = String::from_str(a);
    out.append(b);
    out.append(c);
    out
}

/// The decimal digit character for `d < 10`.
pub open spec fn decimal_digit(d: nat) -> char {
    "0123456789"@[d as int]
}

/// The decimal notation of `n`, without leading zeros.
pub open spec fn decimal_text(n: nat) -> Seq<char>
    decreases n,
{
    if n < 10 {
        seq![decimal_digit(n)]
    } else {
        decimal_text(n / 10).push(decimal_digit(n % 10))
    }
}

/// Formats `n` in decimal.
pub fn decimal_string(n: u64) -> (text: String)
    ensures
        text@ == decimal_text(n as nat),
    decreases n,
{
    let digits: &'static str = "0123456789";
    proof {
        reveal_strlit("0123456789");
    }
    assert(digits@.len() == 10);
    if n < 10 {
        let d = n as usize;
        let s = digits.substring_char(d, d + 1);
        assert(s@ =~= seq![decimal_digit(n as nat)]);
        String::from_str(s)
    } else {
        let mut head = decimal_string(n / 10);
        let d = (n % 10) as usize;
        let s = digits.substring_char(d, d + 1);
        assert(s@ =~= seq![decimal_digit(n as nat % 10)]);
        head.append(s);
        head
    }
}

/// The decimal notation of `value`, with a leading minus sign when negative.
pub open spec fn signed_text(value: int) -> Seq<char> {
    if value >= 0 {
        decimal_text(value as nat)
    } else {
        seq!['-'] + decimal_text((-value) as nat)
    }
}

/// `value` in decimal, with a leading minus sign when negative.
pub fn signed_decimal(value: i64) -> (text: String)
    ensures
        text@ == signed_text(value as int),
{
    if value >= 0 {
        decimal_string(value as u64)
    } else {
        let magnitude: u64 = ((-(value + 1)) as u64) + 1;
        let mut text = String::from_str("-");
        proof {
            reveal_strlit("-");
        }
        text.append(decimal_string(magnitude).as_str());
        text
    }
}

} // verus!
