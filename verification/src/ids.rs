//! Identifiers: numbers of 128 bits and their text of 26 Crockford base32 digits.
use crate::errors::{invalid_argument, ErrorView, SubstrateError};
use crate::text;
use vstd::prelude::*;

verus! {

/// How many base32 digits an identifier has.
pub const CROCKFORD_LEN: usize = 26;

/// The character code of a base32 digit. The letters I, L, O and U are left out.
pub open spec fn crockford_code(d: int) -> int {
    if d < 10 {
        48 + d
    } else if d < 18 {
        55 + d
    } else if d < 20 {
        56 + d
    } else if d < 22 {
        57 + d
    } else if d < 27 {
        58 + d
    } else {
        59 + d
    }
}

/// The character of a base32 digit.
pub open spec fn crockford_char(d: int) -> char {
    crockford_code(d) as char
}

/// The digit that a character stands for.
pub open spec fn crockford_digit(c: char) -> Option<int> {
    let n = c as int;
    if 48 <= n <= 57 {
        Some(n - 48)
    } else if 65 <= n <= 72 {
        Some(n - 55)
    } else if 74 <= n <= 75 {
        Some(n - 56)
    } else if 77 <= n <= 78 {
        Some(n - 57)
    } else if 80 <= n <= 84 {
        Some(n - 58)
    } else if 86 <= n <= 90 {
        Some(n - 59)
    } else {
        None
    }
}

/// The last `count` base32 digits of a number, most significant first.
pub open spec fn base32_digits(n: nat, count: nat) -> Seq<char>
    decreases count,
{
    if count == 0 {
        Seq::empty()
    } else {
        base32_digits(n / 32, (count - 1) as nat).push(crockford_char((n % 32) as int))
    }
}

/// The number that base32 digits stand for; none where a character is no digit.
pub open spec fn base32_value(s: Seq<char>) -> Option<nat>
    decreases s.len(),
{
    if s.len() == 0 {
        Some(0)
    } else {
        match (base32_value(s.drop_last()), crockford_digit(s.last())) {
            (Some(n), Some(d)) => Some((n * 32 + d) as nat),
            _ => None,
        }
    }
}

/// 32 to the power of `count`.
pub open spec fn pow32(count: nat) -> nat
    decreases count,
{
    if count == 0 {
        1
    } else {
        32 * pow32((count - 1) as nat)
    }
}

proof fn lemma_digits_value(n: nat, count: nat)
    requires
        n < pow32(count),
    ensures
        base32_digits(n, count).len() == count,
        base32_value(base32_digits(n, count)) == Some(n),
    decreases count,
{
    if count > 0 {
        lemma_digits_value(n / 32, (count - 1) as nat);
        let s = base32_digits(n, count);
        assert(s.drop_last() =~= base32_digits(n / 32, (count - 1) as nat));
    }
}

proof fn lemma_value_digits(s: Seq<char>)
    requires
        base32_value(s) is Some,
    ensures
        base32_digits(base32_value(s)->0, s.len()) == s,
        base32_value(s)->0 < pow32(s.len()),
    decreases s.len(),
{
    if s.len() > 0 {
        lemma_value_digits(s.drop_last());
        let n = base32_value(s.drop_last())->0;
        let d = crockford_digit(s.last())->0;
        let v = base32_value(s)->0;
        assert(v / 32 == n && v % 32 == d);
        assert(base32_digits(v, s.len()) =~= s);
    } else {
        assert(base32_digits(0, 0) =~= s);
    }
}

proof fn lemma_pow32_26()
    ensures
        pow32(26) == 0x4_0000_0000_0000_0000_0000_0000_0000_0000,
{
    reveal_with_fuel(pow32, 27);
}

proof fn lemma_prefix_value(s: Seq<char>, i: int)
    requires
        0 <= i <= s.len(),
        base32_value(s) is Some,
    ensures
        base32_value(s.take(i)) is Some,
        base32_value(s.take(i))->0 <= base32_value(s)->0,
    decreases s.len() - i,
{
    if i < s.len() {
        lemma_prefix_value(s, i + 1);
        assert(s.take(i + 1).drop_last() =~= s.take(i));
    } else {
        assert(s.take(i) =~= s);
    }
}

/// The text of an identifier.
pub open spec fn crockford_text(n: u128) -> Seq<char> {
    base32_digits(n as nat, 26)
}

/// The identifier that a text stands for: 26 base32 digits whose value has at most
/// 128 bits.
pub open spec fn crockford_id(s: Seq<char>) -> Option<u128> {
    match base32_value(s) {
        Some(n) => if s.len() == 26 && n <= u128::MAX {
            Some(n as u128)
        } else {
            None
        },
        None => None,
    }
}

/// Every identifier is read back from its text, and a text that stands for an
/// identifier is that identifier's text: identifiers and their texts determine each
/// other.
pub proof fn crockford_round_trip(n: u128, s: Seq<char>)
    ensures
        crockford_id(crockford_text(n)) == Some(n),
        crockford_text(n).len() == 26,
        crockford_id(s) == Some(n) <==> s == crockford_text(n),
{
    lemma_pow32_26();
    lemma_digits_value(n as nat, 26);
    if crockford_id(s) == Some(n) {
        lemma_value_digits(s);
    }
}

/// Digits are written with the ten numerals and the capital letters but I, L, O and U.
pub proof fn base32_alphabet(d: int)
    requires
        0 <= d < 32,
    ensures
        crockford_char(d) == "0123456789ABCDEFGHJKMNPQRSTVWXYZ"@[d],
        crockford_digit("0123456789ABCDEFGHJKMNPQRSTVWXYZ"@[d]) == Some(d),
{
    reveal_strlit("0123456789ABCDEFGHJKMNPQRSTVWXYZ");
    assert(d == 0 || d == 1 || d == 2 || d == 3 || d == 4 || d == 5 || d == 6 || d == 7 || d == 8
        || d == 9 || d == 10 || d == 11 || d == 12 || d == 13 || d == 14 || d == 15 || d == 16 || d
        == 17 || d == 18 || d == 19 || d == 20 || d == 21 || d == 22 || d == 23 || d == 24 || d == 25
        || d == 26 || d == 27 || d == 28 || d == 29 || d == 30 || d == 31);
}

/// The highest digit comes first: 32 times an identifier, and a digit, is written by leaving out
/// the leading zero and adding the digit at the end.
pub proof fn identifiers_are_written_from_the_top(n: u128, d: u128)
    requires
        d < 32,
        32 * n + d <= 0xffff_ffff_ffff_ffff_ffff_ffff_ffff_ffff,
    ensures
        crockford_text(n)[0] == '0',
        crockford_text((32 * n + d) as u128) == crockford_text(n).drop_first().push(
            "0123456789ABCDEFGHJKMNPQRSTVWXYZ"@[d as int],
        ),
{
    let m = (32 * n + d) as nat;
    assert(m / 32 == n && m % 32 == d);
    base32_alphabet(d as int);
    assert(n < pow32(25)) by {
        reveal_with_fuel(pow32, 27);
        assert(n < 0x0800_0000_0000_0000_0000_0000_0000_0001);
    }
    lemma_leading_zero(n as nat, 25);
    assert(crockford_text((32 * n + d) as u128) =~= base32_digits(n as nat, 25).push(
        crockford_char(d as int),
    ));
    assert(crockford_text(n).drop_first() =~= base32_digits(n as nat, 25));
}

proof fn lemma_leading_zero(n: nat, count: nat)
    requires
        n < pow32(count),
    ensures
        base32_digits(n, count + 1) == seq!['0'] + base32_digits(n, count),
    decreases count,
{
    if count == 0 {
        assert(n == 0);
        assert(base32_digits(0, 0) =~= Seq::<char>::empty());
        assert(crockford_char(0) == '0');
        assert(base32_digits(n, 1) =~= seq!['0'] + base32_digits(n, 0));
    } else {
        lemma_leading_zero(n / 32, (count - 1) as nat);
        assert(base32_digits(n, count + 1) =~= seq!['0'] + base32_digits(n, count));
    }
}

/// The character of a base32 digit.
fn digit_char(d: u8) -> (c: char)
    requires
        d < 32,
    ensures
        c == crockford_char(d as int),
{
    let code: u8 = if d < 10 {
        48 + d
    } else if d < 18 {
        55 + d
    } else if d < 20 {
        56 + d
    } else if d < 22 {
        57 + d
    } else if d < 27 {
        58 + d
    } else {
        59 + d
    };
    code as char
}

/// The digit that a character stands for.
fn char_digit(c: char) -> (r: Option<u8>)
    ensures
        match r {
            Some(d) => crockford_digit(c) == Some(d as int) && d < 32,
            None => crockford_digit(c) is None,
        },
{
    let n: u32 = c as u32;
    if 48 <= n && n <= 57 {
        Some((n - 48) as u8)
    } else if 65 <= n && n <= 72 {
        Some((n - 55) as u8)
    } else if 74 <= n && n <= 75 {
        Some((n - 56) as u8)
    } else if 77 <= n && n <= 78 {
        Some((n - 57) as u8)
    } else if 80 <= n && n <= 84 {
        Some((n - 58) as u8)
    } else if 86 <= n && n <= 90 {
        Some((n - 59) as u8)
    } else {
        None
    }
}

/// The last `count` base32 digits of a number.
fn digits_text(n: u128, count: usize) -> (s: String)
    ensures
        s@ == base32_digits(n as nat, count as nat),
    decreases count,
{
    if count == 0 {
        return String::new();
    }
    let mut s = digits_text(n / 32, count - 1);
    s.push(digit_char((n % 32) as u8));
    assert(s@ =~= base32_digits(n as nat, count as nat));
    s
}

/// Writes an identifier in Crockford base32.
pub fn to_crockford(n: u128) -> (s: String)
    ensures
        s@ == crockford_text(n),
        crockford_id(s@) == Some(n),
        s@.len() == 26,
{
    proof {
        crockford_round_trip(n, Seq::empty());
    }
    digits_text(n, CROCKFORD_LEN)
}

/// Reads an identifier in Crockford base32.
pub fn parse_id(s: &str) -> (r: Option<u128>)
    ensures
        r == crockford_id(s@),
{
    let v = text::chars_of(s);
    if v.len() != CROCKFORD_LEN {
        return None;
    }
    let mut n: u128 = 0;
    let mut i: usize = 0;
    while i < v.len()
        invariant
            v@ == s@,
            v@.len() == 26,
            i <= v@.len(),
            base32_value(s@.take(i as int)) == Some(n as nat),
        decreases v@.len() - i,
    {
        proof {
            assert(s@.take(i + 1).drop_last() =~= s@.take(i as int));
            assert(s@.take(i + 1).last() == s@[i as int]);
            if base32_value(s@) is Some {
                lemma_prefix_value(s@, i + 1);
            }
        }
        let d: u8 = match char_digit(v[i]) {
            Some(d) => d,
            None => {
                return None;
            },
        };
        if n > (u128::MAX - d as u128) / 32 {
            return None;
        }
        n = n * 32 + d as u128;
        i = i + 1;
    }
    assert(s@.take(26) =~= s@);
    Some(n)
}

/// The identifier of a background job.
#[derive(Debug, Clone, Copy, PartialEq, Eq, Structural)]
pub struct JobId {
    pub raw: u128,
}

/// The identifier of a launch stack.
#[derive(Debug, Clone, Copy, PartialEq, Eq, Structural)]
pub struct StackId {
    pub raw: u128,
}

impl JobId {
    /// What a text that is no identifier is answered with.
    pub open spec fn malformed() -> ErrorView {
        ErrorView::InvalidArgument {
            offending_field: "job_id"@,
            reason: "not a valid 26-character Crockford base32 string"@,
            tagged: false,
        }
    }

    /// The text of the identifier.
    pub fn to_crockford(&self) -> (s: String)
        ensures
            s@ == crockford_text(self.raw),
    {
        to_crockford(self.raw)
    }

    /// Reads the text of an identifier.
    pub fn parse_crockford(s: &str) -> (r: Result<JobId, SubstrateError>)
        ensures
            r is Ok <==> crockford_id(s@) is Some,
            r matches Ok(id) ==> crockford_id(s@) == Some(id.raw),
            r matches Err(e) ==> e@ == JobId::malformed(),
            r matches Err(e) ==> e@ == (ErrorView::InvalidArgument {
                offending_field: "job_id"@,
                reason: "not a valid 26-character Crockford base32 string"@,
                tagged: false,
            }),
    {
        match parse_id(s) {
            Some(raw) => Ok(JobId { raw }),
            None => Err(
                invalid_argument(
                    "job_id",
                    "not a valid 26-character Crockford base32 string".to_owned(),
                    false,
                ),
            ),
        }
    }
}

impl StackId {
    /// The text of the identifier.
    pub fn to_crockford(&self) -> (s: String)
        ensures
            s@ == crockford_text(self.raw),
    {
        to_crockford(self.raw)
    }

    /// Reads the text of an identifier.
    pub fn parse(s: &str) -> (r: Option<StackId>)
        ensures
            r is Some <==> crockford_id(s@) is Some,
            r matches Some(id) ==> crockford_id(s@) == Some(id.raw),
    {
        match parse_id(s) {
            Some(raw) => Some(StackId { raw }),
            None => None,
        }
    }
}

} // verus!
