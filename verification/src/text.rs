//! Strings as sequences of characters: building, comparing and printing them.
use vstd::prelude::*;

verus! {

/// `String::push` appends one character at the end.
pub assume_specification[ String::push ](s: &mut String, c: char)
    ensures
        final(s)@ == old(s)@.push(c),
;

/// The characters of `s`, in order.
pub fn chars_of(s: &str) -> (v: Vec<char>)
    ensures
        v@ == s@,
{
    broadcast use vstd::string::group_string_axioms;

    let mut v: Vec<char> = Vec::new();
    for c in it: s.chars()
        invariant
            it.seq() == s@,
            v@ == s@.take(it.index()),
    {
        v.push(c);
        assert(v@ =~= s@.take(it.index() + 1));
    }
    assert(v@ =~= s@);
    v
}

/// The string that holds `chars[from..to]`.
pub fn string_of(chars: &Vec<char>, from: usize, to: usize) -> (s: String)
    requires
        from <= to <= chars@.len(),
    ensures
        s@ == chars@.subrange(from as int, to as int),
{
    let mut s = String::new();
    let mut i: usize = from;
    while i < to
        invariant
            from <= i <= to <= chars@.len(),
            s@ == chars@.subrange(from as int, i as int),
        decreases to - i,
    {
        s.push(chars[i]);
        i = i + 1;
        assert(s@ =~= chars@.subrange(from as int, i as int));
    }
    s
}

/// Whether two strings hold the same characters.
pub fn same_text(a: &str, b: &str) -> (r: bool)
    ensures
        r == (a@ == b@),
{
    let x = chars_of(a);
    let y = chars_of(b);
    if x.len() != y.len() {
        return false;
    }
    let mut i: usize = 0;
    while i < x.len()
        invariant
            x@.len() == y@.len(),
            i <= x@.len(),
            forall|j: int| 0 <= j < i ==> x@[j] == y@[j],
            x@ == a@,
            y@ == b@,
        decreases x@.len() - i,
    {
        if x[i] != y[i] {
            return false;
        }
        i = i + 1;
    }
    assert(x@ =~= y@);
    true
}

/// `a` followed by `b`.
pub fn cat2(a: &str, b: &str) -> (s: String)
    ensures
        s@ == a@ + b@,
{
    let s = a.to_owned();
    s.concat(b)
}

/// `a`, `b` and `c`, one after the other.
pub fn cat3(a: &str, b: &str, c: &str) -> (s: String)
    ensures
        s@ == a@ + b@ + c@,
{
    let s = cat2(a, b);
    s.concat(c)
}

/// The decimal digit of `d`.
pub open spec fn digit(d: int) -> char
    recommends
        0 <= d < 10,
{
    (d + 48) as char
}

/// The decimal numeral of `n`, without leading zeros.
pub open spec fn decimal(n: nat) -> Seq<char>
    decreases n,
{
    if n < 10 {
        seq![digit(n as int)]
    } else {
        decimal(n / 10).push(digit((n % 10) as int))
    }
}

/// The character of the decimal digit `d`.
fn digit_char(d: u8) -> (c: char)
    requires
        d < 10,
    ensures
        c == digit(d as int),
{
    (48u8 + d) as char
}

/// Prints `n` in decimal.
pub fn decimal_text(n: u64) -> (s: String)
    ensures
        s@ == decimal(n as nat),
        u64_in(s@) == Some(n),
    decreases n,
{
    let last: u8 = (n % 10) as u8;
    let mut s = if n < 10 {
        String::new()
    } else {
        decimal_text(n / 10)
    };
    s.push(digit_char(last));
    assert(s@ =~= decimal(n as nat));
    proof {
        decimal_round_trip(n);
    }
    s
}

/// The number that a digit character stands for.
pub open spec fn digit_of(c: char) -> Option<int> {
    if '0' <= c <= '9' {
        Some(c as int - 48)
    } else {
        None
    }
}

/// The number that decimal digits stand for; none where a character is no digit.
pub open spec fn digits_value(s: Seq<char>) -> Option<nat>
    decreases s.len(),
{
    if s.len() == 0 {
        Some(0)
    } else {
        match (digits_value(s.drop_last()), digit_of(s.last())) {
            (Some(n), Some(d)) => Some((n * 10 + d) as nat),
            _ => None,
        }
    }
}

/// The number of 64 bits that a text stands for: one digit or more, with a plus sign
/// before them or not.
pub open spec fn u64_in(s: Seq<char>) -> Option<u64> {
    let digits = if s.len() > 0 && s[0] == '+' {
        s.drop_first()
    } else {
        s
    };
    match digits_value(digits) {
        Some(n) => if digits.len() > 0 && n <= u64::MAX {
            Some(n as u64)
        } else {
            None
        },
        None => None,
    }
}

proof fn lemma_decimal_digits(n: nat)
    ensures
        decimal(n).len() > 0,
        decimal(n)[0] != '+',
        digits_value(decimal(n)) == Some(n),
    decreases n,
{
    if n < 10 {
        assert(decimal(n).drop_last() =~= Seq::<char>::empty());
        assert(digits_value(Seq::<char>::empty()) == Some(0nat));
    } else {
        lemma_decimal_digits(n / 10);
        assert(decimal(n).drop_last() =~= decimal(n / 10));
        assert(decimal(n)[0] == decimal(n / 10)[0]);
    }
}

/// A number is read back from its decimal numeral.
pub proof fn decimal_round_trip(n: u64)
    ensures
        u64_in(decimal(n as nat)) == Some(n),
{
    lemma_decimal_digits(n as nat);
}

/// A numeral is written digit by digit, the highest first: what stands before the last digit is
/// the numeral of the tenth part.
pub proof fn numerals_grow_by_digits(n: nat, d: nat)
    requires
        d < 10,
    ensures
        n > 0 ==> decimal(10 * n + d) == decimal(n) + decimal(d),
        decimal(d).len() == 1,
        decimal(0) == seq!['0'] && decimal(1) == seq!['1'] && decimal(2) == seq!['2'],
        decimal(3) == seq!['3'] && decimal(4) == seq!['4'] && decimal(5) == seq!['5'],
        decimal(6) == seq!['6'] && decimal(7) == seq!['7'] && decimal(8) == seq!['8'],
        decimal(9) == seq!['9'],
{
    if n > 0 {
        assert((10 * n + d) / 10 == n);
        assert((10 * n + d) % 10 == d);
        assert(decimal(10 * n + d) =~= decimal(n) + decimal(d));
    }
}

/// Numbers are read from digits alone, after one plus sign at most: a text with any other
/// character, and one without a digit, is no number. One more digit makes ten times the number
/// and the digit, as long as that is a number of 64 bits.
pub proof fn numbers_are_read_digit_by_digit(s: Seq<char>, c: char, n: u64)
    ensures
        u64_in(Seq::empty()) is None,
        u64_in(seq!['+']) is None,
        '0' <= c <= '9' ==> u64_in(seq![c]) == Some((c as u32 - 48) as u64),
        !('0' <= c <= '9') ==> u64_in(seq![c]) is None,
        u64_in(s) == Some(n) && '0' <= c <= '9' ==> u64_in(s.push(c)) == if n * 10 + (c as u32 - 48)
            <= 0xffff_ffff_ffff_ffff {
            Some((n * 10 + (c as u32 - 48)) as u64)
        } else {
            None
        },
        s.len() > 0 && !('0' <= c <= '9') ==> u64_in(s.push(c)) is None,
        s.len() > 0 && s[0] != '+' ==> u64_in(seq!['+'] + s) == u64_in(s),
{
    let none = Seq::<char>::empty();
    assert(digits_value(none) == Some(0nat));
    assert(seq!['+'].drop_first() =~= none);
    assert(seq![c].drop_last() =~= none);
    assert(seq![c].last() == c);
    assert(digits_value(seq![c]) == match digit_of(c) {
        Some(d) => Some((0 * 10 + d) as nat),
        None => None,
    });
    if s.len() > 0 {
        let signed = s[0] == '+';
        let digits = if signed {
            s.drop_first()
        } else {
            s
        };
        let more = s.push(c);
        assert(more[0] == s[0]);
        let more_digits = if signed {
            more.drop_first()
        } else {
            more
        };
        assert(more_digits =~= digits.push(c));
        assert(more_digits.drop_last() =~= digits);
        assert((seq!['+'] + s).drop_first() =~= s);
    }
}

proof fn lemma_digits_prefix(s: Seq<char>, i: int)
    requires
        0 <= i <= s.len(),
        digits_value(s) is Some,
    ensures
        digits_value(s.take(i)) is Some,
        digits_value(s.take(i))->0 <= digits_value(s)->0,
    decreases s.len() - i,
{
    if i < s.len() {
        lemma_digits_prefix(s, i + 1);
        assert(s.take(i + 1).drop_last() =~= s.take(i));
    } else {
        assert(s.take(i) =~= s);
    }
}

/// The number that a digit character stands for.
fn char_digit(c: char) -> (r: Option<u8>)
    ensures
        match r {
            Some(d) => digit_of(c) == Some(d as int) && d < 10,
            None => digit_of(c) is None,
        },
{
    let n: u32 = c as u32;
    if 48 <= n && n <= 57 {
        Some((n - 48) as u8)
    } else {
        None
    }
}

/// Reads a number of 64 bits.
pub fn parse_u64(s: &str) -> (r: Option<u64>)
    ensures
        r == u64_in(s@),
{
    let v = chars_of(s);
    let start: usize = if v.len() > 0 && v[0] == '+' {
        1
    } else {
        0
    };
    let ghost digits = if v@.len() > 0 && v@[0] == '+' {
        v@.drop_first()
    } else {
        v@
    };
    assert(digits =~= v@.skip(start as int));
    if start >= v.len() {
        return None;
    }
    let mut n: u64 = 0;
    let mut i: usize = start;
    assert(digits.take(0) =~= Seq::<char>::empty());
    while i < v.len()
        invariant
            start <= i <= v@.len(),
            digits == v@.skip(start as int),
            digits_value(digits.take(i - start)) == Some(n as nat),
            digits.len() > 0,
            u64_in(s@) == (match digits_value(digits) {
                Some(m) => if m <= u64::MAX {
                    Some(m as u64)
                } else {
                    None
                },
                None => None,
            }),
        decreases v@.len() - i,
    {
        let ghost k = i - start;
        proof {
            assert(digits.take(k + 1).drop_last() =~= digits.take(k));
            assert(digits.take(k + 1).last() == v@[i as int]);
            if digits_value(digits) is Some {
                lemma_digits_prefix(digits, k + 1);
            }
        }
        let d: u8 = match char_digit(v[i]) {
            Some(d) => d,
            None => {
                return None;
            },
        };
        if n > (u64::MAX - d as u64) / 10 {
            return None;
        }
        n = n * 10 + d as u64;
        i = i + 1;
    }
    assert(digits.take(i - start) =~= digits);
    Some(n)
}

} // verus!
