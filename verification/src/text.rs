//! Text: characters, decimal and hexadecimal numbers, padding.

use vstd::prelude::*;
use vstd::utf8::{decode_utf8, valid_utf8};

verus! {

/// Wraps `core::str::from_utf8`: the text that the bytes encode, and nothing
/// where they are not valid UTF-8.
#[verifier::external_body]
pub(crate) fn from_utf8(b: &[u8]) -> (r: Option<String>)
    ensures
        match r {
            Some(s) => valid_utf8(b@) && s@ == decode_utf8(b@),
            None => !valid_utf8(b@),
        },
{
    match core::str::from_utf8(b) {
        Ok(s) => Some(s.to_owned()),
        Err(_) => None,
    }
}

/// The characters of a string.
pub fn chars_of(s: &str) -> (v: Vec<char>)
    ensures
        v@ == s@,
{
    let n: usize = s.unicode_len();
    let mut v: Vec<char> = Vec::new();
    let mut k: usize = 0;
    while k < n
        invariant
            n == s@.len(),
            k <= n,
            v@ == s@.take(k as int),
        decreases n - k,
    {
        v.push(s.get_char(k));
        k += 1;
        assert(v@ =~= s@.take(k as int));
    }
    assert(s@.take(n as int) =~= s@);
    v
}

/// An owned copy of a run of characters.
pub fn copy_chars(s: &[char]) -> (v: Vec<char>)
    ensures
        v@ == s@,
{
    let mut v: Vec<char> = Vec::new();
    push_all(&mut v, s);
    assert(v@ =~= s@);
    v
}

/// Appends characters to a text.
pub fn push_all(v: &mut Vec<char>, s: &[char])
    ensures
        final(v)@ == old(v)@ + s@,
{
    let mut k: usize = 0;
    assert(v@ =~= old(v)@ + s@.take(0));
    while k < s.len()
        invariant
            k <= s@.len(),
            v@ == old(v)@ + s@.take(k as int),
        decreases s@.len() - k,
    {
        v.push(s[k]);
        k += 1;
        assert(v@ =~= old(v)@ + s@.take(k as int));
    }
    assert(s@.take(s@.len() as int) =~= s@);
}

/// Appends a string to a text.
pub fn push_str(v: &mut Vec<char>, s: &str)
    ensures
        final(v)@ == old(v)@ + s@,
{
    let t = chars_of(s);
    push_all(v, &t);
}

/// The two runs of characters are the same.
pub fn same_chars(a: &[char], b: &[char]) -> (r: bool)
    ensures
        r == (a@ == b@),
{
    if a.len() != b.len() {
        return false;
    }
    let mut i: usize = 0;
    while i < a.len()
        invariant
            a@.len() == b@.len(),
            i <= a@.len(),
            forall|k: int| 0 <= k < i ==> a@[k] == b@[k],
        decreases a@.len() - i,
    {
        if a[i] != b[i] {
            assert(a@[i as int] != b@[i as int]);
            return false;
        }
        i += 1;
    }
    assert(a@ =~= b@);
    true
}

// ---------- numbers ----------

/// The character of a digit below 16.
pub open spec fn digit(d: nat) -> char {
    if d < 10 {
        (48 + d) as char
    } else {
        (87 + d) as char
    }
}

/// `n` in decimal.
pub open spec fn dec(n: nat) -> Seq<char>
    decreases n,
{
    if n < 10 {
        seq![digit(n)]
    } else {
        dec(n / 10).push(digit(n % 10))
    }
}

/// `n` in hexadecimal, with zeros in front up to `w` digits.
pub open spec fn hex(n: nat, w: nat) -> Seq<char>
    decreases n, w,
{
    if n < 16 && w <= 1 {
        seq![digit(n)]
    } else {
        hex(
            n / 16,
            if w == 0 {
                0
            } else {
                (w - 1) as nat
            },
        ).push(digit(n % 16))
    }
}

fn digit_char(d: u64) -> (c: char)
    requires
        d < 16,
    ensures
        c == digit(d as nat),
{
    if d < 10 {
        (48 + d as u8) as char
    } else {
        (87 + d as u8) as char
    }
}

pub fn dec_of(n: u64) -> (v: Vec<char>)
    ensures
        v@ == dec(n as nat),
    decreases n,
{
    if n < 10 {
        let mut v: Vec<char> = Vec::new();
        v.push(digit_char(n));
        assert(v@ =~= seq![digit(n as nat)]);
        v
    } else {
        let mut v = dec_of(n / 10);
        v.push(digit_char(n % 10));
        v
    }
}

pub fn hex_of(n: u64, w: u32) -> (v: Vec<char>)
    ensures
        v@ == hex(n as nat, w as nat),
    decreases n, w,
{
    if n < 16 && w <= 1 {
        let mut v: Vec<char> = Vec::new();
        v.push(digit_char(n));
        assert(v@ =~= seq![digit(n as nat)]);
        v
    } else {
        let mut v = hex_of(
            n / 16,
            if w == 0 {
                0
            } else {
                w - 1
            },
        );
        v.push(digit_char(n % 16));
        v
    }
}

pub fn push_dec(v: &mut Vec<char>, n: u64)
    ensures
        final(v)@ == old(v)@ + dec(n as nat),
{
    let t = dec_of(n);
    push_all(v, &t);
}

pub fn push_hex(v: &mut Vec<char>, n: u64, w: u32)
    ensures
        final(v)@ == old(v)@ + hex(n as nat, w as nat),
{
    let t = hex_of(n, w);
    push_all(v, &t);
}

/// A number with at least two decimal digits.
pub open spec fn dec2(n: nat) -> Seq<char> {
    if n < 10 {
        "0"@ + dec(n)
    } else {
        dec(n)
    }
}

pub fn push_dec2(v: &mut Vec<char>, n: u64)
    ensures
        final(v)@ == old(v)@ + dec2(n as nat),
{
    if n < 10 {
        push_str(v, "0");
    }
    push_dec(v, n);
    assert(v@ =~= old(v)@ + dec2(n as nat));
}

/// The word for a truth value.
pub open spec fn truth(b: bool) -> Seq<char> {
    if b {
        "true"@
    } else {
        "false"@
    }
}

pub fn push_bool(v: &mut Vec<char>, b: bool)
    ensures
        final(v)@ == old(v)@ + truth(b),
{
    push_str(
        v,
        if b {
            "true"
        } else {
            "false"
        },
    );
}

// ---------- padding ----------

pub open spec fn spaces(n: int) -> Seq<char> {
    Seq::new(
        if n < 0 {
            0
        } else {
            n as nat
        },
        |k: int| ' ',
    )
}

/// `s` with spaces behind it, up to `w` characters.
pub open spec fn left(s: Seq<char>, w: int) -> Seq<char> {
    s + spaces(w - s.len())
}

/// `s` with spaces in front of it, up to `w` characters.
pub open spec fn right(s: Seq<char>, w: int) -> Seq<char> {
    spaces(w - s.len()) + s
}

/// `s` between spaces, up to `w` characters; the odd space goes behind it.
pub open spec fn centered(s: Seq<char>, w: int) -> Seq<char> {
    let gap = if w > s.len() {
        w - s.len()
    } else {
        0
    };
    spaces(gap / 2) + s + spaces(gap - gap / 2)
}

pub fn push_spaces(v: &mut Vec<char>, n: usize)
    ensures
        final(v)@ == old(v)@ + spaces(n as int),
{
    let mut k: usize = 0;
    assert(v@ =~= old(v)@ + spaces(0));
    while k < n
        invariant
            k <= n,
            v@ == old(v)@ + spaces(k as int),
        decreases n - k,
    {
        v.push(' ');
        k += 1;
        assert(v@ =~= old(v)@ + spaces(k as int));
    }
}

pub fn push_left(v: &mut Vec<char>, s: &[char], w: usize)
    ensures
        final(v)@ == old(v)@ + left(s@, w as int),
{
    push_all(v, s);
    if s.len() < w {
        push_spaces(v, w - s.len());
    }
    assert(v@ =~= old(v)@ + left(s@, w as int));
}

pub fn push_right(v: &mut Vec<char>, s: &[char], w: usize)
    ensures
        final(v)@ == old(v)@ + right(s@, w as int),
{
    if s.len() < w {
        push_spaces(v, w - s.len());
    }
    push_all(v, s);
    assert(v@ =~= old(v)@ + right(s@, w as int));
}

pub fn push_centered(v: &mut Vec<char>, s: &[char], w: usize)
    ensures
        final(v)@ == old(v)@ + centered(s@, w as int),
{
    let n: usize = s.len();
    let gap: usize = if w > n {
        w - n
    } else {
        0
    };
    push_spaces(v, gap / 2);
    push_all(v, s);
    push_spaces(v, gap - gap / 2);
    assert(v@ =~= old(v)@ + centered(s@, w as int));
}

// ---------- letters ----------

/// The lower-case form of an ASCII letter; any other character as it is.
pub open spec fn lower_char(c: char) -> char {
    if 'A' <= c && c <= 'Z' {
        ((c as u8) + 32) as char
    } else {
        c
    }
}

pub fn to_lower(c: char) -> (r: char)
    ensures
        r == lower_char(c),
{
    if 'A' <= c && c <= 'Z' {
        (c as u8 + 32) as char
    } else {
        c
    }
}

/// The two texts are the same but for the case of ASCII letters.
pub open spec fn same_but_case(a: Seq<char>, b: Seq<char>) -> bool {
    &&& a.len() == b.len()
    &&& forall|k: int| 0 <= k < a.len() ==> lower_char(#[trigger] a[k]) == lower_char(b[k])
}

pub fn eq_ci_str(a: &[char], b: &str) -> (r: bool)
    ensures
        r == same_but_case(a@, b@),
{
    let n: usize = b.unicode_len();
    if a.len() != n {
        return false;
    }
    let mut k: usize = 0;
    while k < n
        invariant
            k <= n,
            n == a@.len(),
            n == b@.len(),
            forall|j: int| 0 <= j < k ==> lower_char(#[trigger] a@[j]) == lower_char(b@[j]),
        decreases n - k,
    {
        if to_lower(a[k]) != to_lower(b.get_char(k)) {
            assert(lower_char(a@[k as int]) != lower_char(b@[k as int]));
            return false;
        }
        k += 1;
    }
    true
}

// ---------- laws ----------

/// The value of a digit: `0` to `9`, then `a` to `f`.
pub open spec fn digit_value(c: char) -> int {
    if '0' <= c <= '9' {
        c as int - '0' as int
    } else {
        c as int - 'a' as int + 10
    }
}

/// The number that digits stand for, the highest digit first.
pub open spec fn number_in(s: Seq<char>, base: int) -> int
    decreases s.len(),
{
    if s.len() == 0 {
        0
    } else {
        number_in(s.drop_last(), base) * base + digit_value(s.last())
    }
}

proof fn digits_have_values(d: nat)
    requires
        d < 16,
    ensures
        digit_value(digit(d)) == d,
        digit(d) == '0' <==> d == 0,
        d < 10 ==> '0' <= digit(d) <= '9',
        d >= 10 ==> 'a' <= digit(d) <= 'f',
{
}

/// A number in decimal is its digits: they stand for it, and there is no zero in
/// front.
pub proof fn decimal_reads_back(n: nat)
    ensures
        number_in(dec(n), 10) == n,
        dec(n).len() > 0,
        forall|k: int| 0 <= k < dec(n).len() ==> '0' <= #[trigger] dec(n)[k] <= '9',
        n > 0 ==> dec(n)[0] != '0',
        n == 0 ==> dec(n).len() == 1,
    decreases n,
{
    digits_have_values(n % 10);
    if n < 10 {
        digits_have_values(n);
        let s = dec(n);
        assert(s.drop_last() =~= Seq::<char>::empty());
        assert(number_in(Seq::<char>::empty(), 10) == 0);
        assert(number_in(s, 10) == number_in(s.drop_last(), 10) * 10 + digit_value(s.last()));
    } else {
        decimal_reads_back(n / 10);
        let s = dec(n);
        assert(s.drop_last() =~= dec(n / 10));
        assert(number_in(s, 10) == number_in(s.drop_last(), 10) * 10 + digit_value(s.last()));
        assert(s.last() == digit(n % 10));
        assert forall|k: int| 0 <= k < s.len() implies '0' <= #[trigger] s[k] <= '9' by {
            if k < s.len() - 1 {
                assert(s[k] == dec(n / 10)[k]);
            }
        }
        assert(s[0] == dec(n / 10)[0]);
    }
}

/// A number in hexadecimal is its digits: they stand for it, there are at least
/// as many as asked for, and there is no zero in front of more.
pub proof fn hexadecimal_reads_back(n: nat, w: nat)
    ensures
        number_in(hex(n, w), 16) == n,
        hex(n, w).len() >= w,
        hex(n, w).len() >= 1,
        hex(n, w).len() > w && hex(n, w).len() > 1 ==> hex(n, w)[0] != '0',
        forall|k: int|
            0 <= k < hex(n, w).len() ==> '0' <= #[trigger] hex(n, w)[k] <= '9' || 'a' <= hex(
                n,
                w,
            )[k] <= 'f',
    decreases n, w,
{
    digits_have_values(n % 16);
    let s = hex(n, w);
    if n < 16 && w <= 1 {
        digits_have_values(n);
        assert(s.drop_last() =~= Seq::<char>::empty());
        assert(number_in(Seq::<char>::empty(), 16) == 0);
        assert(number_in(s, 16) == number_in(s.drop_last(), 16) * 16 + digit_value(s.last()));
    } else {
        let v: nat = if w == 0 {
            0
        } else {
            (w - 1) as nat
        };
        hexadecimal_reads_back(n / 16, v);
        let h = hex(n / 16, v);
        assert(s.drop_last() =~= h);
        assert(number_in(s, 16) == number_in(s.drop_last(), 16) * 16 + digit_value(s.last()));
        assert(s.last() == digit(n % 16));
        assert forall|k: int| 0 <= k < s.len() implies '0' <= #[trigger] s[k] <= '9' || 'a' <= s[k]
            <= 'f' by {
            if k < s.len() - 1 {
                assert(s[k] == h[k]);
            }
        }
        assert(s[0] == h[0]);
        if s.len() > w && h.len() == 1 {
            // the one digit in front is that of a number of two digits
            assert(v == 0);
            assert(n >= 16);
            if n / 16 < 16 {
                digits_have_values(n / 16);
                assert(h == seq![digit(n / 16)]);
            } else {
                hexadecimal_reads_back(n / 16 / 16, 0);
                assert(h == hex(n / 16 / 16, 0).push(digit((n / 16) % 16)));
            }
        }
    }
}

/// A text that is filled up with spaces keeps its characters, at the side that
/// it is moved to, and has the width; a longer one stays as it is.
pub proof fn padding_keeps_the_text(s: Seq<char>, w: int)
    ensures
        w <= s.len() ==> left(s, w) == s && right(s, w) == s && centered(s, w) == s,
        w > s.len() ==> {
            &&& left(s, w).len() == w && right(s, w).len() == w && centered(s, w).len() == w
            &&& left(s, w).take(s.len() as int) == s
            &&& right(s, w).skip(w - s.len()) == s
            &&& centered(s, w).subrange((w - s.len()) / 2, (w - s.len()) / 2 + s.len()) == s
            &&& forall|k: int| s.len() <= k < w ==> #[trigger] left(s, w)[k] == ' '
            &&& forall|k: int| 0 <= k < w - s.len() ==> #[trigger] right(s, w)[k] == ' '
        },
{
    if w <= s.len() {
        assert(left(s, w) =~= s);
        assert(right(s, w) =~= s);
        assert(centered(s, w) =~= s);
    } else {
        assert(left(s, w).take(s.len() as int) =~= s);
        assert(right(s, w).skip(w - s.len()) =~= s);
        assert(centered(s, w).subrange((w - s.len()) / 2, (w - s.len()) / 2 + s.len()) =~= s);
    }
}

/// Only the case of the letters from `a` to `z` is passed over in a comparison.
pub proof fn case_is_passed_over(a: char, b: char)
    ensures
        lower_char(a) == lower_char(b) <==> a == b || ('A' <= a <= 'Z' && b as int == a as int + 32)
            || ('A' <= b <= 'Z' && a as int == b as int + 32),
{
}

} // verus!
