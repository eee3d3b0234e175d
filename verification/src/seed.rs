//! Seeds: from what the player typed, or from the clock.

use vstd::prelude::*;
use vstd::string::*;
use vstd::utf8::{encode_scalar, encode_utf8};
use crate::save::signed;

verus! {

/// Unicode white space.
pub open spec fn is_space_spec(c: char) -> bool {
    let v = c as u32;
    0x09 <= v <= 0x0d || v == 0x20 || v == 0x85 || v == 0xa0 || v == 0x1680 || 0x2000 <= v <= 0x200a
        || v == 0x2028 || v == 0x2029 || v == 0x202f || v == 0x205f || v == 0x3000
}

fn is_space(c: char) -> (r: bool)
    ensures
        r == is_space_spec(c),
{
    let v: u32 = c as u32;
    (0x09 <= v && v <= 0x0d) || v == 0x20 || v == 0x85 || v == 0xa0 || v == 0x1680 || (0x2000 <= v
        && v <= 0x200a) || v == 0x2028 || v == 0x2029 || v == 0x202f || v == 0x205f || v == 0x3000
}

/// The text without white space at its start.
pub open spec fn trim_start(s: Seq<char>) -> Seq<char>
    decreases s.len(),
{
    if s.len() > 0 && is_space_spec(s[0]) {
        trim_start(s.drop_first())
    } else {
        s
    }
}

/// The text without white space at its end.
pub open spec fn trim_end(s: Seq<char>) -> Seq<char>
    decreases s.len(),
{
    if s.len() > 0 && is_space_spec(s.last()) {
        trim_end(s.drop_last())
    } else {
        s
    }
}

pub open spec fn trim_spec(s: Seq<char>) -> Seq<char> {
    trim_end(trim_start(s))
}

pub open spec fn is_digit_spec(c: char) -> bool {
    '0' <= c <= '9'
}

/// The number that digits spell.
pub open spec fn digits_value(s: Seq<char>) -> int
    decreases s.len(),
{
    if s.len() == 0 {
        0
    } else {
        digits_value(s.drop_last()) * 10 + (s.last() as int - '0' as int)
    }
}

pub open spec fn all_digits(s: Seq<char>) -> bool {
    s.len() > 0 && forall|i: int| 0 <= i < s.len() ==> is_digit_spec(#[trigger] s[i])
}

/// What follows the sign, if there is one.
pub open spec fn after_sign(s: Seq<char>) -> Seq<char> {
    if s.len() > 0 && (s[0] == '-' || s[0] == '+') {
        s.drop_first()
    } else {
        s
    }
}

/// A signed integer: digits, with a sign in front or not, that fit.
pub open spec fn parse_i32_spec(s: Seq<char>) -> Option<i32> {
    if s.len() == 0 {
        None
    } else {
        let minus = s[0] == '-';
        let digits = after_sign(s);
        let value = if minus {
            -digits_value(digits)
        } else {
            digits_value(digits)
        };
        if all_digits(digits) && i32::MIN <= value <= i32::MAX {
            Some(value as i32)
        } else {
            None
        }
    }
}

/// One step of the hash.
pub open spec fn mix(h: u32, b: u8) -> u32 {
    (h ^ (b as u32)).wrapping_mul(16777619)
}

/// The hash of some bytes, taken up from `h`.
pub open spec fn hash_from(h: u32, bytes: Seq<u8>) -> u32
    decreases bytes.len(),
{
    if bytes.len() == 0 {
        h
    } else {
        hash_from(mix(h, bytes[0]), bytes.drop_first())
    }
}

pub const HASH_BASIS: u32 = 2166136261;

/// The seed that a text stands for: the number it spells, or else its hash; a
/// blank one leaves the choice to `random`.
pub open spec fn seed_spec(text: Seq<char>, random: i32) -> i32 {
    let t = trim_spec(text);
    if t.len() == 0 {
        random
    } else {
        match parse_i32_spec(t) {
            Some(v) => v,
            None => signed(hash_from(HASH_BASIS, encode_utf8(t))),
        }
    }
}

proof fn lemma_hash_append(h: u32, a: Seq<u8>, b: Seq<u8>)
    ensures
        hash_from(h, a + b) == hash_from(hash_from(h, a), b),
    decreases a.len(),
{
    if a.len() == 0 {
        assert(a + b =~= b);
    } else {
        assert((a + b).drop_first() =~= a.drop_first() + b);
        lemma_hash_append(mix(h, a[0]), a.drop_first(), b);
    }
}

fn mix_byte(h: u32, b: u8) -> (r: u32)
    ensures
        r == mix(h, b),
{
    (h ^ (b as u32)).wrapping_mul(16777619)
}

/// Hash a character's UTF-8 bytes.
fn mix_char(h: u32, c: char) -> (r: u32)
    ensures
        r == hash_from(h, encode_scalar(c as u32)),
{
    let v: u32 = c as u32;
    proof {
        reveal_with_fuel(hash_from, 5);
    }
    let low: u8 = 0x80 | (v & 0x3F) as u8;
    let mid: u8 = 0x80 | ((v >> 6) & 0x3F) as u8;
    let high: u8 = 0x80 | ((v >> 12) & 0x3F) as u8;
    if v <= 0x7F {
        mix_byte(h, (v & 0x7F) as u8)
    } else if v <= 0x7FF {
        mix_byte(mix_byte(h, 0xC0 | ((v >> 6) & 0x1F) as u8), low)
    } else if v <= 0xFFFF {
        mix_byte(mix_byte(mix_byte(h, 0xE0 | ((v >> 12) & 0x0F) as u8), mid), low)
    } else {
        mix_byte(mix_byte(mix_byte(mix_byte(h, 0xF0 | ((v >> 18) & 0x7) as u8), high), mid), low)
    }
}

fn hash_text(t: &Vec<char>) -> (r: u32)
    ensures
        r == hash_from(HASH_BASIS, encode_utf8(t@)),
{
    let ghost goal = hash_from(HASH_BASIS, encode_utf8(t@));
    let mut h: u32 = HASH_BASIS;
    let mut i: usize = 0;
    assert(t@.skip(0) =~= t@);
    while i < t.len()
        invariant
            i <= t.len(),
            hash_from(h, encode_utf8(t@.skip(i as int))) == goal,
        decreases t.len() - i,
    {
        proof {
            let rest = t@.skip(i as int);
            assert(rest.drop_first() =~= t@.skip(i + 1));
            lemma_hash_append(h, encode_scalar(rest[0] as u32), encode_utf8(rest.drop_first()));
        }
        h = mix_char(h, t[i]);
        i = i + 1;
    }
    h
}

/// The characters of a text without white space at either end.
fn trimmed(text: &str) -> (r: Vec<char>)
    ensures
        r@ == trim_spec(text@),
{
    let n: usize = text.unicode_len();
    let mut a: usize = 0;
    assert(text@.skip(0) =~= text@);
    while a < n && is_space(text.get_char(a))
        invariant
            n == text@.len(),
            a <= n,
            trim_start(text@.skip(a as int)) == trim_start(text@),
        decreases n - a,
    {
        assert(text@.skip(a as int).drop_first() =~= text@.skip(a + 1));
        a = a + 1;
    }
    let ghost front = text@.skip(a as int);
    assert(trim_start(text@) == front);
    let mut b: usize = n;
    assert(front.take(b - a) =~= front);
    while b > a && is_space(text.get_char(b - 1))
        invariant
            n == text@.len(),
            a <= b <= n,
            front == text@.skip(a as int),
            trim_end(front.take(b - a)) == trim_end(front),
        decreases b - a,
    {
        assert(front.take(b - a).drop_last() =~= front.take(b - 1 - a));
        b = b - 1;
    }
    let ghost whole = front.take(b - a);
    assert(trim_end(front) == whole);
    let mut out: Vec<char> = Vec::new();
    let mut i: usize = a;
    while i < b
        invariant
            n == text@.len(),
            a <= i <= b <= n,
            front == text@.skip(a as int),
            out@ =~= front.take(i - a),
        decreases b - i,
    {
        out.push(text.get_char(i));
        i = i + 1;
    }
    out
}

fn parse_i32(t: &Vec<char>) -> (r: Option<i32>)
    ensures
        r == parse_i32_spec(t@),
{
    if t.len() == 0 {
        return None;
    }
    let minus: bool = t[0] == '-';
    let from: usize = if t[0] == '-' || t[0] == '+' {
        1
    } else {
        0
    };
    let ghost digits = t@.skip(from as int);
    proof {
        if from == 0 {
            assert(digits =~= t@);
        } else {
            assert(digits =~= t@.drop_first());
        }
    }
    if from == t.len() {
        return None;
    }
    let mut value: i64 = 0;
    let mut i: usize = from;
    assert(digits.take(0) =~= Seq::empty());
    while i < t.len()
        invariant
            from <= i <= t.len(),
            from <= 1,
            digits == t@.skip(from as int),
            digits == after_sign(t@),
            forall|k: int| 0 <= k < i - from ==> is_digit_spec(#[trigger] digits[k]),
            value == digits_value(digits.take(i - from)),
            0 <= value <= 0x1_0000_0000,
        decreases t.len() - i,
    {
        let c: char = t[i];
        assert(digits[i - from] == c);
        if c < '0' || c > '9' {
            assert(!is_digit_spec(digits[i - from]));
            return None;
        }
        proof {
            assert(digits.take(i + 1 - from).drop_last() =~= digits.take(i - from));
        }
        let next: i64 = value * 10 + (c as u32 as i64 - 48);
        if next > 0x1_0000_0000 {
            proof {
                lemma_digits_grow(digits, i + 1 - from);
            }
            return None;
        }
        value = next;
        i = i + 1;
    }
    assert(digits.take(i - from) =~= digits);
    if minus {
        if value <= 0x8000_0000 {
            Some((-value) as i32)
        } else {
            None
        }
    } else if value <= 0x7fff_ffff {
        Some(value as i32)
    } else {
        None
    }
}

/// More digits never make a smaller number; and text with another character is
/// none at all.
proof fn lemma_digits_grow(s: Seq<char>, n: int)
    requires
        0 <= n <= s.len(),
        digits_value(s.take(n)) > 0x1_0000_0000,
    ensures
        !all_digits(s) || digits_value(s) > 0x1_0000_0000,
    decreases s.len() - n,
{
    if n < s.len() {
        if all_digits(s) {
            let longer = s.take(n + 1);
            assert(longer.drop_last() =~= s.take(n));
            assert(is_digit_spec(s[n]));
            lemma_digits_grow(s, n + 1);
        }
    } else {
        assert(s.take(n) =~= s);
    }
}

/// The seed for what the player typed. A number is taken as it is and any other
/// text is hashed, so both are reproducible; `random` is used for a blank field.
pub fn parse_seed(text: &str, random: i32) -> (r: i32)
    ensures
        r == seed_spec(text@, random),
{
    let t: Vec<char> = trimmed(text);
    if t.len() == 0 {
        return random;
    }
    match parse_i32(&t) {
        Some(v) => v,
        None => {
            let h: u32 = hash_text(&t);
            if h >= 0x8000_0000 {
                (h as i64 - 0x1_0000_0000) as i32
            } else {
                h as i32
            }
        },
    }
}

/// The low half of a scrambled clock reading.
pub open spec fn clock_seed_spec(millis: u64) -> i32 {
    let bits = millis.wrapping_mul(2654435761);
    signed(((bits ^ (bits >> 32)) % 0x1_0000_0000) as u32)
}

/// Derive a seed from the clock, in milliseconds; good enough for world variety.
pub fn pseudo_random_seed(millis: u64) -> (r: i32)
    ensures
        r == clock_seed_spec(millis),
{
    let bits: u64 = millis.wrapping_mul(2654435761);
    let low: u32 = ((bits ^ (bits >> 32)) % 0x1_0000_0000) as u32;
    if low >= 0x8000_0000 {
        (low as i64 - 0x1_0000_0000) as i32
    } else {
        low as i32
    }
}

/// White space around a seed makes no difference.
pub proof fn law_trimming_is_settled(s: Seq<char>)
    ensures
        trim_spec(trim_spec(s)) == trim_spec(s),
{
    lemma_trim_start_front(s);
    lemma_trim_end_back(trim_start(s));
}

proof fn lemma_trim_start_front(s: Seq<char>)
    ensures
        trim_start(s).len() > 0 ==> !is_space_spec(trim_start(s)[0]),
    decreases s.len(),
{
    if s.len() > 0 && is_space_spec(s[0]) {
        lemma_trim_start_front(s.drop_first());
    }
}

proof fn lemma_trim_end_back(s: Seq<char>)
    ensures
        trim_end(s).len() > 0 ==> !is_space_spec(trim_end(s).last()) && trim_end(s)[0] == s[0],
        trim_end(s).len() <= s.len(),
    decreases s.len(),
{
    if s.len() > 0 && is_space_spec(s.last()) {
        lemma_trim_end_back(s.drop_last());
    }
}

} // verus!
