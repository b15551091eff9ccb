//! Byte strings: comparison, the home-directory template and decimal numbers.
//!
//! Text reaches the host as bytes, so the rules of this module are stated
//! over the UTF-8 encoding of a string (`spec_bytes`), not over its
//! characters.

use vstd::prelude::*;
use vstd::utf8::*;

verus! {

/// The byte `{`, which opens the placeholder of a template.
pub const OPEN_BRACE: u8 = 0x7b;

/// The byte `}`, which closes the placeholder of a template.
pub const CLOSE_BRACE: u8 = 0x7d;

/// The byte `0`, the smallest decimal digit.
pub const DIGIT_ZERO: u8 = 0x30;

/// The byte `+`, which may stand before the digits of a number.
pub const PLUS_SIGN: u8 = 0x2b;

/// `s` followed by the terminating zero byte: the form in which the host
/// reads a string.
pub open spec fn c_string(s: Seq<u8>) -> Seq<u8> {
    s.push(0u8)
}

/// Two strings with the same encoding are the same string.
pub proof fn lemma_encoding_is_injective(a: Seq<char>, b: Seq<char>)
    ensures
        (encode_utf8(a) == encode_utf8(b)) <==> (a == b),
{
    encode_utf8_decode_utf8(a);
    encode_utf8_decode_utf8(b);
}

/// Whether two byte strings are equal.
pub fn same_bytes(a: &[u8], b: &[u8]) -> (same: bool)
    ensures
        same == (a@ == b@),
{
    if a.len() != b.len() {
        return false;
    }
    let mut i: usize = 0;
    while i < a.len()
        invariant
            a@.len() == b@.len(),
            i <= a@.len(),
            forall|k: int| 0 <= k < i ==> a@[k] == b@[k],
        decreases a@.len() - i,
    {
        if a[i] != b[i] {
            return false;
        }
        i = i + 1;
    }
    assert(a@ =~= b@);
    true
}

/// Whether two strings are equal, character for character (so `"Alice"`
/// and `"alice"` differ).
pub fn same_text(a: &str, b: &str) -> (same: bool)
    ensures
        same == (a@ == b@),
{
    proof {
        lemma_encoding_is_injective(a@, b@);
    }
    same_bytes(a.as_bytes(), b.as_bytes())
}

/// The place of the first byte `wanted` of `bytes` at or after `from`.
pub open spec fn find_byte(bytes: Seq<u8>, wanted: u8, from: int) -> Option<int>
    decreases bytes.len() - from,
{
    if from < 0 || from >= bytes.len() {
        None
    } else if bytes[from] == wanted {
        Some(from)
    } else {
        find_byte(bytes, wanted, from + 1)
    }
}

/// The first byte `wanted` at or after `from` is at `end` where there is
/// one at `end` and none before.
pub proof fn lemma_find_byte_finds(bytes: Seq<u8>, wanted: u8, from: int, end: int)
    requires
        0 <= from <= end < bytes.len(),
        bytes[end] == wanted,
        forall|k: int| from <= k < end ==> bytes[k] != wanted,
    ensures
        find_byte(bytes, wanted, from) == Some(end),
    decreases end - from,
{
    if from < end {
        lemma_find_byte_finds(bytes, wanted, from + 1, end);
    }
}

/// There is no byte `wanted` at or after `from` where all bytes from there
/// on are others.
pub proof fn lemma_find_byte_fails(bytes: Seq<u8>, wanted: u8, from: int)
    requires
        0 <= from,
        forall|k: int| from <= k < bytes.len() ==> bytes[k] != wanted,
    ensures
        find_byte(bytes, wanted, from) is None,
    decreases bytes.len() - from,
{
    if from < bytes.len() {
        lemma_find_byte_fails(bytes, wanted, from + 1);
    }
}

/// What `find_byte` finds is the first byte `wanted` at or after `from`,
/// and where it finds nothing there is none.
pub proof fn lemma_find_byte(bytes: Seq<u8>, wanted: u8, from: int)
    requires
        0 <= from,
    ensures
        match find_byte(bytes, wanted, from) {
            Some(i) => {
                &&& from <= i < bytes.len()
                &&& bytes[i] == wanted
                &&& forall|k: int| from <= k < i ==> bytes[k] != wanted
            },
            None => forall|k: int| from <= k < bytes.len() ==> bytes[k] != wanted,
        },
    decreases bytes.len() - from,
{
    if from < bytes.len() && bytes[from] != wanted {
        lemma_find_byte(bytes, wanted, from + 1);
    }
}

/// The place of the first byte `wanted` of `bytes`.
pub fn position_of(bytes: &[u8], wanted: u8) -> (place: Option<usize>)
    ensures
        match place {
            Some(i) => i < bytes@.len() && find_byte(bytes@, wanted, 0) == Some(i as int),
            None => find_byte(bytes@, wanted, 0) is None,
        },
{
    let mut i: usize = 0;
    while i < bytes.len()
        invariant
            i <= bytes@.len(),
            forall|k: int| 0 <= k < i ==> bytes@[k] != wanted,
        decreases bytes@.len() - i,
    {
        if bytes[i] == wanted {
            proof {
                lemma_find_byte_finds(bytes@, wanted, 0, i as int);
            }
            return Some(i);
        }
        i = i + 1;
    }
    proof {
        lemma_find_byte_fails(bytes@, wanted, 0);
    }
    None
}

/// Whether the placeholder `{}` stands at the front of `template`.
pub open spec fn starts_with_placeholder(template: Seq<u8>) -> bool {
    template.len() >= 2 && template[0] == OPEN_BRACE && template[1] == CLOSE_BRACE
}

/// `template` with every placeholder `{}` replaced by `login`, reading from
/// the left. What was put in is not read again.
pub open spec fn expand(template: Seq<u8>, login: Seq<u8>) -> Seq<u8>
    decreases template.len(),
{
    if template.len() == 0 {
        template
    } else if starts_with_placeholder(template) {
        login + expand(template.skip(2), login)
    } else {
        seq![template[0]] + expand(template.skip(1), login)
    }
}

/// The home directory that `template` gives to `login`.
pub fn expand_home(template: &[u8], login: &[u8]) -> (home: Vec<u8>)
    ensures
        home@ == expand(template@, login@),
{
    let mut home: Vec<u8> = Vec::new();
    let mut i: usize = 0;
    assert(template@.skip(0) =~= template@);
    assert(home@ + expand(template@, login@) =~= expand(template@, login@));
    while i < template.len()
        invariant
            i <= template@.len(),
            expand(template@, login@) == home@ + expand(template@.skip(i as int), login@),
        decreases template@.len() - i,
    {
        let ghost rest = template@.skip(i as int);
        let ghost before = home@;
        if template[i] == OPEN_BRACE && i + 1 < template.len() && template[i + 1] == CLOSE_BRACE {
            let mut j: usize = 0;
            while j < login.len()
                invariant
                    j <= login@.len(),
                    home@ == before + login@.take(j as int),
                decreases login@.len() - j,
            {
                home.push(login[j]);
                assert(login@.take(j + 1) =~= login@.take(j as int).push(login@[j as int]));
                j = j + 1;
            }
            assert(login@.take(j as int) =~= login@);
            assert(rest.skip(2) =~= template@.skip(i + 2));
            assert(before + (login@ + expand(rest.skip(2), login@)) =~= (before + login@) + expand(
                rest.skip(2),
                login@,
            ));
            i = i + 2;
        } else {
            home.push(template[i]);
            assert(!starts_with_placeholder(rest));
            assert(rest.skip(1) =~= template@.skip(i + 1));
            assert(before + (seq![rest[0]] + expand(rest.skip(1), login@)) =~= before.push(rest[0])
                + expand(rest.skip(1), login@));
            i = i + 1;
        }
    }
    assert(home@ + expand(template@.skip(i as int), login@) =~= home@);
    home
}

/// Whether `b` is one of the bytes `0` to `9`.
pub open spec fn is_digit(b: u8) -> bool {
    DIGIT_ZERO <= b <= DIGIT_ZERO + 9
}

/// Whether `s` holds decimal digits only.
pub open spec fn all_digits(s: Seq<u8>) -> bool {
    forall|k: int| 0 <= k < s.len() ==> is_digit(#[trigger] s[k])
}

/// The number that the digits `s` spell, the first digit weighing most.
pub open spec fn digits_value(s: Seq<u8>) -> nat
    decreases s.len(),
{
    if s.len() == 0 {
        0
    } else {
        (digits_value(s.drop_last()) * 10 + (s.last() - DIGIT_ZERO)) as nat
    }
}

/// `n` in decimal digits, without leading zeros (`0` is the one digit `0`).
pub open spec fn decimal(n: nat) -> Seq<u8>
    decreases n,
{
    if n < 10 {
        seq![(DIGIT_ZERO + n) as u8]
    } else {
        decimal(n / 10).push((DIGIT_ZERO + n % 10) as u8)
    }
}

/// What `s` means as a number: an optional `+`, then at least one digit and
/// nothing else, with a value that fits in 64 bits.
pub open spec fn parse(s: Seq<u8>) -> Option<u64> {
    let digits = if s.len() > 0 && s[0] == PLUS_SIGN {
        s.skip(1)
    } else {
        s
    };
    if digits.len() > 0 && all_digits(digits) && digits_value(digits) <= u64::MAX {
        Some(digits_value(digits) as u64)
    } else {
        None
    }
}

/// The digits of a number are digits, at least one and at most twenty for a
/// number of 64 bits, and they spell the number.
pub proof fn lemma_decimal(n: nat)
    ensures
        decimal(n).len() >= 1,
        n <= u64::MAX ==> decimal(n).len() <= 20,
        all_digits(decimal(n)),
        digits_value(decimal(n)) == n,
        decimal(n)[0] != PLUS_SIGN,
    decreases n,
{
    if n < 10 {
        let s = decimal(n);
        assert(s.drop_last() =~= Seq::<u8>::empty());
        assert(digits_value(s.drop_last()) == 0);
    } else {
        let s = decimal(n);
        lemma_decimal(n / 10);
        assert(s.drop_last() =~= decimal(n / 10));
        if n <= u64::MAX {
            lemma_decimal_len(n);
        }
    }
}

/// A number below ten to the `k` has at most `k` digits.
proof fn lemma_decimal_len_below(n: nat, k: nat)
    requires
        k >= 1,
        n < vstd::arithmetic::power::pow(10, k),
    ensures
        decimal(n).len() <= k,
    decreases k,
{
    vstd::arithmetic::power::lemma_pow1(10);
    reveal(vstd::arithmetic::power::pow);
    if n < 10 {
    } else {
        assert(k >= 2) by {
            if k == 1 {
                assert(vstd::arithmetic::power::pow(10, 1) == 10);
            }
        }
        assert(vstd::arithmetic::power::pow(10, k) == 10 * vstd::arithmetic::power::pow(
            10,
            (k - 1) as nat,
        ));
        lemma_decimal_len_below(n / 10, (k - 1) as nat);
    }
}

/// A number of 64 bits has at most twenty digits.
proof fn lemma_decimal_len(n: nat)
    requires
        n <= u64::MAX,
    ensures
        decimal(n).len() <= 20,
{
    assert(vstd::arithmetic::power::pow(10, 20) == 100000000000000000000int) by {
        reveal_with_fuel(vstd::arithmetic::power::pow, 21);
    }
    lemma_decimal_len_below(n, 20);
}

/// A number that was written in decimal digits is read back as itself.
pub proof fn lemma_parse_decimal(n: u64)
    ensures
        parse(decimal(n as nat)) == Some(n),
{
    lemma_decimal(n as nat);
}

/// `n` in decimal digits.
pub fn format_decimal(n: u64) -> (text: Vec<u8>)
    ensures
        text@ == decimal(n as nat),
    decreases n,
{
    if n < 10 {
        let mut text: Vec<u8> = Vec::new();
        text.push(DIGIT_ZERO + n as u8);
        assert(text@ =~= decimal(n as nat));
        text
    } else {
        let mut text = format_decimal(n / 10);
        text.push(DIGIT_ZERO + (n % 10) as u8);
        text
    }
}

/// Digits weigh at least as much as the digits they begin with.
proof fn lemma_digits_value_grows(s: Seq<u8>, k: int)
    requires
        all_digits(s),
        0 <= k <= s.len(),
    ensures
        digits_value(s.take(k)) <= digits_value(s),
    decreases s.len(),
{
    if k == s.len() {
        assert(s.take(k) =~= s);
    } else {
        let front = s.drop_last();
        assert(front.take(k) =~= s.take(k));
        assert(is_digit(s[s.len() - 1]));
        lemma_digits_value_grows(front, k);
    }
}

/// The number that `text` spells, if it spells one.
pub fn parse_decimal(text: &[u8]) -> (number: Option<u64>)
    ensures
        number == parse(text@),
{
    let start: usize = if text.len() > 0 && text[0] == PLUS_SIGN {
        1
    } else {
        0
    };
    let ghost digits = text@.skip(start as int);
    assert(text@.skip(0) =~= text@);
    if start == text.len() {
        return None;
    }
    let mut value: u64 = 0;
    let mut i: usize = start;
    assert(digits.take(0) =~= Seq::<u8>::empty());
    while i < text.len()
        invariant
            start <= i <= text@.len(),
            digits == text@.skip(start as int),
            parse(text@) == (if all_digits(digits) && digits_value(digits) <= u64::MAX {
                Some(digits_value(digits) as u64)
            } else {
                None
            }),
            all_digits(digits.take(i - start)),
            value == digits_value(digits.take(i - start)),
        decreases text@.len() - i,
    {
        let b = text[i];
        let ghost seen = digits.take(i - start + 1);
        assert(seen.drop_last() =~= digits.take(i - start));
        assert(seen.last() == b);
        if b < DIGIT_ZERO || b > DIGIT_ZERO + 9 {
            assert(!is_digit(digits[i - start]));
            return None;
        }
        let d: u64 = (b - DIGIT_ZERO) as u64;
        if value > (u64::MAX - d) / 10 {
            proof {
                if all_digits(digits) {
                    lemma_digits_value_grows(digits, i - start + 1);
                }
            }
            return None;
        }
        value = value * 10 + d;
        i = i + 1;
    }
    assert(digits.take(i - start) =~= digits);
    Some(value)
}

} // verus!
