//! Base62: numbers written over `A`-`Z`, `a`-`z`, `0`-`9`.
//!
//! The symbols stand for 0 to 61 in that order. A number is written with its
//! least significant digit first, so the text does not read in the usual
//! order. Zero is written `"A"`, never as the empty string, and the empty
//! string is no number.
use vstd::arithmetic::power::pow;
use vstd::prelude::*;
use vstd::string::StrSliceExecFns;

verus! {

/// How many symbols the alphabet has.
pub const BASE: usize = 62;

/// The symbol that stands for the digit `d`, for `0 <= d < 62`.
pub open spec fn symbol(d: int) -> char
    recommends
        0 <= d < 62,
{
    if d < 26 {
        ('A' as int + d) as char
    } else if d < 52 {
        ('a' as int + d - 26) as char
    } else {
        ('0' as int + d - 52) as char
    }
}

/// Whether `c` is one of the 62 symbols.
pub open spec fn is_symbol(c: char) -> bool {
    ('A' <= c && c <= 'Z') || ('a' <= c && c <= 'z') || ('0' <= c && c <= '9')
}

/// The digit that the symbol `c` stands for; 0 for any other character.
pub open spec fn digit(c: char) -> nat {
    if 'A' <= c && c <= 'Z' {
        (c as int - 'A' as int) as nat
    } else if 'a' <= c && c <= 'z' {
        (c as int - 'a' as int + 26) as nat
    } else if '0' <= c && c <= '9' {
        (c as int - '0' as int + 52) as nat
    } else {
        0
    }
}

/// The digits of `n`, least significant first; none at all for zero.
pub open spec fn digits(n: nat) -> Seq<char>
    decreases n,
{
    if n == 0 {
        Seq::empty()
    } else {
        seq![symbol((n % 62) as int)] + digits(n / 62)
    }
}

/// The base62 text of `n`.
pub open spec fn encode(n: nat) -> Seq<char> {
    if n == 0 {
        seq!['A']
    } else {
        digits(n)
    }
}

/// The number that the digits of `s` add up to, the first being the least
/// significant: the sum of `digit(s[i]) * 62^i`.
pub open spec fn value(s: Seq<char>) -> nat
    decreases s.len(),
{
    if s.len() == 0 {
        0
    } else {
        digit(s[0]) + 62 * value(s.drop_first())
    }
}

/// Whether `s` is base62 text: not empty, and made of the 62 symbols only.
pub open spec fn is_base62(s: Seq<char>) -> bool {
    s.len() > 0 && forall|i: int| 0 <= i < s.len() ==> is_symbol(#[trigger] s[i])
}

/// The number that `s` stands for, if it is base62 text.
pub open spec fn decode(s: Seq<char>) -> Option<nat> {
    if is_base62(s) {
        Some(value(s))
    } else {
        None
    }
}

/// What [`uid_to_number`] returns for `s`: its number, if that fits the
/// machine word.
pub open spec fn decode_word(s: Seq<char>) -> Option<usize> {
    match decode(s) {
        Some(v) => if v <= usize::MAX {
            Some(v as usize)
        } else {
            None
        },
        None => None,
    }
}

/// Whether `id` is the base62 text of a number below `max`, as [`encode`]
/// writes it.
pub open spec fn decodes_below(id: Seq<char>, max: nat) -> bool {
    match decode(id) {
        Some(v) => v < max && id == encode(v),
        None => false,
    }
}

/// Each digit has a symbol, and the symbol stands for that digit.
pub proof fn lemma_symbol_digit(d: int)
    requires
        0 <= d < 62,
    ensures
        is_symbol(symbol(d)),
        digit(symbol(d)) == d,
{
}

/// The digits of a number are symbols, and add up to it.
pub proof fn lemma_digits_value(n: nat)
    ensures
        value(digits(n)) == n,
        forall|i: int| 0 <= i < digits(n).len() ==> is_symbol(#[trigger] digits(n)[i]),
        n > 0 ==> digits(n).len() > 0,
    decreases n,
{
    if n > 0 {
        let head = symbol((n % 62) as int);
        let tail = digits(n / 62);
        lemma_digits_value(n / 62);
        lemma_symbol_digit((n % 62) as int);
        assert(digits(n).drop_first() =~= tail);
        assert(digits(n)[0] == head);
        assert forall|i: int| 0 <= i < digits(n).len() implies is_symbol(
            #[trigger] digits(n)[i],
        ) by {
            if i > 0 {
                assert(digits(n)[i] == tail[i - 1]);
            }
        }
    }
}

/// Round trip: every number decodes from its own text.
pub proof fn lemma_decode_encode(n: nat)
    ensures
        decode(encode(n)) == Some(n),
{
    if n == 0 {
        let s = seq!['A'];
        assert(s.drop_first() =~= Seq::<char>::empty());
        assert(value(s.drop_first()) == 0);
        assert(value(s) == 0);
    } else {
        lemma_digits_value(n);
    }
}

/// The text of a number grows with its logarithm: a number above zero has
/// `len` digits exactly when it lies from `62^(len - 1)` up to, not
/// including, `62^len`.
pub proof fn lemma_encode_len(n: nat)
    requires
        n > 0,
    ensures
        encode(n).len() > 0,
        pow(62, (encode(n).len() - 1) as nat) <= n < pow(62, encode(n).len()),
    decreases n,
{
    let len = digits(n).len();
    let rest = n / 62;
    assert(digits(n).len() == 1 + digits(rest).len());
    reveal(pow);
    if rest == 0 {
        assert(digits(rest).len() == 0);
        assert(pow(62, 0) == 1);
        assert(pow(62, 1) == 62 * pow(62, 0));
    } else {
        lemma_encode_len(rest);
        let shorter = digits(rest).len();
        assert(len == shorter + 1);
        assert(pow(62, shorter) == 62 * pow(62, (shorter - 1) as nat));
        assert(pow(62, len) == 62 * pow(62, shorter));
    }
}

/// Dropping low digits never makes text stand for more: the number of any
/// tail of `s` is at most the number of `s`.
pub proof fn lemma_value_tail(s: Seq<char>, from: int)
    requires
        0 <= from <= s.len(),
    ensures
        value(s.subrange(from, s.len() as int)) <= value(s),
    decreases from,
{
    if from == 0 {
        assert(s.subrange(0, s.len() as int) =~= s);
    } else {
        lemma_value_tail(s, from - 1);
        lemma_value_step(s, from - 1);
    }
}

/// The number of the tail of `s` from `at` is the digit at `at` plus 62
/// times the number of the tail after it.
pub proof fn lemma_value_step(s: Seq<char>, at: int)
    requires
        0 <= at < s.len(),
    ensures
        value(s.subrange(at, s.len() as int)) == digit(s[at]) + 62 * value(
            s.subrange(at + 1, s.len() as int),
        ),
{
    let tail = s.subrange(at, s.len() as int);
    assert(tail.drop_first() =~= s.subrange(at + 1, s.len() as int));
    assert(tail[0] == s[at]);
}

/// `String::push` appends exactly the one character to the string.
pub assume_specification[ String::push ](s: &mut String, c: char)
    ensures
        final(s)@ == old(s)@.push(c),
;

/// The symbol for the digit `d`.
pub fn symbol_of(d: usize) -> (c: char)
    requires
        d < 62,
    ensures
        c == symbol(d as int),
{
    if d < 26 {
        ('A' as u8 + d as u8) as char
    } else if d < 52 {
        ('a' as u8 + (d - 26) as u8) as char
    } else {
        ('0' as u8 + (d - 52) as u8) as char
    }
}

/// Writes `uid` in base62, least significant digit first. Zero is `"A"`.
pub fn number_to_uid(uid: usize) -> (r: String)
    ensures
        r@ == encode(uid as nat),
        decode(r@) == Some(uid as nat),
{
    proof {
        lemma_decode_encode(uid as nat);
    }
    let mut result = String::new();
    if uid == 0 {
        result.push('A');
        assert(result@ =~= seq!['A']);
        return result;
    }
    let mut rest: usize = uid;
    while rest > 0
        invariant
            digits(uid as nat) == result@ + digits(rest as nat),
        decreases rest,
    {
        let next: usize = rest % BASE;
        proof {
            let grown = result@.push(symbol(next as int));
            assert(grown + digits((rest / 62) as nat) =~= result@ + digits(rest as nat));
        }
        rest = rest / BASE;
        result.push(symbol_of(next));
    }
    assert(result@ + Seq::<char>::empty() =~= result@);
    result
}

/// Reads base62 text back into its number.
///
/// `None` for the empty string, for text with any character that is not one
/// of the 62 symbols, and for text whose number does not fit in `usize`.
pub fn uid_to_number(uid: &str) -> (r: Option<usize>)
    ensures
        r == decode_word(uid@),
{
    if !uid.is_ascii() {
        proof {
            let i = choose|i: int| 0 <= i < uid@.len() && !('\0' <= #[trigger] uid@[i] <= '\u{7f}');
            assert(!is_symbol(uid@[i]));
        }
        return None;
    }
    let bytes = uid.as_bytes();
    let n: usize = bytes.len();
    proof {
        vstd::string::is_ascii_spec_bytes(uid);
    }
    if n == 0 {
        return None;
    }
    let mut result: usize = 0;
    let mut at: usize = n;
    assert(uid@.subrange(n as int, n as int) =~= Seq::<char>::empty());
    while at > 0
        invariant
            at <= n,
            n == uid@.len(),
            n == bytes@.len(),
            n > 0,
            forall|i: int| 0 <= i < n ==> bytes@[i] == #[trigger] uid@[i] as u8,
            forall|i: int| 0 <= i < n ==> '\0' <= #[trigger] uid@[i] <= '\u{7f}',
            forall|i: int| at <= i < n ==> is_symbol(#[trigger] uid@[i]),
            result == value(uid@.subrange(at as int, n as int)),
        decreases at,
    {
        at = at - 1;
        let b: u8 = bytes[at];
        let ghost c = uid@[at as int];
        assert(b == c as u8);
        assert('\0' <= c <= '\u{7f}');
        let v: usize;
        if b >= 'A' as u8 && b <= 'Z' as u8 {
            v = (b - 'A' as u8) as usize;
        } else if b >= 'a' as u8 && b <= 'z' as u8 {
            v = (b - 'a' as u8) as usize + 26;
        } else if b >= '0' as u8 && b <= '9' as u8 {
            v = (b - '0' as u8) as usize + 26 + 26;
        } else {
            assert(!is_symbol(c));
            return None;
        }
        assert(is_symbol(c) && v == digit(c));
        proof {
            lemma_value_step(uid@, at as int);
            lemma_value_tail(uid@, at as int);
        }
        let shifted: usize = match result.checked_mul(BASE) {
            Some(x) => x,
            None => { return None; },
        };
        result = match shifted.checked_add(v) {
            Some(x) => x,
            None => { return None; },
        };
    }
    assert(uid@.subrange(0, n as int) =~= uid@);
    Some(result)
}

} // verus!
