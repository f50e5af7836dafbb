//! Random strings drawn from a [`PseudoRandom`].
//!
//! A string is made in one of two ways: with a fixed number of characters,
//! each picked from an [`Alphabet`] by one 32-bit draw, or as the base62 text
//! of one number drawn below a bound. A draw is reduced by the remainder of a
//! division, so symbols and numbers are not perfectly evenly spread unless the
//! size divides the range of the draw; no draw is ever thrown away to even
//! this out.
use crate::codec::decodes_below;
use crate::codec::encode;
use crate::codec::is_symbol;
use crate::codec::lemma_decode_encode;
use crate::codec::number_to_uid;
use crate::codec::symbol;
use crate::codec::symbol_of;
use crate::random::lemma_after_not_blank;
use crate::random::PseudoRandom;
use crate::random::State;
use vstd::prelude::*;

verus! {

/// The symbols of [`Alphabet::Human`]: the 50 letters and digits that are
/// left of base62 without those that are easily taken for one another.
///
/// Twelve characters are left out. Eight of them are the usual ones: `I`,
/// `l` and `1`, `O` and `0`, and with them `L`, `i` and `o`, so that neither
/// case of a doubtful letter is used. The other four are a choice made here,
/// for the two pairs that handwriting and narrow fonts blur next most often:
/// `S` and `5`, `Z` and `2`.
pub const HUMAN: [char; 50] = [
    'A', 'B', 'C', 'D', 'E', 'F', 'G', 'H', 'J', 'K', 'M', 'N', 'P', 'Q', 'R', 'T', 'U', 'V',
    'W', 'X', 'Y', 'a', 'b', 'c', 'd', 'e', 'f', 'g', 'h', 'j', 'k', 'm', 'n', 'p', 'q', 'r',
    's', 't', 'u', 'v', 'w', 'x', 'y', 'z', '3', '4', '6', '7', '8', '9',
];

/// The symbols that a fixed-length string is made of.
#[derive(Clone, Copy, Debug)]
pub enum Alphabet {
    /// All 62 symbols of base62.
    Full,
    /// The 50 symbols of [`HUMAN`]: base62 without `I`, `L`, `O`, `S`, `Z`,
    /// `i`, `l`, `o`, `0`, `1`, `2` and `5`.
    Human,
    /// The ten decimal digits.
    Digits,
}

/// Whether `c` is one of the characters that [`Alphabet::Human`] leaves out.
pub open spec fn is_confusable(c: char) -> bool {
    c == 'I' || c == 'L' || c == 'O' || c == 'S' || c == 'Z' || c == 'i' || c == 'l' || c == 'o'
        || c == '0' || c == '1' || c == '2' || c == '5'
}

impl Alphabet {
    /// The symbols in the order in which a draw picks them.
    pub open spec fn symbols(self) -> Seq<char> {
        match self {
            Alphabet::Full => Seq::new(62, |d: int| symbol(d)),
            Alphabet::Human => HUMAN@,
            Alphabet::Digits => Seq::new(10, |d: int| ('0' as int + d) as char),
        }
    }

    /// The symbol that the 32-bit draw `draw` picks: the one at the remainder
    /// of `draw` by the number of symbols.
    pub open spec fn pick(self, draw: u32) -> char {
        self.symbols()[draw as int % self.symbols().len() as int]
    }

    /// How many symbols the alphabet has.
    pub fn size(self) -> (n: u32)
        ensures
            n == self.symbols().len(),
            n > 0,
    {
        match self {
            Alphabet::Full => 62,
            Alphabet::Human => 50,
            Alphabet::Digits => 10,
        }
    }

    /// The symbol at `index`.
    pub fn symbol_at(self, index: u32) -> (c: char)
        requires
            index < self.symbols().len(),
        ensures
            c == self.symbols()[index as int],
    {
        match self {
            Alphabet::Full => symbol_of(index as usize),
            Alphabet::Human => HUMAN[index as usize],
            Alphabet::Digits => ('0' as u8 + index as u8) as char,
        }
    }
}

/// The character code of the human symbol at `index`, run by run: the
/// alphabet is eleven unbroken runs of letters or digits.
pub open spec fn human_code(index: int) -> int {
    if index < 8 {
        'A' as int + index
    } else if index < 10 {
        'J' as int + index - 8
    } else if index < 12 {
        'M' as int + index - 10
    } else if index < 15 {
        'P' as int + index - 12
    } else if index < 21 {
        'T' as int + index - 15
    } else if index < 29 {
        'a' as int + index - 21
    } else if index < 31 {
        'j' as int + index - 29
    } else if index < 33 {
        'm' as int + index - 31
    } else if index < 44 {
        'p' as int + index - 33
    } else if index < 46 {
        '3' as int + index - 44
    } else {
        '6' as int + index - 46
    }
}

/// Each human symbol has the code that its run gives it.
pub proof fn lemma_human_code(index: int)
    requires
        0 <= index < 50,
    ensures
        HUMAN@[index] as int == human_code(index),
{
    if index < 12 {
        if index < 8 {
            assert(HUMAN@[index] == ('A' as int + index) as char);
        } else if index < 10 {
            assert(HUMAN@[index] == ('J' as int + index - 8) as char);
        } else {
            assert(HUMAN@[index] == ('M' as int + index - 10) as char);
        }
    } else if index < 21 {
        if index < 15 {
            assert(HUMAN@[index] == ('P' as int + index - 12) as char);
        } else {
            assert(HUMAN@[index] == ('T' as int + index - 15) as char);
        }
    } else if index < 33 {
        if index < 29 {
            assert(HUMAN@[index] == ('a' as int + index - 21) as char);
        } else if index < 31 {
            assert(HUMAN@[index] == ('j' as int + index - 29) as char);
        } else {
            assert(HUMAN@[index] == ('m' as int + index - 31) as char);
        }
    } else if index < 44 {
        assert(HUMAN@[index] == ('p' as int + index - 33) as char);
    } else if index < 46 {
        assert(HUMAN@[index] == ('3' as int + index - 44) as char);
    } else {
        assert(HUMAN@[index] == ('6' as int + index - 46) as char);
    }
}

/// The human alphabet is part of base62 and holds none of the twelve
/// confusable characters.
pub proof fn lemma_human_symbols(index: int)
    requires
        0 <= index < 50,
    ensures
        is_symbol(HUMAN@[index]),
        !is_confusable(HUMAN@[index]),
{
    lemma_human_code(index);
}

/// No symbol stands twice in the human alphabet: its 50 symbols are 50
/// different characters.
pub proof fn lemma_human_distinct(i: int, j: int)
    requires
        0 <= i < j < 50,
    ensures
        HUMAN@[i] != HUMAN@[j],
{
    lemma_human_code(i);
    lemma_human_code(j);
}

/// Every base62 symbol is either confusable or in the human alphabet: the
/// twelve confusable characters are all that the alphabet leaves out.
pub proof fn lemma_human_complete(c: char)
    requires
        is_symbol(c),
        !is_confusable(c),
    ensures
        exists|index: int| 0 <= index < 50 && HUMAN@[index] == c,
{
    let code = c as int;
    let index = if code <= 'H' as int && code >= 'A' as int {
        code - 'A' as int
    } else if code <= 'K' as int && code >= 'J' as int {
        code - 'J' as int + 8
    } else if code <= 'N' as int && code >= 'M' as int {
        code - 'M' as int + 10
    } else if code <= 'R' as int && code >= 'P' as int {
        code - 'P' as int + 12
    } else if code <= 'Y' as int && code >= 'T' as int {
        code - 'T' as int + 15
    } else if code <= 'h' as int && code >= 'a' as int {
        code - 'a' as int + 21
    } else if code <= 'k' as int && code >= 'j' as int {
        code - 'j' as int + 29
    } else if code <= 'n' as int && code >= 'm' as int {
        code - 'm' as int + 31
    } else if code <= 'z' as int && code >= 'p' as int {
        code - 'p' as int + 33
    } else if code <= '4' as int && code >= '3' as int {
        code - '3' as int + 44
    } else {
        code - '6' as int + 46
    };
    assert(0 <= index < 50);
    lemma_human_code(index);
    assert(HUMAN@[index] == c);
}

/// The string of `length` characters that draws beginning at the seeded state
/// `start` pick from `alphabet`, one draw for each character.
pub open spec fn fixed_string(start: State, length: nat, alphabet: Alphabet) -> Seq<char> {
    Seq::new(length, |i: int| alphabet.pick(start.advance_by(i as nat).output32()))
}

/// The number below `max` that a draw from the seeded state `start` gives: a
/// 64-bit draw for a bound beyond 32 bits, else a 32-bit draw, reduced by the
/// remainder of the division by `max`.
pub open spec fn bounded_number(start: State, max: nat) -> nat
    recommends
        max > 0,
{
    if max > u32::MAX {
        start.output() as nat % max
    } else {
        start.output32() as nat % max
    }
}

/// What to generate: the two ways of making a string, with their settings.
#[derive(Clone, Copy, Debug)]
pub enum Recipe {
    /// `length` characters picked from `alphabet`.
    Fixed { length: usize, alphabet: Alphabet },
    /// The base62 text of a number drawn from `0` up to, not including, `max`.
    Bounded { max: usize },
}

impl Recipe {
    /// A bound must leave room for at least one number.
    pub open spec fn valid(self) -> bool {
        match self {
            Recipe::Fixed { length, alphabet } => true,
            Recipe::Bounded { max } => max > 0,
        }
    }

    /// How many draws one string takes.
    pub open spec fn draws(self) -> nat {
        match self {
            Recipe::Fixed { length, alphabet } => length as nat,
            Recipe::Bounded { max } => 1,
        }
    }

    /// The string that draws beginning at the seeded state `start` make.
    pub open spec fn render(self, start: State) -> Seq<char> {
        match self {
            Recipe::Fixed { length, alphabet } => fixed_string(start, length as nat, alphabet),
            Recipe::Bounded { max } => encode(bounded_number(start, max as nat)),
        }
    }

    /// Whether `id` is a string of the kind that this recipe makes: of the
    /// length and over the alphabet asked for, or the base62 text of a number
    /// below the bound.
    pub open spec fn makes(self, id: Seq<char>) -> bool {
        match self {
            Recipe::Fixed { length, alphabet } => {
                &&& id.len() == length
                &&& forall|i: int|
                    0 <= i < id.len() ==> alphabet.symbols().contains(#[trigger] id[i])
            },
            Recipe::Bounded { max } => decodes_below(id, max as nat),
        }
    }

    /// The `k`-th string of a run, counted from 0, where one string after
    /// another is drawn beginning at the seeded state `start`.
    pub open spec fn candidate(self, start: State, k: nat) -> Seq<char> {
        self.render(start.advance_by(k * self.draws()))
    }
}

/// A recipe that takes no draw makes the same string from any state.
pub proof fn lemma_render_without_draws(recipe: Recipe, a: State, b: State)
    requires
        recipe.draws() == 0,
    ensures
        recipe.render(a) == recipe.render(b),
{
    match recipe {
        Recipe::Fixed { length, alphabet } => {
            assert(fixed_string(a, 0, alphabet) =~= fixed_string(b, 0, alphabet));
        },
        Recipe::Bounded { max } => {},
    }
}

/// Every character of a fixed-length string is a symbol of its alphabet.
pub proof fn lemma_fixed_string_symbols(start: State, length: nat, alphabet: Alphabet, i: int)
    requires
        0 <= i < length,
    ensures
        alphabet.symbols().contains(fixed_string(start, length, alphabet)[i]),
{
    let draw = start.advance_by(i as nat).output32();
    let size = alphabet.symbols().len() as int;
    assert(0 <= draw as int % size < size);
    assert(alphabet.symbols()[draw as int % size] == fixed_string(start, length, alphabet)[i]);
}

/// Whatever state the draws begin at, a recipe renders a string of the kind
/// that it makes.
pub proof fn lemma_render_makes(recipe: Recipe, start: State)
    requires
        recipe.valid(),
    ensures
        recipe.makes(recipe.render(start)),
{
    match recipe {
        Recipe::Fixed { length, alphabet } => {
            let id = fixed_string(start, length as nat, alphabet);
            assert forall|i: int| 0 <= i < id.len() implies alphabet.symbols().contains(
                #[trigger] id[i],
            ) by {
                lemma_fixed_string_symbols(start, length as nat, alphabet, i);
            }
        },
        Recipe::Bounded { max } => {
            lemma_decode_encode(bounded_number(start, max as nat));
        },
    }
}

/// No character of a fixed-length string over the human alphabet is
/// confusable.
pub proof fn lemma_human_string_clear(start: State, length: nat, i: int)
    requires
        0 <= i < length,
    ensures
        !is_confusable(fixed_string(start, length, Alphabet::Human)[i]),
{
    let draw = start.advance_by(i as nat).output32();
    lemma_human_symbols(draw as int % 50);
}

/// A string of `length` characters, each picked from `alphabet` by one 32-bit
/// draw.
pub fn fixed_length(rng: &mut PseudoRandom, length: usize, alphabet: Alphabet) -> (r: String)
    ensures
        r@.len() == length,
        exists|now: u128|
            r@ == fixed_string(#[trigger] old(rng)@.primed(now), length as nat, alphabet)
                && final(rng)@ == old(rng)@.after(now, length as nat),
{
    let ghost begin = rng@;
    let ghost mut now: u128 = 0;
    let size: u32 = alphabet.size();
    let mut result = String::new();
    let mut i: usize = 0;
    while i < length
        invariant
            i <= length,
            size == alphabet.symbols().len(),
            size > 0,
            rng@ == begin.after(now, i as nat),
            result@ == fixed_string(begin.primed(now), i as nat, alphabet),
        decreases length - i,
    {
        let ghost before = rng@;
        let draw: u32 = rng.next_u32();
        proof {
            let t = choose|t: u128|
                draw == (#[trigger] before.primed(t)).output32() && rng@ == before.after(t, 1);
            if i == 0 {
                now = t;
            } else {
                lemma_after_not_blank(begin, now, i as nat);
            }
            let start = begin.primed(now);
            let drawn_from = before.primed(t);
            assert(start.advance_by(0) == start);
            assert(drawn_from.advance_by(0) == drawn_from);
            assert(drawn_from.advance_by(1) == drawn_from.advance());
            assert(drawn_from == start.advance_by(i as nat));
            assert(rng@ == start.advance_by((i + 1) as nat));
            assert(result@.push(alphabet.pick(draw)) =~= fixed_string(
                start,
                (i + 1) as nat,
                alphabet,
            ));
        }
        let c: char = alphabet.symbol_at(draw % size);
        result.push(c);
        i = i + 1;
    }
    result
}

/// A random base62 string of `length` characters.
pub fn random_string(rng: &mut PseudoRandom, length: usize) -> (r: String)
    ensures
        r@.len() == length,
        exists|now: u128|
            r@ == fixed_string(#[trigger] old(rng)@.primed(now), length as nat, Alphabet::Full)
                && final(rng)@ == old(rng)@.after(now, length as nat),
{
    fixed_length(rng, length, Alphabet::Full)
}

/// A random string of `length` decimal digits.
pub fn random_number(rng: &mut PseudoRandom, length: usize) -> (r: String)
    ensures
        r@.len() == length,
        exists|now: u128|
            r@ == fixed_string(#[trigger] old(rng)@.primed(now), length as nat, Alphabet::Digits)
                && final(rng)@ == old(rng)@.after(now, length as nat),
{
    fixed_length(rng, length, Alphabet::Digits)
}

/// A random string of `length` characters over the 50 symbols of [`HUMAN`],
/// which leave out those that are easily taken for one another.
pub fn human_random_string(rng: &mut PseudoRandom, length: usize) -> (r: String)
    ensures
        r@.len() == length,
        forall|i: int| 0 <= i < r@.len() ==> !is_confusable(#[trigger] r@[i]),
        exists|now: u128|
            r@ == fixed_string(#[trigger] old(rng)@.primed(now), length as nat, Alphabet::Human)
                && final(rng)@ == old(rng)@.after(now, length as nat),
{
    let ghost begin = rng@;
    let r = fixed_length(rng, length, Alphabet::Human);
    proof {
        let now = choose|now: u128|
            r@ == fixed_string(#[trigger] begin.primed(now), length as nat, Alphabet::Human);
        assert forall|i: int| 0 <= i < r@.len() implies !is_confusable(#[trigger] r@[i]) by {
            lemma_human_string_clear(begin.primed(now), length as nat, i);
        }
    }
    r
}

/// The base62 text of a random number from `0` up to, not including,
/// `maximum_size`. One draw is taken: 64 bits wide where the bound is beyond
/// 32 bits, else 32 bits wide.
pub fn random_max_size(rng: &mut PseudoRandom, maximum_size: usize) -> (r: String)
    requires
        maximum_size > 0,
    ensures
        exists|now: u128|
            r@ == encode(bounded_number(#[trigger] old(rng)@.primed(now), maximum_size as nat))
                && final(rng)@ == old(rng)@.after(now, 1),
        decodes_below(r@, maximum_size as nat),
{
    let ghost begin = rng@;
    let uid: usize;
    if maximum_size > 0xffff_ffff {
        let draw: u64 = rng.next_u64();
        uid = (draw % (maximum_size as u64)) as usize;
    } else {
        let draw: u32 = rng.next_u32();
        uid = (draw % (maximum_size as u32)) as usize;
    }
    proof {
        lemma_decode_encode(uid as nat);
    }
    number_to_uid(uid)
}

/// The string that `recipe` describes.
pub fn generate(rng: &mut PseudoRandom, recipe: Recipe) -> (r: String)
    requires
        recipe.valid(),
    ensures
        recipe.makes(r@),
        exists|now: u128|
            r@ == recipe.render(#[trigger] old(rng)@.primed(now)) && final(rng)@ == old(
                rng,
            )@.after(now, recipe.draws()),
{
    let ghost begin = rng@;
    let r = match recipe {
        Recipe::Fixed { length, alphabet } => fixed_length(rng, length, alphabet),
        Recipe::Bounded { max } => random_max_size(rng, max),
    };
    proof {
        let now = choose|now: u128| r@ == recipe.render(#[trigger] begin.primed(now));
        lemma_render_makes(recipe, begin.primed(now));
    }
    r
}

} // verus!
