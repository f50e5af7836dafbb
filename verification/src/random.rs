//! The pseudo-random generator behind every identifier.
//!
//! The state is four 64-bit words. A draw reads one output from the state and
//! then moves the state on by a fixed rotate-and-xor transform. A generator
//! starts blank (all words zero) and seeds itself from the wall clock on its
//! first draw; once any word is non-zero it is never seeded again unless
//! asked to.
//!
//! Two generators seeded in the same nanosecond produce the same stream.
use std::time::SystemTime;
use vstd::prelude::*;

verus! {

/// The four state words as contracts see them.
pub struct State {
    pub s0: u64,
    pub s1: u64,
    pub s2: u64,
    pub s3: u64,
}

/// `x` rotated left by `k` bits, for `0 < k < 64`.
pub open spec fn rotate_left(x: u64, k: u64) -> u64 {
    (x << k) | (x >> ((64 - k) as u64))
}

impl State {
    /// The state of a generator that has never been seeded.
    pub open spec fn blank() -> State {
        State { s0: 0, s1: 0, s2: 0, s3: 0 }
    }

    pub open spec fn is_blank(self) -> bool {
        self.s0 == 0 && self.s1 == 0 && self.s2 == 0 && self.s3 == 0
    }

    /// The state that seeding at `now` nanoseconds since the epoch produces.
    ///
    /// Only the low 64 bits of `now` take part. Each word is that value xored
    /// with a constant of its own; the second word scales it by 50000 first.
    pub open spec fn seeded(now: u128) -> State {
        let low = now as u64;
        State {
            s0: low ^ 4690481050117892527,
            s1: low.wrapping_mul(50000) ^ 13682126131931052725,
            s2: low ^ 9639264971936262885,
            s3: low ^ 6412797481073129502,
        }
    }

    /// The state that the next draw reads: `self`, or, for a blank state, the
    /// one seeded at `now`.
    pub open spec fn primed(self, now: u128) -> State {
        if self.is_blank() {
            State::seeded(now)
        } else {
            self
        }
    }

    /// The 64-bit value that a draw from this state returns.
    pub open spec fn output(self) -> u64 {
        rotate_left(self.s1.wrapping_mul(5), 7).wrapping_mul(9)
    }

    /// The 32-bit value that a draw from this state returns: the top half of
    /// [`State::output`].
    pub open spec fn output32(self) -> u32 {
        (self.output() >> 32) as u32
    }

    /// The state that follows this one after a draw.
    pub open spec fn advance(self) -> State {
        let t = self.s1 << 17;
        let s2 = self.s2 ^ self.s0;
        let s3 = self.s3 ^ self.s1;
        let s1 = self.s1 ^ s2;
        let s0 = self.s0 ^ s3;
        State { s0, s1, s2: s2 ^ t, s3: rotate_left(s3, 45) }
    }

    /// The state after `n` draws from this, already seeded, state.
    pub open spec fn advance_by(self, n: nat) -> State
        decreases n,
    {
        if n == 0 {
            self
        } else {
            self.advance_by((n - 1) as nat).advance()
        }
    }

    /// The state of a generator after `n` draws, where a first draw from a
    /// blank state seeds it at `now`. Without a draw nothing is seeded.
    pub open spec fn after(self, now: u128, n: nat) -> State {
        if n == 0 {
            self
        } else {
            self.primed(now).advance_by(n)
        }
    }
}

/// Seeding never produces the blank state, whatever the clock reads.
pub proof fn lemma_seeded_not_blank(now: u128)
    ensures
        !State::seeded(now).is_blank(),
{
    let low = now as u64;
    assert((low ^ 4690481050117892527) != 0 || (low ^ 9639264971936262885) != 0) by (bit_vector);
}

/// A draw never turns a seeded state into the blank one, so a generator that
/// has been seeded once stays seeded.
pub proof fn lemma_advance_not_blank(s: State)
    requires
        !s.is_blank(),
    ensures
        !s.advance().is_blank(),
{
    let a = s.s0;
    let b = s.s1;
    let c = s.s2;
    let d = s.s3;
    assert(((a ^ (d ^ b)) == 0 && (b ^ (c ^ a)) == 0 && ((c ^ a) ^ (b << 17)) == 0 && rotate_left(
        d ^ b,
        45,
    ) == 0) ==> (a == 0 && b == 0 && c == 0 && d == 0)) by (bit_vector);
}

/// No number of draws turns a seeded state into the blank one.
pub proof fn lemma_advance_by_not_blank(s: State, n: nat)
    requires
        !s.is_blank(),
    ensures
        !s.advance_by(n).is_blank(),
    decreases n,
{
    if n > 0 {
        lemma_advance_by_not_blank(s, (n - 1) as nat);
        lemma_advance_not_blank(s.advance_by((n - 1) as nat));
    }
}

/// Draws add up: `a + b` draws are `a` draws followed by `b` more.
pub proof fn lemma_advance_by_add(s: State, a: nat, b: nat)
    ensures
        s.advance_by(a + b) == s.advance_by(a).advance_by(b),
    decreases b,
{
    if b > 0 {
        lemma_advance_by_add(s, a, (b - 1) as nat);
        assert(a + b - 1 == a + (b - 1));
    }
}

/// After at least one draw the state is seeded, wherever it started.
pub proof fn lemma_after_not_blank(s: State, now: u128, n: nat)
    requires
        n > 0,
    ensures
        !s.after(now, n).is_blank(),
{
    lemma_seeded_not_blank(now);
    lemma_advance_by_not_blank(s.primed(now), n);
}

/// Draws add up across lazy seeding too: `a` draws and then `b` more, the
/// second run begun at any later instant, are `a + b` draws begun at `now`.
pub proof fn lemma_after_add(s: State, now: u128, later: u128, a: nat, b: nat)
    requires
        a > 0,
    ensures
        s.after(now, a).after(later, b) == s.after(now, a + b),
{
    lemma_after_not_blank(s, now, a);
    lemma_advance_by_add(s.primed(now), a, b);
}

/// Nanoseconds since the Unix epoch by the system clock, from
/// `SystemTime::now().duration_since(UNIX_EPOCH)` and `Duration::as_nanos`;
/// `None` where the clock reads earlier than the epoch. Nothing is claimed of
/// the value: it differs from call to call.
#[verifier::external_body]
fn nanos_since_epoch() -> Option<u128> {
    match SystemTime::now().duration_since(SystemTime::UNIX_EPOCH) {
        Ok(elapsed) => Some(elapsed.as_nanos()),
        Err(_) => None,
    }
}

fn rotl(x: u64, k: u32) -> (r: u64)
    requires
        0 < k < 64,
    ensures
        r == rotate_left(x, k as u64),
{
    let back: u32 = 64 - k;
    assert(x >> back == x >> ((64 - k as u64) as u64)) by (bit_vector)
        requires
            back == 64 - k,
            0 < k < 64,
    ;
    assert(x << k == x << (k as u64)) by (bit_vector);
    (x << k) | (x >> back)
}

/// A pseudo-random generator of the xorshift family.
pub struct PseudoRandom {
    s: [u64; 4],
}

impl View for PseudoRandom {
    type V = State;

    closed spec fn view(&self) -> State {
        State { s0: self.s[0], s1: self.s[1], s2: self.s[2], s3: self.s[3] }
    }
}

impl PseudoRandom {
    /// A blank generator. It seeds itself from the clock on its first draw.
    pub fn new() -> (rng: PseudoRandom)
        ensures
            rng@ == State::blank(),
    {
        PseudoRandom { s: [0, 0, 0, 0] }
    }

    /// Seeds the generator as if the clock read `now` nanoseconds since the
    /// epoch, discarding whatever state it had.
    pub fn seed_from_nanos(&mut self, now: u128)
        ensures
            final(self)@ == State::seeded(now),
    {
        let low: u64 = #[verifier::truncate] (now as u64);
        self.s = [
            low ^ 4690481050117892527,
            low.wrapping_mul(50000) ^ 13682126131931052725,
            low ^ 9639264971936262885,
            low ^ 6412797481073129502,
        ];
    }

    /// Seeds the generator from the wall clock, discarding whatever state it
    /// had. A clock that reads earlier than the epoch counts as zero.
    pub fn seed(&mut self)
        ensures
            exists|now: u128| final(self)@ == #[trigger] State::seeded(now),
    {
        let now: u128 = match nanos_since_epoch() {
            Some(nanos) => nanos,
            None => 0,
        };
        self.seed_from_nanos(now);
    }

    /// Draws 64 bits. A blank generator seeds itself from the clock first,
    /// at some instant `now`; a seeded one is not seeded again.
    pub fn next_u64(&mut self) -> (r: u64)
        ensures
            exists|now: u128|
                r == (#[trigger] old(self)@.primed(now)).output() && final(self)@ == old(
                    self,
                )@.after(now, 1),
            !old(self)@.is_blank() ==> r == old(self)@.output() && final(self)@ == old(
                self,
            )@.advance(),
            !final(self)@.is_blank(),
    {
        let ghost before = self@;
        let ghost mut now: u128 = 0;
        if self.s[0] == 0 && self.s[1] == 0 && self.s[2] == 0 && self.s[3] == 0 {
            self.seed();
            proof {
                now = choose|t: u128| self@ == #[trigger] State::seeded(t);
            }
        }
        assert(self@ == before.primed(now));
        let next: u64 = rotl(self.s[1].wrapping_mul(5), 7).wrapping_mul(9);
        let t: u64 = self.s[1] << 17;
        let s2: u64 = self.s[2] ^ self.s[0];
        let s3: u64 = self.s[3] ^ self.s[1];
        let s1: u64 = self.s[1] ^ s2;
        let s0: u64 = self.s[0] ^ s3;
        self.s = [s0, s1, s2 ^ t, rotl(s3, 45)];
        proof {
            let start = before.primed(now);
            assert(start.advance_by(0) == start);
            assert(start.advance_by(1) == start.advance());
            lemma_after_not_blank(before, now, 1);
        }
        next
    }

    /// Draws 32 bits: the top half of a 64-bit draw.
    pub fn next_u32(&mut self) -> (r: u32)
        ensures
            exists|now: u128|
                r == (#[trigger] old(self)@.primed(now)).output32() && final(self)@ == old(
                    self,
                )@.after(now, 1),
            !old(self)@.is_blank() ==> r == old(self)@.output32() && final(self)@ == old(
                self,
            )@.advance(),
            !final(self)@.is_blank(),
    {
        let wide: u64 = self.next_u64();
        let top: u64 = wide >> 32;
        assert(top <= 0xffff_ffff) by (bit_vector)
            requires
                top == wide >> 32,
        ;
        top as u32
    }
}

} // verus!
