//! The identifier store: every string it has handed out or been told of,
//! each exactly once.
//!
//! To issue an identifier the store generates one candidate after another and
//! takes the first that it does not hold yet. There is no cap on the number of
//! attempts. A request that no candidate can ever satisfy, such as a second
//! string of length zero, is a mistake of the caller: the contracts leave such
//! requests out, and compiled code that makes one anyway retries for ever.
//! [`UidStore::issue_within`] is the way in for a caller that cannot tell: it
//! stops after a number of attempts of the caller's choosing and says so.
//!
//! A store is not synchronised: it is meant to have one owner at a time.
use crate::codec::decodes_below;
use crate::generate::generate;
use crate::generate::is_confusable;
use crate::generate::lemma_human_string_clear;
use crate::generate::lemma_render_makes;
use crate::generate::lemma_render_without_draws;
use crate::generate::Alphabet;
use crate::generate::Recipe;
use crate::random::lemma_advance_by_add;
use crate::random::lemma_after_not_blank;
use crate::random::PseudoRandom;
use crate::random::State;
use vstd::hash_set::StringHashSet;
use vstd::prelude::*;

verus! {

/// Whether the first `k` candidates of a run are all among `taken` and the
/// one after them is not. At most one `k` is.
pub open spec fn first_fresh(taken: Set<Seq<char>>, recipe: Recipe, start: State, k: nat) -> bool {
    &&& forall|i: nat| i < k ==> taken.contains(#[trigger] recipe.candidate(start, i))
    &&& !taken.contains(recipe.candidate(start, k))
}

/// Whether a run of candidates from the seeded state `start` ever leaves
/// `taken`.
pub open spec fn eventually_fresh(taken: Set<Seq<char>>, recipe: Recipe, start: State) -> bool {
    exists|k: nat| !taken.contains(#[trigger] recipe.candidate(start, k))
}

/// Whether a store that holds `taken` can issue by `recipe` with a generator
/// in state `begin`: the run of candidates leaves `taken` at some point,
/// whenever a blank generator happens to be seeded.
pub open spec fn can_issue(taken: Set<Seq<char>>, begin: State, recipe: Recipe) -> bool {
    forall|now: u128| eventually_fresh(taken, recipe, #[trigger] begin.primed(now))
}

/// What issuing by `recipe` does: `id` is the first candidate of the run that
/// is not among `taken`, and `end` is the generator's state after the draws
/// for it and for every candidate before it.
pub open spec fn issued(
    taken: Set<Seq<char>>,
    begin: State,
    recipe: Recipe,
    id: Seq<char>,
    end: State,
) -> bool {
    exists|now: u128, k: nat|
        {
            &&& #[trigger] first_fresh(taken, recipe, begin.primed(now), k)
            &&& id == recipe.candidate(begin.primed(now), k)
            &&& end == begin.after(now, (k + 1) * recipe.draws())
        }
}

/// Whether the first `attempts` candidates of a run are all among `taken`.
pub open spec fn all_taken(
    taken: Set<Seq<char>>,
    recipe: Recipe,
    start: State,
    attempts: nat,
) -> bool {
    forall|i: nat| i < attempts ==> taken.contains(#[trigger] recipe.candidate(start, i))
}

/// What issuing within `attempts` candidates does where it succeeds: as
/// [`issued`], and `id` is one of the first `attempts` candidates.
pub open spec fn issued_within(
    taken: Set<Seq<char>>,
    begin: State,
    recipe: Recipe,
    attempts: nat,
    id: Seq<char>,
    end: State,
) -> bool {
    exists|now: u128, k: nat|
        {
            &&& k < attempts
            &&& #[trigger] first_fresh(taken, recipe, begin.primed(now), k)
            &&& id == recipe.candidate(begin.primed(now), k)
            &&& end == begin.after(now, (k + 1) * recipe.draws())
        }
}

/// What issuing within `attempts` candidates does where it gives up: each of
/// the first `attempts` candidates is among `taken`, and `end` is the
/// generator's state after the draws for all of them.
pub open spec fn exhausted(
    taken: Set<Seq<char>>,
    begin: State,
    recipe: Recipe,
    attempts: nat,
    end: State,
) -> bool {
    exists|now: u128|
        {
            &&& #[trigger] all_taken(taken, recipe, begin.primed(now), attempts)
            &&& end == begin.after(now, attempts * recipe.draws())
        }
}

/// How many more candidates a run may need after `tried` of them: the
/// distance to some candidate that is not among `taken`.
pub open spec fn retries_left(
    taken: Set<Seq<char>>,
    recipe: Recipe,
    start: State,
    tried: nat,
) -> int {
    (choose|k: nat| !taken.contains(#[trigger] recipe.candidate(start, k))) - tried
}

/// An empty store can always issue: the first candidate is new to it.
pub proof fn lemma_empty_can_issue(begin: State, recipe: Recipe)
    ensures
        can_issue(Set::empty(), begin, recipe),
{
    assert forall|now: u128|
        eventually_fresh(Set::empty(), recipe, #[trigger] begin.primed(now)) by {
        assert(!Set::<Seq<char>>::empty().contains(recipe.candidate(begin.primed(now), 0)));
    }
}

/// An empty store never gives up: with at least one attempt allowed, the
/// first candidate is new to it.
pub proof fn lemma_empty_never_exhausted(begin: State, recipe: Recipe, attempts: nat, end: State)
    requires
        attempts > 0,
    ensures
        !exhausted(Set::empty(), begin, recipe, attempts, end),
{
    assert forall|now: u128| !#[trigger] all_taken(
        Set::empty(),
        recipe,
        begin.primed(now),
        attempts,
    ) by {
        assert(!Set::<Seq<char>>::empty().contains(recipe.candidate(begin.primed(now), 0)));
    }
}

/// A store that holds no string of `length` characters can always issue one
/// of that length.
pub proof fn lemma_other_lengths_can_issue(
    taken: Set<Seq<char>>,
    begin: State,
    length: usize,
    alphabet: Alphabet,
)
    requires
        forall|s: Seq<char>| taken.contains(s) ==> s.len() != length,
    ensures
        can_issue(taken, begin, Recipe::Fixed { length, alphabet }),
{
    let recipe = Recipe::Fixed { length, alphabet };
    assert forall|now: u128| eventually_fresh(taken, recipe, #[trigger] begin.primed(now)) by {
        let first = recipe.candidate(begin.primed(now), 0);
        assert(first.len() == length);
        assert(!taken.contains(first));
    }
}

/// Identifiers issued one after another are all different, and the store
/// grows by one with each: if `stores[0]` is empty and each `ids[i]` is new
/// to `stores[i]` and makes `stores[i + 1]` of it, then the last store holds
/// as many strings as were issued, and no two of `ids` are the same.
pub proof fn lemma_issued_all_distinct(ids: Seq<Seq<char>>, stores: Seq<Set<Seq<char>>>)
    requires
        stores.len() == ids.len() + 1,
        stores[0] == Set::<Seq<char>>::empty(),
        forall|i: int|
            0 <= i < ids.len() ==> !stores[i].contains(#[trigger] ids[i]) && stores[i + 1]
                == stores[i].insert(ids[i]),
    ensures
        stores.last().finite(),
        stores.last().len() == ids.len(),
        forall|i: int| 0 <= i < ids.len() ==> stores.last().contains(#[trigger] ids[i]),
        forall|i: int, j: int| 0 <= i < j < ids.len() ==> ids[i] != ids[j],
    decreases ids.len(),
{
    if ids.len() > 0 {
        let n = ids.len() - 1;
        let fewer = ids.subrange(0, n);
        let before = stores.subrange(0, n + 1);
        assert forall|i: int| 0 <= i < fewer.len() implies !before[i].contains(
            #[trigger] fewer[i],
        ) && before[i + 1] == before[i].insert(fewer[i]) by {
            assert(fewer[i] == ids[i]);
        }
        lemma_issued_all_distinct(fewer, before);
        assert(before.last() == stores[n]);
        assert(stores.last() == stores[n].insert(ids[n]));
        assert forall|i: int| 0 <= i < ids.len() implies stores.last().contains(
            #[trigger] ids[i],
        ) by {
            if i < n {
                assert(fewer[i] == ids[i]);
            }
        }
        assert forall|i: int, j: int| 0 <= i < j < ids.len() implies ids[i] != ids[j] by {
            assert(fewer[i] == ids[i]);
            if j < n {
                assert(fewer[j] == ids[j]);
            } else {
                assert(stores[n].contains(fewer[i]));
            }
        }
    }
}

/// The identifiers in use.
pub struct UidStore {
    items: StringHashSet,
}

impl View for UidStore {
    type V = Set<Seq<char>>;

    closed spec fn view(&self) -> Set<Seq<char>> {
        self.items@
    }
}

impl UidStore {
    /// A store holds finitely many identifiers. Every store that this
    /// module makes or changes does.
    pub open spec fn wf(&self) -> bool {
        self@.finite()
    }

    /// An empty store.
    pub fn new() -> (store: UidStore)
        ensures
            store.wf(),
            store@ == Set::<Seq<char>>::empty(),
    {
        UidStore { items: StringHashSet::new() }
    }

    /// Whether `id` is in use.
    pub fn contains(&self, id: &str) -> (r: bool)
        ensures
            r == self@.contains(id@),
    {
        self.items.contains(id)
    }

    /// How many identifiers are in use.
    pub fn size(&self) -> (r: usize)
        ensures
            r == self@.len(),
    {
        self.items.len()
    }

    /// Issues an identifier made by `recipe`: generates candidates until one
    /// is new to the store, records it and returns it.
    pub fn issue<'a>(&'a mut self, rng: &mut PseudoRandom, recipe: Recipe) -> (r: &'a String)
        requires
            old(self).wf(),
            recipe.valid(),
            can_issue(old(self)@, old(rng)@, recipe),
        ensures
            final(self).wf(),
            recipe.makes(r@),
            !old(self)@.contains(r@),
            final(self)@ == old(self)@.insert(r@),
            final(self)@.len() == old(self)@.len() + 1,
            issued(old(self)@, old(rng)@, recipe, r@, final(rng)@),
    {
        let ghost taken = self@;
        let ghost begin = rng@;
        let ghost mut now: u128 = 0;
        let ghost mut tried: nat = 0;
        loop
            invariant
                recipe.valid(),
                taken == old(self)@,
                begin == old(rng)@,
                self@ == taken,
                taken.finite(),
                can_issue(taken, begin, recipe),
                rng@ == begin.after(now, tried * recipe.draws()),
                forall|i: nat|
                    i < tried ==> taken.contains(
                        #[trigger] recipe.candidate(begin.primed(now), i),
                    ),
            decreases
                    (if tried == 0 {
                        1nat
                    } else {
                        0nat
                    }),
                    retries_left(taken, recipe, begin.primed(now), tried),
        {
            let ghost before = rng@;
            let id = generate(rng, recipe);
            proof {
                let t = choose|t: u128|
                    id@ == recipe.render(#[trigger] before.primed(t)) && rng@ == before.after(
                        t,
                        recipe.draws(),
                    );
                if tried == 0 {
                    now = t;
                }
                lemma_candidate_drawn(begin, now, t, recipe, tried);
            }
            let ghost start = begin.primed(now);
            assert(id@ == recipe.candidate(start, tried));
            assert(rng@ == begin.after(now, (tried + 1) * recipe.draws()));
            proof {
                lemma_render_makes(recipe, start.advance_by(tried * recipe.draws()));
            }
            if !self.items.insert(id.clone()) {
                proof {
                    assert(self@ =~= taken);
                    assert(eventually_fresh(taken, recipe, begin.primed(now)));
                    tried = tried + 1;
                }
                continue;
            }
            proof {
                assert(first_fresh(taken, recipe, start, tried));
            }
            return self.items.get(id.as_str()).unwrap();
        }
    }

    /// Issues an identifier made by `recipe` if one of the first `attempts`
    /// candidates is new to the store; gives up with `None`, and the store
    /// as it was, if they are all in use. This asks nothing of the store or
    /// the generator, and every candidate tried takes its draws.
    pub fn issue_within<'a>(
        &'a mut self,
        rng: &mut PseudoRandom,
        recipe: Recipe,
        attempts: usize,
    ) -> (r: Option<&'a String>)
        requires
            old(self).wf(),
            recipe.valid(),
        ensures
            final(self).wf(),
            match r {
                Some(id) => {
                    &&& recipe.makes(id@)
                    &&& issued_within(
                        old(self)@,
                        old(rng)@,
                        recipe,
                        attempts as nat,
                        id@,
                        final(rng)@,
                    )
                    &&& issued(old(self)@, old(rng)@, recipe, id@, final(rng)@)
                    &&& !old(self)@.contains(id@)
                    &&& final(self)@ == old(self)@.insert(id@)
                    &&& final(self)@.len() == old(self)@.len() + 1
                },
                None => {
                    &&& final(self)@ == old(self)@
                    &&& exhausted(old(self)@, old(rng)@, recipe, attempts as nat, final(rng)@)
                },
            },
    {
        let ghost taken = self@;
        let ghost begin = rng@;
        let ghost mut now: u128 = 0;
        let mut tried: usize = 0;
        while tried < attempts
            invariant
                recipe.valid(),
                taken == old(self)@,
                begin == old(rng)@,
                self@ == taken,
                taken.finite(),
                tried <= attempts,
                rng@ == begin.after(now, tried as nat * recipe.draws()),
                all_taken(taken, recipe, begin.primed(now), tried as nat),
            decreases attempts - tried,
        {
            let ghost before = rng@;
            let id = generate(rng, recipe);
            proof {
                let t = choose|t: u128|
                    id@ == recipe.render(#[trigger] before.primed(t)) && rng@ == before.after(
                        t,
                        recipe.draws(),
                    );
                if tried == 0 {
                    now = t;
                }
                lemma_candidate_drawn(begin, now, t, recipe, tried as nat);
            }
            let ghost start = begin.primed(now);
            assert(id@ == recipe.candidate(start, tried as nat));
            assert(rng@ == begin.after(now, (tried as nat + 1) * recipe.draws()));
            proof {
                lemma_render_makes(recipe, start.advance_by(tried as nat * recipe.draws()));
            }
            if self.items.insert(id.clone()) {
                proof {
                    assert(first_fresh(taken, recipe, start, tried as nat));
                }
                return Some(self.items.get(id.as_str()).unwrap());
            }
            proof {
                assert(self@ =~= taken);
            }
            tried = tried + 1;
        }
        proof {
            assert(all_taken(taken, recipe, begin.primed(now), attempts as nat));
        }
        None
    }

    /// Issues a base62 identifier of `length` characters.
    pub fn next<'a>(&'a mut self, rng: &mut PseudoRandom, length: usize) -> (r: &'a String)
        requires
            old(self).wf(),
            can_issue(old(self)@, old(rng)@, Recipe::Fixed { length, alphabet: Alphabet::Full }),
        ensures
            final(self).wf(),
            r@.len() == length,
            !old(self)@.contains(r@),
            final(self)@ == old(self)@.insert(r@),
            final(self)@.len() == old(self)@.len() + 1,
            issued(
                old(self)@,
                old(rng)@,
                Recipe::Fixed { length, alphabet: Alphabet::Full },
                r@,
                final(rng)@,
            ),
    {
        self.issue(rng, Recipe::Fixed { length, alphabet: Alphabet::Full })
    }

    /// Issues an identifier of `length` characters without those that are
    /// easily taken for one another.
    pub fn next_human<'a>(&'a mut self, rng: &mut PseudoRandom, length: usize) -> (r: &'a String)
        requires
            old(self).wf(),
            can_issue(old(self)@, old(rng)@, Recipe::Fixed { length, alphabet: Alphabet::Human }),
        ensures
            final(self).wf(),
            r@.len() == length,
            forall|i: int| 0 <= i < r@.len() ==> !is_confusable(#[trigger] r@[i]),
            !old(self)@.contains(r@),
            final(self)@ == old(self)@.insert(r@),
            final(self)@.len() == old(self)@.len() + 1,
            issued(
                old(self)@,
                old(rng)@,
                Recipe::Fixed { length, alphabet: Alphabet::Human },
                r@,
                final(rng)@,
            ),
    {
        let ghost taken = self@;
        let ghost begin = rng@;
        let r = self.issue(rng, Recipe::Fixed { length, alphabet: Alphabet::Human });
        proof {
            let recipe = Recipe::Fixed { length, alphabet: Alphabet::Human };
            let (now, k) = choose|now: u128, k: nat|
                #[trigger] first_fresh(taken, recipe, begin.primed(now), k) && r@
                    == recipe.candidate(begin.primed(now), k);
            assert forall|i: int| 0 <= i < r@.len() implies !is_confusable(#[trigger] r@[i]) by {
                lemma_human_string_clear(
                    begin.primed(now).advance_by(k * recipe.draws()),
                    length as nat,
                    i,
                );
            }
        }
        r
    }

    /// Issues the base62 text of a number below 65535, the largest 16-bit
    /// value. The length of the text goes with the size of the number.
    pub fn next_u16<'a>(&'a mut self, rng: &mut PseudoRandom) -> (r: &'a String)
        requires
            old(self).wf(),
            can_issue(old(self)@, old(rng)@, Recipe::Bounded { max: 0xffff }),
        ensures
            final(self).wf(),
            decodes_below(r@, 0xffff),
            !old(self)@.contains(r@),
            final(self)@ == old(self)@.insert(r@),
            final(self)@.len() == old(self)@.len() + 1,
            issued(old(self)@, old(rng)@, Recipe::Bounded { max: 0xffff }, r@, final(rng)@),
    {
        self.issue(rng, Recipe::Bounded { max: 0xffff })
    }

    /// Issues the base62 text of a number below 4294967295, the largest
    /// 32-bit value. The length of the text goes with the size of the number.
    pub fn next_u32<'a>(&'a mut self, rng: &mut PseudoRandom) -> (r: &'a String)
        requires
            old(self).wf(),
            can_issue(old(self)@, old(rng)@, Recipe::Bounded { max: 0xffff_ffff }),
        ensures
            final(self).wf(),
            decodes_below(r@, 0xffff_ffff),
            !old(self)@.contains(r@),
            final(self)@ == old(self)@.insert(r@),
            final(self)@.len() == old(self)@.len() + 1,
            issued(old(self)@, old(rng)@, Recipe::Bounded { max: 0xffff_ffff }, r@, final(rng)@),
    {
        self.issue(rng, Recipe::Bounded { max: 0xffff_ffff })
    }

    /// Issues the base62 text of a number below the largest value of the
    /// machine word, which on a 64-bit machine is the largest 64-bit value.
    /// The length of the text goes with the size of the number.
    pub fn next_u64<'a>(&'a mut self, rng: &mut PseudoRandom) -> (r: &'a String)
        requires
            old(self).wf(),
            can_issue(old(self)@, old(rng)@, Recipe::Bounded { max: usize::MAX }),
        ensures
            final(self).wf(),
            decodes_below(r@, usize::MAX as nat),
            !old(self)@.contains(r@),
            final(self)@ == old(self)@.insert(r@),
            final(self)@.len() == old(self)@.len() + 1,
            issued(old(self)@, old(rng)@, Recipe::Bounded { max: usize::MAX }, r@, final(rng)@),
    {
        self.issue(rng, Recipe::Bounded { max: usize::MAX })
    }

    /// Registers `uid` with the store. Where it is new, it is recorded and
    /// `None` comes back. Where it is already in use, a fresh base62
    /// identifier of the same length in bytes is issued in its place and
    /// returned.
    pub fn make_unique<'a>(&'a mut self, rng: &mut PseudoRandom, uid: &str) -> (r: Option<&'a str>)
        requires
            old(self).wf(),
            old(self)@.contains(uid@) ==> can_issue(
                old(self)@,
                old(rng)@,
                Recipe::Fixed { length: uid.len(), alphabet: Alphabet::Full },
            ),
        ensures
            final(self).wf(),
            r is None <==> !old(self)@.contains(uid@),
            final(self)@.contains(uid@),
            match r {
                None => final(self)@ == old(self)@.insert(uid@) && final(rng)@ == old(rng)@,
                Some(id) => {
                    &&& id@ != uid@
                    &&& id@.len() == uid.len()
                    &&& !old(self)@.contains(id@)
                    &&& final(self)@ == old(self)@.insert(id@)
                    &&& issued(
                        old(self)@,
                        old(rng)@,
                        Recipe::Fixed { length: uid.len(), alphabet: Alphabet::Full },
                        id@,
                        final(rng)@,
                    )
                },
            },
            final(self)@.len() == old(self)@.len() + 1,
    {
        if self.items.contains(uid) {
            return Some(self.next(rng, uid.len()).as_str());
        }
        self.items.insert(uid.to_owned());
        None
    }

    /// Registers `uid` with a store of 16-bit identifiers. Where it is new,
    /// it is recorded and `None` comes back. Where it is already in use, the
    /// base62 text of a number below 65535 is issued in its place and
    /// returned.
    pub fn make_unique_u16<'a>(&'a mut self, rng: &mut PseudoRandom, uid: &str) -> (r: Option<
        &'a str,
    >)
        requires
            old(self).wf(),
            old(self)@.contains(uid@) ==> can_issue(
                old(self)@,
                old(rng)@,
                Recipe::Bounded { max: 0xffff },
            ),
        ensures
            final(self).wf(),
            r is None <==> !old(self)@.contains(uid@),
            final(self)@.contains(uid@),
            match r {
                None => final(self)@ == old(self)@.insert(uid@) && final(rng)@ == old(rng)@,
                Some(id) => {
                    &&& id@ != uid@
                    &&& decodes_below(id@, 0xffff)
                    &&& !old(self)@.contains(id@)
                    &&& final(self)@ == old(self)@.insert(id@)
                    &&& issued(
                        old(self)@,
                        old(rng)@,
                        Recipe::Bounded { max: 0xffff },
                        id@,
                        final(rng)@,
                    )
                },
            },
            final(self)@.len() == old(self)@.len() + 1,
    {
        if self.items.contains(uid) {
            return Some(self.next_u16(rng).as_str());
        }
        self.items.insert(uid.to_owned());
        None
    }
}

/// Where the `tried`-th candidate of a run is drawn: a generator that began
/// in state `begin`, was seeded at `now` if it was blank, and has made
/// `tried` candidates, makes the next from the state that `candidate` names
/// and ends where one candidate more leaves it. The instant `later` of any
/// seeding at that point is `now` itself for the first candidate and plays no
/// part after it.
proof fn lemma_candidate_drawn(begin: State, now: u128, later: u128, recipe: Recipe, tried: nat)
    requires
        tried == 0 ==> later == now,
    ensures
        recipe.render(begin.after(now, tried * recipe.draws()).primed(later)) == recipe.candidate(
            begin.primed(now),
            tried,
        ),
        begin.after(now, tried * recipe.draws()).after(later, recipe.draws()) == begin.after(
            now,
            (tried + 1) * recipe.draws(),
        ),
{
    let d = recipe.draws();
    let start = begin.primed(now);
    let before = begin.after(now, tried * d);
    assert((tried + 1) * d == tried * d + d) by (nonlinear_arith);
    assert(start.advance_by(0) == start);
    if tried * d == 0 {
        if tried == 0 {
            assert(before.primed(later) == start);
        } else {
            assert(d == 0) by (nonlinear_arith)
                requires
                    tried * d == 0,
                    tried > 0,
            ;
            lemma_render_without_draws(recipe, before.primed(later), start);
        }
    } else {
        lemma_after_not_blank(begin, now, tried * d);
        lemma_advance_by_add(start, tried * d, d);
    }
}

} // verus!
