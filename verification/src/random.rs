//! Sources of uniform random draws: the thread-local generator of `rand`, and
//! a scripted source that hands out what it was given.

use rand::Rng;
use vstd::prelude::*;

verus! {

/// `rand::rngs::ThreadRng`, the handle to the generator of a thread. It is
/// carried through and never looked into.
#[verifier::external_type_specification]
#[verifier::external_body]
pub struct ExThreadRng(rand::rngs::ThreadRng);

/// A source of uniform integer draws that keeps a record of what it has
/// handed out.
pub trait RandomSource {
    /// The values drawn from this source so far, the latest last.
    spec fn drawn(&self) -> Seq<u128>;

    /// A draw from `0..bound`.
    fn draw_below(&mut self, bound: u128) -> (r: u128)
        requires
            bound > 0,
        ensures
            r < bound,
            final(self).drawn() == old(self).drawn().push(r),
    ;
}

/// `rand::thread_rng`: a handle to the generator of the calling thread.
/// Nothing is claimed of the handle. The call panics where the system gives
/// the generator no seed.
#[verifier::external_body]
fn thread_generator() -> rand::rngs::ThreadRng {
    rand::thread_rng()
}

/// `rand::Rng::gen_range` with a lower end of zero: the value lies in
/// `0..bound`. The outside function panics on an empty range, which the
/// precondition leaves out. Which value comes is left open.
#[verifier::external_body]
fn generate_below(rng: &mut rand::rngs::ThreadRng, bound: u128) -> (r: u128)
    requires
        bound > 0,
    ensures
        r < bound,
{
    rng.gen_range(0, bound)
}

/// Draws from the thread-local generator that the system seeds.
pub struct ThreadSource {
    rng: rand::rngs::ThreadRng,
    log: Ghost<Seq<u128>>,
}

impl ThreadSource {
    /// A source from which nothing has been drawn yet.
    pub fn new() -> (source: ThreadSource)
        ensures
            source.drawn() == Seq::<u128>::empty(),
    {
        ThreadSource { rng: thread_generator(), log: Ghost(Seq::empty()) }
    }
}

impl RandomSource for ThreadSource {
    closed spec fn drawn(&self) -> Seq<u128> {
        self.log@
    }

    fn draw_below(&mut self, bound: u128) -> (r: u128) {
        let r: u128 = generate_below(&mut self.rng, bound);
        self.log = Ghost(self.log@.push(r));
        r
    }
}

/// Hands out the values of a script, one per draw and each reduced modulo
/// the bound of its draw, and zero once the script has run out.
pub struct ScriptedSource {
    script: Vec<u128>,
    next: usize,
    log: Ghost<Seq<u128>>,
}

impl ScriptedSource {
    #[verifier::type_invariant]
    spec fn well_formed(self) -> bool {
        self.next <= self.script@.len()
    }

    /// The values that have not been handed out yet.
    pub closed spec fn pending(&self) -> Seq<u128> {
        self.script@.skip(self.next as int)
    }

    /// What the next draw below `bound` returns.
    pub open spec fn upcoming(&self, bound: u128) -> u128 {
        if self.pending().len() > 0 {
            self.pending()[0] % bound
        } else {
            0
        }
    }

    /// A source that hands out `script` from its first value on.
    pub fn new(script: Vec<u128>) -> (source: ScriptedSource)
        ensures
            source.pending() == script@,
            source.drawn() == Seq::<u128>::empty(),
    {
        proof {
            assert(script@.skip(0) =~= script@);
        }
        ScriptedSource { script, next: 0, log: Ghost(Seq::empty()) }
    }
}

impl RandomSource for ScriptedSource {
    closed spec fn drawn(&self) -> Seq<u128> {
        self.log@
    }

    fn draw_below(&mut self, bound: u128) -> (r: u128)
        ensures
            r == old(self).upcoming(bound),
            final(self).pending() == if old(self).pending().len() > 0 {
                old(self).pending().skip(1)
            } else {
                old(self).pending()
            },
    {
        proof {
            use_type_invariant(&*self);
        }
        if self.next < self.script.len() {
            let value: u128 = self.script[self.next] % bound;
            proof {
                assert(self.script@.skip(self.next as int + 1) =~= self.script@.skip(
                    self.next as int,
                ).skip(1));
            }
            self.next = self.next + 1;
            self.log = Ghost(self.log@.push(value));
            value
        } else {
            self.log = Ghost(self.log@.push(0));
            0
        }
    }
}

} // verus!
