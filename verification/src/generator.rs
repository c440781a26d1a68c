use vstd::prelude::*;

verus! {

/// What the generator does next with its stack of sections.
#[derive(Debug, PartialEq, Eq)]
pub enum Step<S> {
    /// While unwinding: the section taken off the top of the stack, played again.
    Replay(S),
    /// While unwinding with only the first section left: nothing is played.
    Silence,
    /// A copy of the top section, to be varied and then pushed with `commit`.
    Mutate(S),
}

/// The generator's state as values: its seed, its stack of sections (the
/// first pushed first) and whether it is unwinding.
pub type GeneratorState<S> = (u32, Seq<S>, bool);

/// One step from `g`, with `roll` the chance draw that starts unwinding:
/// the next state and what the step hands out.
pub open spec fn step<S>(g: GeneratorState<S>, roll: bool) -> (GeneratorState<S>, Step<S>) {
    let (seed, stack, unwind) = g;
    if unwind {
        if stack.len() > 1 {
            ((seed, stack.drop_last(), true), Step::Replay(stack.last()))
        } else {
            (g, Step::Silence)
        }
    } else {
        ((seed, stack, stack.len() > 5 && roll), Step::Mutate(stack.last()))
    }
}

/// The state after `n` steps from `g` once it unwinds (the draw no longer matters).
pub open spec fn unwound<S>(g: GeneratorState<S>, n: nat) -> GeneratorState<S>
    decreases n,
{
    if n == 0 {
        g
    } else {
        step(unwound(g, (n - 1) as nat), false).0
    }
}

/// A generator that varies the last section on a stack and pushes the result,
/// until a draw makes it unwind: then it plays the stacked sections back, the
/// latest first, down to the first one, and is silent from then on.
pub struct Generator<S> {
    seed: u32,
    /// The first section, at the bottom of the stack.
    base: S,
    /// The sections pushed on top of `base`, the latest last.
    above: Vec<S>,
    unwind: bool,
}

impl<S> View for Generator<S> {
    type V = GeneratorState<S>;

    closed spec fn view(&self) -> GeneratorState<S> {
        (self.seed, seq![self.base].add(self.above@), self.unwind)
    }
}

impl<S> Generator<S> {
    /// A generator with `seed` whose stack holds the single section `base`.
    pub fn new(seed: u32, base: S) -> (g: Generator<S>)
        ensures
            g@ == (seed, seq![base], false),
    {
        let g = Generator { seed, base, above: Vec::new() , unwind: false };
        assert(g@.1 =~= seq![base]);
        g
    }

    /// The seed of the generator.
    pub fn seed(&self) -> (r: u32)
        ensures
            r == self@.0,
    {
        self.seed
    }

    /// Whether the generator is unwinding.
    pub fn unwinding(&self) -> (r: bool)
        ensures
            r == self@.2,
    {
        self.unwind
    }

    /// Pushes the varied `section` and moves on to `next_seed`.
    pub fn commit(&mut self, section: S, next_seed: u32)
        ensures
            final(self)@ == (next_seed, old(self)@.1.push(section), old(self)@.2),
    {
        self.above.push(section);
        self.seed = next_seed;
        assert(final(self)@.1 =~= old(self)@.1.push(section));
    }
}

impl<S: Copy> Generator<S> {
    /// Decides the next step: while unwinding, pops the top section while more
    /// than one is left and is silent otherwise; else starts unwinding if the
    /// stack holds more than five sections and `roll` is true, and hands out a
    /// copy of the top section to vary.
    pub fn next_step(&mut self, roll: bool) -> (r: Step<S>)
        ensures
            (final(self)@, r) == step(old(self)@, roll),
    {
        let ghost s0 = self@.1;
        if self.unwind {
            match self.above.pop() {
                Some(s) => {
                    assert(self@.1 =~= s0.drop_last());
                    return Step::Replay(s);
                },
                None => {
                    return Step::Silence;
                },
            }
        }
        let n = self.above.len();
        if n >= 5 && roll {
            self.unwind = true;
        }
        let section = if n == 0 {
            self.base
        } else {
            self.above[n - 1]
        };
        Step::Mutate(section)
    }
}

/// A generator that is not unwinding hands out its latest section to vary,
/// keeps its stack and seed as they are, and starts unwinding exactly when the
/// draw is true and more than five sections are stacked: a false draw never
/// starts it.
pub proof fn law_varying_step<S>(g: GeneratorState<S>, roll: bool)
    requires
        !g.2,
        g.1.len() >= 1,
    ensures
        step(g, roll).1 == Step::Mutate(g.1[g.1.len() - 1]),
        step(g, roll).0.0 == g.0,
        step(g, roll).0.1 == g.1,
        step(g, roll).0.2 <==> (roll && g.1.len() >= 6),
        !step(g, false).0.2,
{
}

/// While unwinding with more than one section, every step, whatever the draw,
/// takes the latest section off the stack and hands it out, keeping the seed.
pub proof fn law_unwinding_step_pops<S>(g: GeneratorState<S>, roll: bool)
    requires
        g.2,
        g.1.len() > 1,
    ensures
        step(g, roll).1 == Step::Replay(g.1[g.1.len() - 1]),
        step(g, roll).0.1 == g.1.subrange(0, g.1.len() - 1),
        step(g, roll).0.1.len() + 1 == g.1.len(),
        step(g, roll).0.0 == g.0,
        step(g, roll).0.2,
        step(g, true) == step(g, false),
{
}

/// Unwinding with a single section left is silent and changes nothing.
pub proof fn law_unwound_is_silent<S>(g: GeneratorState<S>, roll: bool)
    requires
        g.2,
        g.1.len() == 1,
    ensures
        step(g, roll).1 == Step::<S>::Silence,
        step(g, roll).0 == g,
{
}

/// No step empties the stack or changes its first section.
pub proof fn law_step_keeps_base<S>(g: GeneratorState<S>, roll: bool)
    requires
        g.1.len() >= 1,
    ensures
        step(g, roll).0.1.len() >= 1,
        step(g, roll).0.1[0] == g.1[0],
{
}

/// Once unwinding, a generator stays unwinding and never grows its stack.
pub proof fn law_unwinding_is_final<S>(g: GeneratorState<S>, roll: bool)
    requires
        g.2,
    ensures
        step(g, roll).0.2,
        step(g, roll).0.1.len() <= g.1.len(),
{
}

/// Unwinding plays the stacked sections back, the latest first: the step
/// after `k` steps of unwinding hands out the section at `len - 1 - k` while
/// `k < len - 1`, and every later step is silent.
pub proof fn law_unwinding_replays_in_reverse<S>(g: GeneratorState<S>, k: nat, roll: bool)
    requires
        g.2,
        g.1.len() >= 1,
    ensures
        k < g.1.len() - 1 ==> step(unwound(g, k), roll).1 == Step::Replay(g.1[g.1.len() - 1 - k]),
        k >= g.1.len() - 1 ==> step(unwound(g, k), roll).1 == Step::<S>::Silence,
{
    lemma_unwound(g, k);
}

/// After `k` steps of unwinding, the stack is the first `max(len - k, 1)`
/// sections and the generator is still unwinding.
pub proof fn lemma_unwound<S>(g: GeneratorState<S>, k: nat)
    requires
        g.2,
        g.1.len() >= 1,
    ensures
        unwound(g, k).2,
        unwound(g, k).0 == g.0,
        k < g.1.len() ==> unwound(g, k).1 == g.1.subrange(0, g.1.len() - k),
        k >= g.1.len() ==> unwound(g, k).1 == g.1.subrange(0, 1),
    decreases k,
{
    if k > 0 {
        lemma_unwound(g, (k - 1) as nat);
        let p = unwound(g, (k - 1) as nat);
        if k - 1 < g.1.len() {
            assert(p.1.drop_last() =~= g.1.subrange(0, g.1.len() - k));
        }
    }
}

} // verus!
