use vstd::prelude::*;

verus! {

/// What a slider decomposition reports to while it runs: a counter per kind
/// of emitted object, and a signal that says whether finer detail is still
/// wanted.
///
/// Every method is a deterministic function of the state, named by the spec
/// function beside it, so that a run against any implementor is pinned down
/// by the state it started from.
pub trait ObjectAccumulator: Sized {
    /// Whether more generated detail is still desired.
    spec fn wants_more(&self) -> bool;

    /// The state after one fruit was counted.
    spec fn with_fruit(&self) -> Self;

    /// The state after one droplet was counted.
    spec fn with_droplet(&self) -> Self;

    /// The state after one tiny droplet was counted.
    spec fn with_tiny_droplet(&self) -> Self;

    fn take_more(&self) -> (more: bool)
        ensures
            more == self.wants_more(),
    ;

    fn inc_fruits(&mut self)
        ensures
            *final(self) == old(self).with_fruit(),
    ;

    fn inc_droplets(&mut self)
        ensures
            *final(self) == old(self).with_droplet(),
    ;

    fn inc_tiny_droplets(&mut self)
        ensures
            *final(self) == old(self).with_tiny_droplet(),
    ;

    /// The signal latches: once no more detail is wanted, counting further
    /// objects never reopens it.
    proof fn lemma_closed_stays_closed(&self)
        requires
            !self.wants_more(),
        ensures
            !self.with_fruit().wants_more(),
            !self.with_droplet().wants_more(),
            !self.with_tiny_droplet().wants_more(),
    ;
}

/// The state after `n` tiny droplets were counted, one at a time.
pub open spec fn with_tiny_droplets<A: ObjectAccumulator>(attrs: A, n: nat) -> A
    decreases n,
{
    if n == 0 {
        attrs
    } else {
        with_tiny_droplets(attrs, (n - 1) as nat).with_tiny_droplet()
    }
}

/// Counting tiny droplets keeps a closed signal closed.
pub proof fn lemma_tiny_droplets_keep_closed<A: ObjectAccumulator>(attrs: A, n: nat)
    requires
        !attrs.wants_more(),
    ensures
        !with_tiny_droplets(attrs, n).wants_more(),
    decreases n,
{
    if n > 0 {
        lemma_tiny_droplets_keep_closed(attrs, (n - 1) as nat);
        with_tiny_droplets(attrs, (n - 1) as nat).lemma_closed_stays_closed();
    }
}

/// Object counts of a catch map, gathered under a budget of objects.
///
/// Fruits and droplets are the objects a player catches; each one counted
/// uses up one unit of `take`, and none is counted once the budget is spent.
/// Tiny droplets are counted without touching the budget. Counters stop at
/// `u32::MAX` instead of wrapping.
#[derive(Clone, Copy, Debug, PartialEq, Eq, Structural)]
pub struct CatchDifficultyAttributesBuilder {
    pub n_fruits: u32,
    pub n_droplets: u32,
    pub n_tiny_droplets: u32,
    pub take: usize,
}

/// `n + 1`, held at `u32::MAX`.
pub open spec fn bumped(n: u32) -> u32 {
    if n < u32::MAX {
        (n + 1) as u32
    } else {
        n
    }
}

fn bump(n: u32) -> (m: u32)
    ensures
        m == bumped(n),
{
    if n < u32::MAX {
        n + 1
    } else {
        n
    }
}

impl CatchDifficultyAttributesBuilder {
    /// A builder with all counts at zero that will count `take` fruits and
    /// droplets.
    pub fn new(take: usize) -> (res: Self)
        ensures
            res == (CatchDifficultyAttributesBuilder {
                n_fruits: 0,
                n_droplets: 0,
                n_tiny_droplets: 0,
                take,
            }),
    {
        CatchDifficultyAttributesBuilder { n_fruits: 0, n_droplets: 0, n_tiny_droplets: 0, take }
    }
}

impl ObjectAccumulator for CatchDifficultyAttributesBuilder {
    open spec fn wants_more(&self) -> bool {
        self.take > 0
    }

    open spec fn with_fruit(&self) -> Self {
        if self.take > 0 {
            CatchDifficultyAttributesBuilder {
                n_fruits: bumped(self.n_fruits),
                take: (self.take - 1) as usize,
                ..*self
            }
        } else {
            *self
        }
    }

    open spec fn with_droplet(&self) -> Self {
        if self.take > 0 {
            CatchDifficultyAttributesBuilder {
                n_droplets: bumped(self.n_droplets),
                take: (self.take - 1) as usize,
                ..*self
            }
        } else {
            *self
        }
    }

    open spec fn with_tiny_droplet(&self) -> Self {
        CatchDifficultyAttributesBuilder { n_tiny_droplets: bumped(self.n_tiny_droplets), ..*self }
    }

    fn take_more(&self) -> (more: bool) {
        self.take > 0
    }

    fn inc_fruits(&mut self) {
        if self.take > 0 {
            self.n_fruits = bump(self.n_fruits);
            self.take = self.take - 1;
        }
    }

    fn inc_droplets(&mut self) {
        if self.take > 0 {
            self.n_droplets = bump(self.n_droplets);
            self.take = self.take - 1;
        }
    }

    fn inc_tiny_droplets(&mut self) {
        self.n_tiny_droplets = bump(self.n_tiny_droplets);
    }

    proof fn lemma_closed_stays_closed(&self) {
    }
}

} // verus!
