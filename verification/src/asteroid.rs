use vstd::prelude::*;

verus! {

/// The three sizes of asteroid. A destroyed asteroid breaks into pieces of
/// the next size down; the smallest just disappears.
#[derive(Clone, Copy, PartialEq, Eq, Debug, Structural)]
pub enum AsteroidSize {
    Small,
    Medium,
    Large,
}

impl AsteroidSize {
    /// Position of the size in the order Small < Medium < Large.
    pub open spec fn rank(self) -> nat {
        match self {
            AsteroidSize::Small => 0,
            AsteroidSize::Medium => 1,
            AsteroidSize::Large => 2,
        }
    }

    /// Hit points a freshly spawned asteroid of this size starts with.
    pub open spec fn spec_health(self) -> u32 {
        match self {
            AsteroidSize::Small => 1,
            AsteroidSize::Medium => 2,
            AsteroidSize::Large => 3,
        }
    }

    /// What an asteroid of this size breaks into when destroyed.
    pub open spec fn spec_split(self) -> Option<AsteroidSize> {
        match self {
            AsteroidSize::Small => None,
            AsteroidSize::Medium => Some(AsteroidSize::Small),
            AsteroidSize::Large => Some(AsteroidSize::Medium),
        }
    }

    /// Starting hit points: 1, 2 and 3 for Small, Medium and Large.
    pub fn health(self) -> (h: u32)
        ensures
            h == self.spec_health(),
    {
        match self {
            AsteroidSize::Small => 1,
            AsteroidSize::Medium => 2,
            AsteroidSize::Large => 3,
        }
    }

    /// What this breaks into when destroyed. `None` means it just disappears.
    pub fn split(self) -> (r: Option<AsteroidSize>)
        ensures
            r == self.spec_split(),
    {
        match self {
            AsteroidSize::Small => None,
            AsteroidSize::Medium => Some(AsteroidSize::Small),
            AsteroidSize::Large => Some(AsteroidSize::Medium),
        }
    }
}

/// Every asteroid starts alive: its hit points are at least one, and they
/// grow with its size.
pub proof fn lemma_health_positive_and_ordered(a: AsteroidSize, b: AsteroidSize)
    ensures
        a.spec_health() >= 1,
        a.rank() < b.rank() ==> a.spec_health() < b.spec_health(),
        a.spec_health() == a.rank() + 1,
{
}

/// Breaking an asteroid always yields a strictly smaller size with strictly
/// fewer hit points, and only the smallest size yields nothing.
pub proof fn lemma_split_shrinks(a: AsteroidSize)
    ensures
        a.spec_split() is None <==> a == AsteroidSize::Small,
        a.spec_split() matches Some(b) ==> b.rank() + 1 == a.rank() && b.spec_health()
            < a.spec_health(),
{
}

/// The size reached after `n` successive splits, or `None` once the chain has
/// run out.
pub open spec fn split_n(a: AsteroidSize, n: nat) -> Option<AsteroidSize>
    decreases n,
{
    if n == 0 {
        Some(a)
    } else {
        match a.spec_split() {
            Some(b) => split_n(b, (n - 1) as nat),
            None => None,
        }
    }
}

/// Destruction always ends: an asteroid breaks up through exactly
/// `rank + 1` generations (its own and each smaller size) and then nothing
/// is left.
pub proof fn lemma_split_chain_ends(a: AsteroidSize)
    ensures
        split_n(a, a.rank()) is Some,
        split_n(a, a.rank() + 1) is None,
{
    reveal_with_fuel(split_n, 4);
}

} // verus!
