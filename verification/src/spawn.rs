use vstd::prelude::*;

pub use crate::random::SpawnRng;

verus! {

/// How many random spawn zones a wave tries for one asteroid before giving up
/// on it.
pub const SPAWN_ATTEMPTS: usize = 16;

/// The first of `draws` that names a zone that is not too close, if any.
pub open spec fn first_clear(draws: Seq<usize>, too_close: Seq<bool>) -> Option<usize>
    decreases draws.len(),
{
    if draws.len() == 0 {
        None
    } else if !too_close[draws[0] as int] {
        Some(draws[0])
    } else {
        first_clear(draws.drop_first(), too_close)
    }
}

/// A run of random draws as the placement loop makes them: each names a
/// zone, there are at most
/// `SPAWN_ATTEMPTS` of them, and the run stops at the first zone that is
/// not too close or when the attempts are used up.
pub open spec fn is_draw_run(draws: Seq<usize>, too_close: Seq<bool>) -> bool {
    &&& draws.len() <= SPAWN_ATTEMPTS
    &&& forall|k: int| 0 <= k < draws.len() ==> #[trigger] draws[k] < too_close.len()
    &&& forall|k: int| 0 <= k < draws.len() - 1 ==> too_close[#[trigger] draws[k] as int]
    &&& (first_clear(draws, too_close) is None ==> draws.len() == SPAWN_ATTEMPTS)
}

proof fn lemma_first_clear_push(draws: Seq<usize>, d: usize, too_close: Seq<bool>)
    requires
        first_clear(draws, too_close) is None,
    ensures
        first_clear(draws.push(d), too_close) == (if too_close[d as int] {
            None
        } else {
            Some(d)
        }),
    decreases draws.len(),
{
    if draws.len() > 0 {
        assert(draws.push(d).drop_first() =~= draws.drop_first().push(d));
        assert(draws.push(d)[0] == draws[0]);
        lemma_first_clear_push(draws.drop_first(), d, too_close);
    } else {
        assert(draws.push(d).drop_first() =~= Seq::<usize>::empty());
        assert(draws.push(d)[0] == d);
        assert(first_clear(Seq::<usize>::empty(), too_close) is None);
    }
}

proof fn lemma_first_clear_all_close(draws: Seq<usize>, too_close: Seq<bool>)
    requires
        forall|k: int| 0 <= k < draws.len() ==> too_close[#[trigger] draws[k] as int],
    ensures
        first_clear(draws, too_close) is None,
    decreases draws.len(),
{
    if draws.len() > 0 {
        assert(too_close[draws[0] as int]);
        lemma_first_clear_all_close(draws.drop_first(), too_close);
    }
}

proof fn lemma_first_clear_found(draws: Seq<usize>, too_close: Seq<bool>)
    requires
        first_clear(draws, too_close) matches Some(z),
    ensures
        first_clear(draws, too_close) matches Some(z) && !too_close[z as int] && draws.contains(z),
    decreases draws.len(),
{
    if draws.len() > 0 && too_close[draws[0] as int] {
        lemma_first_clear_found(draws.drop_first(), too_close);
        let z = first_clear(draws, too_close)->0;
        let k = choose|k: int| 0 <= k < draws.drop_first().len() && draws.drop_first()[k] == z;
        assert(draws[k + 1] == z);
    }
}

/// The draws made through `rng` by one call, given the record before it.
pub open spec fn new_draws(before: Seq<usize>, after: Seq<usize>) -> Seq<usize> {
    after.skip(before.len() as int)
}

/// Pick the spawn zone for one asteroid of a wave. A rock materialising next
/// to the ship is unfair rather than hard, so a random zone that is too
/// close (`too_close[i]`) is redrawn, up to `SPAWN_ATTEMPTS` draws in all,
/// before giving up on this asteroid (`None`). Every draw is over all the
/// zones, and the result is the first drawn zone that is not too close.
pub fn choose_spawn_zone(rng: &mut SpawnRng, too_close: &[bool]) -> (r: Option<usize>)
    requires
        too_close@.len() > 0,
    ensures
        final(rng).drawn().len() >= old(rng).drawn().len(),
        final(rng).drawn().take(old(rng).drawn().len() as int) == old(rng).drawn(),
        final(rng).bounds().take(old(rng).bounds().len() as int) == old(rng).bounds(),
        new_draws(old(rng).bounds(), final(rng).bounds()).len() == new_draws(
            old(rng).drawn(),
            final(rng).drawn(),
        ).len(),
        forall|k: int|
            0 <= k < new_draws(old(rng).bounds(), final(rng).bounds()).len() ==> #[trigger] new_draws(
                old(rng).bounds(),
                final(rng).bounds(),
            )[k] == too_close@.len(),
        is_draw_run(new_draws(old(rng).drawn(), final(rng).drawn()), too_close@),
        r == first_clear(new_draws(old(rng).drawn(), final(rng).drawn()), too_close@),
        r matches Some(i) ==> i < too_close@.len() && !too_close@[i as int],
        (forall|i: int| 0 <= i < too_close@.len() ==> #[trigger] too_close@[i]) ==> r is None,
        (forall|i: int| 0 <= i < too_close@.len() ==> !#[trigger] too_close@[i]) ==> r is Some,
{
    let n = too_close.len();
    let ghost start_drawn = rng.drawn();
    let ghost start_bounds = rng.bounds();
    let ghost mut draws: Seq<usize> = Seq::empty();
    let ghost mut bounds: Seq<usize> = Seq::empty();
    let mut attempt: usize = 0;
    assert(rng.drawn() =~= start_drawn + draws);
    assert(rng.bounds() =~= start_bounds + bounds);
    while attempt < SPAWN_ATTEMPTS
        invariant
            n == too_close@.len(),
            n > 0,
            attempt <= SPAWN_ATTEMPTS,
            draws.len() == attempt,
            bounds.len() == attempt,
            rng.drawn() == start_drawn + draws,
            rng.bounds() == start_bounds + bounds,
            start_drawn == old(rng).drawn(),
            start_bounds == old(rng).bounds(),
            forall|k: int| 0 <= k < bounds.len() ==> #[trigger] bounds[k] == n,
            forall|k: int| 0 <= k < draws.len() ==> #[trigger] draws[k] < n,
            forall|k: int| 0 <= k < draws.len() ==> too_close@[#[trigger] draws[k] as int],
        decreases SPAWN_ATTEMPTS - attempt,
    {
        let zone = rng.draw(n);
        proof {
            lemma_first_clear_all_close(draws, too_close@);
            lemma_first_clear_push(draws, zone, too_close@);
            draws = draws.push(zone);
            bounds = bounds.push(n);
            assert(rng.drawn() =~= start_drawn + draws);
            assert(rng.bounds() =~= start_bounds + bounds);
        }
        if !too_close[zone] {
            proof {
                assert(new_draws(start_drawn, rng.drawn()) =~= draws);
                assert(new_draws(start_bounds, rng.bounds()) =~= bounds);
                assert(rng.drawn().take(start_drawn.len() as int) =~= start_drawn);
                assert(rng.bounds().take(start_bounds.len() as int) =~= start_bounds);
                assert(is_draw_run(draws, too_close@));
            }
            return Some(zone);
        }
        attempt += 1;
    }
    proof {
        lemma_first_clear_all_close(draws, too_close@);
        assert(new_draws(start_drawn, rng.drawn()) =~= draws);
        assert(new_draws(start_bounds, rng.bounds()) =~= bounds);
        assert(rng.drawn().take(start_drawn.len() as int) =~= start_drawn);
        assert(rng.bounds().take(start_bounds.len() as int) =~= start_bounds);
        assert(is_draw_run(draws, too_close@));
        if forall|i: int| 0 <= i < too_close@.len() ==> !#[trigger] too_close@[i] {
            assert(!too_close@[draws[0] as int]);
        }
    }
    None
}

/// Whatever the draws, a zone that is returned was among the drawn ones and
/// is not too close to the ship.
pub proof fn lemma_chosen_zone_is_fair(draws: Seq<usize>, too_close: Seq<bool>)
    requires
        is_draw_run(draws, too_close),
    ensures
        first_clear(draws, too_close) matches Some(z) ==> z < too_close.len() && !too_close[z as int]
            && draws.contains(z),
{
    if first_clear(draws, too_close) is Some {
        lemma_first_clear_found(draws, too_close);
    }
}

} // verus!
