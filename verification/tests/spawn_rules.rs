use hypr_flight::spawn::{choose_spawn_zone, SpawnRng};

#[test]
fn no_zone_when_all_are_too_close() {
    let mut rng = SpawnRng::new();
    assert_eq!(choose_spawn_zone(&mut rng, &[true, true, true]), None);
}

#[test]
fn some_zone_when_none_is_too_close() {
    let mut rng = SpawnRng::new();
    for _ in 0..100 {
        let chosen = choose_spawn_zone(&mut rng, &[false, false, false]);
        assert!(matches!(chosen, Some(i) if i < 3));
    }
}

#[test]
fn chosen_zone_is_never_too_close() {
    let mut rng = SpawnRng::new();
    let too_close = [true, false, true, true, false];
    for _ in 0..200 {
        if let Some(i) = choose_spawn_zone(&mut rng, &too_close) {
            assert!(!too_close[i]);
        }
    }
}

#[test]
fn too_close_draws_are_retried() {
    // With one zone of two acceptable, giving up after a single draw would
    // fail half the time; sixteen draws all hitting the bad zone happen with
    // probability 2^-16 per call.
    let mut rng = SpawnRng::new();
    for _ in 0..20 {
        assert_eq!(choose_spawn_zone(&mut rng, &[true, false]), Some(1));
    }
}
