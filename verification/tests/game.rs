use echo::game::{LocalPlayer, Team};

fn player(health: i32) -> LocalPlayer {
    LocalPlayer {
        pawn: 0x1234_5678,
        health,
        team: Team::CounterTerrorist,
    }
}

#[test]
fn health_inside_the_games_own_bounds_is_plausible_and_zero_means_dead() {
    assert!(player(100).plausible());
    assert!(player(1).plausible());
    assert!(player(100).alive());

    // Dead is a real state, not a bad reading.
    assert!(player(0).plausible());
    assert!(!player(0).alive());
}

#[test]
fn only_the_two_playing_sides_can_ever_be_enemies() {
    let t = Team::Terrorist;
    let ct = Team::CounterTerrorist;

    assert!(t.opposes(ct));
    assert!(ct.opposes(t));
    assert!(!t.opposes(t), "a teammate is not an enemy");

    // Nothing that is not playing can be on either end of it.
    for bystander in [
        Team::Unassigned,
        Team::Spectator,
        Team::Unknown(7),
        Team::Unknown(255),
    ] {
        assert!(!bystander.plays(), "{bystander:?}");
        assert!(!bystander.opposes(t), "{bystander:?}");
        assert!(!t.opposes(bystander), "{bystander:?}");
        assert!(!bystander.opposes(bystander), "{bystander:?}");
    }
}

#[test]
fn an_unrecognised_side_keeps_its_raw_value_instead_of_being_folded_into_a_real_one() {
    assert_eq!(Team::from_raw(2), Team::Terrorist);
    assert_eq!(Team::from_raw(3), Team::CounterTerrorist);
    assert_eq!(Team::from_raw(9), Team::Unknown(9));
    assert_eq!(Team::from_raw(200), Team::Unknown(200));
}

#[test]
fn a_pointer_that_did_not_lead_to_a_pawn_reads_as_implausible() {
    assert!(!player(-1).plausible());
    assert!(!player(101).plausible());
    assert!(!player(1_819_043_144).plausible());
}

#[test]
fn the_low_raw_values_are_the_non_playing_sides() {
    assert_eq!(Team::from_raw(0), Team::Unassigned);
    assert_eq!(Team::from_raw(1), Team::Spectator);
    assert_eq!(Team::from_raw(4), Team::Unknown(4));
    for raw in 0..=255u8 {
        assert_eq!(Team::from_raw(raw).plays(), raw == 2 || raw == 3, "{raw}");
    }
}

#[test]
fn opposition_is_symmetric_for_every_pair_of_sides() {
    let sides = [
        Team::Unassigned,
        Team::Spectator,
        Team::Terrorist,
        Team::CounterTerrorist,
        Team::Unknown(4),
        Team::Unknown(2),
    ];
    for a in sides {
        for b in sides {
            assert_eq!(a.opposes(b), b.opposes(a), "{a:?} {b:?}");
            if a.opposes(b) {
                assert!(a.plays() && b.plays() && a != b);
            }
        }
    }
}

#[test]
fn the_ends_of_the_health_range() {
    assert!(!player(i32::MIN).plausible());
    assert!(!player(i32::MIN).alive());
    assert!(player(i32::MAX).alive());
    assert!(!player(i32::MAX).plausible());
}
