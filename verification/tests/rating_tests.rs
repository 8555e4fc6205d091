// Tests of the rating model, the updaters, decay and season resets.
// All quantities are fixed-point milli-units: 1_500_000 is 1500.0 points.

use matchforge::algorithm::{EloAlgorithm, Glicko2Algorithm, MmrAlgorithm};
use matchforge::decay::{DecayStrategy, LinearDecay, NoDecay};
use matchforge::numeric::{expected_score, isqrt};
use matchforge::rating::{Outcome, Rating};
use matchforge::season::{HardReset, Season, SeasonResetStrategy, SoftReset};

#[test]
fn beginner_rating_defaults() {
    let r = Rating::default_beginner();
    assert_eq!(r.rating, 1_500_000);
    assert_eq!(r.deviation, 350_000);
    assert_eq!(r.volatility, 60);
}

#[test]
fn conservative_estimate_subtracts_twice_the_deviation() {
    let r = Rating::new(1_500_000, 350_000, 60);
    assert_eq!(r.conservative_estimate(), 1_500_000 - 2 * 350_000);
    let uncertain = Rating::new(100_000, 350_000, 60);
    assert_eq!(uncertain.conservative_estimate(), 100_000 - 700_000);
}

#[test]
fn outcome_scores_are_win_loss_draw() {
    assert_eq!(Outcome::Win.score(), 1000);
    assert_eq!(Outcome::Loss.score(), 0);
    assert_eq!(Outcome::Draw.score(), 500);
}

#[test]
fn expected_score_is_half_for_equal_ratings() {
    assert_eq!(expected_score(1_500_000, 1_500_000), 500);
    assert_eq!(expected_score(0, 0), 500);
}

#[test]
fn expected_scores_of_both_sides_sum_to_one() {
    let a = 1_432_000;
    let b = 1_611_000;
    assert_eq!(expected_score(a, b) + expected_score(b, a), 1000);
    assert!(expected_score(a, b) < 500);
    assert!(expected_score(b, a) > 500);
}

#[test]
fn symmetric_update_matches_the_worked_example() {
    // Equal ratings, K = 32, a win: expected score one half, so the
    // winner gains 16 points and the deviation shrinks by one percent.
    let elo = EloAlgorithm::new(32_000);
    let me = Rating::new(1_500_000, 350_000, 60);
    let opp = Rating::new(1_500_000, 350_000, 60);
    let new = elo.calculate_new_rating(me, opp, Outcome::Win);
    assert_eq!(new.rating, 1_516_000);
    assert_eq!(new.deviation, 346_500);
    assert_eq!(new.volatility, 60);
}

#[test]
fn symmetric_update_win_gains_and_loss_costs() {
    let elo = EloAlgorithm::default();
    let me = Rating::new(1_500_000, 350_000, 60);
    let opp = Rating::new(1_550_000, 350_000, 60);
    let won = elo.calculate_new_rating(me, opp, Outcome::Win);
    let lost = elo.calculate_new_rating(me, opp, Outcome::Loss);
    assert!(won.rating > me.rating, "a win must raise the point");
    assert!(lost.rating < me.rating, "a loss must lower the point");
    assert_eq!(elo.name(), "Elo");
}

#[test]
fn deviation_aware_update_keeps_rating_for_certain_opponents() {
    // A zero opponent deviation returns the rating unchanged.
    let glicko = Glicko2Algorithm::default();
    let me = Rating::new(1_500_000, 200_000, 60);
    let certain = Rating::new(1_600_000, 0, 60);
    let new = glicko.calculate_new_rating(me, certain, Outcome::Win);
    assert_eq!(new, me);
    assert_eq!(glicko.name(), "Glicko2");
}

#[test]
fn deviation_aware_update_moves_point_and_grows_deviation() {
    let glicko = Glicko2Algorithm::new(500);
    let me = Rating::new(1_500_000, 200_000, 60);
    let opp = Rating::new(1_500_000, 200_000, 60);
    let won = glicko.calculate_new_rating(me, opp, Outcome::Win);
    assert!(won.rating > me.rating);
    assert!(won.deviation >= me.deviation);
    assert!(won.deviation <= 350_000);
    let lost = glicko.calculate_new_rating(me, opp, Outcome::Loss);
    assert!(lost.rating < me.rating);
}

#[test]
fn test_mmr_decay() {
    // Ten days of inactivity at one point a day: the point drops by ten
    // points and the deviation grows by five.
    let decay = LinearDecay::new(1000, 100_000);
    let rating = Rating::new(1_600_000, 200_000, 60);
    let last_match = 0i64;
    let now = 10 * 86_400_000i64;
    let decayed = decay.apply_decay(rating, last_match, now);
    assert!(decayed.rating < rating.rating, "the point must decay");
    assert!(decayed.deviation > rating.deviation, "the uncertainty must grow");
    assert_eq!(decayed.rating, 1_590_000);
    assert_eq!(decayed.deviation, 205_000);
}

#[test]
fn decay_is_identity_on_non_positive_elapsed_time() {
    let decay = LinearDecay::default();
    let rating = Rating::new(1_600_000, 200_000, 60);
    assert_eq!(decay.apply_decay(rating, 5_000, 5_000), rating);
    assert_eq!(decay.apply_decay(rating, 5_000, 4_000), rating);
    let none = NoDecay;
    assert_eq!(none.apply_decay(rating, 0, 86_400_000), rating);
}

#[test]
fn decay_loss_is_capped_and_never_goes_below_zero() {
    let decay = LinearDecay::new(1000, 100_000);
    let rating = Rating::new(1_600_000, 200_000, 60);
    let after_year = decay.apply_decay(rating, 0, 365 * 86_400_000i64);
    assert_eq!(after_year.rating, 1_500_000, "the total loss is capped");
    let low = Rating::new(500, 200_000, 60);
    let floored = decay.apply_decay(low, 0, 5 * 86_400_000i64);
    assert_eq!(floored.rating, 0, "the point never goes negative");
}

#[test]
fn test_season_reset() {
    let player = Rating::new(2_000_000, 150_000, 60);
    let soft = SoftReset::new(1_500_000, 500);
    let softened = soft.reset_rating(player);
    assert!(softened.rating < player.rating, "a soft reset must lower a high rating");
    assert!(softened.rating > 1_500_000, "a soft reset must not go all the way to the target");
    assert_eq!(softened.rating, 1_750_000);
    assert_eq!(softened.deviation, 200_000);

    let hard = HardReset::new(1_500_000);
    let reset = hard.reset_rating(player);
    assert_eq!(reset.rating, 1_500_000, "a hard reset must set the exact target");
    assert_eq!(reset.deviation, 350_000, "a hard reset must restore full uncertainty");
    assert_eq!(reset.volatility, 60);
}

#[test]
fn season_window_is_half_open() {
    let season = Season { id: "launch".to_string(), start_ms: 100, end_ms: 200 };
    assert!(!season.is_active(99));
    assert!(season.is_active(100));
    assert!(season.is_active(199));
    assert!(!season.is_active(200));
}

#[test]
fn integer_square_root_brackets_its_argument() {
    assert_eq!(isqrt(0), 0);
    assert_eq!(isqrt(1), 1);
    assert_eq!(isqrt(99), 9);
    assert_eq!(isqrt(100), 10);
    assert_eq!(isqrt(122_500_000_000), 350_000);
}

#[test]
fn expected_score_tracks_the_logistic_curve() {
    // A hundred points behind is worth about 0.360, four hundred points
    // behind about 0.091, both to the engine's per-mille resolution.
    assert_eq!(expected_score(1_500_000, 1_600_000), 359);
    assert_eq!(expected_score(1_600_000, 1_500_000), 641);
    assert_eq!(expected_score(1_500_000, 1_900_000), 90);
}

#[test]
fn symmetric_update_against_a_stronger_opponent() {
    // Winning as the 100-point underdog pays K times the 0.641 upset
    // margin: 20.512 points at K = 32.
    let elo = EloAlgorithm::new(32_000);
    let me = Rating::new(1_500_000, 350_000, 60);
    let opp = Rating::new(1_600_000, 350_000, 60);
    let new = elo.calculate_new_rating(me, opp, Outcome::Win);
    assert_eq!(new.rating, 1_520_512);
}

#[test]
fn deviation_aware_update_matches_a_worked_case() {
    // Equal 1500-point players with 200 points of deviation: the
    // variance term amplifies the win into roughly 220 points, and the
    // deviation grows toward its ceiling.
    let glicko = Glicko2Algorithm::default();
    let me = Rating::new(1_500_000, 200_000, 60);
    let opp = Rating::new(1_500_000, 200_000, 60);
    let won = glicko.calculate_new_rating(me, opp, Outcome::Win);
    assert_eq!(won.rating, 1_720_551);
    assert_eq!(won.deviation, 297_731);
    assert_eq!(won.volatility, 60);
}
