use generic_drafter::{generate_picks, generate_players, run_drafter, DraftError, Player, TemplateApp};

fn opts(names: &[&str]) -> Vec<String> {
    names.iter().map(|s| s.to_string()).collect()
}

fn assert_all_distinct(picks: &[String]) {
    for a in 0..picks.len() {
        for b in 0..picks.len() {
            if a != b {
                assert_ne!(picks[a], picks[b], "pick repeated across the draft");
            }
        }
    }
}

fn flat_picks(players: &[Player]) -> Vec<String> {
    let mut all: Vec<String> = Vec::new();
    for p in players {
        all.extend(p.picks.iter().cloned());
    }
    all
}

#[test]
fn unique_draft_has_requested_shape() {
    let pool = opts(&["a", "b", "c", "d", "e", "f"]);
    let players = run_drafter(pool.clone(), 2, 3, true).unwrap();
    assert_eq!(players.len(), 2);
    assert_eq!(players[0].number, 1);
    assert_eq!(players[1].number, 2);
    for p in &players {
        assert_eq!(p.picks.len(), 3);
        for pick in &p.picks {
            assert!(pool.contains(pick), "pick not taken from the options");
        }
    }
}

#[test]
fn unique_draft_never_repeats_a_pick() {
    let pool = opts(&["red", "green", "blue", "yellow", "pink", "cyan"]);
    for _ in 0..50 {
        let players = run_drafter(pool.clone(), 3, 2, true).unwrap();
        assert_all_distinct(&flat_picks(&players));
    }
}

#[test]
fn unique_draft_of_the_whole_pool_is_a_permutation() {
    let pool = opts(&["a", "b", "c", "d"]);
    let players = run_drafter(pool.clone(), 2, 2, true).unwrap();
    let mut all = flat_picks(&players);
    all.sort();
    let mut expected = pool.clone();
    expected.sort();
    assert_eq!(all, expected);
}

#[test]
fn unique_draft_needs_enough_options() {
    let pool = opts(&["a", "b", "c"]);
    let r = run_drafter(pool, 2, 2, true);
    assert!(matches!(r, Err(DraftError::NotEnoughOptions)));
}

#[test]
fn shared_draft_needs_enough_options_per_player() {
    let pool = opts(&["a", "b", "c"]);
    let r = run_drafter(pool, 2, 4, false);
    assert!(matches!(r, Err(DraftError::NotEnoughOptions)));
}

#[test]
fn shared_draft_runs_on_a_small_pool() {
    let pool = opts(&["a", "b", "c"]);
    for _ in 0..20 {
        let players = run_drafter(pool.clone(), 5, 3, false).unwrap();
        assert_eq!(players.len(), 5);
        for p in &players {
            assert_eq!(p.picks.len(), 3);
            for pick in &p.picks {
                assert!(pool.contains(pick));
            }
            // each player draws from a fresh copy without replacement
            assert_all_distinct(&p.picks);
        }
    }
}

#[test]
fn zero_players_draft_is_empty() {
    let pool = opts(&["a"]);
    let players = run_drafter(pool, 0, 7, true).unwrap();
    assert!(players.is_empty());
}

#[test]
fn single_option_is_the_pick() {
    let pool = opts(&["only"]);
    let players = run_drafter(pool, 1, 1, true).unwrap();
    assert_eq!(players.len(), 1);
    assert_eq!(players[0].number, 1);
    assert_eq!(players[0].picks, vec!["only".to_string()]);
}

#[test]
fn duplicate_options_can_repeat_even_in_a_unique_draft() {
    // the pool itself offers the same text twice, so the draft may hand it
    // out twice: distinctness is by text, and only a pool of distinct texts
    // yields a repeat-free draft
    let pool = opts(&["a", "a"]);
    let players = run_drafter(pool, 1, 2, true).unwrap();
    assert_eq!(players[0].picks, opts(&["a", "a"]));
}

#[test]
fn generate_picks_draws_the_requested_count() {
    let pool = opts(&["a", "b", "c", "d"]);
    let picks = generate_picks(&2, &2, pool.clone(), true);
    assert_eq!(picks.len(), 4);
    assert_all_distinct(&picks);
    for pick in &picks {
        assert!(pool.contains(pick));
    }
}

#[test]
fn generate_players_splits_in_order() {
    let pick_list = opts(&["a", "b", "c", "d", "e", "f"]);
    let players = generate_players(&2, &3, pick_list);
    assert_eq!(players.len(), 2);
    assert_eq!(players[0].number, 1);
    assert_eq!(players[0].picks, opts(&["a", "b", "c"]));
    assert_eq!(players[1].number, 2);
    assert_eq!(players[1].picks, opts(&["d", "e", "f"]));
}

#[test]
fn generate_players_with_no_players_is_empty() {
    let players = generate_players(&0, &3, Vec::new());
    assert!(players.is_empty());
}

#[test]
fn default_state_has_the_expected_settings() {
    let state = TemplateApp::default();
    assert_eq!(state.path, "games/");
    assert_eq!(state.num_players, 3);
    assert_eq!(state.num_picks, 3);
    assert!(state.unique_picks);
    assert!(state.player_list.is_empty());
    assert_eq!(state.error_message, "");
}

#[test]
fn error_message_names_the_problem() {
    let e = DraftError::NotEnoughOptions;
    assert_eq!(e.message(), "not enough options for the requested picks");
}
