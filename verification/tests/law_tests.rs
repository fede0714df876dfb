use scopa_fish::card::{Card, Suit, Value};
use scopa_fish::game::{Game, Step};
use scopa_fish::command::{move_of_words, parse_move_line};
use scopa_fish::moves::Move;

/// Where each card of the deck is: counts over deck, table, hands, ponds.
fn card_counts(g: &Game) -> [u32; 40] {
    let mut counts = [0u32; 40];
    for c in &g.deck {
        counts[c.num()] += 1;
    }
    for c in g.table.to_vec() {
        counts[c.num()] += 1;
    }
    for p in &g.players {
        for c in p.hand.to_vec() {
            counts[c.num()] += 1;
        }
        for c in &p.pond {
            counts[c.num()] += 1;
        }
    }
    counts
}

#[test]
fn every_card_stays_in_one_place() {
    let mut g = Game::new();
    assert_eq!(card_counts(&g), [1; 40]);
    g.init();
    assert_eq!(card_counts(&g), [1; 40]);
    let mut turns = 0;
    while !g.over() && turns < 100 {
        if g.all_hands_empty() {
            g.deal_users();
            assert_eq!(card_counts(&g), [1; 40]);
            continue;
        }
        let mvs = g.generate_moves();
        assert!(!mvs.is_empty());
        assert!(g.try_move(&mvs[0]));
        assert_eq!(card_counts(&g), [1; 40]);
        turns += 1;
    }
    assert!(g.over());
    g.end();
    assert!(g.table.is_empty());
    assert_eq!(card_counts(&g), [1; 40]);
    let in_ponds: usize = g.players.iter().map(|p| p.pond.len()).sum();
    assert_eq!(in_ponds, 40);
}

#[test]
fn every_offered_move_is_accepted() {
    let mut g = Game::new();
    g.init();
    for mv in g.generate_moves() {
        let mut h = g.clone();
        assert!(h.try_move(&mv));
    }
}

#[test]
fn pickups_add_up_to_the_played_card() {
    let mut g = Game::new();
    let king = Card::new(Value::King, Suit::Hearts);
    g.players[0].give_card(king);
    for c in [
        Card::new(Value::Two, Suit::Spades),
        Card::new(Value::Three, Suit::Clubs),
        Card::new(Value::Five, Suit::Diamonds),
        Card::new(Value::Seven, Suit::Hearts),
        Card::new(Value::Jack, Suit::Clubs),
    ] {
        g.play_card(c);
    }
    let mvs = g.generate_moves();
    for mv in &mvs {
        match mv {
            Move::Up(c, cs) => {
                assert_eq!(*c, king);
                let total: u32 = Card::decode(*cs, 0)
                    .iter()
                    .map(|x| x.val.number() as u32)
                    .sum();
                assert_eq!(total, 10);
            }
            Move::Down(_) => panic!("a pick-up was possible"),
        }
    }
    // 3 + 7 and 2 + 8 are the two-card ways; 2 + 3 + 5 takes three cards
    assert_eq!(mvs.len(), 2);
}

#[test]
fn picked_card_order_does_not_matter() {
    let c = Card::new(Value::Queen, Suit::Spades);
    let a = Card::new(Value::Four, Suit::Hearts);
    let b = Card::new(Value::Five, Suit::Clubs);
    assert_eq!(Move::new_up(c, vec![a, b]), Move::new_up(c, vec![b, a]));
}

#[test]
fn state_flags_show_what_the_player_sees() {
    let mut g = Game::new();
    let seven = Card::new(Value::Seven, Suit::Diamonds);
    let two = Card::new(Value::Two, Suit::Clubs);
    let four = Card::new(Value::Four, Suit::Spades);
    let six = Card::new(Value::Six, Suit::Hearts);
    g.play_card(seven);
    g.players[0].give_card(two);
    g.players[0].give_pond(four);
    g.players[1].give_pond(six);
    let f = g.state_flags();
    assert_eq!(f.len(), 161);
    assert_eq!(f.iter().filter(|x| **x).count(), 5);
    assert!(f[seven.num()]);
    assert!(f[40 + two.num()]);
    assert!(f[80 + four.num()]);
    assert!(f[120 + six.num()]);
    assert!(f[160]);
}

#[test]
fn shuffle_reorders_the_same_cards() {
    let fresh = Game::new();
    let mut g = Game::new();
    g.shuffle();
    assert_eq!(g.deck.len(), 40);
    // the chance that forty cards come back in their order is 1 in 40!
    assert_ne!(g.deck, fresh.deck);
    let mut seen = [false; 40];
    for c in &g.deck {
        assert!(!seen[c.num()]);
        seen[c.num()] = true;
    }
}

#[test]
fn the_loop_deals_asks_and_finishes() {
    let mut g = Game::new();
    // every hand empty, deck full: a round is dealt
    assert_eq!(g.step(), Step::Dealt);
    assert_eq!(g.deck.len(), 34);
    assert_eq!(g.players[0].hand.len(), 3);
    assert_eq!(g.players[1].hand.len(), 3);
    // with cards in hand the player whose turn it is moves, and nothing changes
    g.turn = 1;
    assert_eq!(g.step(), Step::Ask(1));
    assert_eq!(g.deck.len(), 34);
    // every hand and the deck empty: the game is over
    let mut h = Game::new();
    h.deck.clear();
    assert_eq!(h.step(), Step::Finished);
    assert!(h.deck.is_empty());
}

#[test]
fn a_refused_move_changes_nothing_and_the_same_player_is_asked() {
    let mut g = Game::new();
    g.init();
    assert_eq!(g.step(), Step::Ask(0));
    let before = card_counts(&g);
    // a card that is not in the player's hand
    let mut missing = None;
    for n in 0..40 {
        let c = Card::from_num(n);
        if !g.players[0].hand.contains(&c) {
            missing = Some(c);
            break;
        }
    }
    let bad = Move::Down(missing.unwrap());
    assert!(!g.try_move(&bad));
    assert_eq!(g.turn, 0);
    assert!(g.moves.is_empty());
    assert_eq!(card_counts(&g), before);
    assert_eq!(g.players[0].hand.len(), 3);
    assert_eq!(g.step(), Step::Ask(0));
}

#[test]
fn a_move_keeps_every_card_count_even_in_a_made_up_game() {
    // a hand card that also lies on the table: the game never reaches this,
    // yet a move neither creates nor loses a card
    let mut g = Game::new();
    g.deck.clear();
    let five = Card::new(Value::Five, Suit::Clubs);
    g.players[0].give_card(five);
    g.play_card(five);
    let before = card_counts(&g);
    let mvs = g.generate_moves();
    assert_eq!(mvs.len(), 1);
    assert!(matches!(mvs[0], Move::Up(_, _)));
    g.do_move(&mvs[0]);
    assert_eq!(card_counts(&g), before);
    assert_eq!(g.players[0].pond.len(), 2);
    assert!(g.table.is_empty());
}

#[test]
fn round_points_count_without_adding() {
    let mut p = scopa_fish::player::Player::new();
    for v in [Value::Seven, Value::Six, Value::Five] {
        for s in [Suit::Diamonds, Suit::Hearts, Suit::Clubs] {
            p.give_pond(Card::new(v, s));
        }
    }
    // diamonds: 3, not over 5; seven of diamonds: 1; sevens: 3 of them: 1
    assert_eq!(p.round_points(), 2);
    assert_eq!(p.score, 0);
    assert_eq!(p.calculate_score(), 2);
}

#[test]
fn a_typed_line_reads_as_a_move() {
    let seven = Card::new(Value::Seven, Suit::Diamonds);
    assert_eq!(parse_move_line("d 7d"), Some(Ok(Move::Down(seven))));
    assert_eq!(parse_move_line("  D\t7D  extra"), Some(Ok(Move::Down(seven))));
    let two = Card::new(Value::Two, Suit::Clubs);
    let five = Card::new(Value::Five, Suit::Spades);
    assert_eq!(
        parse_move_line("u 7d 5s 2c"),
        Some(Ok(Move::new_up(seven, vec![two, five])))
    );
    assert_eq!(parse_move_line("U 7d"), Some(Ok(Move::new_up(seven, vec![]))));
}

#[test]
fn a_typed_line_that_names_no_move_says_why() {
    let msg = |s: &str| Some(Err(Some(s.to_string())));
    assert_eq!(parse_move_line(""), msg("Needs to start with u/U or d/D"));
    assert_eq!(parse_move_line("x 7d"), msg("Needs to start with u/U or d/D"));
    assert_eq!(parse_move_line("d"), msg("Need a second argument for down"));
    assert_eq!(parse_move_line("u"), msg("Need a first argument for up"));
    assert_eq!(
        parse_move_line("d 7x"),
        msg("Could not parse card: Coult not convert 'x' to suit")
    );
    assert_eq!(
        parse_move_line("u 9d"),
        msg("Could not parse card Could not convert '9' to a value")
    );
    assert_eq!(
        parse_move_line("d 777"),
        msg("Could not parse card: string must be of length two: 777")
    );
    // a misspelt card to pick up passes the line over in silence
    assert_eq!(parse_move_line("u 7d 5s zz"), Some(Err(None)));
}

#[test]
fn a_card_written_as_one_two_byte_character_is_no_value() {
    assert_eq!(
        parse_move_line("d é"),
        Some(Err(Some("Could not parse card: Could not convert 'é' to a value".to_string())))
    );
    assert_eq!(
        parse_move_line("u é"),
        Some(Err(Some("Could not parse card Could not convert 'é' to a value".to_string())))
    );
    // as a card to pick up it passes the line over in silence
    assert_eq!(parse_move_line("u 7d é"), Some(Err(None)));
    assert_eq!(
        Card::parse("é"),
        Err("Could not convert 'é' to a value".to_string())
    );
}

#[test]
fn a_typed_line_the_game_stops_on() {
    // more cards to pick up than a move holds
    let many = std::iter::repeat("7d").take(22).collect::<Vec<_>>().join(" ");
    assert_eq!(parse_move_line(&format!("u 7d {}", many)), None);
    let ws = vec!["d", "kh"];
    assert_eq!(
        move_of_words(&ws),
        Ok(Move::Down(Card::new(Value::King, Suit::Hearts)))
    );
}

#[test]
fn each_player_is_asked_eighteen_times() {
    let mut g = Game::new();
    g.init();
    let mut asked = [0u32; 2];
    loop {
        match g.step() {
            Step::Finished => break,
            Step::Dealt => continue,
            Step::Ask(p) => {
                assert_eq!(p, g.turn);
                assert!(!g.players[p].hand.is_empty());
                assert!(!g.over());
                asked[p] += 1;
                let mvs = g.generate_moves();
                assert!(g.try_move(&mvs[mvs.len() - 1]));
            }
        }
    }
    assert_eq!(asked, [18, 18]);
}

#[test]
fn a_scopa_shaped_illegal_move_is_refused() {
    // an illegal pick-up that would clear the table is refused whatever the score
    let mut g = Game::new();
    g.deck.clear();
    let king = Card::new(Value::King, Suit::Hearts);
    let two = Card::new(Value::Two, Suit::Clubs);
    g.players[0].give_card(king);
    g.play_card(two);
    g.players[0].score = u16::MAX;
    let bad = Move::new_up(king, vec![two]);
    assert!(!g.try_move(&bad));
    assert_eq!(g.players[0].score, u16::MAX);
    assert_eq!(g.table.len(), 1);
}

#[test]
fn a_finished_round_shares_its_points() {
    let mut g = Game::new();
    g.init();
    loop {
        match g.step() {
            Step::Finished => break,
            Step::Dealt => continue,
            Step::Ask(_) => {
                let mvs = g.generate_moves();
                assert!(g.try_move(&mvs[0]));
            }
        }
    }
    g.end();
    let a = g.players[0].round_points();
    let b = g.players[1].round_points();
    assert!(1 <= a + b && a + b <= 4);
    let seven = Card::new(Value::Seven, Suit::Diamonds);
    let holders = g
        .players
        .iter()
        .filter(|p| p.pond.contains(&seven))
        .count();
    assert_eq!(holders, 1);
    assert!(!(g.players[0].pond.len() > 20 && g.players[1].pond.len() > 20));
}
