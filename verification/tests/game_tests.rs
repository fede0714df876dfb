use scopa_fish::card::{Card, Suit, Value};
use scopa_fish::card_set::CardSet;
use scopa_fish::game::Game;
use scopa_fish::moves::Move;
use scopa_fish::player::Player;

#[test]
fn test_move_gen() {
    let mut game = Game::new();
    game.table.insert(Card::new(Value::Five, Suit::Clubs));
    game.table.insert(Card::new(Value::Five, Suit::Spades));
    game.table.insert(Card::new(Value::King, Suit::Spades));
    game.table.insert(Card::new(Value::King, Suit::Clubs));
    game.table.insert(Card::new(Value::Seven, Suit::Spades));
    game.table.insert(Card::new(Value::Three, Suit::Spades));

    game.players[0]
        .hand
        .insert(Card::new(Value::King, Suit::Diamonds));
    game.players[0]
        .hand
        .insert(Card::new(Value::Five, Suit::Diamonds));

    let moves = game.generate_moves();
    assert_eq!(4, moves.len());
}

#[test]
fn test_move_gen2() {
    let mut game = Game::new();
    game.table.insert(Card::new(Value::Three, Suit::Clubs));
    game.table.insert(Card::new(Value::Three, Suit::Spades));
    game.table.insert(Card::new(Value::Four, Suit::Spades));
    game.table.insert(Card::new(Value::Six, Suit::Spades));
    game.table.insert(Card::new(Value::Seven, Suit::Spades));

    game.players[0]
        .hand
        .insert(Card::new(Value::King, Suit::Diamonds));

    let moves = game.generate_moves();
    assert_eq!(3, moves.len());
}

// This is basically a fuzzer
#[test]
fn encode_decode() {
    let mut game = Game::new();
    game.shuffle();

    let l = rand::random::<u8>() % 40;
    let mut cds = vec![];

    for i in 0..l {
        cds.push(game.deck[i as usize]);
    }

    let (v1, v2) = Card::encode_vec(&cds);
    let cds2 = Card::decode(v1, v2);

    assert_eq!(cds, cds2);
}

#[test]
fn nums() {
    let mut deck = vec![];
    for v in Value::ALL.iter() {
        for s in &Suit::ALL {
            deck.push(Card::new(*v, *s));
        }
    }

    let mut hm: [u8; 40] = [0; 40];
    for i in deck.iter() {
        if hm[i.num()] == 1 {
            println!("{}", i.num());
            assert!(false);
        }
        hm[i.num()] = 1;
        assert_eq!(Card::from_num(i.num()), *i);
    }

    let cds = Card::all_cards();
    for (i, c) in cds.iter().enumerate() {
        assert_eq!(c.num(), i)
    }
}

#[test]
fn suit_from_char_reads_letters() {
    assert_eq!(Suit::from_char('s'), Ok(Suit::Spades));
    assert_eq!(Suit::from_char('C'), Ok(Suit::Clubs));
    assert_eq!(Suit::from_char('d'), Ok(Suit::Diamonds));
    assert_eq!(Suit::from_char('H'), Ok(Suit::Hearts));
    assert_eq!(
        Suit::from_char('x'),
        Err(String::from("Coult not convert 'x' to suit"))
    );
}

#[test]
fn value_from_char_reads_characters() {
    assert_eq!(Value::from_char('a'), Ok(Value::One));
    assert_eq!(Value::from_char('1'), Ok(Value::One));
    assert_eq!(Value::from_char('7'), Ok(Value::Seven));
    assert_eq!(Value::from_char('j'), Ok(Value::Jack));
    assert_eq!(Value::from_char('Q'), Ok(Value::Queen));
    assert_eq!(Value::from_char('k'), Ok(Value::King));
    assert_eq!(
        Value::from_char('8'),
        Err(String::from("Could not convert '8' to a value"))
    );
}

#[test]
fn value_addition() {
    assert_eq!(Value::Three + Value::Four, Some(Value::Seven));
    assert_eq!(Value::Seven + Value::One, Some(Value::Jack));
    assert_eq!(Value::Five + Value::Five, Some(Value::King));
    assert_eq!(Value::Six + Value::Five, None);
}

#[test]
fn bitmasks_read_back() {
    assert_eq!(Value::King.bitmask(), 0b00101100);
    assert_eq!(Suit::Hearts.bitmask(), 0b00000011);
    for c in Card::all_cards() {
        let m = c.bitmask();
        assert!(m > 0 && m < 64);
        assert_eq!(Card::decode_bitmask(m), c);
        assert_eq!(Value::decode_bitmask(m), c.val);
        assert_eq!(Suit::decode_bitmask(m), c.suit);
    }
    assert_eq!(Card::new(Value::Seven, Suit::Diamonds).bitmask(), 0b00011110);
}

#[test]
fn from_num_picks_suit_and_value() {
    assert_eq!(Suit::from_num(2), Suit::Diamonds);
    assert_eq!(Value::from_num(9), Value::King);
    assert_eq!(Card::from_num(26), Card::new(Value::Seven, Suit::Diamonds));
    assert_eq!(Card::new(Value::Seven, Suit::Diamonds).num(), 26);
    assert_eq!(Card::new(Value::One, Suit::Spades).num(), 0);
    assert_eq!(Card::new(Value::King, Suit::Hearts).num(), 39);
}

#[test]
fn parse_reads_two_characters() {
    assert_eq!(Card::parse("7d"), Ok(Card::new(Value::Seven, Suit::Diamonds)));
    assert_eq!(Card::parse("KH"), Ok(Card::new(Value::King, Suit::Hearts)));
    assert_eq!(
        Card::parse("7dd"),
        Err(String::from("string must be of length two: 7dd"))
    );
    assert_eq!(
        Card::parse("9d"),
        Err(String::from("Could not convert '9' to a value"))
    );
    assert_eq!(
        Card::parse("7x"),
        Err(String::from("Coult not convert 'x' to suit"))
    );
}

#[test]
fn names_are_shown() {
    assert_eq!(Suit::Diamonds.to_string(), "Diamonds");
    assert_eq!(Value::One.to_string(), "Ace");
    assert_eq!(
        Card::new(Value::Seven, Suit::Diamonds).to_string(),
        "(Seven of Diamonds)"
    );
}

#[test]
fn encoding_of_known_cards() {
    let cards = vec![
        Card::new(Value::One, Suit::Spades),
        Card::new(Value::Two, Suit::Clubs),
    ];
    let (a, b) = Card::encode_vec(&cards);
    assert_eq!(a, 0b001001_000100);
    assert_eq!(b, 0);
    assert_eq!(Card::decode(a, b), cards);
    assert_eq!(Card::decode(0, 12345), vec![]);
}

#[test]
fn encoding_of_full_deck_uses_two_words() {
    let cards = Card::all_cards();
    let (a, b) = Card::encode_vec(&cards);
    assert!(b != 0);
    assert_eq!(Card::decode(a, b), cards);
}

#[test]
fn new_up_sorts_picked_cards() {
    let c = Card::new(Value::King, Suit::Hearts);
    let m1 = Move::new_up(
        c,
        vec![
            Card::new(Value::Seven, Suit::Diamonds),
            Card::new(Value::Three, Suit::Spades),
        ],
    );
    let m2 = Move::new_up(
        c,
        vec![
            Card::new(Value::Three, Suit::Spades),
            Card::new(Value::Seven, Suit::Diamonds),
        ],
    );
    assert!(m1.equal(&m2));
    assert_eq!(m1, m2);
    match m1 {
        Move::Up(p, cs) => {
            assert_eq!(p, c);
            assert_eq!(
                Card::decode(cs, 0),
                vec![
                    Card::new(Value::Three, Suit::Spades),
                    Card::new(Value::Seven, Suit::Diamonds)
                ]
            );
        }
        Move::Down(_) => panic!("expected a pick-up"),
    }
    assert_eq!(m1.get_down_card(), c);
    assert!(!m1.equal(&Move::Down(c)));
}

#[test]
fn card_set_behaves_as_a_set() {
    let mut s = CardSet::new();
    let a = Card::new(Value::Two, Suit::Clubs);
    let b = Card::new(Value::Six, Suit::Hearts);
    assert!(s.is_empty());
    assert!(s.insert(a));
    assert!(s.insert(b));
    assert!(!s.insert(a));
    assert_eq!(s.len(), 2);
    assert!(s.contains(&a));
    assert!(s.remove(&a));
    assert!(!s.remove(&a));
    assert!(!s.contains(&a));
    assert_eq!(s.to_vec(), vec![b]);
}

#[test]
fn player_scoring() {
    let mut p = Player::new();
    assert!(p.hand_empty());
    for c in [
        Card::new(Value::Seven, Suit::Diamonds),
        Card::new(Value::Seven, Suit::Hearts),
        Card::new(Value::Seven, Suit::Spades),
        Card::new(Value::One, Suit::Diamonds),
        Card::new(Value::Two, Suit::Diamonds),
        Card::new(Value::Three, Suit::Diamonds),
        Card::new(Value::Four, Suit::Diamonds),
        Card::new(Value::Five, Suit::Diamonds),
    ] {
        p.give_pond(c);
    }
    assert_eq!(p.find_card(None, Some(Suit::Diamonds)), 6);
    assert_eq!(p.find_card(Some(Value::Seven), None), 3);
    assert_eq!(p.find_card(Some(Value::Seven), Some(Suit::Diamonds)), 1);
    // diamonds, seven of diamonds, sevens: three points
    assert_eq!(p.calculate_score(), 3);
    assert_eq!(p.score, 3);
}

#[test]
fn sevens_count_goes_on_at_two() {
    let mut p = Player::new();
    for c in [
        Card::new(Value::Seven, Suit::Clubs),
        Card::new(Value::Seven, Suit::Hearts),
        Card::new(Value::Six, Suit::Clubs),
        Card::new(Value::Six, Suit::Hearts),
        Card::new(Value::Six, Suit::Spades),
    ] {
        p.give_pond(c);
    }
    assert_eq!(p.calculate_score(), 1);
    let mut q = Player::new();
    q.give_pond(Card::new(Value::Seven, Suit::Clubs));
    q.give_pond(Card::new(Value::Six, Suit::Clubs));
    q.give_pond(Card::new(Value::Six, Suit::Hearts));
    q.give_pond(Card::new(Value::Six, Suit::Spades));
    assert_eq!(q.calculate_score(), 0);
}

#[test]
fn give_and_remove_cards() {
    let mut p = Player::new();
    let c = Card::new(Value::Queen, Suit::Clubs);
    p.give_card(c);
    assert!(!p.hand_empty());
    p.remove_card(c);
    assert!(p.hand_empty());
}

#[test]
fn new_game_state() {
    let g = Game::new();
    assert_eq!(g.players.len(), 2);
    assert_eq!(g.deck.len(), 40);
    assert_eq!(g.deck[0], Card::new(Value::One, Suit::Diamonds));
    assert_eq!(g.deck[1], Card::new(Value::One, Suit::Hearts));
    assert_eq!(g.deck[2], Card::new(Value::One, Suit::Spades));
    assert_eq!(g.deck[3], Card::new(Value::One, Suit::Clubs));
    assert_eq!(g.deck[39], Card::new(Value::King, Suit::Clubs));
    assert!(g.ace_sweeps);
    assert!(g.table.is_empty());
    assert_eq!(g.last_move(), None);
    assert!(!g.over());
    assert!(g.all_hands_empty());
}

#[test]
fn init_lays_table_and_deals() {
    let mut g = Game::new();
    g.init();
    assert_eq!(g.table.len(), 4);
    assert_eq!(g.players[0].hand.len(), 3);
    assert_eq!(g.players[1].hand.len(), 3);
    assert_eq!(g.deck.len(), 30);
}

#[test]
fn deal_without_shuffle_takes_top_cards() {
    let mut g = Game::new();
    g.init_table();
    // the last four cards of the fresh deck are the kings
    for s in Suit::ALL {
        assert!(g.table.contains(&Card::new(Value::King, s)));
    }
    g.deal_users();
    assert!(g.players[0].hand.contains(&Card::new(Value::Queen, Suit::Clubs)));
    assert!(g.players[1].hand.contains(&Card::new(Value::Queen, Suit::Spades)));
    assert!(g.players[0].hand.contains(&Card::new(Value::Queen, Suit::Hearts)));
    assert!(g.players[1].hand.contains(&Card::new(Value::Queen, Suit::Diamonds)));
    assert!(g.players[0].hand.contains(&Card::new(Value::Jack, Suit::Clubs)));
    assert!(g.players[1].hand.contains(&Card::new(Value::Jack, Suit::Spades)));
    assert_eq!(g.deck.len(), 30);
}

#[test]
fn turns_alternate() {
    let mut g = Game::new();
    assert_eq!(g.turn, 0);
    g.next_turn();
    assert_eq!(g.turn, 1);
    g.next_turn();
    assert_eq!(g.turn, 0);
}

#[test]
fn down_then_pickup_scores_a_scopa() {
    let mut g = Game::new();
    let five = Card::new(Value::Five, Suit::Clubs);
    let two = Card::new(Value::Two, Suit::Hearts);
    let seven = Card::new(Value::Seven, Suit::Diamonds);
    g.players[0].give_card(five);
    g.players[1].give_card(seven);
    g.play_card(two);
    // player 0 cannot pick up with the five, so puts it down
    let mvs = g.generate_moves();
    assert_eq!(mvs, vec![Move::Down(five)]);
    assert!(g.try_move(&Move::Down(five)));
    assert_eq!(g.turn, 1);
    assert_eq!(g.table.len(), 2);
    // player 1 takes five and two with the seven: the table is cleared
    let up = Move::new_up(seven, vec![five, two]);
    assert_eq!(g.generate_moves(), vec![up]);
    assert!(!g.try_move(&Move::Down(seven)));
    assert!(g.try_move(&up));
    assert!(g.table.is_empty());
    assert_eq!(g.players[1].score, 1);
    assert_eq!(g.players[1].pond, vec![seven, two, five]);
    assert_eq!(g.last_pickup, 1);
    assert_eq!(g.moves, vec![Move::Down(five), up]);
    assert_eq!(g.last_move(), Some(up));
    assert_eq!(g.turn, 0);
}

#[test]
fn ace_sweeps_the_table() {
    let mut g = Game::new();
    let ace = Card::new(Value::One, Suit::Hearts);
    g.players[0].give_card(ace);
    g.play_card(Card::new(Value::King, Suit::Clubs));
    g.play_card(Card::new(Value::Three, Suit::Spades));
    let mvs = g.generate_moves();
    assert_eq!(
        mvs,
        vec![Move::new_up(
            ace,
            vec![
                Card::new(Value::Three, Suit::Spades),
                Card::new(Value::King, Suit::Clubs)
            ]
        )]
    );
    g.do_full_move(&mvs[0]);
    assert!(g.table.is_empty());
    // an ace's sweep is no scopa
    assert_eq!(g.players[0].score, 0);
    assert_eq!(g.players[0].pond.len(), 3);
}

#[test]
fn fewest_cards_pickups_only() {
    let mut g = Game::new();
    let six = Card::new(Value::Six, Suit::Clubs);
    g.players[0].give_card(six);
    g.play_card(Card::new(Value::Six, Suit::Hearts));
    g.play_card(Card::new(Value::Two, Suit::Spades));
    g.play_card(Card::new(Value::Four, Suit::Spades));
    let mvs = g.generate_moves();
    assert_eq!(mvs, vec![Move::new_up(six, vec![Card::new(Value::Six, Suit::Hearts)])]);
}

#[test]
fn end_gives_table_to_last_pickup() {
    let mut g = Game::new();
    g.last_pickup = 1;
    g.play_card(Card::new(Value::Four, Suit::Clubs));
    g.play_card(Card::new(Value::Five, Suit::Clubs));
    g.end();
    assert!(g.table.is_empty());
    assert_eq!(
        g.players[1].pond,
        vec![Card::new(Value::Four, Suit::Clubs), Card::new(Value::Five, Suit::Clubs)]
    );
    assert!(g.players[0].pond.is_empty());
}

#[test]
fn scores_and_winner() {
    let mut g = Game::new();
    for c in Card::all_cards().into_iter().take(21) {
        g.players[0].give_pond(c);
    }
    // 21 cards: the spades, the clubs and the ace of diamonds. Card majority,
    // and the sevens count reaches the aces, of which there are three.
    let r = g.calculate_win_for_current_player();
    assert_eq!(r, 1);
    assert_eq!(g.players[0].score, 2);
    assert_eq!(g.players[1].score, 0);
    let mut h = Game::new();
    h.turn = 1;
    h.players[0].give_pond(Card::new(Value::Seven, Suit::Diamonds));
    assert_eq!(h.calculate_win_for_current_player(), -1);
    let mut k = Game::new();
    assert_eq!(k.calculate_win_for_current_player(), 0);
    k.calculate_scores();
    assert_eq!(k.players[0].score, 0);
}

#[test]
fn over_after_dealing_everything() {
    let mut g = Game::new();
    g.deck.clear();
    assert!(g.over());
    g.players[0].give_card(Card::new(Value::Two, Suit::Clubs));
    assert!(!g.over());
    assert!(!g.all_hands_empty());
}
