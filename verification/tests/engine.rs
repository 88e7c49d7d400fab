use uno::card::{Card, CardKind, Color};
use uno::uno_game::{GameError, UnoGame};

fn card(kind: CardKind, color: Option<Color>, num: u64) -> Card {
    Card::new(kind, color, num)
}

fn num(face: u8, color: Color, n: u64) -> Card {
    card(CardKind::Numeral(face), Some(color), n)
}

/// A running match laid out by hand: players 0.. with the given hands,
/// turn order 0, 1, .., the given discard top and draw pile.
fn setup(hands: Vec<Vec<Card>>, top: Card, deck: Vec<Card>) -> UnoGame {
    let mut game = UnoGame::new();
    for i in 0..hands.len() {
        game.add_player(&format!("p{}", i)).unwrap();
    }
    for (i, hand) in hands.into_iter().enumerate() {
        game.players[i].hand = hand;
    }
    game.queue = (0..game.players.len() as u64).collect();
    game.discard = vec![top];
    game.deck = deck;
    game.started = true;
    game
}

fn filler_deck(n: u64) -> Vec<Card> {
    (0..n).map(|i| num((i % 10) as u8, Color::Green, 900 + i)).collect()
}

#[test]
fn start_deals_initial_hands_and_leaves_93_cards() {
    let mut game = UnoGame::new();
    game.add_player("alice").unwrap();
    game.add_player("bob").unwrap();
    game.start().unwrap();
    assert!(game.started);
    assert_eq!(game.players.len(), 2);
    for p in &game.players {
        assert_eq!(p.hand.len(), 7);
    }
    assert_eq!(game.discard.len(), 1);
    assert_eq!(game.deck.len(), 108 - 7 * 2 - 1);
    assert_eq!(game.queue, vec![0, 1]);
    assert_eq!(game.drawn, 14);
}

#[test]
fn deck_composition_is_108_per_deck_with_distinct_numbers() {
    let mut game = UnoGame::new();
    game.add_player("alice").unwrap();
    game.add_player("bob").unwrap();
    game.start().unwrap();
    let mut all: Vec<Card> = Vec::new();
    all.extend(game.deck.iter().cloned());
    all.extend(game.discard.iter().cloned());
    for p in &game.players {
        all.extend(p.hand.iter().cloned());
    }
    assert_eq!(all.len(), 108);
    let wilds = all.iter().filter(|c| c.kind == CardKind::Wild).count();
    let wild_draws = all.iter().filter(|c| c.kind == CardKind::WildDrawFour).count();
    let colored = all.iter().filter(|c| c.color.is_some()).count();
    assert_eq!(wilds, 4);
    assert_eq!(wild_draws, 4);
    assert_eq!(colored, 100);
    let mut nums: Vec<u64> = all.iter().map(|c| c.num).collect();
    nums.sort();
    nums.dedup();
    assert_eq!(nums.len(), 108);
}

#[test]
fn illegal_play_changes_nothing() {
    let mut game = setup(
        vec![vec![num(7, Color::Blue, 1)], vec![num(1, Color::Green, 2)]],
        num(5, Color::Red, 3),
        filler_deck(4),
    );
    let hand_before = game.players[0].hand.clone();
    let discard_before = game.discard.clone();
    assert_eq!(game.play(String::from("b 7")), Err(GameError::IllegalPlay));
    assert_eq!(game.players[0].hand, hand_before);
    assert_eq!(game.discard, discard_before);
    assert_eq!(game.queue, vec![0, 1]);
}

#[test]
fn unresolvable_play_is_card_not_in_hand() {
    let mut game = setup(
        vec![vec![num(7, Color::Blue, 1)], vec![num(1, Color::Green, 2)]],
        num(5, Color::Red, 3),
        filler_deck(4),
    );
    let hand_before = game.players[0].hand.clone();
    assert_eq!(game.play(String::from("g 3")), Err(GameError::CardNotInHand));
    assert_eq!(game.play(String::from("nonsense")), Err(GameError::CardNotInHand));
    assert_eq!(game.players[0].hand, hand_before);
    assert_eq!(game.discard.len(), 1);
}

#[test]
fn legal_play_moves_card_to_discard_top() {
    let mut game = setup(
        vec![
            vec![num(5, Color::Blue, 1), num(7, Color::Blue, 2)],
            vec![num(1, Color::Green, 3)],
        ],
        num(5, Color::Red, 4),
        filler_deck(4),
    );
    // Blue 5 matches the face of the Red 5 on top.
    let msg = game.play(String::from("blue 5")).unwrap();
    assert_eq!(msg, "Played Blue 5");
    assert_eq!(game.players[0].hand.len(), 1);
    assert_eq!(game.discard.len(), 2);
    assert_eq!(game.discard.last().unwrap().kind, CardKind::Numeral(5));
    assert_eq!(game.discard.last().unwrap().color, Some(Color::Blue));
    assert_eq!(game.queue, vec![1, 0]);
    assert_eq!(game.players[0].cards_played, 1);
}

#[test]
fn skip_with_three_players_skips_exactly_one() {
    let mut game = setup(
        vec![
            vec![card(CardKind::Skip, Some(Color::Red), 1), num(9, Color::Blue, 2)],
            vec![num(1, Color::Green, 3)],
            vec![num(2, Color::Green, 4)],
        ],
        num(5, Color::Red, 5),
        filler_deck(4),
    );
    let msg = game.play(String::from("r s")).unwrap();
    assert_eq!(msg, "Played Red SKIP\nSkip a turn!");
    // player 1 is skipped; player 2, right after them, is up
    assert_eq!(game.turn_order(), vec![2, 0, 1]);
    assert_eq!(game.get_curr_player().unwrap().id, 2);
}

#[test]
fn reverse_with_two_players_keeps_the_turn() {
    let mut game = setup(
        vec![
            vec![card(CardKind::Reverse, Some(Color::Red), 1), num(9, Color::Blue, 2)],
            vec![num(1, Color::Green, 3)],
        ],
        num(5, Color::Red, 4),
        filler_deck(4),
    );
    assert_eq!(game.get_rule("Reverses Skip").unwrap().value, 1);
    game.play(String::from("r rev")).unwrap();
    assert_eq!(game.queue, vec![0, 1]);
    assert_eq!(game.get_curr_player().unwrap().id, 0);
}

#[test]
fn reverse_with_three_players_reverses_the_order() {
    let mut game = setup(
        vec![
            vec![card(CardKind::Reverse, Some(Color::Red), 1), num(9, Color::Blue, 2)],
            vec![num(1, Color::Green, 3)],
            vec![num(2, Color::Green, 4)],
        ],
        num(5, Color::Red, 5),
        filler_deck(4),
    );
    game.play(String::from("r rev")).unwrap();
    // order [0,1,2] becomes [0,2,1] with the actor in front, then the
    // turn passes to their former predecessor
    assert_eq!(game.queue, vec![2, 1, 0]);
}

#[test]
fn must_play_blocks_drawing_with_a_legal_card() {
    let mut game = setup(
        vec![
            vec![num(3, Color::Red, 1), num(9, Color::Blue, 2)],
            vec![num(1, Color::Green, 3)],
        ],
        num(5, Color::Red, 4),
        filler_deck(4),
    );
    game.set_rule("Must Play", 1).unwrap();
    let deck_before = game.deck.len();
    assert_eq!(game.draw(), Err(GameError::MustPlay));
    assert_eq!(game.players[0].hand.len(), 2);
    assert_eq!(game.deck.len(), deck_before);
    assert_eq!(game.queue, vec![0, 1]);
}

#[test]
fn draw_without_legal_cards_deals_one_and_passes_the_turn() {
    let mut game = setup(
        vec![
            vec![num(3, Color::Blue, 1)],
            vec![num(1, Color::Green, 2)],
        ],
        num(5, Color::Red, 3),
        filler_deck(4),
    );
    game.set_rule("Must Play", 1).unwrap();
    let msg = game.draw().unwrap();
    // the dealt card is the deck front
    assert_eq!(msg, "You drew a Green 0.");
    assert_eq!(game.players[0].hand.len(), 2);
    assert_eq!(game.queue, vec![1, 0]);
    assert_eq!(game.drawn, 1);
}

#[test]
fn stacked_draw_twos_compound_to_four() {
    let mut game = setup(
        vec![
            vec![card(CardKind::DrawTwo, Some(Color::Blue), 1), num(9, Color::Blue, 2)],
            vec![num(1, Color::Green, 3), num(2, Color::Green, 4)],
        ],
        num(5, Color::Red, 5),
        filler_deck(6),
    );
    // a DRAW-TWO is already on top, as if just played
    game.discard.push(card(CardKind::DrawTwo, Some(Color::Red), 6));
    let msg = game.play(String::from("b +2")).unwrap();
    assert_eq!(msg, "Played Blue +2\nPick up 4!\nAlso, skip a turn!");
    // the victim picks up 2 x 2, not 2
    assert_eq!(game.players[1].hand.len(), 6);
    // Draws Skip is on by default: the victim also loses the turn
    assert_eq!(game.queue, vec![0, 1]);
}

#[test]
fn single_draw_two_deals_two() {
    let mut game = setup(
        vec![
            vec![card(CardKind::DrawTwo, Some(Color::Red), 1), num(9, Color::Blue, 2)],
            vec![num(1, Color::Green, 3), num(2, Color::Green, 4)],
        ],
        num(5, Color::Red, 5),
        filler_deck(6),
    );
    game.set_rule("Draws Skip", 0).unwrap();
    game.play(String::from("r +2")).unwrap();
    assert_eq!(game.players[1].hand.len(), 4);
    // without Draws Skip the victim keeps the turn
    assert_eq!(game.queue, vec![1, 0]);
}

#[test]
fn wild_play_carries_the_chosen_color() {
    let mut game = setup(
        vec![
            vec![card(CardKind::Wild, None, 1), num(9, Color::Blue, 2)],
            vec![num(1, Color::Green, 3)],
        ],
        num(5, Color::Red, 4),
        filler_deck(4),
    );
    game.play(String::from("red wild")).unwrap();
    let top = game.get_curr_card().unwrap();
    assert_eq!(top.kind, CardKind::Wild);
    assert_eq!(top.color, Some(Color::Red));
}

#[test]
fn wild_draw_four_deals_four() {
    let mut game = setup(
        vec![
            vec![card(CardKind::WildDrawFour, None, 1), num(9, Color::Blue, 2)],
            vec![num(1, Color::Green, 3)],
            vec![num(2, Color::Green, 4)],
        ],
        num(5, Color::Red, 5),
        filler_deck(6),
    );
    // a wild-family card is laid with a chosen color; the play is
    // legal when that color matches the top
    game.play(String::from("red w+4")).unwrap();
    assert_eq!(game.players[1].hand.len(), 5);
    let top = game.get_curr_card().unwrap();
    assert_eq!(top.color, Some(Color::Red));
}

#[test]
fn finishing_lists_rank_one_on_the_scoreboard() {
    let mut game = setup(
        vec![
            vec![num(5, Color::Blue, 1)],
            vec![num(1, Color::Green, 2)],
            vec![num(2, Color::Green, 3)],
        ],
        num(5, Color::Red, 4),
        filler_deck(4),
    );
    game.play(String::from("b 5")).unwrap();
    assert_eq!(game.finished, vec![0]);
    assert!(game.players[0].finished);
    assert_eq!(game.queue, vec![1, 2]);
    let board = game.scoreboard();
    assert!(board.starts_with("1. *p0*"));
}

#[test]
fn two_player_endgame_finishes_both() {
    let mut game = setup(
        vec![
            vec![num(5, Color::Blue, 1)],
            vec![num(1, Color::Green, 2)],
        ],
        num(5, Color::Red, 3),
        filler_deck(4),
    );
    game.play(String::from("b 5")).unwrap();
    assert_eq!(game.finished, vec![0, 1]);
    assert_eq!(game.queue.len(), 0);
    // with the queue empty the match is over
    assert_eq!(game.play(String::from("g 1")), Err(GameError::GameOver));
    assert_eq!(game.draw(), Err(GameError::GameOver));
}

#[test]
fn callouts_disabled_always_fails() {
    let mut game = UnoGame::new();
    game.set_rule("Callouts", 0).unwrap();
    assert_eq!(game.callout(0), Err(GameError::CalloutsDisabled));
    // the same holds on a running match, whatever the hands
    let mut game = setup(
        vec![vec![num(5, Color::Blue, 1)], vec![num(1, Color::Green, 2)]],
        num(5, Color::Red, 3),
        filler_deck(4),
    );
    game.set_rule("Callouts", 0).unwrap();
    assert_eq!(game.callout(0), Err(GameError::CalloutsDisabled));
}

#[test]
fn callout_penalizes_the_silent_single_card_holder() {
    let mut game = setup(
        vec![
            vec![num(5, Color::Blue, 1), num(6, Color::Blue, 2)],
            vec![num(1, Color::Green, 3)],
            vec![num(2, Color::Green, 4), num(3, Color::Green, 5)],
        ],
        num(5, Color::Red, 6),
        filler_deck(6),
    );
    let msg = game.callout(0).unwrap();
    // spec: each caught player is named in the result
    assert_eq!(msg, "p1 you did not say UNO! Pick up 2\n");
    assert_eq!(game.players[1].hand.len(), 3);
    assert_eq!(game.players[0].hand.len(), 2);
    assert!(game.called_out);
    assert_eq!(game.callout(0), Err(GameError::DuplicateCallout));
}

#[test]
fn false_callout_penalizes_the_caller() {
    let mut game = setup(
        vec![
            vec![num(5, Color::Blue, 1), num(6, Color::Blue, 2)],
            vec![num(1, Color::Green, 3), num(2, Color::Green, 4)],
        ],
        num(5, Color::Red, 5),
        filler_deck(6),
    );
    let msg = game.callout(0).unwrap();
    assert_eq!(msg, "There was no one to call out! Pick up 2");
    assert_eq!(game.players[0].hand.len(), 4);
    assert_eq!(game.players[1].hand.len(), 2);
    assert!(game.called_out);
}

#[test]
fn callout_skips_players_who_said_uno() {
    let mut game = setup(
        vec![
            vec![num(5, Color::Blue, 1), num(6, Color::Blue, 2)],
            vec![num(1, Color::Green, 3)],
        ],
        num(5, Color::Red, 4),
        filler_deck(6),
    );
    game.uno(1).unwrap();
    game.callout(0).unwrap();
    // player 1 said UNO, so the caller pays the false-callout penalty
    assert_eq!(game.players[1].hand.len(), 1);
    assert_eq!(game.players[0].hand.len(), 4);
}

#[test]
fn uno_needs_exactly_one_card() {
    let mut game = setup(
        vec![
            vec![num(5, Color::Blue, 1), num(6, Color::Blue, 2)],
            vec![num(1, Color::Green, 3)],
        ],
        num(5, Color::Red, 4),
        filler_deck(4),
    );
    assert_eq!(game.uno(0), Err(GameError::TooManyCards));
    assert_eq!(game.uno(1), Ok(String::from("UNO!")));
    assert!(game.players[1].called);
    assert_eq!(game.uno(1), Ok(String::from("You already said UNO!")));
    assert_eq!(game.uno(99), Err(GameError::PlayerNotFound));
}

#[test]
fn drawing_clears_a_declared_uno() {
    let mut game = setup(
        vec![
            vec![num(3, Color::Blue, 1)],
            vec![num(1, Color::Green, 2)],
        ],
        num(5, Color::Red, 3),
        filler_deck(4),
    );
    game.uno(0).unwrap();
    assert!(game.players[0].called);
    game.draw().unwrap();
    assert!(!game.players[0].called);
}

#[test]
fn add_player_fails_after_start() {
    let mut game = UnoGame::new();
    game.add_player("alice").unwrap();
    game.add_player("bob").unwrap();
    game.start().unwrap();
    assert_eq!(game.add_player("late"), Err(GameError::AlreadyStarted));
    assert_eq!(game.start(), Err(GameError::AlreadyStarted));
}

#[test]
fn start_needs_two_players() {
    let mut game = UnoGame::new();
    assert_eq!(game.start(), Err(GameError::InsufficientPlayers));
    game.add_player("alice").unwrap();
    assert_eq!(game.start(), Err(GameError::InsufficientPlayers));
    assert!(!game.started);
}

#[test]
fn start_needs_enough_cards() {
    let mut game = UnoGame::new();
    game.add_player("alice").unwrap();
    game.add_player("bob").unwrap();
    game.set_rule("Initial Cards", 5000).unwrap();
    assert_eq!(game.start(), Err(GameError::InsufficientDeck));
    assert!(!game.started);
}

#[test]
fn empty_piles_are_fatal() {
    let mut game = setup(
        vec![
            vec![num(3, Color::Blue, 1)],
            vec![num(1, Color::Green, 2)],
        ],
        num(5, Color::Red, 3),
        Vec::new(),
    );
    // one discard card and no draw pile: nothing can be dealt
    assert_eq!(game.draw(), Err(GameError::DeckExhausted));
    assert_eq!(game.players[0].hand.len(), 1);
}

#[test]
fn exhausted_deck_recycles_the_discard_pile() {
    let mut game = setup(
        vec![
            vec![num(3, Color::Blue, 1)],
            vec![num(1, Color::Green, 2)],
        ],
        num(5, Color::Red, 3),
        Vec::new(),
    );
    game.discard.push(num(6, Color::Yellow, 4));
    game.discard.push(num(7, Color::Yellow, 5));
    // top stays, the two below it are shuffled back into the deck
    game.draw().unwrap();
    assert_eq!(game.players[0].hand.len(), 2);
    assert_eq!(game.discard.len(), 1);
    assert_eq!(game.discard[0].kind, CardKind::Numeral(7));
    assert_eq!(game.deck.len(), 1);
}

#[test]
fn auto_play_after_draw_plays_a_legal_drawn_card() {
    let mut game = setup(
        vec![
            vec![num(9, Color::Blue, 1), num(8, Color::Blue, 2)],
            vec![num(1, Color::Green, 3)],
        ],
        num(5, Color::Red, 4),
        vec![num(7, Color::Red, 10)],
    );
    game.set_rule("Automatically Play After Draw", 1).unwrap();
    game.draw().unwrap();
    // the drawn Red 7 was legal and went straight to the discard top
    let top = game.get_curr_card().unwrap();
    assert_eq!(top.kind, CardKind::Numeral(7));
    assert_eq!(top.color, Some(Color::Red));
    assert_eq!(game.players[0].hand.len(), 2);
    assert_eq!(game.queue, vec![1, 0]);
}

#[test]
fn remove_player_closes_the_turn_order() {
    let mut game = setup(
        vec![
            vec![num(3, Color::Blue, 1)],
            vec![num(1, Color::Green, 2)],
            vec![num(2, Color::Green, 3)],
        ],
        num(5, Color::Red, 4),
        filler_deck(4),
    );
    game.remove_player(0).unwrap();
    assert_eq!(game.queue, vec![1, 2]);
    assert_eq!(game.players.len(), 2);
    assert_eq!(game.dropped.len(), 1);
    assert_eq!(game.dropped[0].id, 0);
    assert_eq!(game.remove_player(0), Err(GameError::PlayerNotFound));
}

#[test]
fn notify_player_queues_the_message() {
    let mut game = UnoGame::new();
    game.add_player("alice").unwrap();
    assert_eq!(game.notify_player(0, "hello"), Ok(String::from("hello")));
    assert_eq!(game.players[0].messages, vec![String::from("hello")]);
    assert_eq!(game.notify_player(9, "x"), Err(GameError::PlayerNotFound));
}

#[test]
fn scoreboard_text_is_exact() {
    let mut game = setup(
        vec![
            vec![num(3, Color::Blue, 1)],
            vec![num(1, Color::Green, 2)],
        ],
        num(5, Color::Red, 3),
        filler_deck(4),
    );
    game.finished = vec![0];
    game.drawn = 5;
    game.time_started = 10;
    assert_eq!(
        game.scoreboard_at(12 * 60),
        "1. *p0*\nThis game lasted 2 minutes and 5 cards were drawn"
    );
}

#[test]
fn table_text_is_exact() {
    let mut game = setup(
        vec![
            vec![num(3, Color::Blue, 1), num(4, Color::Blue, 2)],
            vec![num(1, Color::Green, 3)],
        ],
        num(5, Color::Red, 4),
        filler_deck(4),
    );
    assert_eq!(
        game.table_at(0),
        "A Red 5 has been played!\nIt is currently p0's turn!\n\n\
         1. p0 - 2 cards\n2. p1 - 1 cards\n\
         This game has lasted 0 minutes and 0 cards have been drawn"
    );
}

#[test]
fn current_player_and_card_need_a_running_match() {
    let game = UnoGame::new();
    assert!(game.get_curr_player().is_none());
    assert!(game.get_curr_card().is_none());
}
