use uno::card::{Card, CardKind, Color};
use uno::uno_game::{GameError, UnoGame};

fn color_word(c: Color) -> &'static str {
    match c {
        Color::Red => "red",
        Color::Green => "green",
        Color::Blue => "blue",
        Color::Yellow => "yellow",
    }
}

fn face_word(k: CardKind) -> String {
    match k {
        CardKind::Numeral(d) => format!("{}", d),
        CardKind::Skip => String::from("skip"),
        CardKind::Reverse => String::from("reverse"),
        CardKind::DrawTwo => String::from("+2"),
        CardKind::Wild => String::from("wild"),
        CardKind::WildDrawFour => String::from("w+4"),
    }
}

fn is_wild(k: CardKind) -> bool {
    matches!(k, CardKind::Wild | CardKind::WildDrawFour)
}

/// The command that plays `c` legally on `top`, if one exists. A wild
/// names the top's color so that the play passes the legality check.
fn command_for(c: &Card, top: &Card) -> Option<String> {
    if is_wild(c.kind) {
        let chosen = top.color.unwrap_or(Color::Red);
        return Some(format!("{} {}", color_word(chosen), face_word(c.kind)));
    }
    let legal = is_wild(top.kind) || top.color.is_none() || c.kind == top.kind
        || c.color == top.color;
    if legal {
        Some(format!("{} {}", color_word(c.color.unwrap()), face_word(c.kind)))
    } else {
        None
    }
}

#[test]
fn full_games_play_to_the_end() {
    for round in 0..12u64 {
        let mut game = UnoGame::new();
        let n = 2 + (round % 3) as usize;
        for i in 0..n {
            game.add_player(&format!("p{}", i)).unwrap();
        }
        game.start().unwrap();
        let mut steps = 0u64;
        while !game.queue.is_empty() {
            steps += 1;
            assert!(steps < 20000, "the game should have ended");
            let top = *game.get_curr_card().unwrap();
            let hand = game.get_curr_player().unwrap().hand.clone();
            let mut command = None;
            for c in &hand {
                if let Some(cmd) = command_for(c, &top) {
                    command = Some(cmd);
                    break;
                }
            }
            let outcome = match command {
                Some(cmd) => game.play(cmd),
                None => game.draw(),
            };
            match outcome {
                Ok(_) => {},
                Err(GameError::DeckExhausted) => break,
                Err(e) => panic!("unexpected rejection: {:?}", e),
            }
            // the queue holds exactly the registered, unfinished players
            for qid in &game.queue {
                assert!(game.players.iter().any(|p| p.id == *qid && !p.finished));
            }
            for p in &game.players {
                if !p.finished {
                    assert!(game.queue.contains(&p.id));
                }
            }
            assert!(!game.discard.is_empty());
        }
        if game.queue.is_empty() {
            // everyone was ranked: the shortcut finishes the last player
            assert_eq!(game.finished.len(), n);
        }
    }
}

#[test]
fn eight_decks_deal_proportionally() {
    let mut game = UnoGame::new();
    for i in 0..4 {
        game.add_player(&format!("p{}", i)).unwrap();
    }
    game.set_rule("Decks", 8).unwrap();
    game.set_rule("Initial Cards", 100).unwrap();
    game.start().unwrap();
    for p in &game.players {
        assert_eq!(p.hand.len(), 100);
    }
    assert_eq!(game.deck.len(), 8 * 108 - 1 - 400);
}
