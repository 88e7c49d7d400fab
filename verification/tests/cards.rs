use uno::card::{Card, CardKind, Color};
use uno::player::Player;
use uno::text::tokenize;

fn card(kind: CardKind, color: Option<Color>, num: u64) -> Card {
    Card::new(kind, color, num)
}

fn player_with_hand(hand: Vec<Card>) -> Player {
    Player {
        id: 0,
        username: String::from("tester"),
        hand,
        called: false,
        finished: false,
        cards_played: 0,
        messages: Vec::new(),
    }
}

#[test]
fn card_values_follow_display_order() {
    assert_eq!(card(CardKind::Numeral(5), Some(Color::Red), 1).get_value(), 100005);
    assert_eq!(card(CardKind::Numeral(0), Some(Color::Blue), 2).get_value(), 100);
    assert_eq!(card(CardKind::Skip, Some(Color::Green), 3).get_value(), 1010);
    assert_eq!(card(CardKind::Reverse, Some(Color::Yellow), 4).get_value(), 10011);
    assert_eq!(card(CardKind::DrawTwo, Some(Color::Red), 5).get_value(), 100012);
    assert_eq!(card(CardKind::Wild, None, 6).get_value(), 1000013);
    assert_eq!(card(CardKind::WildDrawFour, None, 7).get_value(), 1000014);
}

#[test]
fn card_color_codes() {
    assert_eq!(card(CardKind::Numeral(1), Some(Color::Red), 1).get_color_code(), 0xff5555);
    assert_eq!(card(CardKind::Numeral(1), Some(Color::Green), 1).get_color_code(), 0x55aa55);
    assert_eq!(card(CardKind::Numeral(1), Some(Color::Blue), 1).get_color_code(), 0x5555ff);
    assert_eq!(card(CardKind::Numeral(1), Some(Color::Yellow), 1).get_color_code(), 0xffaa00);
    assert_eq!(card(CardKind::Wild, None, 1).get_color_code(), 0x080808);
}

#[test]
fn card_text_renders_color_and_face() {
    assert_eq!(card(CardKind::Numeral(5), Some(Color::Red), 1).text(), "Red 5");
    assert_eq!(card(CardKind::Skip, Some(Color::Blue), 1).text(), "Blue SKIP");
    assert_eq!(card(CardKind::DrawTwo, Some(Color::Green), 1).text(), "Green +2");
    assert_eq!(card(CardKind::Wild, None, 1).text(), "WILD");
    assert_eq!(card(CardKind::WildDrawFour, None, 1).text(), "WILD+4");
    assert_eq!(card(CardKind::Numeral(3), Some(Color::Yellow), 1).get_color_name(), "Yellow");
    assert_eq!(card(CardKind::Wild, None, 1).get_color_name(), "");
}

#[test]
fn tokenize_splits_on_spaces() {
    let toks = tokenize("  red   5 ");
    assert_eq!(toks, vec![String::from("red"), String::from("5")]);
    let empty = tokenize("   ");
    assert_eq!(empty.len(), 0);
    let one = tokenize("WILD+4");
    assert_eq!(one, vec![String::from("WILD+4")]);
}

#[test]
fn parse_color_accepts_names_and_letters_any_case() {
    let p = player_with_hand(Vec::new());
    assert_eq!(p.parse_color(String::from("red")), Some(Color::Red));
    assert_eq!(p.parse_color(String::from("R")), Some(Color::Red));
    assert_eq!(p.parse_color(String::from("GREEN")), Some(Color::Green));
    assert_eq!(p.parse_color(String::from("b")), Some(Color::Blue));
    assert_eq!(p.parse_color(String::from("Yellow")), Some(Color::Yellow));
    assert_eq!(p.parse_color(String::from("purple")), None);
    assert_eq!(p.parse_color(String::from("")), None);
}

#[test]
fn get_card_resolves_color_and_face() {
    let p = player_with_hand(vec![
        card(CardKind::Numeral(5), Some(Color::Red), 11),
        card(CardKind::Skip, Some(Color::Blue), 12),
        card(CardKind::Wild, None, 13),
    ]);
    assert_eq!(p.get_card(&vec![String::from("red"), String::from("5")]), Some(11));
    assert_eq!(p.get_card(&vec![String::from("b"), String::from("s")]), Some(12));
    assert_eq!(p.get_card(&vec![String::from("B"), String::from("SKIP")]), Some(12));
    // a wild matches by face alone, whatever color the command names
    assert_eq!(p.get_card(&vec![String::from("green"), String::from("w")]), Some(13));
    // the two words may come in either order
    assert_eq!(p.get_card(&vec![String::from("5"), String::from("red")]), Some(11));
    // no blue 5 in hand
    assert_eq!(p.get_card(&vec![String::from("blue"), String::from("5")]), None);
    // a face with no resolvable color fails
    assert_eq!(p.get_card(&vec![String::from("5")]), None);
    // a bare wild alias carries no chosen color and fails
    assert_eq!(p.get_card(&vec![String::from("wild")]), None);
    assert_eq!(p.get_card(&Vec::new()), None);
}

#[test]
fn get_card_resolves_single_word_shorthand() {
    let p = player_with_hand(vec![
        card(CardKind::Numeral(5), Some(Color::Red), 21),
        card(CardKind::Reverse, Some(Color::Green), 22),
        card(CardKind::Reverse, Some(Color::Red), 23),
    ]);
    // color letter followed by the face
    assert_eq!(p.get_card(&vec![String::from("r5")]), Some(21));
    assert_eq!(p.get_card(&vec![String::from("gREV")]), Some(22));
    // a lone color letter whose letter doubles as the REVERSE alias
    assert_eq!(p.get_card(&vec![String::from("r")]), Some(23));
    // "g" alone names a color but no face
    assert_eq!(p.get_card(&vec![String::from("g")]), None);
    // unknown face after the color letter
    assert_eq!(p.get_card(&vec![String::from("rx")]), None);
}

#[test]
fn get_card_knows_the_alias_table() {
    let p = player_with_hand(vec![
        card(CardKind::Skip, Some(Color::Red), 31),
        card(CardKind::Reverse, Some(Color::Red), 32),
        card(CardKind::DrawTwo, Some(Color::Red), 33),
        card(CardKind::WildDrawFour, None, 34),
    ]);
    assert_eq!(p.get_card(&vec![String::from("r"), String::from("S")]), Some(31));
    assert_eq!(p.get_card(&vec![String::from("r"), String::from("FUCKU")]), Some(31));
    assert_eq!(p.get_card(&vec![String::from("r"), String::from("rev")]), Some(32));
    assert_eq!(p.get_card(&vec![String::from("r"), String::from("NOU")]), Some(32));
    assert_eq!(p.get_card(&vec![String::from("r"), String::from("R")]), Some(32));
    assert_eq!(p.get_card(&vec![String::from("r"), String::from("+2")]), Some(33));
    assert_eq!(p.get_card(&vec![String::from("y"), String::from("w+4")]), Some(34));
}

#[test]
fn get_card_picks_the_first_match() {
    let p = player_with_hand(vec![
        card(CardKind::Numeral(7), Some(Color::Blue), 41),
        card(CardKind::Numeral(7), Some(Color::Blue), 42),
    ]);
    assert_eq!(p.get_card(&vec![String::from("blue"), String::from("7")]), Some(41));
}

#[test]
fn sort_hand_orders_by_value_and_keeps_cards() {
    let a = card(CardKind::Wild, None, 1);
    let b = card(CardKind::Numeral(2), Some(Color::Blue), 2);
    let c = card(CardKind::Skip, Some(Color::Red), 3);
    let d = card(CardKind::Numeral(9), Some(Color::Blue), 4);
    let mut p = player_with_hand(vec![a, c, d, b]);
    p.sort_hand();
    assert_eq!(p.hand.len(), 4);
    for w in p.hand.windows(2) {
        assert!(w[0].get_value() <= w[1].get_value());
    }
    assert_eq!(p.hand[0], b);
    assert_eq!(p.hand[1], d);
    assert_eq!(p.hand[2], c);
    assert_eq!(p.hand[3], a);
}

#[test]
fn get_hand_counts_cards() {
    let mut p = player_with_hand(vec![
        card(CardKind::Numeral(1), Some(Color::Red), 1),
        card(CardKind::Numeral(2), Some(Color::Red), 2),
    ]);
    let text = p.get_hand();
    assert!(text.contains("**Red 1** | **Red 2**"));
    assert!(text.contains("You currently have 2 card(s)."));
    p.send_hand();
    assert_eq!(p.messages.len(), 1);
    assert!(p.messages[0].contains("Red 1"));
}

#[test]
fn send_message_appends() {
    let mut p = player_with_hand(Vec::new());
    p.send_message(String::from("one"));
    p.send_message(String::from("two"));
    assert_eq!(p.messages, vec![String::from("one"), String::from("two")]);
}

#[test]
fn hand_sorts_before_handing_out() {
    let mut p = player_with_hand(vec![
        card(CardKind::Skip, Some(Color::Red), 1),
        card(CardKind::Numeral(2), Some(Color::Blue), 2),
    ]);
    let view = p.hand();
    assert_eq!(view.len(), 2);
    assert_eq!(view[0].kind, CardKind::Numeral(2));
    assert_eq!(view[1].kind, CardKind::Skip);
}
