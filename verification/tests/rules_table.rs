use uno::uno_game::{GameError, UnoGame};
use uno::rules::RuleType;

#[test]
fn set_rule_then_get_rule_returns_new_value() {
    let mut game = UnoGame::new();
    assert_eq!(game.set_rule("Decks", 3), Ok(String::from("Rule changed")));
    assert_eq!(game.get_rule("Decks").unwrap().value, 3);
    // lookups are case-insensitive
    assert!(game.set_rule("initial cards", 10).is_ok());
    assert_eq!(game.get_rule("INITIAL CARDS").unwrap().value, 10);
    assert!(game.set_rule("callouts", 0).is_ok());
    assert_eq!(game.get_rule("Callouts").unwrap().value, 0);
}

#[test]
fn set_rule_rejects_out_of_bounds_without_mutating() {
    let mut game = UnoGame::new();
    assert_eq!(game.set_rule("Decks", 9), Err(GameError::RuleOutOfBounds));
    assert_eq!(game.get_rule("Decks").unwrap().value, 1);
    assert_eq!(game.set_rule("Decks", 0), Err(GameError::RuleOutOfBounds));
    assert_eq!(game.get_rule("Decks").unwrap().value, 1);
    assert_eq!(game.set_rule("Initial Cards", 5001), Err(GameError::RuleOutOfBounds));
    assert_eq!(game.get_rule("Initial Cards").unwrap().value, 7);
}

#[test]
fn set_rule_rejects_non_boolean_values_without_mutating() {
    let mut game = UnoGame::new();
    assert_eq!(game.set_rule("Must Play", 2), Err(GameError::RuleTypeMismatch));
    assert_eq!(game.get_rule("Must Play").unwrap().value, 0);
    assert_eq!(game.set_rule("Draws Skip", -1), Err(GameError::RuleTypeMismatch));
    assert_eq!(game.get_rule("Draws Skip").unwrap().value, 1);
}

#[test]
fn unknown_rule_is_refused() {
    let mut game = UnoGame::new();
    assert_eq!(game.set_rule("No Such Rule", 1), Err(GameError::RuleNotFound));
    assert!(game.get_rule("No Such Rule").is_none());
    assert_eq!(game.show_rule("No Such Rule"), "");
}

#[test]
fn rule_table_has_the_ten_rules_with_defaults() {
    let game = UnoGame::new();
    let expected = [
        ("Decks", RuleType::Integer, 1),
        ("Initial Cards", RuleType::Integer, 7),
        ("Draws Skip", RuleType::Boolean, 1),
        ("Reverses Skip", RuleType::Boolean, 1),
        ("Must Play", RuleType::Boolean, 0),
        ("Callouts", RuleType::Boolean, 1),
        ("Callout Penalty", RuleType::Integer, 2),
        ("False Callout Penalty", RuleType::Integer, 2),
        ("Automatically Play After Draw", RuleType::Boolean, 0),
        ("Automatically Pass Turns", RuleType::Boolean, 1),
    ];
    assert_eq!(game.rules.len(), 10);
    for (i, (name, rtype, value)) in expected.iter().enumerate() {
        let rule = game.get_rule(name).unwrap();
        assert_eq!(rule.idx, i);
        assert_eq!(rule.name, *name);
        assert_eq!(rule.rtype, *rtype);
        assert_eq!(rule.value, *value);
    }
}

#[test]
fn show_rule_writes_the_rule_out() {
    let game = UnoGame::new();
    assert_eq!(
        game.show_rule("Decks"),
        "*Decks*\nType: integer\nValue: 1\n\nThe number of decks to use."
    );
}

#[test]
fn show_all_rules_lists_current_values() {
    let mut game = UnoGame::new();
    game.set_rule("Decks", 4).unwrap();
    let text = game.show_all_rules();
    assert!(text.starts_with("*Decks*\nType: integer\nValue: 4\nThe number of decks to use.\n\n"));
    assert!(text.contains("*Automatically Pass Turns*"));
}
