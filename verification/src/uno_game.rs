use vstd::prelude::*;

use crate::card::{spec_card_text, spec_color_name, Card, CardKind, Color};
use crate::player::{hand_sorted, lemma_multiset_elems, resolve_in_hand, Player};
use crate::rules::{canon_default, lemma_spec_find_rule, spec_find_rule, Rule, RuleType};
use crate::text::{dec_str, eq_ignore_case, push_u64};
use vstd::multiset::Multiset;

use rand::seq::SliceRandom;

verus! {

/// Why a command was refused. Player mistakes (an illegal play, a bad
/// rule value) and host mistakes (an unknown player id, commands
/// before the match started) are distinct variants, so the caller can
/// tell "tell the user" from "fix the integration". `DeckExhausted` is
/// the one fatal variant: no cards are left anywhere to deal.
#[derive(Clone, Copy, PartialEq, Eq, Structural, Debug)]
pub enum GameError {
    AlreadyStarted,
    InsufficientPlayers,
    InsufficientDeck,
    DeckExhausted,
    PlayerNotFound,
    CardNotInHand,
    IllegalPlay,
    MustPlay,
    CalloutsDisabled,
    DuplicateCallout,
    TooManyCards,
    RuleNotFound,
    RuleOutOfBounds,
    RuleTypeMismatch,
    GameOver,
}

/// Whether some player of `s` bears the id.
pub open spec fn has_player(s: Seq<Player>, id: u64) -> bool {
    exists|i: int| 0 <= i < s.len() && s[i].id == id
}

/// The turn state machine: the authoritative player store, the turn
/// queue of ids (head plays next), draw and discard piles, finishing
/// and dropped rosters, and the rule table.
pub struct UnoGame {
    pub players: Vec<Player>,
    pub queue: Vec<u64>,
    pub deck: Vec<Card>,
    pub called_out: bool,
    pub discard: Vec<Card>,
    pub finished: Vec<u64>,
    pub dropped: Vec<Player>,
    pub started: bool,
    pub drawn: u64,
    pub card_num: u64,
    pub next_id: u64,
    pub time_started: u64,
    pub rules: Vec<Rule>,
}

impl UnoGame {
    /// The fixed rule table is complete and each value is in bounds.
    pub open spec fn rules_wf(self) -> bool {
        &&& self.rules@.len() == 10
        &&& forall|i: int| 0 <= i < 10 ==> (#[trigger] self.rules@[i]).wf(i)
    }

    /// Player ids are pairwise distinct, below the id counter, and
    /// every held card is well formed.
    pub open spec fn players_wf(self) -> bool {
        &&& forall|i: int, j: int|
            0 <= i < j < self.players@.len() ==> (#[trigger] self.players@[i]).id != (
            #[trigger] self.players@[j]).id
        &&& forall|i: int|
            0 <= i < self.players@.len() ==> (#[trigger] self.players@[i]).id < self.next_id
        &&& forall|i: int| 0 <= i < self.players@.len() ==> (#[trigger] self.players@[i]).hand_wf()
    }

    /// The queue names registered players, each at most once; while
    /// the match runs it holds exactly the unfinished players.
    pub open spec fn queue_wf(self) -> bool {
        &&& forall|i: int, j: int|
            0 <= i < j < self.queue@.len() ==> self.queue@[i] != self.queue@[j]
        &&& forall|i: int| 0 <= i < self.queue@.len() ==> has_player(self.players@, #[trigger] self.queue@[i])
        &&& self.started ==> forall|i: int|
            0 <= i < self.players@.len() ==> ((#[trigger] self.players@[i]).finished
                <==> !self.queue@.contains(self.players@[i].id))
    }

    /// Cards of the draw and discard piles are well formed.
    pub open spec fn piles_wf(self) -> bool {
        &&& forall|i: int| 0 <= i < self.deck@.len() ==> (#[trigger] self.deck@[i]).wf()
        &&& forall|i: int| 0 <= i < self.discard@.len() ==> (#[trigger] self.discard@[i]).wf()
    }

    /// Before `start` nothing has been built or dealt; afterwards the
    /// discard pile always shows a top card. Finished ranks name
    /// players that are still registered or were dropped.
    pub open spec fn phase_wf(self) -> bool {
        &&& !self.started ==> self.queue@.len() == 0 && self.deck@.len() == 0
            && self.discard@.len() == 0 && self.finished@.len() == 0 && self.card_num == 1
            && self.drawn == 0 && (forall|i: int|
            0 <= i < self.players@.len() ==> !(#[trigger] self.players@[i]).finished
                && (#[trigger] self.players@[i]).hand@.len() == 0)
        &&& self.started ==> self.discard@.len() >= 1
        &&& forall|i: int|
            0 <= i < self.finished@.len() ==> has_player(self.players@, #[trigger] self.finished@[i])
                || has_player(self.dropped@, self.finished@[i])
    }

    /// The engine invariant: every command requires and preserves it.
    pub open spec fn wf(self) -> bool {
        &&& self.rules_wf()
        &&& self.players_wf()
        &&& self.queue_wf()
        &&& self.piles_wf()
        &&& self.phase_wf()
    }

    /// The current value of the rule at a table position.
    pub open spec fn rule_val(self, i: int) -> i32 {
        self.rules@[i].value
    }

    /// A fresh, unstarted table with the default rules and no players.
    pub fn new() -> (g: UnoGame)
        ensures
            g.wf(),
            !g.started,
            g.players@.len() == 0,
            g.queue@.len() == 0,
            g.deck@.len() == 0,
            g.discard@.len() == 0,
            g.finished@.len() == 0,
            g.dropped@.len() == 0,
            !g.called_out,
            g.drawn == 0,
            g.next_id == 0,
            forall|i: int| 0 <= i < 10 ==> g.rule_val(i) == canon_default(i),
    {
        let g = UnoGame {
            players: Vec::new(),
            queue: Vec::new(),
            deck: Vec::new(),
            called_out: false,
            discard: Vec::new(),
            finished: Vec::new(),
            dropped: Vec::new(),
            started: false,
            drawn: 0,
            card_num: 1,
            next_id: 0,
            time_started: 0,
            rules: UnoGame::generate_rules(),
        };
        g
    }

    /// The ten house rules with their default values.
    pub fn generate_rules() -> (rules: Vec<Rule>)
        ensures
            rules@.len() == 10,
            forall|i: int| 0 <= i < 10 ==> (#[trigger] rules@[i]).wf(i),
            forall|i: int| 0 <= i < 10 ==> (#[trigger] rules@[i]).value == canon_default(i),
    {
        let mut rules: Vec<Rule> = Vec::new();
        rules.push(Rule {
            idx: 0,
            desc: String::from_str("The number of decks to use."),
            value: 1,
            name: String::from_str("Decks"),
            rtype: RuleType::Integer,
            max: 8,
            min: 1,
        });
        rules.push(Rule {
            idx: 1,
            desc: String::from_str("How many cards to pick up at the beginning."),
            value: 7,
            name: String::from_str("Initial Cards"),
            rtype: RuleType::Integer,
            max: 5000,
            min: 1,
        });
        rules.push(Rule {
            idx: 2,
            desc: String::from_str(
                "Whether pickup cards (+2, +4) should also skip the next person's turn.",
            ),
            value: 1,
            name: String::from_str("Draws Skip"),
            rtype: RuleType::Boolean,
            max: 1,
            min: 0,
        });
        rules.push(Rule {
            idx: 3,
            desc: String::from_str(
                "Whether reverse cards skip turns when there's only two players left.",
            ),
            value: 1,
            name: String::from_str("Reverses Skip"),
            rtype: RuleType::Boolean,
            max: 1,
            min: 0,
        });
        rules.push(Rule {
            idx: 4,
            desc: String::from_str("Whether someone must play a card if they are able to."),
            value: 0,
            name: String::from_str("Must Play"),
            rtype: RuleType::Boolean,
            max: 1,
            min: 0,
        });
        rules.push(Rule {
            idx: 5,
            desc: String::from_str(
                "Gives the ability to call someone out for not saying uno!",
            ),
            value: 1,
            name: String::from_str("Callouts"),
            rtype: RuleType::Boolean,
            max: 1,
            min: 0,
        });
        rules.push(Rule {
            idx: 6,
            desc: String::from_str("The number of cards to give someone when called out."),
            value: 2,
            name: String::from_str("Callout Penalty"),
            rtype: RuleType::Integer,
            max: 1000,
            min: 0,
        });
        rules.push(Rule {
            idx: 7,
            desc: String::from_str(
                "The number of cards to give someone for falsely calling someone out.",
            ),
            value: 2,
            name: String::from_str("False Callout Penalty"),
            rtype: RuleType::Integer,
            max: 1000,
            min: 0,
        });
        rules.push(Rule {
            idx: 8,
            desc: String::from_str(
                "Automatically plays a card after drawing, if possible. If a wild card is drawn, will give a prompt for color.",
            ),
            value: 0,
            name: String::from_str("Automatically Play After Draw"),
            rtype: RuleType::Boolean,
            max: 1,
            min: 0,
        });
        rules.push(Rule {
            idx: 9,
            desc: String::from_str(
                "Automatically proceeds to the next turn after drawing, meaning that you cannot play drawn cards.",
            ),
            value: 1,
            name: String::from_str("Automatically Pass Turns"),
            rtype: RuleType::Boolean,
            max: 1,
            min: 0,
        });
        proof {
            assert forall|i: int| 0 <= i < 10 implies (#[trigger] rules@[i]).wf(i) by {
                if i == 0 {
                    assert(rules@[0].wf(0));
                } else if i == 1 {
                    assert(rules@[1].wf(1));
                } else if i == 2 {
                    assert(rules@[2].wf(2));
                } else if i == 3 {
                    assert(rules@[3].wf(3));
                } else if i == 4 {
                    assert(rules@[4].wf(4));
                } else if i == 5 {
                    assert(rules@[5].wf(5));
                } else if i == 6 {
                    assert(rules@[6].wf(6));
                } else if i == 7 {
                    assert(rules@[7].wf(7));
                } else if i == 8 {
                    assert(rules@[8].wf(8));
                } else {
                    assert(rules@[9].wf(9));
                }
            }
        }
        rules
    }

    /// The position of the first rule bearing the name, up to case.
    fn find_rule_idx(&self, name: &str) -> (r: Option<usize>)
        ensures
            (match (r, spec_find_rule(self.rules@, name@)) {
                (Option::Some(ri), Option::Some(i)) => ri as int == i && i < self.rules@.len(),
                (Option::None, Option::None) => true,
                _ => false,
            }),
    {
        let mut i: usize = 0;
        while i < self.rules.len()
            invariant
                i <= self.rules@.len(),
                forall|j: int|
                    0 <= j < i ==> !crate::player::ci_eq((#[trigger] self.rules@[j]).name@, name@),
            decreases self.rules@.len() - i,
        {
            if eq_ignore_case(self.rules[i].name.as_str(), name) {
                proof {
                    lemma_spec_find_rule(self.rules@, name@);
                }
                return Option::Some(i);
            }
            i = i + 1;
        }
        proof {
            lemma_spec_find_rule(self.rules@, name@);
        }
        Option::None
    }

    /// Looks a rule up by name, case-insensitively.
    pub fn get_rule(&self, name: &str) -> (r: Option<&Rule>)
        ensures
            (match (r, spec_find_rule(self.rules@, name@)) {
                (Option::Some(rl), Option::Some(i)) => *rl == self.rules@[i],
                (Option::None, Option::None) => true,
                _ => false,
            }),
    {
        match self.find_rule_idx(name) {
            Option::Some(i) => Option::Some(&self.rules[i]),
            Option::None => Option::None,
        }
    }

    /// Changes one rule's value. An unknown name, an out-of-bounds
    /// integer, or a boolean other than 0/1 is refused and nothing
    /// changes; otherwise exactly that rule's value becomes `value`.
    pub fn set_rule(&mut self, rule: &str, value: i32) -> (r: Result<String, GameError>)
        requires
            old(self).wf(),
        ensures
            final(self).wf(),
            (match spec_find_rule(old(self).rules@, rule@) {
                Option::None => r == Result::<String, GameError>::Err(GameError::RuleNotFound)
                    && *final(self) == *old(self),
                Option::Some(i) => {
                    let rl = old(self).rules@[i];
                    match rl.rtype {
                        RuleType::Integer => if value < rl.min || value > rl.max {
                            r == Result::<String, GameError>::Err(GameError::RuleOutOfBounds)
                                && *final(self) == *old(self)
                        } else {
                            (match r {
                                Result::Ok(m) => m@ == "Rule changed"@,
                                _ => false,
                            }) && final(self).rules@ == old(self).rules@.update(
                                i,
                                (Rule { value, ..rl }),
                            ) && *final(self) == (UnoGame { rules: final(self).rules, ..*old(self) })
                        },
                        RuleType::Boolean => if value != 0 && value != 1 {
                            r == Result::<String, GameError>::Err(GameError::RuleTypeMismatch)
                                && *final(self) == *old(self)
                        } else {
                            (match r {
                                Result::Ok(m) => m@ == "Rule changed"@,
                                _ => false,
                            }) && final(self).rules@ == old(self).rules@.update(
                                i,
                                (Rule { value, ..rl }),
                            ) && *final(self) == (UnoGame { rules: final(self).rules, ..*old(self) })
                        },
                    }
                },
            }),
    {
        let found = self.find_rule_idx(rule);
        match found {
            Option::None => Result::Err(GameError::RuleNotFound),
            Option::Some(i) => {
                proof {
                    lemma_spec_find_rule(self.rules@, rule@);
                }
                let is_integer = match self.rules[i].rtype {
                    RuleType::Integer => true,
                    RuleType::Boolean => false,
                };
                if is_integer {
                    if value < self.rules[i].min || value > self.rules[i].max {
                        return Result::Err(GameError::RuleOutOfBounds);
                    }
                } else {
                    if value != 0 && value != 1 {
                        return Result::Err(GameError::RuleTypeMismatch);
                    }
                }
                self.rules[i].value = value;
                Result::Ok(String::from_str("Rule changed"))
            },
        }
    }
}

/// Relies on rand::seq::SliceRandom::shuffle, with rand::thread_rng as
/// the source: it permutes the slice in place by swaps, so the cards
/// are kept, in an order nothing here relies on.
#[verifier::external_body]
fn shuffle_cards(v: &mut Vec<Card>)
    ensures
        final(v)@.to_multiset() == old(v)@.to_multiset(),
        final(v)@.len() == old(v)@.len(),
{
    v.shuffle(&mut rand::thread_rng());
}

/// Relies on std::time::SystemTime::now, Duration::as_secs and
/// SystemTime::duration_since: seconds since the Unix epoch, or 0 for
/// a clock before it. The result depends on the wall clock, so nothing
/// is promised of it.
#[verifier::external_body]
fn now_epoch_secs() -> u64 {
    match std::time::SystemTime::now().duration_since(std::time::UNIX_EPOCH) {
        Ok(d) => d.as_secs(),
        Err(_) => 0,
    }
}

/// The color printed on cards of the color group `c` of one deck.
fn color_of_idx(c: usize) -> (r: Color)
    requires
        c < 4,
    ensures
        r == spec_color_of_idx(c as int),
{
    if c == 0 {
        Color::Red
    } else if c == 1 {
        Color::Green
    } else if c == 2 {
        Color::Blue
    } else {
        Color::Yellow
    }
}

/// The four color groups in construction order.
pub open spec fn spec_color_of_idx(c: int) -> Color {
    if c == 0 {
        Color::Red
    } else if c == 1 {
        Color::Green
    } else if c == 2 {
        Color::Blue
    } else {
        Color::Yellow
    }
}

/// Sequence numbers are assigned in creation order, so no two cards of
/// one construction share a number.
pub proof fn lemma_deck_nums_distinct(v: Seq<Card>, start: u64)
    requires
        forall|i: int| 0 <= i < v.len() ==> (#[trigger] v[i]).num == start + i,
    ensures
        forall|i: int, j: int| 0 <= i < j < v.len() ==> v[i].num != v[j].num,
{
}

impl UnoGame {
    /// Builds `decks` repetitions of the 108-card deck: per color one
    /// 0, two of each numeral 1-9, two DRAW-TWOs, two SKIPs and two
    /// REVERSEs, then four WILDs and four WILD-DRAW-FOURs, numbering
    /// the cards consecutively from `start_num`.
    pub fn build_deck(decks: u64, start_num: u64) -> (v: Vec<Card>)
        requires
            1 <= decks <= 8,
            start_num <= 100000,
        ensures
            v@.len() == 108 * decks,
            forall|i: int| 0 <= i < v@.len() ==> (#[trigger] v@[i]).wf(),
            forall|i: int| 0 <= i < v@.len() ==> (#[trigger] v@[i]).num == start_num + i,
    {
        let mut v: Vec<Card> = Vec::new();
        let mut num: u64 = start_num;
        let mut d: u64 = 0;
        while d < decks
            invariant
                d <= decks,
                1 <= decks <= 8,
                start_num <= 100000,
                v@.len() == 108 * d,
                num == start_num + v@.len(),
                forall|i: int| 0 <= i < v@.len() ==> (#[trigger] v@[i]).wf(),
                forall|i: int| 0 <= i < v@.len() ==> (#[trigger] v@[i]).num == start_num + i,
            decreases decks - d,
        {
            let ghost deck_base = v@.len() as int;
            let mut c: usize = 0;
            while c < 4
                invariant
                    c <= 4,
                    start_num <= 100000,
                    v@.len() == deck_base + 25 * c,
                    deck_base <= 108 * 7,
                    num == start_num + v@.len(),
                    forall|i: int| 0 <= i < v@.len() ==> (#[trigger] v@[i]).wf(),
                    forall|i: int| 0 <= i < v@.len() ==> (#[trigger] v@[i]).num == start_num + i,
                decreases 4 - c,
            {
                let color = color_of_idx(c);
                let ghost color_base = v@.len() as int;
                v.push(Card::new(CardKind::Numeral(0), Option::Some(color), num));
                num = num + 1;
                let mut k: u8 = 1;
                while k < 10
                    invariant
                        1 <= k <= 10,
                        start_num <= 100000,
                        v@.len() == color_base + 2 * k - 1,
                        color_base <= 108 * 7 + 25 * 3,
                        num == start_num + v@.len(),
                        forall|i: int| 0 <= i < v@.len() ==> (#[trigger] v@[i]).wf(),
                        forall|i: int| 0 <= i < v@.len() ==> (#[trigger] v@[i]).num == start_num
                            + i,
                    decreases 10 - k,
                {
                    v.push(Card::new(CardKind::Numeral(k), Option::Some(color), num));
                    num = num + 1;
                    v.push(Card::new(CardKind::Numeral(k), Option::Some(color), num));
                    num = num + 1;
                    k = k + 1;
                }
                let mut a: usize = 0;
                while a < 2
                    invariant
                        a <= 2,
                        start_num <= 100000,
                        v@.len() == color_base + 19 + 3 * a,
                        color_base <= 108 * 7 + 25 * 3,
                        num == start_num + v@.len(),
                        forall|i: int| 0 <= i < v@.len() ==> (#[trigger] v@[i]).wf(),
                        forall|i: int| 0 <= i < v@.len() ==> (#[trigger] v@[i]).num == start_num
                            + i,
                    decreases 2 - a,
                {
                    v.push(Card::new(CardKind::DrawTwo, Option::Some(color), num));
                    num = num + 1;
                    v.push(Card::new(CardKind::Skip, Option::Some(color), num));
                    num = num + 1;
                    v.push(Card::new(CardKind::Reverse, Option::Some(color), num));
                    num = num + 1;
                    a = a + 1;
                }
                c = c + 1;
            }
            let mut w: usize = 0;
            while w < 4
                invariant
                    w <= 4,
                    start_num <= 100000,
                    v@.len() == deck_base + 100 + 2 * w,
                    deck_base <= 108 * 7,
                    num == start_num + v@.len(),
                    forall|i: int| 0 <= i < v@.len() ==> (#[trigger] v@[i]).wf(),
                    forall|i: int| 0 <= i < v@.len() ==> (#[trigger] v@[i]).num == start_num + i,
                decreases 4 - w,
            {
                v.push(Card::new(CardKind::Wild, Option::None, num));
                num = num + 1;
                v.push(Card::new(CardKind::WildDrawFour, Option::None, num));
                num = num + 1;
                w = w + 1;
            }
            d = d + 1;
        }
        v
    }

    /// Shuffles the draw pile uniformly at random; the cards are kept.
    fn shuffle_deck(&mut self)
        ensures
            final(self).deck@.to_multiset() == old(self).deck@.to_multiset(),
            final(self).deck@.len() == old(self).deck@.len(),
            *final(self) == (UnoGame { deck: final(self).deck, ..*old(self) }),
    {
        shuffle_cards(&mut self.deck);
    }

    /// Builds and shuffles the draw pile for as many decks as the
    /// `Decks` rule asks.
    fn generate_deck(&mut self)
        requires
            old(self).rules_wf(),
            old(self).deck@.len() == 0,
            old(self).card_num <= 100000,
        ensures
            final(self).deck@.len() == 108 * old(self).rule_val(0),
            forall|i: int|
                0 <= i < final(self).deck@.len() ==> (#[trigger] final(self).deck@[i]).wf(),
            final(self).card_num == old(self).card_num + 108 * old(self).rule_val(0),
            *final(self) == (UnoGame {
                deck: final(self).deck,
                card_num: final(self).card_num,
                ..*old(self)
            }),
    {
        proof {
            assert(self.rules@[0].wf(0));
        }
        let decks_i32 = self.rules[0].value;
        let decks = decks_i32 as u64;
        let built = Self::build_deck(decks, self.card_num);
        let built_len = built.len() as u64;
        self.card_num = self.card_num + built_len;
        self.deck = built;
        let ghost pre_shuffle = self.deck@;
        self.shuffle_deck();
        proof {
            lemma_multiset_elems(pre_shuffle, self.deck@);
        }
    }
}

/// The position of the player bearing `id`, where one exists.
pub open spec fn player_idx(s: Seq<Player>, id: u64) -> int {
    choose|i: int| 0 <= i < s.len() && s[i].id == id
}

/// With pairwise distinct ids, `player_idx` names the one position.
pub proof fn lemma_player_idx(s: Seq<Player>, i: int)
    requires
        forall|a: int, b: int| 0 <= a < b < s.len() ==> (#[trigger] s[a]).id != (#[trigger] s[b]).id,
        0 <= i < s.len(),
    ensures
        player_idx(s, s[i].id) == i,
        has_player(s, s[i].id),
{
    assert(has_player(s, s[i].id));
    let j = player_idx(s, s[i].id);
    assert(0 <= j < s.len() && s[j].id == s[i].id);
    if j < i {
        assert(s[j].id != s[i].id);
    } else if j > i {
        assert(s[i].id != s[j].id);
    }
}

/// The head rotated to the tail.
pub open spec fn rot(q: Seq<u64>) -> Seq<u64> {
    if q.len() == 0 {
        q
    } else {
        q.skip(1).push(q[0])
    }
}

/// The last element moved to the front.
pub open spec fn move_last_to_front(s: Seq<u64>) -> Seq<u64> {
    if s.len() == 0 {
        s
    } else {
        seq![s.last()] + s.drop_last()
    }
}

/// Whether `c` may be laid on the discard top `top`: the top is wild
/// or colorless, or the faces match, or the colors match.
pub open spec fn legal_play(c: Card, top: Card) -> bool {
    ||| top.kind.spec_is_wild()
    ||| top.color is None
    ||| c.kind == top.kind
    ||| (c.color is Some && c.color == top.color)
}

/// The card as it reaches the discard pile: a wild-family card takes
/// the chosen color, any other card is itself.
pub open spec fn effective_card(c: Card, chosen: Color) -> Card {
    if c.kind.spec_is_wild() {
        Card { kind: c.kind, color: Option::Some(chosen), num: c.num }
    } else {
        c
    }
}

/// How many consecutive DRAW-TWO cards lie on top of the discard pile.
pub open spec fn streak(d: Seq<Card>) -> nat
    decreases d.len(),
{
    if d.len() == 0 {
        0
    } else if d.last().kind == CardKind::DrawTwo {
        1 + streak(d.drop_last())
    } else {
        0
    }
}

/// What a played card does to the turn queue, before the ordinary
/// rotation to the next turn. REVERSE turns the order around (keeping
/// the player who acted in front when more than two play, acting as a
/// SKIP for two when the house rule asks); SKIP rotates once more; the
/// draw cards rotate once more when `Draws Skip` is on.
pub open spec fn queue_after_effect(q: Seq<u64>, kind: CardKind, rev_skip: bool, draw_skip: bool) -> Seq<u64> {
    match kind {
        CardKind::Reverse => if q.len() > 2 {
            move_last_to_front(q.reverse())
        } else if rev_skip {
            q.reverse()
        } else {
            q
        },
        CardKind::Skip => rot(q),
        CardKind::DrawTwo => if draw_skip {
            rot(q)
        } else {
            q
        },
        CardKind::WildDrawFour => if draw_skip {
            rot(q)
        } else {
            q
        },
        _ => q,
    }
}

/// A filter that keeps everything keeps the sequence.
pub proof fn lemma_filter_identity(q: Seq<u64>, pred: spec_fn(u64) -> bool)
    requires
        forall|i: int| 0 <= i < q.len() ==> pred(#[trigger] q[i]),
    ensures
        q.filter(pred) == q,
    decreases q.len(),
{
    reveal(Seq::filter);
    if q.len() > 0 {
        lemma_filter_identity(q.drop_last(), pred);
        assert(q.drop_last().push(q.last()) =~= q);
    }
}

/// Filters by predicates that agree on the members agree.
pub proof fn lemma_filter_equiv(q: Seq<u64>, p1: spec_fn(u64) -> bool, p2: spec_fn(u64) -> bool)
    requires
        forall|i: int| 0 <= i < q.len() ==> p1(#[trigger] q[i]) == p2(q[i]),
    ensures
        q.filter(p1) == q.filter(p2),
    decreases q.len(),
{
    reveal(Seq::filter);
    if q.len() > 0 {
        lemma_filter_equiv(q.drop_last(), p1, p2);
    }
}

/// Rotation keeps length, members and distinctness.
pub proof fn lemma_rot_members(q: Seq<u64>)
    ensures
        rot(q).len() == q.len(),
        forall|i: int| 0 <= i < q.len() ==> q.contains(#[trigger] rot(q)[i]),
        forall|i: int| 0 <= i < q.len() ==> rot(q).contains(#[trigger] q[i]),
        (forall|i: int, j: int| 0 <= i < j < q.len() ==> q[i] != q[j]) ==> (forall|i: int, j: int|
            0 <= i < j < q.len() ==> rot(q)[i] != rot(q)[j]),
{
    if q.len() > 0 {
        assert forall|i: int| 0 <= i < q.len() implies q.contains(#[trigger] rot(q)[i]) by {
            if i < q.len() - 1 {
                assert(rot(q)[i] == q[i + 1]);
            } else {
                assert(rot(q)[i] == q[0]);
            }
        }
        assert forall|i: int| 0 <= i < q.len() implies rot(q).contains(#[trigger] q[i]) by {
            if i == 0 {
                assert(rot(q)[q.len() - 1] == q[0]);
            } else {
                assert(rot(q)[i - 1] == q[i]);
            }
        }
        if forall|i: int, j: int| 0 <= i < j < q.len() ==> q[i] != q[j] {
            assert forall|i: int, j: int|
                0 <= i < j < q.len() implies rot(q)[i] != rot(q)[j] by {
                if j < q.len() - 1 {
                    assert(rot(q)[i] == q[i + 1] && rot(q)[j] == q[j + 1]);
                } else {
                    assert(rot(q)[i] == q[i + 1] && rot(q)[j] == q[0]);
                }
            }
        }
    }
}

/// A card's queue effect keeps length, members and distinctness.
pub proof fn lemma_effect_members(q: Seq<u64>, kind: CardKind, rs: bool, ds: bool)
    ensures
        queue_after_effect(q, kind, rs, ds).len() == q.len(),
        forall|i: int|
            0 <= i < q.len() ==> q.contains(#[trigger] queue_after_effect(q, kind, rs, ds)[i]),
        forall|i: int|
            0 <= i < q.len() ==> queue_after_effect(q, kind, rs, ds).contains(#[trigger] q[i]),
        (forall|i: int, j: int| 0 <= i < j < q.len() ==> q[i] != q[j]) ==> (forall|i: int, j: int|
            0 <= i < j < q.len() ==> queue_after_effect(q, kind, rs, ds)[i] != queue_after_effect(
                q,
                kind,
                rs,
                ds,
            )[j]),
{
    let e = queue_after_effect(q, kind, rs, ds);
    let n = q.len() as int;
    if e == q {
        assert forall|i: int| 0 <= i < n implies q.contains(#[trigger] e[i]) by {
            assert(e[i] == q[i]);
        }
        assert forall|i: int| 0 <= i < n implies e.contains(#[trigger] q[i]) by {
            assert(e[i] == q[i]);
        }
    } else if e == rot(q) {
        lemma_rot_members(q);
    } else if e == q.reverse() {
        assert forall|i: int| 0 <= i < n implies q.contains(#[trigger] e[i]) by {
            assert(e[i] == q[n - 1 - i]);
        }
        assert forall|i: int| 0 <= i < n implies e.contains(#[trigger] q[i]) by {
            assert(e[n - 1 - i] == q[i]);
        }
        if forall|i: int, j: int| 0 <= i < j < n ==> q[i] != q[j] {
            assert forall|i: int, j: int| 0 <= i < j < n implies e[i] != e[j] by {
                assert(e[i] == q[n - 1 - i] && e[j] == q[n - 1 - j]);
            }
        }
    } else if n > 0 && e == move_last_to_front(q.reverse()) {
        let r = q.reverse();
        assert(e[0] == r[n - 1] && r[n - 1] == q[0]);
        assert forall|i: int| 0 <= i < n implies q.contains(#[trigger] e[i]) by {
            if i == 0 {
                assert(e[0] == q[0]);
            } else {
                assert(e[i] == r[i - 1] && r[i - 1] == q[n - i]);
            }
        }
        assert forall|i: int| 0 <= i < n implies e.contains(#[trigger] q[i]) by {
            if i == 0 {
                assert(e[0] == q[0]);
            } else {
                assert(e[n - i] == r[n - i - 1] && r[n - i - 1] == q[i]);
            }
        }
        if forall|i: int, j: int| 0 <= i < j < n ==> q[i] != q[j] {
            assert forall|i: int, j: int| 0 <= i < j < n implies e[i] != e[j] by {
                if i == 0 {
                    assert(e[0] == q[0] && e[j] == q[n - j]);
                } else {
                    assert(e[i] == q[n - i] && e[j] == q[n - j]);
                }
            }
        }
    }
}

/// Everything a filter keeps was there and passes; everything there
/// that passes is kept.
pub proof fn lemma_filter_members(q: Seq<u64>, pred: spec_fn(u64) -> bool)
    ensures
        forall|i: int|
            0 <= i < q.filter(pred).len() ==> q.contains(#[trigger] q.filter(pred)[i]) && pred(
                q.filter(pred)[i],
            ),
        forall|i: int| 0 <= i < q.len() && pred(#[trigger] q[i]) ==> q.filter(pred).contains(q[i]),
    decreases q.len(),
{
    reveal(Seq::filter);
    if q.len() > 0 {
        lemma_filter_members(q.drop_last(), pred);
        let d = q.drop_last();
        let f = q.filter(pred);
        assert forall|i: int|
            0 <= i < f.len() implies q.contains(#[trigger] f[i]) && pred(f[i]) by {
            if pred(q.last()) && i == f.len() - 1 {
                assert(f[i] == q.last());
                assert(q[q.len() - 1] == q.last());
            } else {
                assert(f[i] == d.filter(pred)[i]);
                assert(d.contains(f[i]));
                let w = choose|w: int| 0 <= w < d.len() && d[w] == f[i];
                assert(q[w] == f[i]);
            }
        }
        assert forall|i: int|
            0 <= i < q.len() && pred(#[trigger] q[i]) implies q.filter(pred).contains(q[i]) by {
            if i == q.len() - 1 {
                assert(f[f.len() - 1] == q.last());
            } else {
                assert(d[i] == q[i]);
                assert(d.filter(pred).contains(q[i]));
                let w = choose|w: int| 0 <= w < d.filter(pred).len() && d.filter(pred)[w] == q[i];
                assert(f[w] == q[i]);
            }
        }
    }
}

/// Whether the player bearing `id` has finished.
pub open spec fn spec_finished(players: Seq<Player>, id: u64) -> bool {
    has_player(players, id) && players[player_idx(players, id)].finished
}

/// Keeps the ids of players that have not finished.
pub open spec fn active_pred(players: Seq<Player>) -> spec_fn(u64) -> bool {
    |id: u64| !spec_finished(players, id)
}

/// The queue with every finished player taken out.
pub open spec fn active_only(players: Seq<Player>, q: Seq<u64>) -> Seq<u64> {
    q.filter(active_pred(players))
}

/// A callout hits a registered player holding exactly one card who
/// has not declared UNO.
pub open spec fn callout_target(players: Seq<Player>, id: u64) -> bool {
    has_player(players, id) && players[player_idx(players, id)].hand@.len() == 1
        && !players[player_idx(players, id)].called
}

/// Keeps the ids a callout hits.
pub open spec fn target_pred(players: Seq<Player>) -> spec_fn(u64) -> bool {
    |id: u64| callout_target(players, id)
}

/// The narration a card's effect appends to the play message: the
/// reversal, the skips, and what the next player picks up. `amt` is
/// the stacked DRAW-TWO penalty.
pub open spec fn spec_effect_text(
    kind: CardKind,
    color: Option<Color>,
    qlen: int,
    rs: bool,
    ds: bool,
    amt: nat,
) -> Seq<char> {
    match kind {
        CardKind::Reverse => if qlen > 2 {
            "\nTurns are now in reverse order!"@
        } else if rs {
            "\nSkip a turn!"@
        } else {
            Seq::empty()
        },
        CardKind::Skip => "\nSkip a turn!"@,
        CardKind::DrawTwo => (if qlen >= 2 {
            "\nPick up "@ + dec_str(amt) + "!"@
        } else {
            Seq::<char>::empty()
        }) + (if ds {
            "\nAlso, skip a turn!"@
        } else {
            Seq::<char>::empty()
        }),
        CardKind::WildDrawFour => (if qlen >= 2 {
            "\nPick up 4! The color is now "@ + spec_color_name(color) + "!"@
        } else {
            Seq::<char>::empty()
        }) + (if ds {
            "\nAlso, skip a turn!"@
        } else {
            Seq::<char>::empty()
        }),
        CardKind::Wild => "\nThe color is now "@ + spec_color_name(color) + "!"@,
        CardKind::Numeral(_) => Seq::empty(),
    }
}

/// The stacked penalty the exec code charges: twice the DRAW-TWO
/// streak, capped at an absurd depth so the doubling cannot overflow.
pub open spec fn capped_penalty(d: Seq<Card>) -> nat {
    if 2 * streak(d) < 0x40000000 {
        2 * streak(d)
    } else {
        0x40000000
    }
}

/// The whole message a successful play returns: the card laid, the
/// finish notice with its rank where a hand emptied, and the effect
/// narration.
#[verifier::opaque]
pub open spec fn spec_play_msg(o: UnoGame, hi: int, chosen: Color) -> Seq<char> {
    let q = o.queue@;
    let cur = q[0];
    let pidx = player_idx(o.players@, cur);
    let hand = o.players@[pidx].hand@;
    let played = effective_card(hand[hi], chosen);
    let base = "Played "@ + spec_card_text(played);
    let fin = if hand.len() == 1 {
        "\n"@ + o.players@[pidx].username@ + " has no more cards. They finished in rank *"@
            + dec_str((o.finished@.len() + 1) as nat) + "*!"@
    } else {
        Seq::<char>::empty()
    };
    if hand.len() == 1 && q.len() == 2 {
        base + fin + "\n"@ + o.players@[player_idx(o.players@, q[1])].username@
            + " finished in rank *"@ + dec_str((o.finished@.len() + 2) as nat)
            + "*! The game is over."@
    } else {
        base + fin + spec_effect_text(
            played.kind,
            played.color,
            q.len() as int,
            o.rule_val(3) == 1,
            o.rule_val(2) == 1,
            capped_penalty(o.discard@.push(played)),
        )
    }
}

/// One line per caught player, naming them and the penalty.
pub open spec fn spec_callout_lines(o: UnoGame, targets: Seq<u64>, penalty: int, i: int) -> Seq<
    char,
>
    decreases targets.len() - i,
{
    if i < 0 || i >= targets.len() {
        Seq::empty()
    } else {
        o.players@[player_idx(o.players@, targets[i])].username@
            + " you did not say UNO! Pick up "@ + dec_str(penalty as nat) + "\n"@
            + spec_callout_lines(o, targets, penalty, i + 1)
    }
}

/// What a legal resolved play does. `o` is the table before, `f`
/// after, `hi` the index of the played card in the current player's
/// hand, `chosen` the color the command named. An illegal play changes
/// nothing. A legal one is owed success — and then moves exactly the
/// played card to the discard top, re-sorts the actor's hand, applies
/// the card's effect to the queue and the next player's hand, touches
/// nothing else, and passes the turn — unless the card's draw effect
/// needs more cards than both piles hold, in which case the play fails
/// atomically with `DeckExhausted` and nothing changes.
pub open spec fn play_resolved_post(
    o: UnoGame,
    f: UnoGame,
    hi: int,
    chosen: Color,
    r: Result<String, GameError>,
) -> bool {
    let q = o.queue@;
    let cur = q[0];
    let pidx = player_idx(o.players@, cur);
    let hand = o.players@[pidx].hand@;
    let played = effective_card(hand[hi], chosen);
    let top = o.discard@.last();
    let rs = o.rule_val(3) == 1;
    let ds = o.rule_val(2) == 1;
    if !legal_play(played, top) {
        r == Result::<String, GameError>::Err(GameError::IllegalPlay) && f == o
    } else {
        let deals = (played.kind == CardKind::DrawTwo || played.kind == CardKind::WildDrawFour)
            && q.len() >= 2 && !(hand.len() == 1 && q.len() == 2);
        &&& (r is Err ==> r == Result::<String, GameError>::Err(GameError::DeckExhausted) && f
            == o)
        &&& (!deals ==> r is Ok)
        &&& (deals && played.kind == CardKind::WildDrawFour ==> (r is Err <==> 4
            > o.spec_available() + 1))
        &&& (deals && played.kind == CardKind::DrawTwo && 2 * streak(o.discard@.push(played))
            < 0x40000000 ==> (r is Err <==> 2 * streak(o.discard@.push(played))
            > o.spec_available() + 1))
        &&& (r is Ok ==> {
            &&& (match r {
                Result::Ok(m) => m@ == spec_play_msg(o, hi, chosen),
                _ => false,
            })
            &&& f.started
            &&& f.discard@.len() >= 1 && f.discard@.last() == played
            &&& (f.discard@ == o.discard@.push(played) || f.discard@ == seq![played])
            &&& f.players@.len() == o.players@.len()
            &&& f.players@[pidx].id == cur
            &&& f.players@[pidx].hand@.len() == hand.len() - 1
            &&& f.players@[pidx].hand@.to_multiset() == hand.to_multiset().remove(hand[hi])
            &&& hand_sorted(f.players@[pidx].hand@)
            &&& f.players@[pidx].username == o.players@[pidx].username
            &&& f.players@[pidx].called == o.players@[pidx].called
            &&& f.players@[pidx].messages == o.players@[pidx].messages
            &&& f.players@[pidx].cards_played == (if o.players@[pidx].cards_played < u64::MAX {
                o.players@[pidx].cards_played + 1
            } else {
                u64::MAX as int
            })
            &&& !f.called_out
            &&& f.rules@ == o.rules@
            &&& f.dropped@ == o.dropped@
            &&& (forall|j: int|
                0 <= j < o.players@.len() && j != pidx && !(q.len() >= 2 && j == player_idx(
                    o.players@,
                    q[1],
                ) && (deals || (hand.len() == 1 && q.len() == 2))) ==> f.players@[j]
                    == o.players@[j])
            &&& (!deals ==> f.deck == o.deck && f.drawn == o.drawn && f.discard@
                == o.discard@.push(played))
            &&& (deals && played.kind == CardKind::DrawTwo && 2 * streak(o.discard@.push(played))
                < 0x40000000 ==> f.spec_available() == o.spec_available() + 1 - 2 * streak(
                o.discard@.push(played),
            ))
            &&& (deals && played.kind == CardKind::WildDrawFour ==> f.spec_available()
                == o.spec_available() + 1 - 4)
            &&& (hand.len() == 1 ==> f.players@[pidx].finished && f.finished@.contains(cur))
            &&& (hand.len() == 1 && q.len() == 2 ==> f.queue@.len() == 0 && f.finished@
                == o.finished@.push(cur).push(q[1]) && f.players@[player_idx(
                o.players@,
                q[1],
            )].finished)
            &&& (hand.len() == 1 && q.len() != 2 ==> f.queue@ == rot(
                queue_after_effect(q, played.kind, rs, ds),
            ).filter(ne_pred(cur)) && f.finished@ == o.finished@.push(cur))
            &&& (hand.len() > 1 ==> !f.players@[pidx].finished && f.queue@ == rot(
                queue_after_effect(q, played.kind, rs, ds),
            ) && f.finished@ == o.finished@)
            &&& (played.kind == CardKind::DrawTwo && q.len() >= 2 && !(hand.len() == 1 && q.len()
                == 2) && 2 * streak(o.discard@.push(played)) < 0x40000000 ==> {
                let vidx = player_idx(o.players@, q[1]);
                f.players@[vidx].hand@.len() == o.players@[vidx].hand@.len() + 2 * streak(
                    o.discard@.push(played),
                ) && !f.players@[vidx].called && f.players@[vidx].finished
                    == o.players@[vidx].finished && f.players@[vidx].username
                    == o.players@[vidx].username && f.players@[vidx].id == q[1] && hand_sorted(
                    f.players@[vidx].hand@,
                )
            })
            &&& (played.kind == CardKind::WildDrawFour && q.len() >= 2 && !(hand.len() == 1
                && q.len() == 2) ==> {
                let vidx = player_idx(o.players@, q[1]);
                f.players@[vidx].hand@.len() == o.players@[vidx].hand@.len() + 4
                    && !f.players@[vidx].called && f.players@[vidx].finished
                    == o.players@[vidx].finished && f.players@[vidx].username
                    == o.players@[vidx].username && f.players@[vidx].id == q[1] && hand_sorted(
                    f.players@[vidx].hand@,
                )
            })
        })
    }
}

/// A draw victim keeps everything but the hand: the penalty cards
/// arrive sorted and clear a pending UNO call.
pub open spec fn victim_kept(before: Player, after: Player, id: u64) -> bool {
    &&& after.id == id
    &&& after.username == before.username
    &&& after.finished == before.finished
    &&& !after.called
    &&& hand_sorted(after.hand@)
}

/// Whether a held card can be laid on the top card at all: a
/// wild-family card always can, since its chosen color is free; any
/// other card by the ordinary legality check.
pub open spec fn playable_from_hand(c: Card, top: Card) -> bool {
    if c.kind.spec_is_wild() {
        true
    } else {
        legal_play(c, top)
    }
}

/// The sequence in reverse order.
fn reversed(v: &Vec<u64>) -> (r: Vec<u64>)
    ensures
        r@ == v@.reverse(),
{
    let mut r: Vec<u64> = Vec::new();
    let mut i: usize = v.len();
    while i > 0
        invariant
            i <= v@.len(),
            r@.len() == v@.len() - i,
            forall|j: int| 0 <= j < r@.len() ==> r@[j] == v@[v@.len() - 1 - j],
        decreases i,
    {
        i = i - 1;
        let x = v[i];
        r.push(x);
    }
    proof {
        assert(r@ =~= v@.reverse());
    }
    r
}

/// True for a DRAW-TWO face.
fn kind_is_draw_two(c: &Card) -> (r: bool)
    ensures
        r == (c.kind == CardKind::DrawTwo),
{
    match c.kind {
        CardKind::DrawTwo => true,
        _ => false,
    }
}

/// Twice the DRAW-TWO streak on top of the discard pile: the stacked
/// penalty the next player picks up. The count stops at an absurd
/// depth only so the doubling cannot overflow.
fn draw_amount(d: &Vec<Card>) -> (amt: usize)
    ensures
        2 * streak(d@) < 0x40000000 ==> amt == 2 * streak(d@),
        2 * streak(d@) >= 0x40000000 ==> amt == 0x40000000,
        amt <= 0x40000000,
{
    let mut i: usize = d.len();
    let mut count: usize = 0;
    proof {
        assert(d@.take(d@.len() as int) =~= d@);
    }
    while i > 0 && count < 0x20000000 && kind_is_draw_two(&d[i - 1])
        invariant
            i <= d@.len(),
            count <= 0x20000000,
            streak(d@) == count + streak(d@.take(i as int)),
        decreases i,
    {
        proof {
            let t = d@.take(i as int);
            assert(t.last() == d@[i - 1]);
            assert(t.drop_last() =~= d@.take(i - 1));
        }
        count = count + 1;
        i = i - 1;
    }
    proof {
        if i == 0 {
            assert(d@.take(0) =~= Seq::<Card>::empty());
        } else if count < 0x20000000 {
            let t = d@.take(i as int);
            assert(t.last() == d@[i - 1]);
            assert(streak(t) == 0);
        }
    }
    2 * count
}

/// Keeps every id but `cur`.
pub open spec fn ne_pred(cur: u64) -> spec_fn(u64) -> bool {
    |id: u64| id != cur
}

/// What the rotation after a play's effect leaves in the queue: the
/// rotated queue itself, with the player who just acted taken out when
/// the play emptied their hand. `pn` is the player store at rotation
/// time, `q0` the queue before the effect, `fq` the queue after.
pub proof fn lemma_after_next(
    pn: Seq<Player>,
    q0: Seq<u64>,
    eq0: Seq<u64>,
    kind: CardKind,
    rs: bool,
    ds: bool,
    finished_now: bool,
    fq: Seq<u64>,
)
    requires
        q0.len() > 0,
        forall|i: int, j: int| 0 <= i < j < q0.len() ==> q0[i] != q0[j],
        forall|i: int| 0 <= i < q0.len() ==> has_player(pn, #[trigger] q0[i]),
        forall|a: int, b: int|
            0 <= a < b < pn.len() ==> (#[trigger] pn[a]).id != (#[trigger] pn[b]).id,
        pn[player_idx(pn, q0[0])].finished == finished_now,
        forall|j: int|
            0 <= j < pn.len() && j != player_idx(pn, q0[0]) ==> ((#[trigger] pn[j]).finished
                <==> !q0.contains(pn[j].id)),
        eq0 == queue_after_effect(q0, kind, rs, ds),
        fq == active_only(pn, rot(eq0)),
    ensures
        finished_now ==> fq == rot(eq0).filter(ne_pred(q0[0])),
        !finished_now ==> fq == rot(eq0),
        forall|i: int, j: int| 0 <= i < j < fq.len() ==> fq[i] != fq[j],
        forall|i: int| 0 <= i < fq.len() ==> has_player(pn, #[trigger] fq[i]),
        forall|j: int|
            0 <= j < pn.len() ==> ((#[trigger] pn[j]).finished <==> !fq.contains(pn[j].id)),
{
    let cur = q0[0];
    let pidx = player_idx(pn, cur);
    let pred = active_pred(pn);
    assert(has_player(pn, cur));
    assert(0 <= pidx < pn.len() && pn[pidx].id == cur);
    lemma_effect_members(q0, kind, rs, ds);
    lemma_rot_members(eq0);
    assert forall|i: int|
        0 <= i < rot(eq0).len() implies (#[trigger] pred(rot(eq0)[i]) == !(finished_now && rot(
        eq0,
    )[i] == cur)) by {
        let id = rot(eq0)[i];
        assert(eq0.contains(id));
        let w = choose|w: int| 0 <= w < eq0.len() && eq0[w] == id;
        assert(q0.contains(id));
        let u = choose|u: int| 0 <= u < q0.len() && q0[u] == id;
        assert(has_player(pn, id));
        let v = choose|v: int| 0 <= v < pn.len() && pn[v].id == id;
        lemma_player_idx(pn, v);
        assert(player_idx(pn, id) == v);
        if v == pidx {
            assert(id == cur);
            assert(pn[v].finished == finished_now);
        } else {
            assert(q0.contains(pn[v].id));
            assert(!pn[v].finished);
            if id == cur {
                assert(pn[v].id == pn[pidx].id);
                assert(v == pidx);
            }
        }
    }
    if finished_now {
        lemma_filter_equiv(rot(eq0), pred, ne_pred(cur));
    } else {
        lemma_filter_identity(rot(eq0), pred);
    }
    lemma_filter_members(rot(eq0), pred);
    lemma_filter_distinct(rot(eq0), pred);
    assert forall|i: int| 0 <= i < fq.len() implies has_player(pn, #[trigger] fq[i]) by {
        assert(rot(eq0).filter(pred)[i] == fq[i]);
        assert(rot(eq0).contains(fq[i]));
        let w = choose|w: int| 0 <= w < rot(eq0).len() && rot(eq0)[w] == fq[i];
        assert(eq0.contains(fq[i]));
        let u = choose|u: int| 0 <= u < eq0.len() && eq0[u] == fq[i];
        assert(q0.contains(fq[i]));
    }
    assert forall|j: int|
        0 <= j < pn.len() implies ((#[trigger] pn[j]).finished <==> !fq.contains(pn[j].id)) by {
        let id = pn[j].id;
        lemma_player_idx(pn, j);
        if !pn[j].finished {
            assert(q0.contains(id));
            let u = choose|u: int| 0 <= u < q0.len() && q0[u] == id;
            assert(eq0.contains(q0[u]));
            let w = choose|w: int| 0 <= w < eq0.len() && eq0[w] == id;
            assert(rot(eq0).contains(eq0[w]));
            let x = choose|x: int| 0 <= x < rot(eq0).len() && rot(eq0)[x] == id;
            assert(pred(rot(eq0)[x]));
            assert(rot(eq0).filter(pred).contains(id));
            assert(fq.contains(id));
        } else {
            if fq.contains(id) {
                let x = choose|x: int| 0 <= x < fq.len() && fq[x] == id;
                assert(rot(eq0).filter(pred)[x] == id);
                assert(pred(id));
                assert(!spec_finished(pn, id));
                assert(player_idx(pn, id) == j);
                assert(false);
            }
        }
    }
}

/// The engine invariant after the two-player endgame: the queue is
/// cleared and both remaining players are marked finished, so the
/// queue again holds exactly the unfinished players — none.
pub proof fn endgame_wf_glue(o: UnoGame, f: UnoGame, cur: u64, other: u64)
    requires
        o.wf(),
        o.started,
        o.queue@.len() == 2,
        o.queue@[0] == cur,
        o.queue@[1] == other,
        f.players@.len() == o.players@.len(),
        forall|j: int|
            0 <= j < f.players@.len() && j != player_idx(o.players@, cur) && j != player_idx(
                o.players@,
                other,
            ) ==> #[trigger] f.players@[j] == o.players@[j],
        forall|j: int|
            0 <= j < f.players@.len() ==> (#[trigger] f.players@[j]).id == o.players@[j].id,
        f.players@[player_idx(o.players@, cur)].finished,
        f.players@[player_idx(o.players@, other)].finished,
        forall|j: int| 0 <= j < f.players@.len() ==> (#[trigger] f.players@[j]).hand_wf(),
        f.queue@.len() == 0,
        f.finished@ == o.finished@.push(cur).push(other),
        f.dropped@ == o.dropped@,
        f.rules@ == o.rules@,
        f.started,
        f.discard@.len() >= 1,
        f.next_id == o.next_id,
        forall|i: int| 0 <= i < f.deck@.len() ==> (#[trigger] f.deck@[i]).wf(),
        forall|i: int| 0 <= i < f.discard@.len() ==> (#[trigger] f.discard@[i]).wf(),
    ensures
        f.wf(),
        f.finished@.contains(cur),
{
    let pidx = player_idx(o.players@, cur);
    let oidx = player_idx(o.players@, other);
    assert(has_player(o.players@, cur));
    assert(has_player(o.players@, other));
    let v = choose|v: int| 0 <= v < o.players@.len() && o.players@[v].id == cur;
    lemma_player_idx(o.players@, v);
    let w = choose|w: int| 0 <= w < o.players@.len() && o.players@[w].id == other;
    lemma_player_idx(o.players@, w);
    assert forall|a: int, b: int|
        0 <= a < b < f.players@.len() implies (#[trigger] f.players@[a]).id != (
    #[trigger] f.players@[b]).id by {
        assert(o.players@[a].id != o.players@[b].id);
    }
    assert forall|j: int|
        0 <= j < f.players@.len() implies (#[trigger] f.players@[j]).id < f.next_id by {
        assert(f.players@[j].id == o.players@[j].id);
    }
    assert forall|j: int|
        0 <= j < f.players@.len() implies ((#[trigger] f.players@[j]).finished
        <==> !f.queue@.contains(f.players@[j].id)) by {
        if j != pidx && j != oidx {
            assert(f.players@[j] == o.players@[j]);
            if !f.players@[j].finished {
                assert(o.queue@.contains(o.players@[j].id));
                let u = choose|u: int| 0 <= u < o.queue@.len() && o.queue@[u] == o.players@[j].id;
                assert(u == 0 || u == 1);
                assert(o.players@[j].id == cur || o.players@[j].id == other);
                assert(j == pidx || j == oidx);
                assert(false);
            }
        }
    }
    assert forall|i: int|
        0 <= i < f.finished@.len() implies has_player(f.players@, #[trigger] f.finished@[i])
        || has_player(f.dropped@, f.finished@[i]) by {
        if i < o.finished@.len() {
            assert(f.finished@[i] == o.finished@[i]);
            if has_player(o.players@, o.finished@[i]) {
                let u = choose|u: int|
                    0 <= u < o.players@.len() && o.players@[u].id == o.finished@[i];
                assert(f.players@[u].id == o.finished@[i]);
            }
        } else if i == o.finished@.len() {
            assert(f.finished@[i] == cur);
            assert(f.players@[pidx].id == cur);
        } else {
            assert(f.finished@[i] == other);
            assert(f.players@[oidx].id == other);
        }
    }
    assert(f.finished@[o.finished@.len() as int] == cur);
}

/// The engine invariant survives any step that deals cards around:
/// ids, finished flags, the queue, the rosters and the rules are kept,
/// only hands, piles and counters move.
pub proof fn callout_wf_glue(o: UnoGame, f: UnoGame)
    requires
        o.wf(),
        o.started,
        f.started,
        f.players@.len() == o.players@.len(),
        forall|j: int|
            0 <= j < f.players@.len() ==> (#[trigger] f.players@[j]).id == o.players@[j].id && (
            #[trigger] f.players@[j]).finished == o.players@[j].finished,
        f.players_wf(),
        f.piles_wf(),
        f.discard@.len() >= 1,
        f.queue@ == o.queue@,
        f.finished@ == o.finished@,
        f.dropped@ == o.dropped@,
        f.rules@ == o.rules@,
    ensures
        f.wf(),
{
    assert forall|i: int|
        0 <= i < f.queue@.len() implies has_player(f.players@, #[trigger] f.queue@[i]) by {
        assert(has_player(o.players@, o.queue@[i]));
        let w = choose|w: int| 0 <= w < o.players@.len() && o.players@[w].id == o.queue@[i];
        assert(f.players@[w].id == f.queue@[i]);
    }
    assert forall|j: int|
        0 <= j < f.players@.len() implies ((#[trigger] f.players@[j]).finished <==> !f.queue@.contains(
        f.players@[j].id,
    )) by {
        assert(f.players@[j].finished == o.players@[j].finished);
        assert(f.players@[j].id == o.players@[j].id);
    }
    assert forall|i: int|
        0 <= i < f.finished@.len() implies has_player(f.players@, #[trigger] f.finished@[i])
        || has_player(f.dropped@, f.finished@[i]) by {
        if has_player(o.players@, o.finished@[i]) {
            let w = choose|w: int| 0 <= w < o.players@.len() && o.players@[w].id == o.finished@[i];
            assert(f.players@[w].id == f.finished@[i]);
        }
    }
}

/// After a SKIP with three active players, the player after the one
/// skipped takes the turn, not the skipped player: the played SKIP
/// rotates once, the turn change rotates again, so the head lands two
/// places down. Together with `play`'s contract, which takes the queue
/// through exactly this shape on a SKIP that does not end a hand, this
/// pins whose turn follows a SKIP.
pub proof fn lemma_skip_three(q: Seq<u64>, rs: bool, ds: bool)
    requires
        q.len() == 3,
    ensures
        rot(queue_after_effect(q, CardKind::Skip, rs, ds))[0] == q[2],
        rot(queue_after_effect(q, CardKind::Skip, rs, ds)).len() == 3,
{
    assert(queue_after_effect(q, CardKind::Skip, rs, ds) == rot(q));
    assert(rot(q)[0] == q[1] && rot(q)[1] == q[2] && rot(q)[2] == q[0]);
    assert(rot(rot(q))[0] == rot(q)[1]);
}

/// A REVERSE with exactly two active players and `Reverses Skip` on
/// leaves the queue as it was: the reversal swaps the two, the turn
/// change swaps them back, so the same player keeps the turn. Together
/// with `play`'s contract this pins the two-player REVERSE.
pub proof fn lemma_reverse_two(q: Seq<u64>, ds: bool)
    requires
        q.len() == 2,
    ensures
        rot(queue_after_effect(q, CardKind::Reverse, true, ds)) == q,
{
    assert(queue_after_effect(q, CardKind::Reverse, true, ds) == q.reverse());
    assert(q.reverse().len() == 2);
    assert(q.reverse()[0] == q[1] && q.reverse()[1] == q[0]);
    assert(rot(q.reverse()) =~= q);
}

/// Stacked DRAW-TWO plays compound: with two consecutive DRAW-TWOs on
/// top of the discard pile the streak is at least two, so the penalty
/// `play` deals the next player is at least four cards, not two.
pub proof fn lemma_streak_stacks(d: Seq<Card>)
    requires
        d.len() >= 2,
        d[d.len() - 1].kind == CardKind::DrawTwo,
        d[d.len() - 2].kind == CardKind::DrawTwo,
    ensures
        2 * streak(d) >= 4,
{
    assert(d.last().kind == CardKind::DrawTwo);
    assert(d.drop_last().last() == d[d.len() - 2]);
    assert(streak(d) == 1 + streak(d.drop_last()));
    assert(streak(d.drop_last()) >= 1);
}

/// A filter of a duplicate-free sequence is duplicate-free.
pub proof fn lemma_filter_distinct(q: Seq<u64>, pred: spec_fn(u64) -> bool)
    requires
        forall|i: int, j: int| 0 <= i < j < q.len() ==> q[i] != q[j],
    ensures
        forall|i: int, j: int|
            0 <= i < j < q.filter(pred).len() ==> q.filter(pred)[i] != q.filter(pred)[j],
    decreases q.len(),
{
    reveal(Seq::filter);
    if q.len() > 0 {
        let d = q.drop_last();
        assert(forall|i: int, j: int| 0 <= i < j < d.len() ==> d[i] != d[j]);
        lemma_filter_distinct(d, pred);
        lemma_filter_members(d, pred);
        let f = q.filter(pred);
        if pred(q.last()) {
            assert forall|i: int, j: int| 0 <= i < j < f.len() implies f[i] != f[j] by {
                if j < f.len() - 1 {
                    assert(f[i] == d.filter(pred)[i] && f[j] == d.filter(pred)[j]);
                } else {
                    assert(f[i] == d.filter(pred)[i]);
                    assert(f[j] == q.last());
                    assert(d.contains(f[i]));
                    let w = choose|w: int| 0 <= w < d.len() && d[w] == f[i];
                    assert(q[w] == f[i]);
                    assert(q[w] != q[q.len() - 1]);
                }
            }
        }
    }
}

/// The first registered name under an id, scanning front to back.
pub open spec fn spec_name_in(s: Seq<Player>, id: u64) -> Option<Seq<char>>
    decreases s.len(),
{
    if s.len() == 0 {
        Option::None
    } else if s[0].id == id {
        Option::Some(s[0].username@)
    } else {
        spec_name_in(s.skip(1), id)
    }
}

/// The display name shown for an id: the registered player's, else a
/// dropped player's, else empty.
pub open spec fn spec_player_name(g: UnoGame, id: u64) -> Seq<char> {
    match spec_name_in(g.players@, id) {
        Option::Some(n) => n,
        Option::None => match spec_name_in(g.dropped@, id) {
            Option::Some(n) => n,
            Option::None => Seq::empty(),
        },
    }
}

/// The finishing ranks from position `i` on: "1. *name*" and so on.
pub open spec fn spec_ranks(g: UnoGame, i: int) -> Seq<char>
    decreases g.finished@.len() - i,
{
    if i < 0 || i >= g.finished@.len() {
        Seq::empty()
    } else {
        dec_str((i + 1) as nat) + ". *"@ + spec_player_name(g, g.finished@[i]) + "*"@
            + spec_ranks(g, i + 1)
    }
}

/// Minutes elapsed since the match started, by a clock reading in
/// seconds; a clock that moved backwards reads as zero.
pub open spec fn spec_elapsed(start_min: u64, now_secs: u64) -> u64 {
    if now_secs / 60 >= start_min {
        ((now_secs / 60) - start_min) as u64
    } else {
        0
    }
}

/// The scoreboard: ranks, then the elapsed minutes and cards drawn.
pub open spec fn spec_scoreboard(g: UnoGame, now_secs: u64) -> Seq<char> {
    spec_ranks(g, 0) + "\nThis game lasted "@ + dec_str(
        spec_elapsed(g.time_started, now_secs) as nat,
    ) + " minutes and "@ + dec_str(g.drawn as nat) + " cards were drawn"@
}

/// One line per active player: position, name and hand size.
pub open spec fn spec_table_rows(g: UnoGame, i: int) -> Seq<char>
    decreases g.queue@.len() - i,
{
    if i < 0 || i >= g.queue@.len() {
        Seq::empty()
    } else {
        dec_str((i + 1) as nat) + ". "@ + spec_player_name(g, g.queue@[i]) + " - "@ + dec_str(
            g.players@[player_idx(g.players@, g.queue@[i])].hand@.len() as nat,
        ) + " cards\n"@ + spec_table_rows(g, i + 1)
    }
}

/// The table as text; empty without a running match.
pub open spec fn spec_table(g: UnoGame, now_secs: u64) -> Seq<char> {
    if g.queue@.len() == 0 || g.discard@.len() == 0 {
        Seq::empty()
    } else {
        "A "@ + spec_card_text(g.discard@.last()) + " has been played!\nIt is currently "@
            + spec_player_name(g, g.queue@[0]) + "'s turn!\n\n"@ + spec_table_rows(g, 0)
            + "This game has lasted "@ + dec_str(spec_elapsed(g.time_started, now_secs) as nat)
            + " minutes and "@ + dec_str(g.drawn as nat) + " cards have been drawn"@
    }
}

/// A rule type written out.
pub open spec fn spec_rtype_text(t: RuleType) -> Seq<char> {
    match t {
        RuleType::Integer => "integer"@,
        RuleType::Boolean => "boolean"@,
    }
}

/// One rule written out in the single-rule format.
pub open spec fn spec_show_rule(r: Rule) -> Seq<char> {
    "*"@ + r.name@ + "*\nType: "@ + spec_rtype_text(r.rtype) + "\nValue: "@ + dec_str(
        r.value as nat,
    ) + "\n\n"@ + r.desc@
}

/// The rule list from position `i` on, in the list format.
pub open spec fn spec_all_rules(rules: Seq<Rule>, i: int) -> Seq<char>
    decreases rules.len() - i,
{
    if i < 0 || i >= rules.len() {
        Seq::empty()
    } else {
        "*"@ + rules[i].name@ + "*\nType: "@ + spec_rtype_text(rules[i].rtype) + "\nValue: "@
            + dec_str(rules[i].value as nat) + "\n"@ + rules[i].desc@ + "\n\n"@
            + spec_all_rules(rules, i + 1)
    }
}

/// The first registered name under an id.
fn name_in(v: &Vec<Player>, id: u64) -> (r: Option<String>)
    ensures
        (match (r, spec_name_in(v@, id)) {
            (Option::Some(n), Option::Some(sn)) => n@ == sn,
            (Option::None, Option::None) => true,
            _ => false,
        }),
{
    let mut i: usize = 0;
    proof {
        assert(v@.skip(0) =~= v@);
    }
    while i < v.len()
        invariant
            i <= v@.len(),
            spec_name_in(v@.skip(i as int), id) == spec_name_in(v@, id),
        decreases v@.len() - i,
    {
        proof {
            assert(v@.skip(i as int)[0] == v@[i as int]);
            assert(v@.skip(i as int).skip(1) =~= v@.skip(i + 1));
        }
        if v[i].id == id {
            return Option::Some(v[i].username.clone());
        }
        i = i + 1;
    }
    proof {
        assert(v@.skip(v@.len() as int) =~= Seq::<Player>::empty());
    }
    Option::None
}

/// The plain outcome of a draw: the player whose turn it was holds one
/// more card, dealt from the deck front (the recycled pile when the
/// deck was empty), their UNO call is cleared, the turn rotated once,
/// and nothing else moved.
pub open spec fn draw_plain_post(o: UnoGame, f: UnoGame) -> bool {
    let cur = o.queue@[0];
    let pidx = player_idx(o.players@, cur);
    let hand = o.players@[pidx].hand@;
    &&& f.started
    &&& f.players@.len() == o.players@.len()
    &&& f.players@[pidx].id == cur
    &&& f.players@[pidx].hand@.len() == hand.len() + 1
    &&& hand_sorted(f.players@[pidx].hand@)
    &&& !f.players@[pidx].called
    &&& f.players@[pidx].username == o.players@[pidx].username
    &&& f.players@[pidx].finished == o.players@[pidx].finished
    &&& (forall|j: int| 0 <= j < o.players@.len() && j != pidx ==> f.players@[j] == o.players@[j])
    &&& f.queue@ == rot(o.queue@)
    &&& f.finished@ == o.finished@
    &&& f.dropped@ == o.dropped@
    &&& f.rules@ == o.rules@
    &&& f.called_out == o.called_out
    &&& f.drawn == (if o.drawn + 1 <= u64::MAX {
        o.drawn + 1
    } else {
        u64::MAX as int
    })
    &&& f.spec_available() == o.spec_available() - 1
    &&& (o.deck@.len() >= 1 ==> f.deck@ == o.deck@.skip(1) && f.discard == o.discard
        && f.players@[pidx].hand@.to_multiset() == hand.to_multiset().insert(o.deck@[0]))
    &&& (o.deck@.len() == 0 ==> f.discard@ == seq![o.discard@.last()])
}

impl UnoGame {
    /// The position of the player bearing `id`, if registered.
    fn find_player(&self, id: u64) -> (r: Option<usize>)
        ensures
            (match r {
                Option::Some(i) => i < self.players@.len() && self.players@[i as int].id == id,
                Option::None => !has_player(self.players@, id),
            }),
    {
        let mut i: usize = 0;
        while i < self.players.len()
            invariant
                i <= self.players@.len(),
                forall|j: int| 0 <= j < i ==> (#[trigger] self.players@[j]).id != id,
            decreases self.players@.len() - i,
        {
            if self.players[i].id == id {
                return Option::Some(i);
            }
            i = i + 1;
        }
        Option::None
    }

    /// Registers a new player with the next sequential id and an empty
    /// hand. Refused once the match has started.
    pub fn add_player(&mut self, name: &str) -> (r: Result<u64, GameError>)
        requires
            old(self).wf(),
            old(self).next_id < u64::MAX,
        ensures
            final(self).wf(),
            old(self).started ==> r == Result::<u64, GameError>::Err(GameError::AlreadyStarted)
                && *final(self) == *old(self),
            !old(self).started ==> {
                &&& r == Result::<u64, GameError>::Ok(old(self).next_id)
                &&& final(self).players@.len() == old(self).players@.len() + 1
                &&& final(self).players@.last().id == old(self).next_id
                &&& final(self).players@.last().username@ == name@
                &&& final(self).players@.last().hand@.len() == 0
                &&& !final(self).players@.last().called
                &&& !final(self).players@.last().finished
                &&& final(self).players@.last().cards_played == 0
                &&& final(self).players@.last().messages@.len() == 0
                &&& final(self).players@.take(old(self).players@.len() as int) == old(
                    self,
                ).players@
                &&& final(self).next_id == old(self).next_id + 1
                &&& *final(self) == (UnoGame {
                    players: final(self).players,
                    next_id: final(self).next_id,
                    ..*old(self)
                })
            },
    {
        if self.started {
            return Result::Err(GameError::AlreadyStarted);
        }
        let id = self.next_id;
        let player = Player {
            id,
            username: String::from_str(name),
            hand: Vec::new(),
            called: false,
            finished: false,
            cards_played: 0,
            messages: Vec::new(),
        };
        self.players.push(player);
        self.next_id = self.next_id + 1;
        proof {
            assert(final(self).players@.take(old(self).players@.len() as int) =~= old(
                self,
            ).players@);
        }
        Result::Ok(id)
    }

    /// How many cards can still be dealt: the draw pile, plus the
    /// discard pile save its top card once there is more than one.
    pub open spec fn spec_available(self) -> int {
        self.deck@.len() + if self.discard@.len() >= 2 {
            self.discard@.len() - 1
        } else {
            0
        }
    }

    /// Moves `number` cards from the top of the draw pile into the
    /// named player's hand, re-sorting it and clearing its UNO call.
    /// When the draw pile runs short, the discard pile except its top
    /// card is shuffled back in first; when even that cannot supply the
    /// cards, nothing changes and the match is lost to `DeckExhausted`.
    fn deal(&mut self, player_id: u64, number: usize) -> (r: Result<Option<Card>, GameError>)
        requires
            old(self).players_wf(),
            old(self).piles_wf(),
            old(self).started,
            old(self).discard@.len() >= 1,
            has_player(old(self).players@, player_id),
        ensures
            final(self).players_wf(),
            final(self).piles_wf(),
            final(self).started,
            final(self).discard@.len() >= 1,
            number > old(self).spec_available() <==> r is Err,
            r is Err ==> r == Result::<Option<Card>, GameError>::Err(GameError::DeckExhausted)
                && *final(self) == *old(self),
            r is Ok && number >= 1 && old(self).deck@.len() >= number ==> r
                == Result::<Option<Card>, GameError>::Ok(Option::Some(old(self).deck@[0])),
            r is Ok && number >= 1 ==> (match r {
                Result::Ok(Option::Some(c)) => final(self).players@[player_idx(
                    old(self).players@,
                    player_id,
                )].hand@.contains(c) && c.wf(),
                _ => false,
            }),
            r is Ok ==> {
                let pidx = player_idx(old(self).players@, player_id);
                &&& final(self).players@.len() == old(self).players@.len()
                &&& forall|j: int|
                    0 <= j < old(self).players@.len() && j != pidx ==> final(self).players@[j]
                        == old(self).players@[j]
                &&& final(self).players@[pidx].hand@.len() == old(self).players@[pidx].hand@.len()
                    + number
                &&& hand_sorted(final(self).players@[pidx].hand@)
                &&& !final(self).players@[pidx].called
                &&& final(self).players@[pidx].id == player_id
                &&& final(self).players@[pidx].username == old(self).players@[pidx].username
                &&& final(self).players@[pidx].finished == old(self).players@[pidx].finished
                &&& final(self).players@[pidx].cards_played == old(
                    self,
                ).players@[pidx].cards_played
                &&& final(self).players@[pidx].messages == old(self).players@[pidx].messages
                &&& final(self).spec_available() == old(self).spec_available() - number
                &&& final(self).drawn == (if old(self).drawn + number <= u64::MAX {
                    old(self).drawn + number
                } else {
                    u64::MAX as int
                })
                &&& (old(self).deck@.len() >= number ==> final(self).deck@ == old(
                    self,
                ).deck@.skip(number as int) && final(self).discard == old(self).discard
                    && final(self).players@[pidx].hand@.to_multiset() == old(
                    self,
                ).players@[pidx].hand@.to_multiset().add(
                    old(self).deck@.take(number as int).to_multiset(),
                ))
                &&& (old(self).deck@.len() < number ==> final(self).discard@ == seq![
                    old(self).discard@.last(),
                ] && final(self).deck@.len() == old(self).deck@.len() + old(self).discard@.len()
                    - 1 - number && final(self).deck@.to_multiset().add(
                    final(self).players@[pidx].hand@.to_multiset(),
                ) == old(self).deck@.to_multiset().add(
                    old(self).discard@.drop_last().to_multiset(),
                ).add(old(self).players@[pidx].hand@.to_multiset()))
                &&& *final(self) == (UnoGame {
                    players: final(self).players,
                    deck: final(self).deck,
                    discard: final(self).discard,
                    drawn: final(self).drawn,
                    ..*old(self)
                })
            },
    {
        let deck_len = self.deck.len();
        if number > deck_len {
            let extra = if self.discard.len() >= 2 {
                self.discard.len() - 1
            } else {
                0
            };
            if number - deck_len > extra {
                return Result::Err(GameError::DeckExhausted);
            }
            // Recycle: everything but the discard top goes back into
            // the draw pile and is reshuffled.
            let top = match self.discard.pop() {
                Option::Some(t) => t,
                Option::None => {
                    proof {
                        assert(false);
                    }
                    return Result::Err(GameError::DeckExhausted);
                },
            };
            let ghost pre_deck = self.deck@;
            let ghost pre_disc = self.discard@;
            self.deck.append(&mut self.discard);
            self.discard.push(top);
            let ghost merged = self.deck@;
            self.shuffle_deck();
            proof {
                broadcast use vstd::multiset::group_multiset_axioms;

                lemma_multiset_elems(merged, self.deck@);
                assert(forall|i: int|
                    0 <= i < self.deck@.len() ==> (#[trigger] self.deck@[i]).wf());
                vstd::seq_lib::lemma_multiset_commutative::<Card>(pre_deck, pre_disc);
                assert(pre_disc =~= old(self).discard@.drop_last());
                assert(self.deck@.to_multiset() =~= old(self).deck@.to_multiset().add(
                    old(self).discard@.drop_last().to_multiset(),
                ));
            }
        }
        let pidx = match self.find_player(player_id) {
            Option::Some(i) => i,
            Option::None => {
                proof {
                    assert(false);
                }
                return Result::Err(GameError::PlayerNotFound);
            },
        };
        proof {
            lemma_player_idx(old(self).players@, pidx as int);
        }
        let ghost mid = *self;
        proof {
            broadcast use vstd::multiset::group_multiset_axioms;

            assert(mid.deck@.take(0) =~= Seq::<Card>::empty());
            vstd::seq_lib::to_multiset_len::<Card>(Seq::<Card>::empty());
            vstd::multiset::lemma_multiset_empty_len::<Card>(
                Seq::<Card>::empty().to_multiset(),
            );
            assert(Seq::<Card>::empty().to_multiset() =~= Multiset::<Card>::empty());
            assert(self.players@[pidx as int].hand@.to_multiset().add(
                Multiset::<Card>::empty(),
            ) =~= self.players@[pidx as int].hand@.to_multiset());
        }
        let mut first: Option<Card> = Option::None;
        let mut t: usize = 0;
        while t < number
            invariant
                t <= number,
                t == 0 ==> first is None,
                t >= 1 ==> first == Option::Some(mid.deck@[0]) && mid.deck@.len() >= 1,
                pidx < self.players@.len(),
                self.players@.len() == mid.players@.len(),
                number <= mid.deck@.len(),
                self.deck@ == mid.deck@.skip(t as int),
                self.players@[pidx as int].hand@.to_multiset() == mid.players@[
                    pidx as int
                ].hand@.to_multiset().add(mid.deck@.take(t as int).to_multiset()),
                self.players@[pidx as int].hand@.len() == mid.players@[pidx as int].hand@.len()
                    + t,
                self.players@[pidx as int].hand_wf(),
                self.players@[pidx as int].id == mid.players@[pidx as int].id,
                self.players@[pidx as int].username == mid.players@[pidx as int].username,
                self.players@[pidx as int].called == mid.players@[pidx as int].called,
                self.players@[pidx as int].finished == mid.players@[pidx as int].finished,
                self.players@[pidx as int].cards_played == mid.players@[pidx as int].cards_played,
                self.players@[pidx as int].messages == mid.players@[pidx as int].messages,
                forall|j: int|
                    0 <= j < self.players@.len() && j != pidx ==> self.players@[j] == mid.players@[
                        j
                    ],
                mid.piles_wf(),
                *self == (UnoGame { players: self.players, deck: self.deck, ..mid }),
            decreases number - t,
        {
            let ghost pre_deckv = self.deck@;
            let ghost pre_hand = self.players@[pidx as int].hand@;
            let c = self.deck.remove(0);
            if t == 0 {
                first = Option::Some(c);
            }
            self.players[pidx].hand.push(c);
            proof {
                broadcast use vstd::seq_lib::group_to_multiset_ensures;

                assert(pre_deckv.remove(0).to_multiset() =~= pre_deckv.to_multiset().remove(
                    pre_deckv[0],
                ));
                assert(pre_hand.push(c).to_multiset() =~= pre_hand.to_multiset().insert(c));
                assert(self.deck@ =~= mid.deck@.skip(t + 1));
                assert(mid.deck@.take(t + 1) =~= mid.deck@.take(t as int).push(mid.deck@[t as int]));
                assert(mid.deck@.take(t + 1).to_multiset() =~= mid.deck@.take(
                    t as int,
                ).to_multiset().insert(mid.deck@[t as int]));
                assert(c == mid.deck@[t as int]);
                assert(self.players@[pidx as int].hand@.to_multiset() =~= mid.players@[
                    pidx as int
                ].hand@.to_multiset().add(mid.deck@.take(t + 1).to_multiset()));
                assert((#[trigger] mid.deck@[t as int]).wf());
            }
            t = t + 1;
        }
        self.players[pidx].sort_hand();
        self.players[pidx].called = false;
        self.drawn = self.drawn.saturating_add(number as u64);
        proof {
            assert(forall|j: int|
                0 <= j < self.players@.len() && j != pidx ==> self.players@[j] == old(
                    self,
                ).players@[j]);
            assert(self.players@[pidx as int].id == old(self).players@[pidx as int].id);
            assert forall|a: int, b: int|
                0 <= a < b < self.players@.len() implies (#[trigger] self.players@[a]).id != (
            #[trigger] self.players@[b]).id by {
                assert(old(self).players@[a].id != old(self).players@[b].id);
                assert(self.players@[a].id == old(self).players@[a].id);
                assert(self.players@[b].id == old(self).players@[b].id);
            }
            assert forall|j: int|
                0 <= j < self.players@.len() implies (#[trigger] self.players@[j]).id
                < self.next_id by {
                assert(self.players@[j].id == old(self).players@[j].id);
            }
            assert forall|j: int|
                0 <= j < self.players@.len() implies (#[trigger] self.players@[j]).hand_wf() by {
                if j != pidx {
                    assert(self.players@[j] == old(self).players@[j]);
                }
            }
            if number > old(self).deck@.len() {
                broadcast use vstd::multiset::group_multiset_axioms;

                vstd::seq_lib::lemma_multiset_commutative::<Card>(
                    mid.deck@.take(number as int),
                    mid.deck@.skip(number as int),
                );
                assert(mid.deck@.take(number as int) + mid.deck@.skip(number as int)
                    =~= mid.deck@);
                assert(self.deck@.to_multiset().add(
                    self.players@[pidx as int].hand@.to_multiset(),
                ) =~= old(self).deck@.to_multiset().add(
                    old(self).discard@.drop_last().to_multiset(),
                ).add(old(self).players@[pidx as int].hand@.to_multiset()));
            }
            if number >= 1 {
                broadcast use vstd::seq_lib::group_to_multiset_ensures;
                broadcast use vstd::multiset::group_multiset_axioms;

                let taken = mid.deck@.take(number as int);
                assert(taken[0] == mid.deck@[0]);
                assert(taken.contains(mid.deck@[0]));
                assert(taken.to_multiset().count(mid.deck@[0]) > 0);
                assert(self.players@[pidx as int].hand@.to_multiset().count(mid.deck@[0]) > 0);
                assert(self.players@[pidx as int].hand@.contains(mid.deck@[0]));
                assert((#[trigger] mid.deck@[0]).wf());
            }
        }
        Result::Ok(first)
    }

    /// Rotates the head of the queue to the tail, then drops every
    /// player now marked finished. Fails with `GameOver` on an empty
    /// queue.
    fn next(&mut self) -> (r: Result<(), GameError>)
        requires
            old(self).players_wf(),
            forall|i: int, j: int|
                0 <= i < j < old(self).queue@.len() ==> old(self).queue@[i] != old(self).queue@[j],
            forall|i: int|
                0 <= i < old(self).queue@.len() ==> has_player(
                    old(self).players@,
                    #[trigger] old(self).queue@[i],
                ),
        ensures
            old(self).queue@.len() == 0 <==> r is Err,
            r is Err ==> r == Result::<(), GameError>::Err(GameError::GameOver) && *final(self)
                == *old(self),
            r is Ok ==> final(self).queue@ == active_only(old(self).players@, rot(old(self).queue@))
                && *final(self) == (UnoGame { queue: final(self).queue, ..*old(self) }),
    {
        if self.queue.len() == 0 {
            return Result::Err(GameError::GameOver);
        }
        let head = self.queue.remove(0);
        self.queue.push(head);
        let ghost rq = self.queue@;
        proof {
            assert(rq =~= rot(old(self).queue@));
        }
        let ghost pred = active_pred(old(self).players@);
        let mut kept: Vec<u64> = Vec::new();
        let mut i: usize = 0;
        proof {
            reveal(Seq::filter);
            assert(rq.take(0) =~= Seq::<u64>::empty());
            assert(Seq::<u64>::empty().filter(pred) =~= Seq::<u64>::empty());
        }
        while i < self.queue.len()
            invariant
                i <= self.queue@.len(),
                self.queue@ == rq,
                self.players@ == old(self).players@,
                old(self).players_wf(),
                forall|j: int|
                    0 <= j < rq.len() ==> has_player(old(self).players@, #[trigger] rq[j]),
                pred == (|id: u64| !spec_finished(old(self).players@, id)),
                kept@ == rq.take(i as int).filter(pred),
                *self == (UnoGame { queue: self.queue, ..*old(self) }),
            decreases self.queue@.len() - i,
        {
            let id = self.queue[i];
            let keep: bool;
            match self.find_player(id) {
                Option::Some(pi) => {
                    proof {
                        lemma_player_idx(self.players@, pi as int);
                    }
                    keep = !self.players[pi].finished;
                },
                Option::None => {
                    proof {
                        assert(false);
                    }
                    keep = false;
                },
            }
            proof {
                assert(keep == pred(rq[i as int]));
            }
            if keep {
                kept.push(id);
            }
            proof {
                reveal(Seq::filter);
                let single = seq![rq[i as int]];
                assert(rq.take(i + 1) =~= rq.take(i as int) + single);
                Seq::<u64>::filter_distributes_over_add(rq.take(i as int), single, pred);
                assert(single.drop_last() =~= Seq::<u64>::empty());
                assert(Seq::<u64>::empty().filter(pred) =~= Seq::<u64>::empty());
                if pred(rq[i as int]) {
                    assert(single.filter(pred) =~= single);
                    assert(kept@ =~= rq.take(i + 1).filter(pred));
                } else {
                    assert(single.filter(pred) =~= Seq::<u64>::empty());
                    assert(kept@ =~= rq.take(i + 1).filter(pred));
                }
            }
            i = i + 1;
        }
        proof {
            assert(rq.take(rq.len() as int) =~= rq);
        }
        self.queue = kept;
        Result::Ok(())
    }

    /// Lays the effective card on the discard pile, removes the played
    /// card from the current player's hand (re-sorted, play counter
    /// up), and books a finish where the hand emptied — closing the
    /// match on the spot when only one opponent remained. Returns the
    /// message so far, whether the actor finished, and whether the
    /// match ended.
    #[verifier::rlimit(100)]
    #[verifier::spinoff_prover]
    fn place_card(&mut self, pidx: usize, hi: usize, chosen: Color) -> (res: (String, bool, bool))
        requires
            old(self).wf(),
            old(self).started,
            old(self).queue@.len() > 0,
            pidx < old(self).players@.len(),
            old(self).players@[pidx as int].id == old(self).queue@[0],
            pidx as int == player_idx(old(self).players@, old(self).queue@[0]),
            hi < old(self).players@[pidx as int].hand@.len(),
            legal_play(
                effective_card(old(self).players@[pidx as int].hand@[hi as int], chosen),
                old(self).discard@.last(),
            ),
        ensures
            ({
                let o = *old(self);
                let f = *final(self);
                let cur = o.queue@[0];
                let hand = o.players@[pidx as int].hand@;
                let played = effective_card(hand[hi as int], chosen);
                &&& res.1 == (hand.len() == 1)
                &&& res.2 == (hand.len() == 1 && o.queue@.len() == 2)
                &&& (res.2 ==> f.wf() && play_resolved_post(
                    o,
                    f,
                    hi as int,
                    chosen,
                    Result::Ok(res.0),
                ))
                &&& (!res.2 ==> {
                    &&& f == (UnoGame {
                        players: f.players,
                        discard: f.discard,
                        finished: f.finished,
                        called_out: f.called_out,
                        ..o
                    })
                    &&& !f.called_out
                    &&& f.players@.len() == o.players@.len()
                    &&& (forall|j: int|
                        0 <= j < o.players@.len() && j != pidx ==> f.players@[j]
                            == o.players@[j])
                    &&& f.players@[pidx as int].id == cur
                    &&& f.players@[pidx as int].username == o.players@[pidx as int].username
                    &&& f.players@[pidx as int].called == o.players@[pidx as int].called
                    &&& f.players@[pidx as int].messages == o.players@[pidx as int].messages
                    &&& f.players@[pidx as int].cards_played == (if o.players@[
                        pidx as int
                    ].cards_played < u64::MAX {
                        o.players@[pidx as int].cards_played + 1
                    } else {
                        u64::MAX as int
                    })
                    &&& f.players@[pidx as int].finished == res.1
                    &&& f.players@[pidx as int].hand@.len() == hand.len() - 1
                    &&& f.players@[pidx as int].hand@.to_multiset() == hand.to_multiset().remove(
                        hand[hi as int],
                    )
                    &&& hand_sorted(f.players@[pidx as int].hand@)
                    &&& f.players_wf()
                    &&& f.piles_wf()
                    &&& f.discard@ == o.discard@.push(played)
                    &&& f.finished@ == (if res.1 {
                        o.finished@.push(cur)
                    } else {
                        o.finished@
                    })
                    &&& (forall|i: int|
                        0 <= i < f.finished@.len() ==> has_player(
                            f.players@,
                            #[trigger] f.finished@[i],
                        ) || has_player(f.dropped@, f.finished@[i]))
                    &&& res.0@ == "Played "@ + spec_card_text(played) + (if res.1 {
                        "\n"@ + o.players@[pidx as int].username@
                            + " has no more cards. They finished in rank *"@ + dec_str(
                            (o.finished@.len() + 1) as nat,
                        ) + "*!"@
                    } else {
                        Seq::<char>::empty()
                    })
                })
            }),
    {
        let ghost o = *old(self);
        let ghost q0 = o.queue@;
        let cur = self.queue[0];
        let hand_card = self.players[pidx].hand[hi];
        let played = if hand_card.kind.is_wild() {
            Card { kind: hand_card.kind, color: Option::Some(chosen), num: hand_card.num }
        } else {
            hand_card
        };
        proof {
            assert(played == effective_card(hand_card, chosen));
            assert(played.wf());
        }
        self.called_out = false;
        self.discard.push(played);
        let ghost pre_hand = self.players@[pidx as int].hand@;
        self.players[pidx].hand.remove(hi);
        proof {
            assert forall|j: int|
                0 <= j < self.players@[pidx as int].hand@.len() implies (#[trigger] self.players@[
                pidx as int
            ].hand@[j]).wf() by {
                if j < hi {
                    assert(self.players@[pidx as int].hand@[j] == pre_hand[j]);
                } else {
                    assert(self.players@[pidx as int].hand@[j] == pre_hand[j + 1]);
                }
            }
        }
        proof {
            vstd::seq_lib::to_multiset_remove::<Card>(pre_hand, hi as int);
            assert(self.players@[pidx as int].hand@ == pre_hand.remove(hi as int));
        }
        self.players[pidx].sort_hand();
        proof {
            assert(self.players@[pidx as int].hand@.to_multiset() == pre_hand.to_multiset().remove(
                pre_hand[hi as int],
            ));
        }
        let new_cp = self.players[pidx].cards_played.saturating_add(1);
        self.players[pidx].cards_played = new_cp;
        let finished_now = self.players[pidx].hand.len() == 0;
        let mut msg = String::from_str("Played ");
        let ptext = played.text();
        msg.append(ptext.as_str());
        proof {
            assert forall|a: int, b: int|
                0 <= a < b < self.players@.len() implies (#[trigger] self.players@[a]).id != (
            #[trigger] self.players@[b]).id by {
                assert(self.players@[a].id == o.players@[a].id);
                assert(self.players@[b].id == o.players@[b].id);
            }
            assert forall|j: int|
                0 <= j < self.players@.len() implies (#[trigger] self.players@[j]).hand_wf() by {
                if j != pidx {
                    assert(self.players@[j] == o.players@[j]);
                }
            }
        }
        if finished_now {
            self.players[pidx].finished = true;
            self.finished.push(cur);
            msg.append("\n");
            let nm = self.players[pidx].username.clone();
            msg.append(nm.as_str());
            msg.append(" has no more cards. They finished in rank *");
            push_u64(&mut msg, self.finished.len() as u64);
            msg.append("*!");
            if self.queue.len() == 2 {
                let other = self.queue[1];
                proof {
                    assert(has_player(o.players@, other));
                    let v = choose|v: int| 0 <= v < o.players@.len() && o.players@[v].id == other;
                    assert(self.players@[v].id == other);
                    assert(has_player(self.players@, other));
                }
                let oidx = match self.find_player(other) {
                    Option::Some(i) => i,
                    Option::None => {
                        proof {
                            assert(false);
                        }
                        return (msg, true, true);
                    },
                };
                proof {
                    lemma_player_idx(o.players@, oidx as int);
                    assert(cur != other);
                    assert(oidx != pidx);
                }
                self.players[oidx].finished = true;
                self.finished.push(other);
                msg.append("\n");
                let onm = self.players[oidx].username.clone();
                msg.append(onm.as_str());
                msg.append(" finished in rank *");
                push_u64(&mut msg, self.finished.len() as u64);
                msg.append("*! The game is over.");
                self.queue.clear();
                proof {
                    assert(player_idx(o.players@, other) == oidx as int);
                    assert(player_idx(o.players@, cur) == pidx as int);
                    endgame_wf_glue(o, *self, cur, other);
                    assert(self.finished@[o.finished@.len() as int] == cur);
                    assert(self.finished@.contains(cur));
                    assert(msg@ =~= spec_play_msg(o, hi as int, chosen)) by {
                        reveal(spec_play_msg);
                    }
                }
                return (msg, true, true);
            }
            proof {
                assert forall|j: int|
                    0 <= j < self.finished@.len() implies has_player(
                    self.players@,
                    #[trigger] self.finished@[j],
                ) || has_player(self.dropped@, self.finished@[j]) by {
                    if j < o.finished@.len() {
                        assert(self.finished@[j] == o.finished@[j]);
                        if has_player(o.players@, o.finished@[j]) {
                            let w = choose|w: int|
                                0 <= w < o.players@.len() && o.players@[w].id == o.finished@[j];
                            assert(self.players@[w].id == o.finished@[j]);
                        }
                    } else {
                        assert(self.finished@[j] == cur);
                        assert(self.players@[pidx as int].id == cur);
                    }
                }
            }
        }
        proof {
            if !finished_now {
                assert forall|j: int|
                    0 <= j < self.finished@.len() implies has_player(
                    self.players@,
                    #[trigger] self.finished@[j],
                ) || has_player(self.dropped@, self.finished@[j]) by {
                    if has_player(o.players@, o.finished@[j]) {
                        let w = choose|w: int|
                            0 <= w < o.players@.len() && o.players@[w].id == o.finished@[j];
                        assert(self.players@[w].id == o.finished@[j]);
                    }
                }
            }
        }
        (msg, finished_now, false)
    }

    /// Lays the card at `hi` of the current player's hand on the
    /// discard pile (a wild-family card with the chosen color), checks
    /// legality, applies the card's effect and passes the turn.
    #[verifier::rlimit(100)]
    #[verifier::spinoff_prover]
    fn play_resolved(&mut self, hi: usize, chosen: Color) -> (r: Result<String, GameError>)
        requires
            old(self).wf(),
            old(self).started,
            old(self).queue@.len() > 0,
            hi < old(self).players@[player_idx(old(self).players@, old(self).queue@[0])].hand@.len(),
        ensures
            final(self).wf(),
            play_resolved_post(*old(self), *final(self), hi as int, chosen, r),
    {
        proof {
            assert(old(self).rules@[2].wf(2));
            assert(old(self).rules@[3].wf(3));
        }
        let ghost o = *old(self);
        let ghost q0 = o.queue@;
        let cur = self.queue[0];
        let pidx = match self.find_player(cur) {
            Option::Some(i) => i,
            Option::None => {
                proof {
                    assert(false);
                }
                return Result::Err(GameError::PlayerNotFound);
            },
        };
        proof {
            lemma_player_idx(self.players@, pidx as int);
        }
        let rev_skip = self.rules[3].value == 1;
        let draw_skip = self.rules[2].value == 1;
        let hand_card = self.players[pidx].hand[hi];
        let played = if hand_card.kind.is_wild() {
            Card { kind: hand_card.kind, color: Option::Some(chosen), num: hand_card.num }
        } else {
            hand_card
        };
        let top = self.discard[self.discard.len() - 1];
        proof {
            assert(top == o.discard@.last());
            assert(played == effective_card(hand_card, chosen));
            assert(played.wf());
        }
        let color_hit = match played.color {
            Option::Some(c) => match top.color {
                Option::Some(t) => c == t,
                Option::None => false,
            },
            Option::None => false,
        };
        let legal = top.kind.is_wild() || top.color.is_none() || played.kind == top.kind
            || color_hit;
        proof {
            assert(legal == legal_play(played, top));
        }
        if !legal {
            return Result::Err(GameError::IllegalPlay);
        }
        let hand_len = self.players[pidx].hand.len();
        let qlen = self.queue.len();
        let is_draw_kind = match played.kind {
            CardKind::DrawTwo => true,
            CardKind::WildDrawFour => true,
            _ => false,
        };
        proof {
            if played.kind == CardKind::DrawTwo {
                let p = o.discard@.push(played);
                assert(p.last() == played);
                assert(p.drop_last() =~= o.discard@);
                assert(streak(p) == 1 + streak(o.discard@));
            }
            assert(o.spec_available() + 1 == self.deck@.len() + self.discard@.len());
        }
        if is_draw_kind && qlen >= 2 && !(hand_len == 1 && qlen == 2) {
            // The effect will deal cards: refuse up front, atomically,
            // when both piles together cannot serve it.
            let effect_amt: usize = match played.kind {
                CardKind::DrawTwo => {
                    let base = draw_amount(&self.discard);
                    base + 2
                },
                _ => 4,
            };
            let dl = self.deck.len();
            if effect_amt > dl && effect_amt - dl > self.discard.len() {
                return Result::Err(GameError::DeckExhausted);
            }
            proof {
                if played.kind == CardKind::DrawTwo {
                    if 2 * streak(o.discard@.push(played)) < 0x40000000 {
                        assert(effect_amt == 2 * streak(o.discard@.push(played)));
                    } else {
                        assert(effect_amt >= 0x40000000);
                    }
                }
            }
        }
        let (msg, finished_now, done) = self.place_card(pidx, hi, chosen);
        if done {
            return Result::Ok(msg);
        }
        let ghost mid1 = *self;
        proof {
            assert(mid1.queue@ == q0);
            assert forall|i: int|
                0 <= i < mid1.queue@.len() implies has_player(
                mid1.players@,
                #[trigger] mid1.queue@[i],
            ) by {
                assert(has_player(o.players@, q0[i]));
                let w = choose|w: int| 0 <= w < o.players@.len() && o.players@[w].id == q0[i];
                assert(mid1.players@[w].id == q0[i]);
            }
            lemma_player_idx(mid1.players@, pidx as int);
            assert(player_idx(mid1.players@, cur) == pidx);
            assert(mid1.players@[pidx as int].finished == finished_now);
            if !finished_now {
                assert(mid1.players@[pidx as int].finished == o.players@[pidx as int].finished);
            }
            assert forall|j: int|
                0 <= j < mid1.players@.len() && j != pidx implies ((
            #[trigger] mid1.players@[j]).finished <==> !mid1.queue@.contains(
                mid1.players@[j].id,
            )) by {
                assert(mid1.players@[j] == o.players@[j]);
            }
            if !finished_now {
                assert forall|i: int|
                    0 <= i < mid1.finished@.len() implies has_player(
                    mid1.players@,
                    #[trigger] mid1.finished@[i],
                ) || has_player(mid1.dropped@, mid1.finished@[i]) by {
                    if has_player(o.players@, o.finished@[i]) {
                        let w = choose|w: int|
                            0 <= w < o.players@.len() && o.players@[w].id == o.finished@[i];
                        assert(mid1.players@[w].id == o.finished@[i]);
                    }
                }
            }
        }
        proof {
            if finished_now {
                assert(msg@ =~= "Played "@ + spec_card_text(played) + ("\n"@ + o.players@[
                    pidx as int
                ].username@ + " has no more cards. They finished in rank *"@ + dec_str(
                    (o.finished@.len() + 1) as nat,
                ) + "*!"@));
            } else {
                assert(msg@ =~= "Played "@ + spec_card_text(played) + Seq::<char>::empty());
            }
        }
        let r2 = self.advance_after_play(played, cur, finished_now, rev_skip, draw_skip, msg);
        let m2 = match r2 {
            Result::Ok(m) => m,
            Result::Err(_) => {
                proof {
                    assert(false);
                }
                return Result::Err(GameError::DeckExhausted);
            },
        };
        proof {
            let ghost rs = o.rule_val(3) == 1;
            let ghost ds = o.rule_val(2) == 1;
            assert(rev_skip == rs && draw_skip == ds);
            let eq = queue_after_effect(q0, played.kind, rs, ds);
            assert(self.discard@.last() == mid1.discard@.last());
            assert(mid1.discard@.last() == played);
            assert(mid1.discard@ == o.discard@.push(played));
            assert(mid1.spec_available() == o.spec_available() + 1);
            assert(mid1.deck == o.deck);
            assert(mid1.drawn == o.drawn);
            assert(streak(mid1.discard@) == streak(o.discard@.push(played)));
            if q0.len() >= 2 {
                assert(has_player(o.players@, q0[1]));
                let v = choose|v: int| 0 <= v < o.players@.len() && o.players@[v].id == q0[1];
                lemma_player_idx(o.players@, v);
                lemma_player_idx(mid1.players@, v);
                assert(player_idx(o.players@, q0[1]) == v);
                assert(player_idx(mid1.players@, q0[1]) == v);
                assert(cur != q0[1]);
                assert(v != pidx);
                assert(mid1.players@[v] == o.players@[v]);
                assert(mid1.discard@ == o.discard@.push(played));
            }
            assert(self.players@[pidx as int] == mid1.players@[pidx as int]);
            if finished_now {
                assert(self.finished@ == o.finished@.push(cur));
                assert(self.finished@[o.finished@.len() as int] == cur);
                assert(self.finished@.contains(cur));
            }
            assert(capped_penalty(mid1.discard@) == capped_penalty(o.discard@.push(played)));
            assert(m2@ =~= spec_play_msg(o, hi as int, chosen)) by {
                reveal(spec_play_msg);
            }
        }
        Result::Ok(m2)
    }

    /// Applies a just-played card's effect: the queue surgery of
    /// REVERSE and SKIP, the stacked penalty dealt by the draw cards,
    /// and the rotation to the next turn. The player who acted is
    /// dropped from the queue when `finished_now` says their hand is
    /// empty.
    #[verifier::rlimit(100)]
    #[verifier::spinoff_prover]
    fn advance_after_play(
        &mut self,
        played: Card,
        cur: u64,
        finished_now: bool,
        rev_skip: bool,
        draw_skip: bool,
        msg: String,
    ) -> (r: Result<String, GameError>)
        requires
            old(self).started,
            old(self).queue@.len() > 0,
            old(self).queue@[0] == cur,
            old(self).players_wf(),
            old(self).piles_wf(),
            old(self).rules_wf(),
            old(self).discard@.len() >= 1,
            played.wf(),
            forall|i: int, j: int|
                0 <= i < j < old(self).queue@.len() ==> old(self).queue@[i] != old(self).queue@[j],
            forall|i: int|
                0 <= i < old(self).queue@.len() ==> has_player(
                    old(self).players@,
                    #[trigger] old(self).queue@[i],
                ),
            old(self).players@[player_idx(old(self).players@, cur)].finished == finished_now,
            forall|j: int|
                0 <= j < old(self).players@.len() && j != player_idx(old(self).players@, cur)
                    ==> ((#[trigger] old(self).players@[j]).finished <==> !old(
                    self,
                ).queue@.contains(old(self).players@[j].id)),
            forall|i: int|
                0 <= i < old(self).finished@.len() ==> has_player(
                    old(self).players@,
                    #[trigger] old(self).finished@[i],
                ) || has_player(old(self).dropped@, old(self).finished@[i]),
            played.kind == CardKind::DrawTwo && old(self).queue@.len() >= 2 ==> (if 2 * streak(
                old(self).discard@,
            ) < 0x40000000 {
                2 * streak(old(self).discard@) <= old(self).spec_available()
            } else {
                0x40000000 <= old(self).spec_available()
            }),
            played.kind == CardKind::WildDrawFour && old(self).queue@.len() >= 2
                ==> 4 <= old(self).spec_available(),
        ensures
            r is Ok,
            (match r {
                Result::Ok(m) => m@ == msg@ + spec_effect_text(
                    played.kind,
                    played.color,
                    old(self).queue@.len() as int,
                    rev_skip,
                    draw_skip,
                    capped_penalty(old(self).discard@),
                ),
                _ => false,
            }),
            r is Ok ==> {
                let q0 = old(self).queue@;
                let eq = queue_after_effect(q0, played.kind, rev_skip, draw_skip);
                &&& final(self).wf()
                &&& final(self).started
                &&& (finished_now ==> final(self).queue@ == rot(eq).filter(ne_pred(cur)))
                &&& (!finished_now ==> final(self).queue@ == rot(eq))
                &&& final(self).discard@.len() >= 1
                &&& final(self).discard@.last() == old(self).discard@.last()
                &&& final(self).players@.len() == old(self).players@.len()
                &&& final(self).finished@ == old(self).finished@
                &&& final(self).dropped@ == old(self).dropped@
                &&& final(self).rules@ == old(self).rules@
                &&& final(self).called_out == old(self).called_out
                &&& (played.kind == CardKind::DrawTwo && q0.len() >= 2 && 2 * streak(
                    old(self).discard@,
                ) < 0x40000000 ==> {
                    let vidx = player_idx(old(self).players@, q0[1]);
                    final(self).players@[vidx].hand@.len() == old(self).players@[vidx].hand@.len()
                        + 2 * streak(old(self).discard@) && victim_kept(
                        old(self).players@[vidx],
                        final(self).players@[vidx],
                        q0[1],
                    )
                })
                &&& (played.kind == CardKind::WildDrawFour && q0.len() >= 2 ==> {
                    let vidx = player_idx(old(self).players@, q0[1]);
                    final(self).players@[vidx].hand@.len() == old(self).players@[vidx].hand@.len()
                        + 4 && victim_kept(old(self).players@[vidx], final(self).players@[vidx], q0[1])
                })
                &&& (forall|j: int|
                    0 <= j < old(self).players@.len() && !((played.kind == CardKind::DrawTwo
                        || played.kind == CardKind::WildDrawFour) && q0.len() >= 2 && j
                        == player_idx(old(self).players@, q0[1])) ==> final(self).players@[j]
                        == old(self).players@[j])
                &&& ((played.kind != CardKind::DrawTwo && played.kind != CardKind::WildDrawFour)
                    || q0.len() < 2 ==> final(self).deck == old(self).deck && final(self).drawn
                    == old(self).drawn && final(self).discard == old(self).discard)
                &&& (final(self).discard@ == old(self).discard@ || final(self).discard@ == seq![
                    old(self).discard@.last(),
                ])
                &&& (played.kind == CardKind::DrawTwo && q0.len() >= 2 && 2 * streak(
                    old(self).discard@,
                ) < 0x40000000 ==> final(self).spec_available() == old(self).spec_available() - 2
                    * streak(old(self).discard@))
                &&& (played.kind == CardKind::WildDrawFour && q0.len() >= 2
                    ==> final(self).spec_available() == old(self).spec_available() - 4)
            },
    {
        let ghost m = *old(self);
        let ghost q0 = m.queue@;
        let ghost msg0 = msg@;
        let mut msg = msg;
        match played.kind {
            CardKind::Reverse => {
                if self.queue.len() > 2 {
                    let revd = reversed(&self.queue);
                    self.queue = revd;
                    let last = match self.queue.pop() {
                        Option::Some(x) => x,
                        Option::None => {
                            proof {
                                assert(false);
                            }
                            return Result::Err(GameError::DeckExhausted);
                        },
                    };
                    self.queue.insert(0, last);
                    proof {
                        assert(self.queue@ =~= move_last_to_front(q0.reverse()));
                    }
                    msg.append("\nTurns are now in reverse order!");
                } else if rev_skip {
                    let revd = reversed(&self.queue);
                    self.queue = revd;
                    msg.append("\nSkip a turn!");
                }
            },
            CardKind::Skip => {
                let h = self.queue.remove(0);
                self.queue.push(h);
                proof {
                    assert(self.queue@ =~= rot(q0));
                }
                msg.append("\nSkip a turn!");
            },
            CardKind::DrawTwo => {
                let amt = draw_amount(&self.discard);
                proof {
                    assert(amt == capped_penalty(m.discard@));
                }
                if self.queue.len() >= 2 {
                    let victim = self.queue[1];
                    let ghost pre_deal = *self;
                    proof {
                        assert(amt <= m.spec_available());
                    }
                    match self.deal(victim, amt) {
                        Result::Ok(_) => {},
                        Result::Err(_) => {
                            proof {
                                assert(false);
                            }
                            return Result::Err(GameError::DeckExhausted);
                        },
                    }
                    proof {
                        let v = choose|v: int|
                            0 <= v < m.players@.len() && m.players@[v].id == victim;
                        lemma_player_idx(m.players@, v);
                        assert(player_idx(m.players@, victim) == v);
                    }
                    msg.append("\nPick up ");
                    push_u64(&mut msg, amt as u64);
                    msg.append("!");
                }
                if draw_skip {
                    let h = self.queue.remove(0);
                    self.queue.push(h);
                    proof {
                        assert(self.queue@ =~= rot(q0));
                    }
                    msg.append("\nAlso, skip a turn!");
                }
            },
            CardKind::WildDrawFour => {
                if self.queue.len() >= 2 {
                    let victim = self.queue[1];
                    let ghost pre_deal = *self;
                    match self.deal(victim, 4) {
                        Result::Ok(_) => {},
                        Result::Err(_) => {
                            proof {
                                assert(false);
                            }
                            return Result::Err(GameError::DeckExhausted);
                        },
                    }
                    proof {
                        let v = choose|v: int|
                            0 <= v < m.players@.len() && m.players@[v].id == victim;
                        lemma_player_idx(m.players@, v);
                        assert(player_idx(m.players@, victim) == v);
                    }
                    msg.append("\nPick up 4! The color is now ");
                    let ct = played.get_color_name();
                    msg.append(ct);
                    msg.append("!");
                }
                if draw_skip {
                    let h = self.queue.remove(0);
                    self.queue.push(h);
                    proof {
                        assert(self.queue@ =~= rot(q0));
                    }
                    msg.append("\nAlso, skip a turn!");
                }
            },
            CardKind::Wild => {
                msg.append("\nThe color is now ");
                let ct = played.get_color_name();
                msg.append(ct);
                msg.append("!");
            },
            CardKind::Numeral(_) => {},
        }
        let ghost eq0 = queue_after_effect(q0, played.kind, rev_skip, draw_skip);
        proof {
            assert(self.players@.len() == m.players@.len());
            assert forall|j: int|
                0 <= j < self.players@.len() implies (#[trigger] self.players@[j]).id
                == m.players@[j].id by {}
            assert forall|j: int|
                0 <= j < self.players@.len() implies (#[trigger] self.players@[j]).finished
                == m.players@[j].finished by {}
            assert(self.players_wf());
            lemma_effect_members(q0, played.kind, rev_skip, draw_skip);
            assert(self.queue@ == eq0);
            assert forall|i: int|
                0 <= i < self.queue@.len() implies has_player(
                self.players@,
                #[trigger] self.queue@[i],
            ) by {
                assert(q0.contains(eq0[i]));
                let w = choose|w: int| 0 <= w < q0.len() && q0[w] == eq0[i];
                assert(has_player(m.players@, q0[w]));
                let v = choose|v: int| 0 <= v < m.players@.len() && m.players@[v].id == q0[w];
                assert(self.players@[v].id == eq0[i]);
            }
        }
        let ghost pre_next = *self;
        match self.next() {
            Result::Ok(()) => {},
            Result::Err(_) => {
                proof {
                    assert(false);
                }
                return Result::Err(GameError::DeckExhausted);
            },
        }
        proof {
            let pn = pre_next.players@;
            assert(self.queue@ == active_only(pn, rot(eq0)));
            let v0 = choose|v: int| 0 <= v < m.players@.len() && m.players@[v].id == cur;
            lemma_player_idx(m.players@, v0);
            lemma_player_idx(pn, v0);
            assert(player_idx(m.players@, cur) == v0);
            assert(player_idx(pn, cur) == v0);
            assert(pn[player_idx(pn, q0[0])].finished == finished_now);
            assert forall|j: int|
                0 <= j < pn.len() && j != player_idx(pn, q0[0]) implies ((
            #[trigger] pn[j]).finished <==> !q0.contains(pn[j].id)) by {
                assert(pn[j].finished == m.players@[j].finished);
                assert(pn[j].id == m.players@[j].id);
            }
            lemma_after_next(
                pn,
                q0,
                eq0,
                played.kind,
                rev_skip,
                draw_skip,
                finished_now,
                self.queue@,
            );
            assert forall|i: int|
                0 <= i < self.queue@.len() implies has_player(
                self.players@,
                #[trigger] self.queue@[i],
            ) by {
                assert(has_player(pn, self.queue@[i]));
                let v = choose|v: int| 0 <= v < pn.len() && pn[v].id == self.queue@[i];
                assert(self.players@[v].id == self.queue@[i]);
            }
            assert forall|j: int|
                0 <= j < self.players@.len() implies ((#[trigger] self.players@[j]).finished
                <==> !self.queue@.contains(self.players@[j].id)) by {
                assert(self.players@[j] == pn[j]);
            }
            assert forall|i: int|
                0 <= i < self.finished@.len() implies has_player(
                self.players@,
                #[trigger] self.finished@[i],
            ) || has_player(self.dropped@, self.finished@[i]) by {
                if has_player(m.players@, m.finished@[i]) {
                    let w = choose|w: int|
                        0 <= w < m.players@.len() && m.players@[w].id == m.finished@[i];
                    assert(self.players@[w].id == m.finished@[i]);
                }
            }
            assert(msg@ =~= msg0 + spec_effect_text(
                played.kind,
                played.color,
                q0.len() as int,
                rev_skip,
                draw_skip,
                capped_penalty(m.discard@),
            ));
        }
        Result::Ok(msg)
    }

    /// Plays the card named by the free-text command for the player
    /// whose turn it is. The command resolves against that player's
    /// hand alone; an unresolvable command fails with `CardNotInHand`,
    /// a command on an unstarted or ended match with `GameOver`, and
    /// every failure leaves the table unchanged. What a resolved play
    /// does — and when it is owed success — is `play_resolved_post`.
    pub fn play(&mut self, card: String) -> (r: Result<String, GameError>)
        requires
            old(self).wf(),
        ensures
            final(self).wf(),
            (!old(self).started || old(self).queue@.len() == 0) ==> r == Result::<
                String,
                GameError,
            >::Err(GameError::GameOver) && *final(self) == *old(self),
            old(self).started && old(self).queue@.len() > 0 ==> {
                let pidx = player_idx(old(self).players@, old(self).queue@[0]);
                let hand = old(self).players@[pidx].hand@;
                match resolve_in_hand(hand, crate::text::spec_tokenize(card@)) {
                    Option::None => r == Result::<String, GameError>::Err(GameError::CardNotInHand)
                        && *final(self) == *old(self),
                    Option::Some(p) => play_resolved_post(*old(self), *final(self), p.0, p.1, r),
                }
            },
    {
        if !self.started || self.queue.len() == 0 {
            return Result::Err(GameError::GameOver);
        }
        let cur = self.queue[0];
        let pidx = match self.find_player(cur) {
            Option::Some(i) => i,
            Option::None => {
                proof {
                    assert(false);
                }
                return Result::Err(GameError::PlayerNotFound);
            },
        };
        proof {
            lemma_player_idx(self.players@, pidx as int);
        }
        let words = crate::text::tokenize(card.as_str());
        match self.players[pidx].resolve(&words) {
            Option::Some((hi, chosen)) => self.play_resolved(hi, chosen),
            Option::None => Result::Err(GameError::CardNotInHand),
        }
    }

    /// Deals the player whose turn it is one card and passes the turn.
    /// With `Must Play` on and any playable card already in hand, the
    /// draw is refused and nothing changes. With `Automatically Play
    /// After Draw` on, a drawn colored card that is legal on the
    /// discard top is played at once (a drawn wild-family card is
    /// never auto-played, as it would need a chosen color); the played
    /// card follows `play_resolved_post`. The turn passes exactly once
    /// whether or not an auto-play happened: drawn cards cannot be
    /// held back, which is what the `Automatically Pass Turns` rule
    /// describes.
    #[verifier::rlimit(100)]
    #[verifier::spinoff_prover]
    pub fn draw(&mut self) -> (r: Result<String, GameError>)
        requires
            old(self).wf(),
        ensures
            final(self).wf(),
            (!old(self).started || old(self).queue@.len() == 0) ==> r == Result::<
                String,
                GameError,
            >::Err(GameError::GameOver) && *final(self) == *old(self),
            old(self).started && old(self).queue@.len() > 0 ==> {
                let pidx = player_idx(old(self).players@, old(self).queue@[0]);
                let hand = old(self).players@[pidx].hand@;
                let top = old(self).discard@.last();
                &&& (old(self).rule_val(4) == 1 && (exists|i: int|
                    0 <= i < hand.len() && playable_from_hand(#[trigger] hand[i], top)) <==> r
                    == Result::<String, GameError>::Err(GameError::MustPlay))
                &&& (r == Result::<String, GameError>::Err(GameError::MustPlay) ==> *final(self)
                    == *old(self))
                &&& (r is Err ==> r == Result::<String, GameError>::Err(GameError::MustPlay) || r
                    == Result::<String, GameError>::Err(GameError::DeckExhausted))
                &&& (r == Result::<String, GameError>::Err(GameError::DeckExhausted)
                    ==> *final(self) == *old(self))
                &&& (!(old(self).rule_val(4) == 1 && (exists|i: int|
                    0 <= i < hand.len() && playable_from_hand(#[trigger] hand[i], top))) ==> (r
                    == Result::<String, GameError>::Err(GameError::DeckExhausted) <==> old(
                    self,
                ).spec_available() == 0))
                &&& (r is Ok && old(self).rule_val(8) == 0 ==> draw_plain_post(
                    *old(self),
                    *final(self),
                ))
                &&& (r is Ok && old(self).rule_val(8) == 0 && old(self).deck@.len() >= 1 ==> (
                match r {
                    Result::Ok(m) => m@ == "You drew a "@ + spec_card_text(old(self).deck@[0])
                        + "."@,
                    _ => false,
                }))
                &&& (r is Ok && old(self).rule_val(8) == 1 && old(self).deck@.len() >= 1 && (old(
                    self,
                ).deck@[0].kind.spec_is_wild() || !legal_play(old(self).deck@[0], top))
                    ==> draw_plain_post(*old(self), *final(self)))
                &&& (r is Ok && old(self).rule_val(8) == 1 && old(self).deck@.len() >= 1 && !old(
                    self,
                ).deck@[0].kind.spec_is_wild() && legal_play(old(self).deck@[0], top) ==> {
                    let c = old(self).deck@[0];
                    draw_plain_post(*old(self), *final(self)) || (
                    {
                        &&& final(self).started
                        &&& final(self).players@.len() == old(self).players@.len()
                        &&& final(self).players@[pidx].hand@.len() == hand.len()
                        &&& final(self).discard@.len() >= 1
                        &&& final(self).discard@.last().kind == c.kind
                        &&& final(self).discard@.last().color == c.color
                        &&& (hand.len() >= 1 ==> final(self).queue@ == rot(
                            queue_after_effect(
                                old(self).queue@,
                                c.kind,
                                old(self).rule_val(3) == 1,
                                old(self).rule_val(2) == 1,
                            ),
                        ) && final(self).finished@ == old(self).finished@)
                    })
                })
                &&& (r is Ok ==> final(self).players@.len() == old(self).players@.len()
                    && final(self).started && final(self).players@[pidx].hand@.len() <= hand.len()
                    + 1)
            },
    {
        if !self.started || self.queue.len() == 0 {
            return Result::Err(GameError::GameOver);
        }
        proof {
            assert(old(self).rules@[4].wf(4));
            assert(old(self).rules@[8].wf(8));
        }
        let ghost o = *old(self);
        let cur = self.queue[0];
        let pidx = match self.find_player(cur) {
            Option::Some(i) => i,
            Option::None => {
                proof {
                    assert(false);
                }
                return Result::Err(GameError::PlayerNotFound);
            },
        };
        proof {
            lemma_player_idx(self.players@, pidx as int);
        }
        let must_play = self.rules[4].value == 1;
        let autoplay = self.rules[8].value == 1;
        let top = self.discard[self.discard.len() - 1];
        proof {
            assert(top == o.discard@.last());
        }
        if must_play {
            let mut i: usize = 0;
            let hand_len = self.players[pidx].hand.len();
            while i < hand_len
                invariant
                    i <= hand_len,
                    hand_len == self.players@[pidx as int].hand@.len(),
                    pidx < self.players@.len(),
                    *self == *old(self),
                    old(self).wf(),
                    old(self).started,
                    old(self).queue@.len() > 0,
                    old(self).rule_val(4) == 1,
                    pidx as int == player_idx(old(self).players@, old(self).queue@[0]),
                    top == old(self).discard@.last(),
                    forall|j: int|
                        0 <= j < i ==> !playable_from_hand(
                            #[trigger] self.players@[pidx as int].hand@[j],
                            top,
                        ),
                decreases hand_len - i,
            {
                let c = self.players[pidx].hand[i];
                let color_hit = match c.color {
                    Option::Some(cc) => match top.color {
                        Option::Some(t) => cc == t,
                        Option::None => false,
                    },
                    Option::None => false,
                };
                let ok = c.kind.is_wild() || top.kind.is_wild() || top.color.is_none() || c.kind
                    == top.kind || color_hit;
                proof {
                    assert(ok == playable_from_hand(c, top));
                }
                if ok {
                    proof {
                        assert(playable_from_hand(
                            old(self).players@[pidx as int].hand@[i as int],
                            top,
                        ));
                    }
                    return Result::Err(GameError::MustPlay);
                }
                i = i + 1;
            }
        }
        let dealt = match self.deal(cur, 1) {
            Result::Ok(c) => c,
            Result::Err(_) => {
                return Result::Err(GameError::DeckExhausted);
            },
        };
        let card = match dealt {
            Option::Some(c) => c,
            Option::None => {
                proof {
                    assert(false);
                }
                return Result::Err(GameError::DeckExhausted);
            },
        };
        let ghost mid2 = *self;
        proof {
            lemma_player_idx(self.players@, pidx as int);
            broadcast use vstd::multiset::group_multiset_axioms;

            if o.deck@.len() >= 1 {
                assert(card == o.deck@[0]);
                assert(o.deck@.take(1) =~= Seq::<Card>::empty().push(o.deck@[0]));
                vstd::seq_lib::to_multiset_build::<Card>(Seq::<Card>::empty(), o.deck@[0]);
                vstd::seq_lib::to_multiset_len::<Card>(Seq::<Card>::empty());
                vstd::multiset::lemma_multiset_empty_len::<Card>(
                    Seq::<Card>::empty().to_multiset(),
                );
                assert(o.deck@.take(1).to_multiset() =~= Multiset::<Card>::empty().insert(
                    o.deck@[0],
                ));
                assert(mid2.players@[pidx as int].hand@.to_multiset() =~= o.players@[
                    pidx as int
                ].hand@.to_multiset().insert(o.deck@[0]));
            }
        }
        let mut msg = String::from_str("You drew a ");
        let ctext = card.text();
        msg.append(ctext.as_str());
        if autoplay && !card.kind.is_wild() {
            let color_hit = match card.color {
                Option::Some(cc) => match top.color {
                    Option::Some(t) => cc == t,
                    Option::None => false,
                },
                Option::None => false,
            };
            let legal = top.kind.is_wild() || top.color.is_none() || card.kind == top.kind
                || color_hit;
            if legal {
                let mut hi: usize = 0;
                let mut found = false;
                let hand_len = self.players[pidx].hand.len();
                while hi < hand_len && !found
                    invariant
                        hi <= hand_len,
                        hand_len == self.players@[pidx as int].hand@.len(),
                        pidx < self.players@.len(),
                        found ==> hi < hand_len && self.players@[pidx as int].hand@[hi as int].kind
                            == card.kind && self.players@[pidx as int].hand@[hi as int].color
                            == card.color,
                        !found ==> forall|j: int|
                            0 <= j < hi ==> !((#[trigger] self.players@[pidx as int].hand@[j]).kind
                                == card.kind && self.players@[pidx as int].hand@[j].color
                                == card.color),
                        *self == mid2,
                        mid2.players@[pidx as int].hand@.contains(card),
                    decreases hand_len - hi, (if found { 0int } else { 1int }),
                {
                    let c = self.players[pidx].hand[hi];
                    if c.kind == card.kind && (match (c.color, card.color) {
                        (Option::Some(a), Option::Some(b)) => a == b,
                        (Option::None, Option::None) => true,
                        _ => false,
                    }) {
                        found = true;
                    } else {
                        hi = hi + 1;
                    }
                }
                proof {
                    if !found {
                        let w = choose|w: int|
                            0 <= w < mid2.players@[pidx as int].hand@.len() && mid2.players@[
                                pidx as int
                            ].hand@[w] == card;
                        assert(self.players@[pidx as int].hand@[w].kind == card.kind);
                        assert(false);
                    }
                }
                if found {
                    let chosen = match card.color {
                        Option::Some(c) => c,
                        Option::None => Color::Red,
                    };
                    let sub_r = self.play_resolved(hi, chosen);
                    match sub_r {
                        Result::Ok(m) => {
                            proof {
                                assert(player_idx(mid2.players@, cur) == pidx as int);
                                let hc = mid2.players@[pidx as int].hand@[hi as int];
                                assert(effective_card(hc, chosen) == hc);
                                assert(legal_play(hc, top));
                            }
                            msg.append("\n");
                            msg.append(m.as_str());
                            return Result::Ok(msg);
                        },
                        Result::Err(_) => {
                            // the drawn card's own draw effect could
                            // not be served from the piles: the play
                            // failed atomically, the card stays in
                            // hand and the turn simply passes
                            proof {
                                assert(*self == mid2);
                            }
                        },
                    }
                }
            }
        }
        let ghost pre_next = *self;
        match self.next() {
            Result::Ok(()) => {},
            Result::Err(_) => {
                proof {
                    assert(false);
                }
                return Result::Err(GameError::GameOver);
            },
        }
        proof {
            let pn = pre_next.players@;
            assert(self.queue@ == active_only(pn, rot(o.queue@)));
            assert forall|i: int|
                0 <= i < rot(o.queue@).len() implies #[trigger] active_pred(pn)(
                rot(o.queue@)[i],
            ) by {
                lemma_rot_members(o.queue@);
                let id = rot(o.queue@)[i];
                assert(o.queue@.contains(id));
                let u = choose|u: int| 0 <= u < o.queue@.len() && o.queue@[u] == id;
                assert(has_player(o.players@, id));
                let v = choose|v: int| 0 <= v < o.players@.len() && o.players@[v].id == id;
                assert(pn[v].id == id);
                lemma_player_idx(pn, v);
                assert(player_idx(pn, id) == v);
                assert(!o.players@[v].finished);
                assert(pn[v].finished == o.players@[v].finished);
            }
            lemma_filter_identity(rot(o.queue@), active_pred(pn));
            assert(self.queue@ == rot(o.queue@));
            lemma_rot_members(o.queue@);
            assert forall|i: int|
                0 <= i < self.queue@.len() implies has_player(
                self.players@,
                #[trigger] self.queue@[i],
            ) by {
                assert(o.queue@.contains(self.queue@[i]));
                let u = choose|u: int| 0 <= u < o.queue@.len() && o.queue@[u] == self.queue@[i];
                assert(has_player(o.players@, self.queue@[i]));
                let v = choose|v: int|
                    0 <= v < o.players@.len() && o.players@[v].id == self.queue@[i];
                assert(self.players@[v].id == self.queue@[i]);
            }
            assert forall|j: int|
                0 <= j < self.players@.len() implies ((#[trigger] self.players@[j]).finished
                <==> !self.queue@.contains(self.players@[j].id)) by {
                let id = self.players@[j].id;
                assert(self.players@[j].finished == o.players@[j].finished);
                assert(id == o.players@[j].id);
                if !self.players@[j].finished {
                    assert(o.queue@.contains(id));
                    let u = choose|u: int| 0 <= u < o.queue@.len() && o.queue@[u] == id;
                    assert(rot(o.queue@).contains(o.queue@[u]));
                } else {
                    if self.queue@.contains(id) {
                        let x = choose|x: int|
                            0 <= x < self.queue@.len() && self.queue@[x] == id;
                        assert(o.queue@.contains(rot(o.queue@)[x]));
                        let u = choose|u: int| 0 <= u < o.queue@.len() && o.queue@[u] == id;
                        assert(has_player(o.players@, id));
                        let v = choose|v: int|
                            0 <= v < o.players@.len() && o.players@[v].id == id;
                        assert(!o.players@[v].finished);
                        lemma_player_idx(o.players@, j);
                        lemma_player_idx(o.players@, v);
                        assert(v == j);
                        assert(false);
                    }
                }
            }
            assert forall|i: int|
                0 <= i < self.finished@.len() implies has_player(
                self.players@,
                #[trigger] self.finished@[i],
            ) || has_player(self.dropped@, self.finished@[i]) by {
                if has_player(o.players@, o.finished@[i]) {
                    let w = choose|w: int|
                        0 <= w < o.players@.len() && o.players@[w].id == o.finished@[i];
                    assert(self.players@[w].id == o.finished@[i]);
                }
            }
        }
        msg.append(".");
        proof {
            if o.deck@.len() >= 1 {
                assert(msg@ =~= "You drew a "@ + spec_card_text(o.deck@[0]) + "."@);
            }
        }
        Result::Ok(msg)
    }

    /// The player whose turn it is, while the match runs.
    pub fn get_curr_player(&self) -> (r: Option<&Player>)
        ensures
            (match r {
                Option::Some(p) => self.queue@.len() > 0 && p.id == self.queue@[0]
                    && has_player(self.players@, self.queue@[0]),
                Option::None => self.queue@.len() == 0 || !has_player(
                    self.players@,
                    self.queue@[0],
                ),
            }),
    {
        if self.queue.len() == 0 {
            return Option::None;
        }
        let cur = self.queue[0];
        match self.find_player(cur) {
            Option::Some(i) => Option::Some(&self.players[i]),
            Option::None => Option::None,
        }
    }

    /// The discard top: the card that constrains the next play.
    pub fn get_curr_card(&self) -> (r: Option<&Card>)
        ensures
            (match r {
                Option::Some(c) => self.discard@.len() > 0 && *c == self.discard@.last(),
                Option::None => self.discard@.len() == 0,
            }),
    {
        if self.discard.len() == 0 {
            return Option::None;
        }
        Option::Some(&self.discard[self.discard.len() - 1])
    }

    /// The turn order, head first.
    pub fn turn_order(&self) -> (r: Vec<u64>)
        ensures
            r@ == self.queue@,
    {
        let mut out: Vec<u64> = Vec::new();
        let mut i: usize = 0;
        while i < self.queue.len()
            invariant
                i <= self.queue@.len(),
                out@ == self.queue@.take(i as int),
            decreases self.queue@.len() - i,
        {
            out.push(self.queue[i]);
            proof {
                assert(out@ =~= self.queue@.take(i + 1));
            }
            i = i + 1;
        }
        proof {
            assert(self.queue@.take(self.queue@.len() as int) =~= self.queue@);
        }
        out
    }

    /// Appends one line to the named player's outgoing queue; the only
    /// way the engine hands text to the messaging layer.
    pub fn notify_player(&mut self, id: u64, msg: &str) -> (r: Result<String, GameError>)
        requires
            old(self).wf(),
        ensures
            final(self).wf(),
            has_player(old(self).players@, id) <==> r is Ok,
            r is Err ==> r == Result::<String, GameError>::Err(GameError::PlayerNotFound)
                && *final(self) == *old(self),
            r is Ok ==> {
                let pidx = player_idx(old(self).players@, id);
                &&& (match r {
                    Result::Ok(m) => m@ == msg@,
                    _ => false,
                })
                &&& final(self).players@.len() == old(self).players@.len()
                &&& (forall|j: int|
                    0 <= j < old(self).players@.len() && j != pidx ==> final(self).players@[j]
                        == old(self).players@[j])
                &&& final(self).players@[pidx].messages@.len() == old(
                    self,
                ).players@[pidx].messages@.len() + 1
                &&& final(self).players@[pidx].messages@.last()@ == msg@
                &&& final(self).players@[pidx].messages@.drop_last() == old(
                    self,
                ).players@[pidx].messages@
                &&& final(self).players@[pidx] == (Player {
                    messages: final(self).players@[pidx].messages,
                    ..old(self).players@[pidx]
                })
                &&& *final(self) == (UnoGame { players: final(self).players, ..*old(self) })
            },
    {
        let pidx = match self.find_player(id) {
            Option::Some(i) => i,
            Option::None => {
                return Result::Err(GameError::PlayerNotFound);
            },
        };
        proof {
            lemma_player_idx(self.players@, pidx as int);
        }
        self.players[pidx].messages.push(String::from_str(msg));
        proof {
            assert forall|a: int, b: int|
                0 <= a < b < self.players@.len() implies (#[trigger] self.players@[a]).id != (
            #[trigger] self.players@[b]).id by {
                assert(self.players@[a].id == old(self).players@[a].id);
                assert(self.players@[b].id == old(self).players@[b].id);
            }
            assert forall|j: int|
                0 <= j < self.players@.len() implies (#[trigger] self.players@[j]).hand_wf() by {
                if j != pidx {
                    assert(self.players@[j] == old(self).players@[j]);
                }
            }
            assert forall|j: int|
                0 <= j < self.players@.len() implies (#[trigger] self.players@[j]).id
                < self.next_id by {
                assert(self.players@[j].id == old(self).players@[j].id);
            }
            assert forall|i: int|
                0 <= i < self.queue@.len() implies has_player(
                self.players@,
                #[trigger] self.queue@[i],
            ) by {
                assert(has_player(old(self).players@, self.queue@[i]));
                let w = choose|w: int|
                    0 <= w < old(self).players@.len() && old(self).players@[w].id
                        == self.queue@[i];
                assert(self.players@[w].id == self.queue@[i]);
            }
            if self.started {
                assert forall|j: int|
                    0 <= j < self.players@.len() implies ((#[trigger] self.players@[j]).finished
                    <==> !self.queue@.contains(self.players@[j].id)) by {
                    assert(self.players@[j].finished == old(self).players@[j].finished);
                    assert(self.players@[j].id == old(self).players@[j].id);
                }
            } else {
                assert forall|j: int|
                    0 <= j < self.players@.len() implies !(#[trigger] self.players@[j]).finished
                    && (#[trigger] self.players@[j]).hand@.len() == old(
                    self,
                ).players@[j].hand@.len() by {
                    assert(self.players@[j].finished == old(self).players@[j].finished);
                }
            }
            assert forall|i: int|
                0 <= i < self.finished@.len() implies has_player(
                self.players@,
                #[trigger] self.finished@[i],
            ) || has_player(self.dropped@, self.finished@[i]) by {
                if has_player(old(self).players@, self.finished@[i]) {
                    let w = choose|w: int|
                        0 <= w < old(self).players@.len() && old(self).players@[w].id
                            == self.finished@[i];
                    assert(self.players@[w].id == self.finished@[i]);
                }
            }
        }
        Result::Ok(String::from_str(msg))
    }

    /// Declares UNO for the named active player. Only a hand of
    /// exactly one card qualifies; declaring twice changes nothing.
    pub fn uno(&mut self, call_player_id: u64) -> (r: Result<String, GameError>)
        requires
            old(self).wf(),
        ensures
            final(self).wf(),
            !old(self).queue@.contains(call_player_id) <==> r == Result::<String, GameError>::Err(
                GameError::PlayerNotFound,
            ),
            old(self).queue@.contains(call_player_id) ==> {
                let pidx = player_idx(old(self).players@, call_player_id);
                let p = old(self).players@[pidx];
                &&& (p.hand@.len() != 1 ==> r == Result::<String, GameError>::Err(
                    GameError::TooManyCards,
                ) && *final(self) == *old(self))
                &&& (p.hand@.len() == 1 && p.called ==> (match r {
                    Result::Ok(m) => m@ == "You already said UNO!"@,
                    _ => false,
                }) && *final(self) == *old(self))
                &&& (p.hand@.len() == 1 && !p.called ==> (match r {
                    Result::Ok(m) => m@ == "UNO!"@,
                    _ => false,
                }) && final(self).players@.len()
                    == old(self).players@.len() && final(self).players@[pidx] == (Player {
                    called: true,
                    ..p
                }) && (forall|j: int|
                    0 <= j < old(self).players@.len() && j != pidx ==> final(self).players@[j]
                        == old(self).players@[j]) && *final(self) == (UnoGame {
                    players: final(self).players,
                    ..*old(self)
                }))
            },
            r is Err ==> *final(self) == *old(self),
    {
        let mut in_queue = false;
        let mut i: usize = 0;
        while i < self.queue.len()
            invariant
                i <= self.queue@.len(),
                in_queue == self.queue@.take(i as int).contains(call_player_id),
            decreases self.queue@.len() - i,
        {
            if self.queue[i] == call_player_id {
                in_queue = true;
            }
            proof {
                assert(self.queue@.take(i + 1) =~= self.queue@.take(i as int).push(
                    self.queue@[i as int],
                ));
                if self.queue@[i as int] != call_player_id {
                    assert(self.queue@.take(i + 1).contains(call_player_id)
                        == self.queue@.take(i as int).contains(call_player_id));
                } else {
                    assert(self.queue@.take(i + 1)[i as int] == call_player_id);
                }
            }
            i = i + 1;
        }
        proof {
            assert(self.queue@.take(self.queue@.len() as int) =~= self.queue@);
        }
        if !in_queue {
            return Result::Err(GameError::PlayerNotFound);
        }
        let pidx = match self.find_player(call_player_id) {
            Option::Some(i) => i,
            Option::None => {
                proof {
                    let w = choose|w: int|
                        0 <= w < self.queue@.len() && self.queue@[w] == call_player_id;
                    assert(has_player(self.players@, self.queue@[w]));
                    assert(false);
                }
                return Result::Err(GameError::PlayerNotFound);
            },
        };
        proof {
            lemma_player_idx(self.players@, pidx as int);
        }
        if self.players[pidx].hand.len() != 1 {
            return Result::Err(GameError::TooManyCards);
        }
        if self.players[pidx].called {
            return Result::Ok(String::from_str("You already said UNO!"));
        }
        self.players[pidx].called = true;
        proof {
            assert forall|a: int, b: int|
                0 <= a < b < self.players@.len() implies (#[trigger] self.players@[a]).id != (
            #[trigger] self.players@[b]).id by {
                assert(self.players@[a].id == old(self).players@[a].id);
                assert(self.players@[b].id == old(self).players@[b].id);
            }
            assert forall|j: int|
                0 <= j < self.players@.len() implies (#[trigger] self.players@[j]).hand_wf()
                && (#[trigger] self.players@[j]).id < self.next_id by {
                if j != pidx {
                    assert(self.players@[j] == old(self).players@[j]);
                }
                assert(self.players@[j].id == old(self).players@[j].id);
            }
            assert forall|i2: int|
                0 <= i2 < self.queue@.len() implies has_player(
                self.players@,
                #[trigger] self.queue@[i2],
            ) by {
                assert(has_player(old(self).players@, self.queue@[i2]));
                let w = choose|w: int|
                    0 <= w < old(self).players@.len() && old(self).players@[w].id
                        == self.queue@[i2];
                assert(self.players@[w].id == self.queue@[i2]);
            }
            if self.started {
                assert forall|j: int|
                    0 <= j < self.players@.len() implies ((#[trigger] self.players@[j]).finished
                    <==> !self.queue@.contains(self.players@[j].id)) by {
                    assert(self.players@[j].finished == old(self).players@[j].finished);
                    assert(self.players@[j].id == old(self).players@[j].id);
                }
            } else {
                assert forall|j: int|
                    0 <= j < self.players@.len() implies !(#[trigger] self.players@[j]).finished
                    && (#[trigger] self.players@[j]).hand@.len() == old(
                    self,
                ).players@[j].hand@.len() by {
                    assert(self.players@[j].finished == old(self).players@[j].finished);
                }
            }
            assert forall|i2: int|
                0 <= i2 < self.finished@.len() implies has_player(
                self.players@,
                #[trigger] self.finished@[i2],
            ) || has_player(self.dropped@, self.finished@[i2]) by {
                if has_player(old(self).players@, self.finished@[i2]) {
                    let w = choose|w: int|
                        0 <= w < old(self).players@.len() && old(self).players@[w].id
                            == self.finished@[i2];
                    assert(self.players@[w].id == self.finished@[i2]);
                }
            }
        }
        Result::Ok(String::from_str("UNO!"))
    }

    /// Drops a player from the match: their record moves to the
    /// dropped roster and the turn order closes over them.
    pub fn remove_player(&mut self, player_id: u64) -> (r: Result<(), GameError>)
        requires
            old(self).wf(),
        ensures
            final(self).wf(),
            has_player(old(self).players@, player_id) <==> r is Ok,
            r is Err ==> r == Result::<(), GameError>::Err(GameError::PlayerNotFound)
                && *final(self) == *old(self),
            r is Ok ==> {
                let pidx = player_idx(old(self).players@, player_id);
                &&& final(self).players@ == old(self).players@.remove(pidx)
                &&& final(self).queue@ == old(self).queue@.filter(ne_pred(player_id))
                &&& final(self).dropped@ == old(self).dropped@.push(old(self).players@[pidx])
                &&& *final(self) == (UnoGame {
                    players: final(self).players,
                    queue: final(self).queue,
                    dropped: final(self).dropped,
                    ..*old(self)
                })
            },
    {
        let pidx = match self.find_player(player_id) {
            Option::Some(i) => i,
            Option::None => {
                return Result::Err(GameError::PlayerNotFound);
            },
        };
        proof {
            lemma_player_idx(self.players@, pidx as int);
        }
        let removed = self.players.remove(pidx);
        let ghost q0 = self.queue@;
        let ghost pred = ne_pred(player_id);
        let mut kept: Vec<u64> = Vec::new();
        let mut i: usize = 0;
        proof {
            reveal(Seq::filter);
            assert(q0.take(0) =~= Seq::<u64>::empty());
            assert(Seq::<u64>::empty().filter(pred) =~= Seq::<u64>::empty());
        }
        while i < self.queue.len()
            invariant
                i <= self.queue@.len(),
                self.queue@ == q0,
                pred == ne_pred(player_id),
                kept@ == q0.take(i as int).filter(pred),
            decreases self.queue@.len() - i,
        {
            let id = self.queue[i];
            if id != player_id {
                kept.push(id);
            }
            proof {
                reveal(Seq::filter);
                let single = seq![q0[i as int]];
                assert(q0.take(i + 1) =~= q0.take(i as int) + single);
                Seq::<u64>::filter_distributes_over_add(q0.take(i as int), single, pred);
                assert(single.drop_last() =~= Seq::<u64>::empty());
                assert(Seq::<u64>::empty().filter(pred) =~= Seq::<u64>::empty());
                if pred(q0[i as int]) {
                    assert(single.filter(pred) =~= single);
                    assert(kept@ =~= q0.take(i + 1).filter(pred));
                } else {
                    assert(single.filter(pred) =~= Seq::<u64>::empty());
                    assert(kept@ =~= q0.take(i + 1).filter(pred));
                }
            }
            i = i + 1;
        }
        proof {
            assert(q0.take(q0.len() as int) =~= q0);
        }
        self.queue = kept;
        self.dropped.push(removed);
        proof {
            let op = old(self).players@;
            let np = self.players@;
            assert(np == op.remove(pidx as int));
            assert forall|j: int|
                0 <= j < np.len() implies #[trigger] np[j] == (if j < pidx {
                op[j]
            } else {
                op[j + 1]
            }) by {}
            assert forall|a: int, b: int|
                0 <= a < b < np.len() implies (#[trigger] np[a]).id != (#[trigger] np[b]).id by {}
            assert forall|j: int|
                0 <= j < np.len() implies (#[trigger] np[j]).hand_wf() && (#[trigger] np[j]).id
                < self.next_id by {}
            lemma_filter_members(q0, pred);
            lemma_filter_distinct(q0, pred);
            assert forall|i2: int|
                0 <= i2 < self.queue@.len() implies has_player(np, #[trigger] self.queue@[i2]) by {
                assert(q0.filter(pred)[i2] == self.queue@[i2]);
                assert(q0.contains(self.queue@[i2]) && pred(self.queue@[i2]));
                let w = choose|w: int| 0 <= w < q0.len() && q0[w] == self.queue@[i2];
                assert(has_player(op, q0[w]));
                let v = choose|v: int| 0 <= v < op.len() && op[v].id == q0[w];
                assert(self.queue@[i2] != player_id);
                assert(op[v].id != op[pidx as int].id);
                assert(v != pidx);
                if v < pidx {
                    assert(np[v] == op[v]);
                } else {
                    assert(np[v - 1] == op[v]);
                }
            }
            if self.started {
                assert forall|j: int|
                    0 <= j < np.len() implies ((#[trigger] np[j]).finished <==> !self.queue@.contains(
                    np[j].id,
                )) by {
                    let jj = if j < pidx { j } else { j + 1 };
                    assert(np[j] == op[jj]);
                    assert(np[j].id != player_id);
                    if !np[j].finished {
                        assert(q0.contains(np[j].id));
                        let w = choose|w: int| 0 <= w < q0.len() && q0[w] == np[j].id;
                        assert(pred(q0[w]));
                        assert(q0.filter(pred).contains(np[j].id));
                    } else {
                        if self.queue@.contains(np[j].id) {
                            let x = choose|x: int|
                                0 <= x < self.queue@.len() && self.queue@[x] == np[j].id;
                            assert(q0.filter(pred)[x] == np[j].id);
                            assert(q0.contains(np[j].id));
                            assert(false);
                        }
                    }
                }
            }
            assert forall|i2: int|
                0 <= i2 < self.finished@.len() implies has_player(
                np,
                #[trigger] self.finished@[i2],
            ) || has_player(self.dropped@, self.finished@[i2]) by {
                let fid = self.finished@[i2];
                if has_player(op, fid) {
                    let v = choose|v: int| 0 <= v < op.len() && op[v].id == fid;
                    if v == pidx {
                        assert(self.dropped@.last() == op[pidx as int]);
                        assert(self.dropped@[self.dropped@.len() - 1].id == fid);
                    } else if v < pidx {
                        assert(np[v] == op[v]);
                    } else {
                        assert(np[v - 1] == op[v]);
                    }
                } else {
                    assert(has_player(old(self).dropped@, fid));
                    let v = choose|v: int|
                        0 <= v < old(self).dropped@.len() && old(self).dropped@[v].id == fid;
                    assert(self.dropped@[v].id == fid);
                }
            }
        }
        Result::Ok(())
    }

    /// Checks every active player for an undeclared last card. With
    /// `Callouts` off it always fails with `CalloutsDisabled`,
    /// whatever the hands hold; one callout is allowed per turn. Every
    /// player caught picks up `Callout Penalty` cards and is named in
    /// the result; when nobody is caught, the caller picks up `False
    /// Callout Penalty` cards instead. The whole callout is refused
    /// atomically with `DeckExhausted` when the piles cannot serve the
    /// penalties.
    #[verifier::rlimit(100)]
    #[verifier::spinoff_prover]
    pub fn callout(&mut self, call_player_id: u64) -> (r: Result<String, GameError>)
        requires
            old(self).wf(),
        ensures
            final(self).wf(),
            old(self).rule_val(5) == 0 <==> r == Result::<String, GameError>::Err(
                GameError::CalloutsDisabled,
            ),
            old(self).rule_val(5) != 0 && old(self).called_out <==> r == Result::<
                String,
                GameError,
            >::Err(GameError::DuplicateCallout),
            old(self).rule_val(5) != 0 && !old(self).called_out && (!old(self).started || old(
                self,
            ).queue@.len() == 0) <==> r == Result::<String, GameError>::Err(GameError::GameOver),
            (r is Err && r != Result::<String, GameError>::Err(GameError::DeckExhausted))
                ==> *final(self) == *old(self),
            old(self).rule_val(5) != 0 && !old(self).called_out && old(self).started && old(
                self,
            ).queue@.len() > 0 ==> {
                let targets = old(self).queue@.filter(target_pred(old(self).players@));
                &&& (targets.len() == 0 && !has_player(old(self).players@, call_player_id) <==> r
                    == Result::<String, GameError>::Err(GameError::PlayerNotFound))
                &&& (targets.len() > 0 ==> (r is Err <==> targets.len() * old(self).rule_val(6)
                    > old(self).spec_available()) && (r is Err ==> r == Result::<
                    String,
                    GameError,
                >::Err(GameError::DeckExhausted) && *final(self) == *old(self)))
                &&& (targets.len() == 0 && has_player(old(self).players@, call_player_id) ==> (
                r is Err <==> old(self).rule_val(7) > old(self).spec_available()) && (r is Err
                    ==> r == Result::<String, GameError>::Err(GameError::DeckExhausted)
                    && *final(self) == *old(self)))
                &&& (r is Ok && targets.len() > 0 ==> (match r {
                    Result::Ok(m) => m@ == spec_callout_lines(
                        *old(self),
                        targets,
                        old(self).rule_val(6) as int,
                        0,
                    ),
                    _ => false,
                }))
                &&& (r is Ok && targets.len() == 0 ==> (match r {
                    Result::Ok(m) => m@ == "There was no one to call out! Pick up "@ + dec_str(
                        old(self).rule_val(7) as nat,
                    ),
                    _ => false,
                }))
                &&& (r is Ok ==> {
                    &&& final(self).called_out
                    &&& final(self).queue@ == old(self).queue@
                    &&& final(self).finished@ == old(self).finished@
                    &&& final(self).rules@ == old(self).rules@
                    &&& final(self).started
                    &&& final(self).players@.len() == old(self).players@.len()
                    &&& (forall|k: int|
                        0 <= k < targets.len() ==> final(self).players@[player_idx(
                            old(self).players@,
                            #[trigger] targets[k],
                        )].hand@.len() == 1 + old(self).rule_val(6))
                    &&& (targets.len() == 0 ==> final(self).players@[player_idx(
                        old(self).players@,
                        call_player_id,
                    )].hand@.len() == old(self).players@[player_idx(
                        old(self).players@,
                        call_player_id,
                    )].hand@.len() + old(self).rule_val(7))
                    &&& (targets.len() > 0 ==> forall|j: int|
                        0 <= j < old(self).players@.len() && !targets.contains(
                            old(self).players@[j].id,
                        ) ==> final(self).players@[j] == old(self).players@[j])
                    &&& (targets.len() == 0 ==> forall|j: int|
                        0 <= j < old(self).players@.len() && j != player_idx(
                            old(self).players@,
                            call_player_id,
                        ) ==> final(self).players@[j] == old(self).players@[j])
                })
            },
    {
        proof {
            assert(old(self).rules@[5].wf(5));
            assert(old(self).rules@[6].wf(6));
            assert(old(self).rules@[7].wf(7));
        }
        if self.rules[5].value == 0 {
            return Result::Err(GameError::CalloutsDisabled);
        }
        if self.called_out {
            return Result::Err(GameError::DuplicateCallout);
        }
        if !self.started || self.queue.len() == 0 {
            return Result::Err(GameError::GameOver);
        }
        let penalty = self.rules[6].value as usize;
        let fp = self.rules[7].value as usize;
        let ghost q0 = self.queue@;
        let ghost op = self.players@;
        let ghost tpred = target_pred(op);
        let mut calls: Vec<u64> = Vec::new();
        let mut names: Vec<String> = Vec::new();
        let mut i: usize = 0;
        proof {
            reveal(Seq::filter);
            assert(q0.take(0) =~= Seq::<u64>::empty());
            assert(Seq::<u64>::empty().filter(tpred) =~= Seq::<u64>::empty());
        }
        while i < self.queue.len()
            invariant
                i <= self.queue@.len(),
                self.queue@ == q0,
                self.players@ == op,
                *self == *old(self),
                old(self).wf(),
                tpred == target_pred(op),
                calls@ == q0.take(i as int).filter(tpred),
                names@.len() == calls@.len(),
                forall|t: int|
                    0 <= t < names@.len() ==> (#[trigger] names@[t])@ == op[player_idx(
                        op,
                        calls@[t],
                    )].username@,
            decreases self.queue@.len() - i,
        {
            let id = self.queue[i];
            let hit: bool;
            let mut hit_name = String::new();
            match self.find_player(id) {
                Option::Some(pi) => {
                    proof {
                        lemma_player_idx(op, pi as int);
                    }
                    hit = self.players[pi].hand.len() == 1 && !self.players[pi].called;
                    if hit {
                        hit_name = self.players[pi].username.clone();
                    }
                },
                Option::None => {
                    proof {
                        assert(has_player(op, q0[i as int]));
                        assert(false);
                    }
                    hit = false;
                },
            }
            proof {
                assert(hit == tpred(q0[i as int]));
            }
            if hit {
                calls.push(id);
                names.push(hit_name);
            }
            proof {
                reveal(Seq::filter);
                let single = seq![q0[i as int]];
                assert(q0.take(i + 1) =~= q0.take(i as int) + single);
                Seq::<u64>::filter_distributes_over_add(q0.take(i as int), single, tpred);
                assert(single.drop_last() =~= Seq::<u64>::empty());
                assert(Seq::<u64>::empty().filter(tpred) =~= Seq::<u64>::empty());
                if tpred(q0[i as int]) {
                    assert(single.filter(tpred) =~= single);
                    assert(calls@ =~= q0.take(i + 1).filter(tpred));
                } else {
                    assert(single.filter(tpred) =~= Seq::<u64>::empty());
                    assert(calls@ =~= q0.take(i + 1).filter(tpred));
                }
            }
            i = i + 1;
        }
        proof {
            assert(q0.take(q0.len() as int) =~= q0);
            lemma_filter_members(q0, tpred);
            lemma_filter_distinct(q0, tpred);
        }
        let ghost targets = q0.filter(tpred);
        if calls.len() > 0 {
            // Refuse up front, atomically, when the penalties exceed
            // what both piles can deal.
            proof {
                assert((calls@.len() as int) * (penalty as int) < 0x100000000000000000000 as int)
                    by (nonlinear_arith)
                    requires
                        calls@.len() <= 0xFFFFFFFFFFFFFFFF as int,
                        0 <= penalty <= 1000,
                ;
            }
            let extra = if self.discard.len() >= 2 {
                self.discard.len() - 1
            } else {
                0
            };
            let need: u128 = (calls.len() as u128) * (penalty as u128);
            if need > (self.deck.len() as u128) + (extra as u128) {
                return Result::Err(GameError::DeckExhausted);
            }
            proof {
                assert((calls@.len() as int) * (penalty as int) <= old(self).spec_available());
            }
        }
        let mut k: usize = 0;
        while k < calls.len()
            invariant
                k <= calls@.len(),
                calls@ == targets,
                targets == old(self).queue@.filter(target_pred(old(self).players@)),
                old(self).wf(),
                old(self).started,
                old(self).rule_val(5) != 0,
                !old(self).called_out,
                old(self).queue@.len() > 0,
                penalty == old(self).rule_val(6),
                forall|t: int, u: int| 0 <= t < u < targets.len() ==> targets[t] != targets[u],
                forall|t: int|
                    0 <= t < targets.len() ==> callout_target(
                        old(self).players@,
                        #[trigger] targets[t],
                    ),
                self.players@.len() == old(self).players@.len(),
                forall|j: int|
                    0 <= j < self.players@.len() ==> (#[trigger] self.players@[j]).id == old(
                        self,
                    ).players@[j].id && (#[trigger] self.players@[j]).finished == old(
                        self,
                    ).players@[j].finished,
                self.players_wf(),
                self.piles_wf(),
                self.discard@.len() >= 1,
                forall|t: int|
                    0 <= t < k ==> self.players@[player_idx(
                        old(self).players@,
                        #[trigger] targets[t],
                    )].hand@.len() == 1 + penalty,
                forall|j: int|
                    0 <= j < self.players@.len() && !targets.take(k as int).contains(
                        old(self).players@[j].id,
                    ) ==> #[trigger] self.players@[j] == old(self).players@[j],
                k == 0 ==> *self == *old(self),
                self.spec_available() == old(self).spec_available() - k * penalty,
                (targets.len() as int) * (penalty as int) <= old(self).spec_available(),
                *self == (UnoGame {
                    players: self.players,
                    deck: self.deck,
                    discard: self.discard,
                    drawn: self.drawn,
                    ..*old(self)
                }),
            decreases calls@.len() - k,
        {
            let id = calls[k];
            proof {
                assert(callout_target(old(self).players@, targets[k as int]));
                assert(has_player(old(self).players@, id));
                let v = choose|v: int|
                    0 <= v < old(self).players@.len() && old(self).players@[v].id == id;
                lemma_player_idx(old(self).players@, v);
                assert(player_idx(old(self).players@, id) == v);
                assert(self.players@[v].id == id);
                assert(has_player(self.players@, id));
                lemma_player_idx(self.players@, v);
                assert(player_idx(self.players@, id) == v);
                assert(!targets.take(k as int).contains(id));
                assert(self.players@[v] == old(self).players@[v]);
                assert(self.players@[v].hand@.len() == 1);
                assert((k + 1) * penalty == k * penalty + penalty && (k + 1) * penalty <= (
                targets.len() as int) * (penalty as int)) by (nonlinear_arith)
                    requires
                        0 <= k,
                        k + 1 <= targets.len(),
                        0 <= penalty,
                ;
                assert(penalty <= self.spec_available());
            }
            let ghost pre = *self;
            match self.deal(id, penalty) {
                Result::Ok(_) => {},
                Result::Err(_) => {
                    proof {
                        assert(false);
                    }
                    return Result::Err(GameError::DeckExhausted);
                },
            }
            proof {
                let v = player_idx(pre.players@, id);
                assert(player_idx(old(self).players@, id) == v);
                assert(targets.take(k + 1) =~= targets.take(k as int).push(targets[k as int]));
                assert(targets.take(k + 1)[k as int] == id);
                assert(targets.take(k + 1).contains(id));
                assert forall|j: int|
                    0 <= j < self.players@.len() && !targets.take(k + 1).contains(
                        old(self).players@[j].id,
                    ) implies #[trigger] self.players@[j] == old(self).players@[j] by {
                    assert(old(self).players@[j].id != id);
                    assert(j != v);
                    assert(self.players@[j] == pre.players@[j]);
                }
                assert forall|t: int|
                    0 <= t < k + 1 implies self.players@[player_idx(
                    old(self).players@,
                    #[trigger] targets[t],
                )].hand@.len() == 1 + penalty by {
                    if t < k {
                        let w = player_idx(old(self).players@, targets[t]);
                        assert(callout_target(old(self).players@, targets[t]));
                        assert(old(self).players@[w].id == targets[t]);
                        assert(targets[t] != id);
                        assert(w != v);
                        assert(self.players@[w] == pre.players@[w]);
                    }
                }
            }
            k = k + 1;
        }
        proof {
            assert(targets.take(targets.len() as int) =~= targets);
        }
        if calls.len() == 0 {
            let caller = match self.find_player(call_player_id) {
                Option::Some(ci) => ci,
                Option::None => {
                    return Result::Err(GameError::PlayerNotFound);
                },
            };
            proof {
                lemma_player_idx(self.players@, caller as int);
            }
            match self.deal(call_player_id, fp) {
                Result::Ok(_) => {},
                Result::Err(_) => {
                    proof {
                        callout_wf_glue(*old(self), *self);
                    }
                    return Result::Err(GameError::DeckExhausted);
                },
            }
            self.called_out = true;
            let mut msg = String::from_str("There was no one to call out! Pick up ");
            push_u64(&mut msg, fp as u64);
            proof {
                callout_wf_glue(*old(self), *self);
            }
            return Result::Ok(msg);
        }
        self.called_out = true;
        let mut msg = String::new();
        let mut t: usize = 0;
        proof {
            assert(Seq::<char>::empty() + spec_callout_lines(
                *old(self),
                targets,
                penalty as int,
                0,
            ) =~= spec_callout_lines(*old(self), targets, penalty as int, 0));
        }
        while t < names.len()
            invariant
                t <= names@.len(),
                names@.len() == targets.len(),
                penalty <= 1000,
                forall|tt: int|
                    0 <= tt < names@.len() ==> (#[trigger] names@[tt])@ == old(self).players@[
                        player_idx(old(self).players@, targets[tt])
                    ].username@,
                msg@ + spec_callout_lines(*old(self), targets, penalty as int, t as int)
                    == spec_callout_lines(*old(self), targets, penalty as int, 0),
            decreases names@.len() - t,
        {
            msg.append(names[t].as_str());
            msg.append(" you did not say UNO! Pick up ");
            push_u64(&mut msg, penalty as u64);
            msg.append("\n");
            proof {
                assert(msg@ + spec_callout_lines(*old(self), targets, penalty as int, t + 1)
                    =~= spec_callout_lines(*old(self), targets, penalty as int, 0));
            }
            t = t + 1;
        }
        proof {
            callout_wf_glue(*old(self), *self);
        }
        Result::Ok(msg)
    }

    /// The display name of a registered or dropped player; empty when
    /// the id is unknown.
    pub fn player_name(&self, id: u64) -> (r: String)
        ensures
            r@ == spec_player_name(*self, id),
    {
        match name_in(&self.players, id) {
            Option::Some(n) => n,
            Option::None => match name_in(&self.dropped, id) {
                Option::Some(n) => n,
                Option::None => String::new(),
            },
        }
    }

    /// The finishing ranks followed by the match statistics, computed
    /// against the given clock reading (seconds since the epoch).
    pub fn scoreboard_at(&self, now_secs: u64) -> (r: String)
        ensures
            r@ == spec_scoreboard(*self, now_secs),
    {
        let mut msg = String::new();
        let mut i: usize = 0;
        proof {
            assert(Seq::<char>::empty() + spec_ranks(*self, 0) =~= spec_ranks(*self, 0));
        }
        while i < self.finished.len()
            invariant
                i <= self.finished@.len(),
                msg@ + spec_ranks(*self, i as int) == spec_ranks(*self, 0),
            decreases self.finished@.len() - i,
        {
            push_u64(&mut msg, (i as u64) + 1);
            msg.append(". *");
            let nm = self.player_name(self.finished[i]);
            msg.append(nm.as_str());
            msg.append("*");
            proof {
                assert(msg@ + spec_ranks(*self, i + 1) =~= spec_ranks(*self, 0));
            }
            i = i + 1;
        }
        proof {
            assert(msg@ =~= spec_ranks(*self, 0));
        }
        msg.append("\nThis game lasted ");
        let mins = if now_secs / 60 >= self.time_started {
            now_secs / 60 - self.time_started
        } else {
            0
        };
        push_u64(&mut msg, mins);
        msg.append(" minutes and ");
        push_u64(&mut msg, self.drawn);
        msg.append(" cards were drawn");
        proof {
            assert(msg@ =~= spec_scoreboard(*self, now_secs));
        }
        msg
    }

    /// The finishing ranks and statistics against the wall clock.
    pub fn scoreboard(&self) -> (r: String)
        ensures
            exists|t: u64| r@ == spec_scoreboard(*self, t),
    {
        let now = now_epoch_secs();
        let r = self.scoreboard_at(now);
        proof {
            assert(r@ == spec_scoreboard(*self, now));
        }
        r
    }

    /// The table as text, against the given clock reading: the discard
    /// top, whose turn it is, every active player's hand size, and the
    /// match statistics. Empty before the match starts or after it
    /// ends.
    pub fn table_at(&self, now_secs: u64) -> (r: String)
        requires
            self.wf(),
        ensures
            r@ == spec_table(*self, now_secs),
    {
        if self.queue.len() == 0 || self.discard.len() == 0 {
            return String::new();
        }
        let mut msg = String::from_str("A ");
        let top = self.discard[self.discard.len() - 1];
        proof {
            assert(top == self.discard@.last());
        }
        let tt = top.text();
        msg.append(tt.as_str());
        msg.append(" has been played!\nIt is currently ");
        let nm = self.player_name(self.queue[0]);
        msg.append(nm.as_str());
        msg.append("'s turn!\n\n");
        let ghost head = msg@;
        let mut i: usize = 0;
        proof {
            assert(head + spec_table_rows(*self, 0) =~= head + spec_table_rows(*self, 0));
        }
        while i < self.queue.len()
            invariant
                i <= self.queue@.len(),
                self.wf(),
                msg@ + spec_table_rows(*self, i as int) == head + spec_table_rows(*self, 0),
            decreases self.queue@.len() - i,
        {
            push_u64(&mut msg, (i as u64) + 1);
            msg.append(". ");
            let id = self.queue[i];
            let nm2 = self.player_name(id);
            msg.append(nm2.as_str());
            msg.append(" - ");
            let hl: u64;
            match self.find_player(id) {
                Option::Some(pi) => {
                    proof {
                        lemma_player_idx(self.players@, pi as int);
                    }
                    hl = self.players[pi].hand.len() as u64;
                },
                Option::None => {
                    proof {
                        assert(has_player(self.players@, self.queue@[i as int]));
                        assert(false);
                    }
                    hl = 0;
                },
            }
            push_u64(&mut msg, hl);
            msg.append(" cards\n");
            proof {
                assert(msg@ + spec_table_rows(*self, i + 1) =~= head + spec_table_rows(*self, 0));
            }
            i = i + 1;
        }
        msg.append("This game has lasted ");
        let mins = if now_secs / 60 >= self.time_started {
            now_secs / 60 - self.time_started
        } else {
            0
        };
        push_u64(&mut msg, mins);
        msg.append(" minutes and ");
        push_u64(&mut msg, self.drawn);
        msg.append(" cards have been drawn");
        proof {
            assert(msg@ =~= spec_table(*self, now_secs));
        }
        msg
    }

    /// The table as text against the wall clock.
    pub fn table(&self) -> (r: String)
        requires
            self.wf(),
        ensures
            exists|t: u64| r@ == spec_table(*self, t),
    {
        let now = now_epoch_secs();
        let r = self.table_at(now);
        proof {
            assert(r@ == spec_table(*self, now));
        }
        r
    }

    /// One rule written out: name, type, value and description. The
    /// empty string when no rule bears the name.
    pub fn show_rule(&self, rule: &str) -> (r: String)
        requires
            self.wf(),
        ensures
            (match spec_find_rule(self.rules@, rule@) {
                Option::Some(i) => r@ == spec_show_rule(self.rules@[i]),
                Option::None => r@ == Seq::<char>::empty(),
            }),
    {
        let i = match self.find_rule_idx(rule) {
            Option::Some(i) => i,
            Option::None => {
                return String::new();
            },
        };
        proof {
            assert(self.rules@[i as int].wf(i as int));
        }
        let mut msg = String::from_str("*");
        msg.append(self.rules[i].name.as_str());
        msg.append("*\nType: ");
        let t = match self.rules[i].rtype {
            RuleType::Integer => "integer",
            RuleType::Boolean => "boolean",
        };
        msg.append(t);
        msg.append("\nValue: ");
        push_u64(&mut msg, self.rules[i].value as u64);
        msg.append("\n\n");
        msg.append(self.rules[i].desc.as_str());
        proof {
            assert(msg@ =~= spec_show_rule(self.rules@[i as int]));
        }
        msg
    }

    /// Every rule written out in table order, with its current value.
    pub fn show_all_rules(&self) -> (r: String)
        requires
            self.wf(),
        ensures
            r@ == spec_all_rules(self.rules@, 0),
    {
        let mut msg = String::new();
        let mut i: usize = 0;
        proof {
            assert(Seq::<char>::empty() + spec_all_rules(self.rules@, 0) =~= spec_all_rules(
                self.rules@,
                0,
            ));
        }
        while i < self.rules.len()
            invariant
                i <= self.rules@.len(),
                self.wf(),
                msg@ + spec_all_rules(self.rules@, i as int) == spec_all_rules(self.rules@, 0),
            decreases self.rules@.len() - i,
        {
            proof {
                assert(self.rules@[i as int].wf(i as int));
            }
            msg.append("*");
            msg.append(self.rules[i].name.as_str());
            msg.append("*\nType: ");
            let t = match self.rules[i].rtype {
                RuleType::Integer => "integer",
                RuleType::Boolean => "boolean",
            };
            msg.append(t);
            msg.append("\nValue: ");
            push_u64(&mut msg, self.rules[i].value as u64);
            msg.append("\n");
            msg.append(self.rules[i].desc.as_str());
            msg.append("\n\n");
            proof {
                assert(msg@ + spec_all_rules(self.rules@, i + 1) =~= spec_all_rules(
                    self.rules@,
                    0,
                ));
            }
            i = i + 1;
        }
        msg
    }

    /// Builds and shuffles the deck, snapshots the turn order, flips
    /// the opening card, records the start time and deals every player
    /// their initial hand. Fails with `AlreadyStarted` on a running
    /// match, `InsufficientPlayers` below two players, and
    /// `InsufficientDeck` when the initial deal would exceed the deck;
    /// each failure leaves the table unchanged.
    pub fn start(&mut self) -> (r: Result<(), GameError>)
        requires
            old(self).wf(),
        ensures
            final(self).wf(),
            old(self).started ==> r == Result::<(), GameError>::Err(GameError::AlreadyStarted)
                && *final(self) == *old(self),
            !old(self).started && old(self).players@.len() < 2 ==> r == Result::<
                (),
                GameError,
            >::Err(GameError::InsufficientPlayers) && *final(self) == *old(self),
            !old(self).started && old(self).players@.len() >= 2 && old(self).rule_val(1) * old(
                self,
            ).players@.len() > 108 * old(self).rule_val(0) - 1 ==> r == Result::<
                (),
                GameError,
            >::Err(GameError::InsufficientDeck) && *final(self) == *old(self),
            !old(self).started && old(self).players@.len() >= 2 && old(self).rule_val(1) * old(
                self,
            ).players@.len() <= 108 * old(self).rule_val(0) - 1 ==> {
                let n = old(self).players@.len() as int;
                let init = old(self).rule_val(1) as int;
                &&& r is Ok
                &&& final(self).started
                &&& final(self).players@.len() == n
                &&& (forall|i: int|
                    0 <= i < n ==> {
                        let p = #[trigger] final(self).players@[i];
                        p.id == old(self).players@[i].id && p.username
                            == old(self).players@[i].username && p.hand@.len() == init
                            && !p.called && !p.finished && hand_sorted(p.hand@)
                    })
                &&& final(self).queue@.len() == n
                &&& (forall|i: int|
                    0 <= i < n ==> final(self).queue@[i] == old(self).players@[i].id)
                &&& final(self).discard@.len() == 1
                &&& final(self).deck@.len() == 108 * old(self).rule_val(0) - 1 - init * n
                &&& final(self).drawn == init * n
                &&& final(self).rules@ == old(self).rules@
            },
    {
        if self.started {
            return Result::Err(GameError::AlreadyStarted);
        }
        if self.players.len() < 2 {
            return Result::Err(GameError::InsufficientPlayers);
        }
        proof {
            assert(self.rules@[0].wf(0));
            assert(self.rules@[1].wf(1));
        }
        let decks = self.rules[0].value;
        let init = self.rules[1].value;
        let n = self.players.len();
        let total: u64 = 108 * (decks as u64);
        let n64: u64 = n as u64;
        if n64 > total {
            proof {
                assert((init as int) * (n as int) >= n as int) by (nonlinear_arith)
                    requires
                        init >= 1,
                        n as int >= 0,
                ;
            }
            return Result::Err(GameError::InsufficientDeck);
        }
        proof {
            assert((init as int) * (n64 as int) <= 5000 * 864) by (nonlinear_arith)
                requires
                    1 <= init <= 5000,
                    0 <= n64 <= 864,
            ;
        }
        let need: u64 = (init as u64) * n64;
        if need > total - 1 {
            return Result::Err(GameError::InsufficientDeck);
        }
        self.generate_deck();
        let mut i: usize = 0;
        while i < self.players.len()
            invariant
                i <= self.players@.len(),
                self.queue@.len() == i,
                self.players@ == old(self).players@,
                forall|j: int| 0 <= j < i ==> self.queue@[j] == old(self).players@[j].id,
                *self == (UnoGame { queue: self.queue, deck: self.deck, card_num: self.card_num, ..*old(self) }),
                self.deck@.len() == 108 * old(self).rule_val(0),
                forall|j: int| 0 <= j < self.deck@.len() ==> (#[trigger] self.deck@[j]).wf(),
            decreases self.players@.len() - i,
        {
            let id = self.players[i].id;
            self.queue.push(id);
            i = i + 1;
        }
        self.time_started = now_epoch_secs() / 60;
        let opening = self.deck.remove(0);
        self.discard.push(opening);
        self.started = true;
        let ghost mid = *self;
        proof {
            assert forall|a: int, b: int|
                0 <= a < b < mid.queue@.len() implies mid.queue@[a] != mid.queue@[b] by {
                assert(old(self).players@[a].id != old(self).players@[b].id);
            }
            assert forall|j: int|
                0 <= j < mid.queue@.len() implies has_player(
                mid.players@,
                #[trigger] mid.queue@[j],
            ) by {
                assert(mid.players@[j].id == mid.queue@[j]);
            }
            assert forall|j: int|
                0 <= j < mid.players@.len() implies mid.queue@.contains(
                (#[trigger] mid.players@[j]).id,
            ) by {
                assert(mid.queue@[j] == mid.players@[j].id);
            }
        }
        let initn: usize = init as usize;
        let mut k: usize = 0;
        while k < self.players.len()
            invariant
                k <= self.players@.len(),
                mid.players@.len() == old(self).players@.len(),
                self.players@.len() == mid.players@.len(),
                self.queue@ == mid.queue@,
                self.started,
                self.discard == mid.discard,
                mid.discard@.len() == 1,
                initn == mid.rule_val(1),
                1 <= initn <= 5000,
                mid.deck@.len() == 108 * old(self).rule_val(0) - 1,
                initn * mid.players@.len() <= mid.deck@.len(),
                self.deck@.len() == mid.deck@.len() - k * initn,
                self.drawn == mid.drawn + k * initn,
                mid.drawn == 0,
                self.players_wf(),
                self.piles_wf(),
                forall|j: int|
                    0 <= j < self.players@.len() ==> (#[trigger] self.players@[j]).id
                        == mid.players@[j].id && self.players@[j].username
                        == mid.players@[j].username && self.players@[j].finished
                        == mid.players@[j].finished,
                forall|j: int|
                    0 <= j < k ==> (#[trigger] self.players@[j]).hand@.len() == initn
                        && !self.players@[j].called && hand_sorted(
                        (#[trigger] self.players@[j]).hand@,
                    ),
                forall|j: int|
                    k <= j < self.players@.len() ==> #[trigger] self.players@[j]
                        == mid.players@[j],
                forall|j: int|
                    0 <= j < mid.players@.len() ==> (#[trigger] mid.players@[j]).hand@.len() == 0
                        && !mid.players@[j].finished,
                *self == (UnoGame {
                    players: self.players,
                    deck: self.deck,
                    drawn: self.drawn,
                    ..mid
                }),
            decreases self.players@.len() - k,
        {
            let id = self.players[k].id;
            let ghost pre = *self;
            proof {
                lemma_player_idx(self.players@, k as int);
                let nn = mid.players@.len() as int;
                assert((k + 1) * initn == k * initn + initn && (k + 1) * initn <= nn * initn
                    && nn * initn == initn * nn) by (nonlinear_arith)
                    requires
                        k + 1 <= nn,
                        0 <= initn,
                        0 <= k,
                ;
                assert(pre.deck@.len() >= initn);
                assert(pre.spec_available() >= initn);
            }
            match self.deal(id, initn) {
                Result::Ok(_) => {},
                Result::Err(_) => {
                    proof {
                        assert(false);
                    }
                    return Result::Err(GameError::DeckExhausted);
                },
            }
            proof {
                assert(player_idx(pre.players@, id) == k as int);
            }
            k = k + 1;
        }
        proof {
            assert(mid.players@ == old(self).players@);
            assert(self.queue@ == mid.queue@);
            assert forall|j: int|
                0 <= j < self.queue@.len() implies has_player(
                self.players@,
                #[trigger] self.queue@[j],
            ) by {
                assert(self.queue@[j] == old(self).players@[j].id);
                assert(self.players@[j].id == mid.players@[j].id);
            }
            assert forall|j: int|
                0 <= j < self.players@.len() implies ((#[trigger] self.players@[j]).finished
                <==> !self.queue@.contains(self.players@[j].id)) by {
                assert(self.queue@[j] == old(self).players@[j].id);
                assert(self.players@[j].id == mid.players@[j].id);
                assert(self.queue@[j] == self.players@[j].id);
                assert(!self.players@[j].finished);
            }
            assert(self.rules@ == old(self).rules@);
            assert(self.finished@.len() == 0);
            assert(self.queue@.len() == old(self).players@.len());
            let nn = mid.players@.len() as int;
            let init_g = old(self).rule_val(1) as int;
            assert(initn == init_g);
            assert(nn * initn == init_g * nn) by (nonlinear_arith)
                requires
                    initn == init_g,
            ;
            assert(self.deck@.len() == mid.deck@.len() - nn * initn);
            assert(self.drawn == nn * initn);
        }
        Result::Ok(())
    }
}

} // verus!
