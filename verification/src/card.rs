use vstd::prelude::*;

verus! {

/// One of the four printed card colors. Wild-family cards carry no color
/// while they sit in a hand or in the deck, so `Card` stores an
/// `Option<Color>`.
#[derive(Clone, Copy, PartialEq, Eq, Structural, Debug)]
pub enum Color {
    Red,
    Green,
    Blue,
    Yellow,
}

/// The face of a card: a numeral 0-9 or one of the five action kinds.
#[derive(Clone, Copy, PartialEq, Eq, Structural, Debug)]
pub enum CardKind {
    Numeral(u8),
    Skip,
    Reverse,
    DrawTwo,
    Wild,
    WildDrawFour,
}

impl CardKind {
    /// A well-formed numeral holds a digit 0-9.
    pub open spec fn wf(self) -> bool {
        match self {
            CardKind::Numeral(d) => d <= 9,
            _ => true,
        }
    }

    /// Wild-family kinds are the two that carry no printed color.
    pub open spec fn spec_is_wild(self) -> bool {
        self == CardKind::Wild || self == CardKind::WildDrawFour
    }

    #[verifier::when_used_as_spec(spec_is_wild)]
    pub fn is_wild(self) -> (r: bool)
        ensures
            r == self.spec_is_wild(),
    {
        match self {
            CardKind::Wild => true,
            CardKind::WildDrawFour => true,
            _ => false,
        }
    }
}

/// One physical card. `num` is the sequence number assigned at creation,
/// strictly increasing over the whole match; it only tells duplicate
/// cards of the same face and color apart.
#[derive(Clone, Copy, PartialEq, Eq, Structural, Debug)]
pub struct Card {
    pub kind: CardKind,
    pub color: Option<Color>,
    pub num: u64,
}

impl Card {
    /// A card is well formed when its numeral is a digit and a
    /// wild-family card in the deck or a hand carries no color.
    pub open spec fn wf(self) -> bool {
        self.kind.wf()
    }

    pub fn new(kind: CardKind, color: Option<Color>, num: u64) -> (c: Card)
        ensures
            c == (Card { kind, color, num }),
    {
        Card { kind, color, num }
    }
}

/// The rank of a kind inside its color group: numerals by face value,
/// then SKIP, REVERSE, DRAW-TWO, WILD, WILD-DRAW-FOUR.
pub open spec fn kind_weight(k: CardKind) -> int {
    match k {
        CardKind::Numeral(d) => d as int,
        CardKind::Skip => 10,
        CardKind::Reverse => 11,
        CardKind::DrawTwo => 12,
        CardKind::Wild => 13,
        CardKind::WildDrawFour => 14,
    }
}

/// The rank of a color group in the display order:
/// blue, green, yellow, red, then colorless.
pub open spec fn color_weight(c: Option<Color>) -> int {
    match c {
        Option::Some(Color::Red) => 100000,
        Option::Some(Color::Green) => 1000,
        Option::Some(Color::Blue) => 100,
        Option::Some(Color::Yellow) => 10000,
        Option::None => 1000000,
    }
}

/// The total display order over cards: first by color group, then by
/// kind inside the group. It orders hands for display only; play
/// legality never consults it.
pub open spec fn card_value(c: Card) -> int {
    color_weight(c.color) + kind_weight(c.kind)
}

impl Card {
    /// The sort key realizing the display order.
    pub fn get_value(&self) -> (v: u32)
        ensures
            v == card_value(*self),
    {
        let cw: u32 = match self.color {
            Option::Some(Color::Red) => 100000,
            Option::Some(Color::Green) => 1000,
            Option::Some(Color::Blue) => 100,
            Option::Some(Color::Yellow) => 10000,
            Option::None => 1000000,
        };
        let kw: u32 = match self.kind {
            CardKind::Numeral(d) => d as u32,
            CardKind::Skip => 10,
            CardKind::Reverse => 11,
            CardKind::DrawTwo => 12,
            CardKind::Wild => 13,
            CardKind::WildDrawFour => 14,
        };
        cw + kw
    }

    /// The English name of the card's color, or the empty string for a
    /// colorless card.
    pub fn get_color_name(&self) -> (r: &'static str)
        ensures
            r@ == spec_color_name(self.color),
    {
        match self.color {
            Option::Some(Color::Red) => "Red",
            Option::Some(Color::Green) => "Green",
            Option::Some(Color::Blue) => "Blue",
            Option::Some(Color::Yellow) => "Yellow",
            Option::None => "",
        }
    }

    /// The RGB code used by presentation layers to tint a message with
    /// the card's color; dark gray for colorless cards.
    pub fn get_color_code(&self) -> (r: u32)
        ensures
            r == spec_color_code(self.color),
    {
        match self.color {
            Option::Some(Color::Red) => 0xff5555,
            Option::Some(Color::Green) => 0x55aa55,
            Option::Some(Color::Blue) => 0x5555ff,
            Option::Some(Color::Yellow) => 0xffaa00,
            Option::None => 0x080808,
        }
    }

    /// The card's face written out: a digit or the action name.
    pub fn kind_text(&self) -> (r: String)
        requires
            self.wf(),
        ensures
            r@ == spec_kind_text(self.kind),
    {
        match self.kind {
            CardKind::Numeral(d) => {
                let mut s = String::new();
                crate::text::push_u64(&mut s, d as u64);
                proof {
                    assert(s@ =~= spec_kind_text(self.kind));
                }
                s
            },
            CardKind::Skip => String::from_str("SKIP"),
            CardKind::Reverse => String::from_str("REVERSE"),
            CardKind::DrawTwo => String::from_str("+2"),
            CardKind::Wild => String::from_str("WILD"),
            CardKind::WildDrawFour => String::from_str("WILD+4"),
        }
    }

    /// The human-readable rendering: the color name, a space and the
    /// face for colored cards, the bare face for colorless ones.
    pub fn text(&self) -> (r: String)
        requires
            self.wf(),
        ensures
            r@ == spec_card_text(*self),
    {
        match self.color {
            Option::None => self.kind_text(),
            Option::Some(_) => {
                let mut s = String::from_str(self.get_color_name());
                s.append(" ");
                let k = self.kind_text();
                s.append(k.as_str());
                proof {
                    assert(s@ =~= spec_card_text(*self));
                }
                s
            },
        }
    }
}

/// The English color names used in renderings.
pub open spec fn spec_color_name(c: Option<Color>) -> Seq<char> {
    match c {
        Option::Some(Color::Red) => "Red"@,
        Option::Some(Color::Green) => "Green"@,
        Option::Some(Color::Blue) => "Blue"@,
        Option::Some(Color::Yellow) => "Yellow"@,
        Option::None => ""@,
    }
}

/// The RGB codes matching `get_color_code`.
pub open spec fn spec_color_code(c: Option<Color>) -> u32 {
    match c {
        Option::Some(Color::Red) => 0xff5555,
        Option::Some(Color::Green) => 0x55aa55,
        Option::Some(Color::Blue) => 0x5555ff,
        Option::Some(Color::Yellow) => 0xffaa00,
        Option::None => 0x080808,
    }
}

/// The face of a card written out.
pub open spec fn spec_kind_text(k: CardKind) -> Seq<char> {
    match k {
        CardKind::Numeral(d) => crate::text::dec_str(d as nat),
        CardKind::Skip => "SKIP"@,
        CardKind::Reverse => "REVERSE"@,
        CardKind::DrawTwo => "+2"@,
        CardKind::Wild => "WILD"@,
        CardKind::WildDrawFour => "WILD+4"@,
    }
}

/// The full rendering of a card.
pub open spec fn spec_card_text(c: Card) -> Seq<char> {
    match c.color {
        Option::None => spec_kind_text(c.kind),
        Option::Some(_) => spec_color_name(c.color) + " "@ + spec_kind_text(c.kind),
    }
}

} // verus!
