use vstd::prelude::*;

use crate::card::{card_value, spec_card_text, Card, CardKind, Color};
use crate::text::{dec_str, digit_val, eq_ignore_case, is_digit_char, push_u64, seq_upper};
use vstd::multiset::Multiset;

verus! {

/// One participant: identifier, display name, hand, UNO-call flag,
/// finish flag, play counter and the outgoing message queue that the
/// presentation layer drains.
pub struct Player {
    pub id: u64,
    pub username: String,
    pub hand: Vec<Card>,
    pub called: bool,
    pub finished: bool,
    pub cards_played: u64,
    pub messages: Vec<String>,
}

/// Case-insensitive equality of two character sequences.
pub open spec fn ci_eq(a: Seq<char>, b: Seq<char>) -> bool {
    seq_upper(a) == seq_upper(b)
}

/// The color named by a token: full name or single letter, any case.
pub open spec fn parse_color_s(tok: Seq<char>) -> Option<Color> {
    if ci_eq(tok, "red"@) || ci_eq(tok, "r"@) {
        Option::Some(Color::Red)
    } else if ci_eq(tok, "green"@) || ci_eq(tok, "g"@) {
        Option::Some(Color::Green)
    } else if ci_eq(tok, "blue"@) || ci_eq(tok, "b"@) {
        Option::Some(Color::Blue)
    } else if ci_eq(tok, "yellow"@) || ci_eq(tok, "y"@) {
        Option::Some(Color::Yellow)
    } else {
        Option::None
    }
}

/// The card face named by a token: a digit, a canonical face name, or
/// one of the fixed shorthand aliases, any case.
pub open spec fn parse_kind_s(tok: Seq<char>) -> Option<CardKind> {
    if tok.len() == 1 && is_digit_char(tok[0]) {
        Option::Some(CardKind::Numeral(digit_val(tok[0])))
    } else if ci_eq(tok, "SKIP"@) || ci_eq(tok, "S"@) || ci_eq(tok, "FUCKU"@) {
        Option::Some(CardKind::Skip)
    } else if ci_eq(tok, "REVERSE"@) || ci_eq(tok, "REV"@) || ci_eq(tok, "R"@) || ci_eq(
        tok,
        "NOU"@,
    ) {
        Option::Some(CardKind::Reverse)
    } else if ci_eq(tok, "+2"@) {
        Option::Some(CardKind::DrawTwo)
    } else if ci_eq(tok, "WILD"@) || ci_eq(tok, "W"@) {
        Option::Some(CardKind::Wild)
    } else if ci_eq(tok, "WILD+4"@) || ci_eq(tok, "W+4"@) {
        Option::Some(CardKind::WildDrawFour)
    } else {
        Option::None
    }
}

/// What a command line asks for. One word is either a color letter
/// followed by a face ("r5") or a lone color letter naming its alias;
/// two words name a color and a face in either order. The color doubles
/// as the chosen color when the face is wild. Anything else resolves to
/// nothing.
pub open spec fn resolve_query(words: Seq<Seq<char>>) -> Option<(Color, CardKind)> {
    if words.len() == 0 {
        Option::None
    } else if words.len() == 1 {
        let w = words[0];
        if w.len() == 0 {
            Option::None
        } else {
            match parse_color_s(seq![w[0]]) {
                Option::Some(c) => {
                    let idtok = if w.len() == 1 {
                        w
                    } else {
                        w.skip(1)
                    };
                    match parse_kind_s(idtok) {
                        Option::Some(k) => Option::Some((c, k)),
                        Option::None => Option::None,
                    }
                },
                Option::None => Option::None,
            }
        }
    } else {
        match parse_color_s(words[0]) {
            Option::Some(c) => match parse_kind_s(words[1]) {
                Option::Some(k) => Option::Some((c, k)),
                Option::None => Option::None,
            },
            Option::None => match parse_color_s(words[1]) {
                Option::Some(c) => match parse_kind_s(words[0]) {
                    Option::Some(k) => Option::Some((c, k)),
                    Option::None => Option::None,
                },
                Option::None => Option::None,
            },
        }
    }
}

/// Whether a held card answers a resolved query. Wild-family cards
/// match by face alone; colored faces must match in face and color.
pub open spec fn card_matches(c: Card, color: Color, kind: CardKind) -> bool {
    if kind.spec_is_wild() {
        c.kind == kind
    } else {
        c.kind == kind && c.color == Option::Some(color)
    }
}

/// The first index of a card answering the query, if any.
pub open spec fn first_match(hand: Seq<Card>, color: Color, kind: CardKind) -> Option<int>
    decreases hand.len(),
{
    if hand.len() == 0 {
        Option::None
    } else if card_matches(hand[0], color, kind) {
        Option::Some(0)
    } else {
        match first_match(hand.skip(1), color, kind) {
            Option::Some(i) => Option::Some(i + 1),
            Option::None => Option::None,
        }
    }
}

/// What a command line resolves to against a hand: the index of the
/// chosen card and the color the command named.
pub open spec fn resolve_in_hand(hand: Seq<Card>, words: Seq<Seq<char>>) -> Option<(int, Color)> {
    match resolve_query(words) {
        Option::Some((c, k)) => match first_match(hand, c, k) {
            Option::Some(i) => Option::Some((i, c)),
            Option::None => Option::None,
        },
        Option::None => Option::None,
    }
}

/// `first_match` names the least index whose card answers the query.
pub proof fn lemma_first_match(hand: Seq<Card>, color: Color, kind: CardKind)
    ensures
        match first_match(hand, color, kind) {
            Option::Some(i) => 0 <= i < hand.len() && card_matches(hand[i], color, kind)
                && (forall|j: int| 0 <= j < i ==> !card_matches(#[trigger] hand[j], color, kind)),
            Option::None => forall|j: int|
                0 <= j < hand.len() ==> !card_matches(#[trigger] hand[j], color, kind),
        },
    decreases hand.len(),
{
    if hand.len() == 0 {
    } else if card_matches(hand[0], color, kind) {
    } else {
        lemma_first_match(hand.skip(1), color, kind);
        assert(forall|j: int|
            1 <= j < hand.len() ==> hand.skip(1)[j - 1] == #[trigger] hand[j]);
    }
}

/// The face named by a token, if any.
fn parse_kind(tok: &str) -> (r: Option<CardKind>)
    ensures
        r == parse_kind_s(tok@),
{
    if tok.unicode_len() == 1 {
        let u = tok.get_char(0) as u32;
        if 48 <= u && u <= 57 {
            return Option::Some(CardKind::Numeral((u - 48) as u8));
        }
    }
    if eq_ignore_case(tok, "SKIP") || eq_ignore_case(tok, "S") || eq_ignore_case(tok, "FUCKU") {
        Option::Some(CardKind::Skip)
    } else if eq_ignore_case(tok, "REVERSE") || eq_ignore_case(tok, "REV") || eq_ignore_case(
        tok,
        "R",
    ) || eq_ignore_case(tok, "NOU") {
        Option::Some(CardKind::Reverse)
    } else if eq_ignore_case(tok, "+2") {
        Option::Some(CardKind::DrawTwo)
    } else if eq_ignore_case(tok, "WILD") || eq_ignore_case(tok, "W") {
        Option::Some(CardKind::Wild)
    } else if eq_ignore_case(tok, "WILD+4") || eq_ignore_case(tok, "W+4") {
        Option::Some(CardKind::WildDrawFour)
    } else {
        Option::None
    }
}

impl Player {
    /// A player's cards are all well formed.
    pub open spec fn hand_wf(self) -> bool {
        forall|i: int| 0 <= i < self.hand@.len() ==> (#[trigger] self.hand@[i]).wf()
    }

    /// The color named by a token, if any. Color names and single
    /// letters are recognized in any case.
    pub fn parse_color(&self, color: String) -> (r: Option<Color>)
        ensures
            r == parse_color_s(color@),
    {
        if eq_ignore_case(color.as_str(), "red") || eq_ignore_case(color.as_str(), "r") {
            Option::Some(Color::Red)
        } else if eq_ignore_case(color.as_str(), "green") || eq_ignore_case(color.as_str(), "g") {
            Option::Some(Color::Green)
        } else if eq_ignore_case(color.as_str(), "blue") || eq_ignore_case(color.as_str(), "b") {
            Option::Some(Color::Blue)
        } else if eq_ignore_case(color.as_str(), "yellow") || eq_ignore_case(color.as_str(), "y") {
            Option::Some(Color::Yellow)
        } else {
            Option::None
        }
    }

    /// Resolves a tokenized command against the hand: the index of the
    /// first card answering it, and the color the command named. Purely
    /// a lookup; the hand is never changed.
    pub(crate) fn resolve(&self, words: &Vec<String>) -> (r: Option<(usize, Color)>)
        ensures
            (match (r, resolve_in_hand(self.hand@, words.deep_view())) {
                (Option::Some(rp), Option::Some(p)) => rp.0 as int == p.0 && rp.1 == p.1
                    && rp.0 < self.hand@.len(),
                (Option::None, Option::None) => true,
                _ => false,
            }),
    {
        let query: (Color, CardKind);
        if words.len() == 0 {
            return Option::None;
        } else if words.len() == 1 {
            let w = &words[0];
            let wlen = w.as_str().unicode_len();
            if wlen == 0 {
                return Option::None;
            }
            let first = w.as_str().substring_char(0, 1);
            proof {
                assert(first@ =~= seq![words.deep_view()[0][0]]);
            }
            match self.parse_color(String::from_str(first)) {
                Option::Some(c) => {
                    let idtok: String = if wlen == 1 {
                        w.clone()
                    } else {
                        String::from_str(w.as_str().substring_char(1, wlen))
                    };
                    proof {
                        if wlen > 1 {
                            assert(idtok@ =~= words.deep_view()[0].skip(1));
                        }
                    }
                    match parse_kind(idtok.as_str()) {
                        Option::Some(k) => {
                            query = (c, k);
                        },
                        Option::None => {
                            return Option::None;
                        },
                    }
                },
                Option::None => {
                    return Option::None;
                },
            }
        } else {
            match self.parse_color(words[0].clone()) {
                Option::Some(c) => {
                    match parse_kind(words[1].as_str()) {
                        Option::Some(k) => {
                            query = (c, k);
                        },
                        Option::None => {
                            return Option::None;
                        },
                    }
                },
                Option::None => {
                    match self.parse_color(words[1].clone()) {
                        Option::Some(c) => {
                            match parse_kind(words[0].as_str()) {
                                Option::Some(k) => {
                                    query = (c, k);
                                },
                                Option::None => {
                                    return Option::None;
                                },
                            }
                        },
                        Option::None => {
                            return Option::None;
                        },
                    }
                },
            }
        }
        let (color, kind) = query;
        let mut i: usize = 0;
        while i < self.hand.len()
            invariant
                i <= self.hand@.len(),
                Option::Some((color, kind)) == resolve_query(words.deep_view()),
                forall|j: int| 0 <= j < i ==> !card_matches(#[trigger] self.hand@[j], color, kind),
            decreases self.hand@.len() - i,
        {
            let c = self.hand[i];
            let hit = if kind.is_wild() {
                c.kind == kind
            } else {
                c.kind == kind && (match c.color {
                    Option::Some(x) => x == color,
                    Option::None => false,
                })
            };
            if hit {
                proof {
                    lemma_first_match(self.hand@, color, kind);
                }
                return Option::Some((i, color));
            }
            i = i + 1;
        }
        proof {
            lemma_first_match(self.hand@, color, kind);
        }
        Option::None
    }

    /// Resolves a tokenized command to the sequence number of the first
    /// card in hand answering it.
    pub fn get_card(&self, words: &Vec<String>) -> (r: Option<u64>)
        ensures
            (match resolve_in_hand(self.hand@, words.deep_view()) {
                Option::Some(p) => r == Option::Some(self.hand@[p.0].num),
                Option::None => r is None,
            }),
    {
        match self.resolve(words) {
            Option::Some((i, _c)) => Option::Some(self.hand[i].num),
            Option::None => Option::None,
        }
    }
}

/// The rendering of the cards from position `i` on, each in bold,
/// separated by vertical bars.
pub open spec fn spec_hand_items(hand: Seq<Card>, i: int) -> Seq<char>
    decreases hand.len() - i,
{
    if i < 0 || i >= hand.len() {
        Seq::empty()
    } else {
        (if i > 0 {
            " | "@
        } else {
            Seq::<char>::empty()
        }) + "**"@ + spec_card_text(hand[i]) + "**"@ + spec_hand_items(hand, i + 1)
    }
}

/// The full hand rendering, with the count at the end.
pub open spec fn spec_hand_text(hand: Seq<Card>) -> Seq<char> {
    "Here is your hand:\n\n"@ + spec_hand_items(hand, 0) + "\n\nYou currently have "@
        + dec_str(hand.len() as nat) + " card(s)."@
}

/// Non-decreasing in the display order.
pub open spec fn hand_sorted(s: Seq<Card>) -> bool {
    forall|i: int, j: int| 0 <= i < j < s.len() ==> card_value(s[i]) <= card_value(s[j])
}

/// Sequences with equal multisets hold the same elements.
pub proof fn lemma_multiset_elems(a: Seq<Card>, b: Seq<Card>)
    requires
        a.to_multiset() == b.to_multiset(),
    ensures
        forall|i: int| 0 <= i < b.len() ==> a.contains(#[trigger] b[i]),
{
    broadcast use vstd::seq_lib::group_to_multiset_ensures;

    assert forall|i: int| 0 <= i < b.len() implies a.contains(b[i]) by {
        assert(b.contains(b[i]));
        assert(b.to_multiset().count(b[i]) > 0);
    }
}

impl Player {
    /// Index of a cheapest card in the display order.
    fn min_value_index(v: &Vec<Card>) -> (m: usize)
        requires
            v@.len() > 0,
        ensures
            m < v@.len(),
            forall|t: int| 0 <= t < v@.len() ==> card_value(v@[m as int]) <= card_value(
                #[trigger] v@[t],
            ),
    {
        let mut m: usize = 0;
        let mut k: usize = 1;
        while k < v.len()
            invariant
                m < k <= v@.len(),
                forall|t: int| 0 <= t < k ==> card_value(v@[m as int]) <= card_value(
                    #[trigger] v@[t],
                ),
            decreases v@.len() - k,
        {
            if v[k].get_value() < v[m].get_value() {
                m = k;
            }
            k = k + 1;
        }
        m
    }

    /// Re-sorts the hand into the display order; the cards themselves
    /// are kept, nothing else about the player changes.
    pub fn sort_hand(&mut self)
        ensures
            final(self).hand@.to_multiset() == old(self).hand@.to_multiset(),
            final(self).hand@.len() == old(self).hand@.len(),
            hand_sorted(final(self).hand@),
            old(self).hand_wf() ==> final(self).hand_wf(),
            final(self).id == old(self).id,
            final(self).username == old(self).username,
            final(self).called == old(self).called,
            final(self).finished == old(self).finished,
            final(self).cards_played == old(self).cards_played,
            final(self).messages == old(self).messages,
    {
        broadcast use vstd::seq_lib::group_to_multiset_ensures;

        let ghost orig = self.hand@;
        let mut rest: Vec<Card> = Vec::new();
        core::mem::swap(&mut rest, &mut self.hand);
        proof {
            assert(self.hand@.to_multiset().add(rest@.to_multiset()) =~= rest@.to_multiset());
        }
        while rest.len() > 0
            invariant
                self.hand@.to_multiset().add(rest@.to_multiset()) == orig.to_multiset(),
                hand_sorted(self.hand@),
                self.id == old(self).id,
                self.username == old(self).username,
                self.called == old(self).called,
                self.finished == old(self).finished,
                self.cards_played == old(self).cards_played,
                self.messages == old(self).messages,
                forall|a: int, b: int|
                    0 <= a < self.hand@.len() && 0 <= b < rest@.len() ==> card_value(
                        #[trigger] self.hand@[a],
                    ) <= card_value(#[trigger] rest@[b]),
            decreases rest@.len(),
        {
            let m = Self::min_value_index(&rest);
            let ghost pre_hand = self.hand@;
            let ghost pre_rest = rest@;
            let c = rest.remove(m);
            self.hand.push(c);
            proof {
                broadcast use vstd::multiset::group_multiset_axioms;

                vstd::seq_lib::to_multiset_remove::<Card>(pre_rest, m as int);
                vstd::seq_lib::to_multiset_build::<Card>(pre_hand, c);
                vstd::seq_lib::to_multiset_contains::<Card>(pre_rest, c);
                assert(rest@ == pre_rest.remove(m as int));
                assert(self.hand@ == pre_hand.push(c));
                assert(pre_rest.contains(c));
                assert(self.hand@.to_multiset().add(rest@.to_multiset()) =~= orig.to_multiset());
                assert(forall|b: int|
                    0 <= b < rest@.len() ==> card_value(#[trigger] rest@[b]) >= card_value(c));
            }
        }
        proof {
            broadcast use vstd::multiset::group_multiset_axioms;

            vstd::seq_lib::to_multiset_len::<Card>(rest@);
            vstd::seq_lib::to_multiset_len::<Card>(self.hand@);
            vstd::seq_lib::to_multiset_len::<Card>(orig);
            assert(rest@.to_multiset() =~= Multiset::<Card>::empty());
            assert(self.hand@.to_multiset() =~= orig.to_multiset());
            if old(self).hand_wf() {
                lemma_multiset_elems(orig, self.hand@);
            }
        }
    }

    /// Appends one line to the player's outgoing queue.
    pub fn send_message(&mut self, message: String)
        ensures
            final(self).messages@ == old(self).messages@.push(message),
            final(self).id == old(self).id,
            final(self).username == old(self).username,
            final(self).hand == old(self).hand,
            final(self).called == old(self).called,
            final(self).finished == old(self).finished,
            final(self).cards_played == old(self).cards_played,
    {
        self.messages.push(message);
    }

    /// The rendering of the hand, sorted, one card after another in
    /// bold, with the count at the end. Sorting is the only change
    /// made.
    pub fn get_hand(&mut self) -> (r: String)
        requires
            old(self).hand_wf(),
        ensures
            final(self).hand@.to_multiset() == old(self).hand@.to_multiset(),
            final(self).hand@.len() == old(self).hand@.len(),
            hand_sorted(final(self).hand@),
            r@ == spec_hand_text(final(self).hand@),
            final(self).id == old(self).id,
            final(self).username == old(self).username,
            final(self).called == old(self).called,
            final(self).finished == old(self).finished,
            final(self).cards_played == old(self).cards_played,
            final(self).messages == old(self).messages,
    {
        proof {
            broadcast use vstd::seq_lib::group_to_multiset_ensures;

        }
        self.sort_hand();
        let mut out = String::from_str("Here is your hand:\n\n");
        let ghost head = out@;
        let mut i: usize = 0;
        while i < self.hand.len()
            invariant
                i <= self.hand@.len(),
            self.hand_wf(),
                out@ + spec_hand_items(self.hand@, i as int) == head + spec_hand_items(
                    self.hand@,
                    0,
                ),
            decreases self.hand@.len() - i,
        {
            if i > 0 {
                out.append(" | ");
            }
            out.append("**");
            let t = self.hand[i].text();
            out.append(t.as_str());
            out.append("**");
            proof {
                assert(out@ + spec_hand_items(self.hand@, i + 1) =~= head + spec_hand_items(
                    self.hand@,
                    0,
                ));
            }
            i = i + 1;
        }
        out.append("\n\nYou currently have ");
        push_u64(&mut out, self.hand.len() as u64);
        out.append(" card(s).");
        proof {
            assert(out@ =~= spec_hand_text(self.hand@));
        }
        out
    }

    /// Sorts the hand and hands out a view of it.
    pub fn hand(&mut self) -> (r: &Vec<Card>)
        ensures
            final(self).hand@.to_multiset() == old(self).hand@.to_multiset(),
            final(self).hand@.len() == old(self).hand@.len(),
            hand_sorted(final(self).hand@),
            r == &final(self).hand,
            final(self).id == old(self).id,
            final(self).username == old(self).username,
            final(self).called == old(self).called,
            final(self).finished == old(self).finished,
            final(self).cards_played == old(self).cards_played,
            final(self).messages == old(self).messages,
    {
        self.sort_hand();
        &self.hand
    }

    /// Queues the rendering of the own hand as an outgoing message.
    pub fn send_hand(&mut self)
        requires
            old(self).hand_wf(),
        ensures
            final(self).hand@.to_multiset() == old(self).hand@.to_multiset(),
            final(self).hand@.len() == old(self).hand@.len(),
            hand_sorted(final(self).hand@),
            final(self).messages@.len() == old(self).messages@.len() + 1,
            final(self).messages@.last()@ == spec_hand_text(final(self).hand@),
            final(self).messages@.drop_last() == old(self).messages@,
            final(self).id == old(self).id,
            final(self).username == old(self).username,
            final(self).called == old(self).called,
            final(self).finished == old(self).finished,
            final(self).cards_played == old(self).cards_played,
    {
        let hand = self.get_hand();
        self.send_message(hand);
    }
}

} // verus!
