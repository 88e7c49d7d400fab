use vstd::prelude::*;

use crate::player::ci_eq;

verus! {

/// Whether a rule's value ranges over an integer interval or over 0/1.
#[derive(Clone, Copy, PartialEq, Eq, Structural, Debug)]
pub enum RuleType {
    Integer,
    Boolean,
}

/// One named, typed, bounded configuration value of the rule table.
pub struct Rule {
    pub idx: usize,
    pub desc: String,
    pub value: i32,
    pub name: String,
    pub rtype: RuleType,
    pub max: i32,
    pub min: i32,
}

/// The name of the rule at each position of the fixed table.
pub open spec fn canon_name(i: int) -> Seq<char> {
    if i == 0 {
        "Decks"@
    } else if i == 1 {
        "Initial Cards"@
    } else if i == 2 {
        "Draws Skip"@
    } else if i == 3 {
        "Reverses Skip"@
    } else if i == 4 {
        "Must Play"@
    } else if i == 5 {
        "Callouts"@
    } else if i == 6 {
        "Callout Penalty"@
    } else if i == 7 {
        "False Callout Penalty"@
    } else if i == 8 {
        "Automatically Play After Draw"@
    } else if i == 9 {
        "Automatically Pass Turns"@
    } else {
        ""@
    }
}

/// The type of the rule at each position.
pub open spec fn canon_type(i: int) -> RuleType {
    if i == 0 || i == 1 || i == 6 || i == 7 {
        RuleType::Integer
    } else {
        RuleType::Boolean
    }
}

/// The lower bound of the rule at each position.
pub open spec fn canon_min(i: int) -> i32 {
    if i == 0 || i == 1 {
        1
    } else {
        0
    }
}

/// The upper bound of the rule at each position.
pub open spec fn canon_max(i: int) -> i32 {
    if i == 0 {
        8
    } else if i == 1 {
        5000
    } else if i == 6 || i == 7 {
        1000
    } else {
        1
    }
}

/// The value each rule starts with.
pub open spec fn canon_default(i: int) -> i32 {
    if i == 1 {
        7
    } else if i == 6 || i == 7 {
        2
    } else if i == 4 || i == 8 {
        0
    } else {
        1
    }
}

impl Rule {
    /// The rule at position `i` carries the fixed name, type and
    /// bounds of that position; only its value moves, and it stays in
    /// bounds.
    pub open spec fn wf(self, i: int) -> bool {
        &&& self.idx == i
        &&& self.name@ == canon_name(i)
        &&& self.rtype == canon_type(i)
        &&& self.min == canon_min(i)
        &&& self.max == canon_max(i)
        &&& match self.rtype {
            RuleType::Integer => self.min <= self.value <= self.max,
            RuleType::Boolean => self.value == 0 || self.value == 1,
        }
    }
}

/// The first position whose rule bears the given name, up to ASCII
/// case.
pub open spec fn spec_find_rule(rules: Seq<Rule>, name: Seq<char>) -> Option<int>
    decreases rules.len(),
{
    if rules.len() == 0 {
        Option::None
    } else if ci_eq(rules[0].name@, name) {
        Option::Some(0)
    } else {
        match spec_find_rule(rules.skip(1), name) {
            Option::Some(i) => Option::Some(i + 1),
            Option::None => Option::None,
        }
    }
}

/// `spec_find_rule` names the least position bearing the name.
pub proof fn lemma_spec_find_rule(rules: Seq<Rule>, name: Seq<char>)
    ensures
        match spec_find_rule(rules, name) {
            Option::Some(i) => 0 <= i < rules.len() && ci_eq(rules[i].name@, name) && (forall|
                j: int,
            | 0 <= j < i ==> !ci_eq((#[trigger] rules[j]).name@, name)),
            Option::None => forall|j: int|
                0 <= j < rules.len() ==> !ci_eq((#[trigger] rules[j]).name@, name),
        },
    decreases rules.len(),
{
    if rules.len() == 0 {
    } else if ci_eq(rules[0].name@, name) {
    } else {
        lemma_spec_find_rule(rules.skip(1), name);
        assert(forall|j: int| 1 <= j < rules.len() ==> rules.skip(1)[j - 1] == #[trigger] rules[j]);
    }
}

/// Setting a rule's value is visible to the next lookup: when a name
/// finds position `i` and the value there is replaced, the same name
/// still finds position `i`, and the value read back is the new one.
/// Together with `UnoGame::set_rule`'s contract (which refuses
/// out-of-bounds values with the table unchanged) this pins the
/// set-then-get round trip.
pub proof fn lemma_set_then_get(rules: Seq<Rule>, name: Seq<char>, i: int, value: i32)
    requires
        spec_find_rule(rules, name) == Option::Some(i),
    ensures
        spec_find_rule(rules.update(i, (Rule { value, ..rules[i] })), name) == Option::Some(i),
        rules.update(i, (Rule { value, ..rules[i] }))[i].value == value,
    decreases rules.len(),
{
    lemma_spec_find_rule(rules, name);
    let updated = rules.update(i, (Rule { value, ..rules[i] }));
    lemma_spec_find_rule(updated, name);
    assert(updated.len() == rules.len());
    assert(updated[i].name@ == rules[i].name@);
    assert(forall|j: int| 0 <= j < rules.len() && j != i ==> updated[j] == rules[j]);
    assert(ci_eq(updated[i].name@, name));
    match spec_find_rule(updated, name) {
        Option::Some(k) => {
            if k < i {
                assert(!ci_eq(rules[k].name@, name));
                assert(updated[k] == rules[k]);
            } else if k > i {
                assert(!ci_eq(updated[i].name@, name));
            }
        },
        Option::None => {
            assert(!ci_eq(updated[i].name@, name));
        },
    }
}

} // verus!
