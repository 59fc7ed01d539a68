//! The ordered transition-rule table: the first rule whose state and
//! inclusive value range match decides the next cell type.

use vstd::prelude::*;

use crate::cell_type::{CellType, FieldType};
use crate::random::random_usize;

verus! {

/// When the accumulated value of a cell of type `state` lies in
/// `range_start..=range_end`, the cell becomes `transition`.  An attached
/// probability (in parts per thousand) makes the transition fire only on a
/// matching random draw; a non-firing match falls through to later rules.
#[derive(Copy, Clone, Debug, PartialEq, Eq, Structural)]
pub struct Rule {
    pub state: CellType,
    pub range_start: FieldType,
    pub range_end: FieldType,
    pub transition: CellType,
    pub transition_probability: Option<u32>,
}

impl Rule {
    /// Whether this rule applies to a cell of type `cell` with accumulated
    /// value `conv`.
    pub open spec fn spec_matches(self, cell: CellType, conv: FieldType) -> bool {
        self.state == cell && self.range_start <= conv <= self.range_end
    }

    /// Whether this rule applies to `(cell, conv)`.
    pub fn matches(&self, cell: CellType, conv: FieldType) -> (r: bool)
        ensures
            r == self.spec_matches(cell, conv),
    {
        self.state == cell && self.range_start <= conv && conv <= self.range_end
    }
}

/// The result of scanning `rules` from index `k` on: the transition of the
/// first matching rule, or `initial` when none matches.
pub open spec fn first_match_from(
    rules: Seq<Rule>,
    k: int,
    initial: CellType,
    conv: FieldType,
) -> CellType
    decreases rules.len() - k,
{
    if k < 0 || k >= rules.len() {
        initial
    } else if rules[k].spec_matches(initial, conv) {
        rules[k].transition
    } else {
        first_match_from(rules, k + 1, initial, conv)
    }
}

/// The transition of the first rule in `rules` matching `(initial, conv)`,
/// or `initial` when none matches.
pub open spec fn first_match(rules: Seq<Rule>, initial: CellType, conv: FieldType) -> CellType {
    first_match_from(rules, 0, initial, conv)
}

/// An ordered list of transition rules; earlier rules win.
#[derive(Clone)]
pub struct RuleSet {
    pub rules: Vec<Rule>,
}

impl RuleSet {
    /// Scan the rules in order and return the first matching rule's
    /// transition; with no match the cell keeps its type.  Attached
    /// probabilities are ignored here.
    pub fn apply(&self, initial_value: CellType, convolution: FieldType) -> (r: CellType)
        ensures
            r == first_match(self.rules@, initial_value, convolution),
    {
        let n = self.rules.len();
        let mut i: usize = 0;
        while i < n
            invariant
                i <= n,
                n == self.rules@.len(),
                first_match(self.rules@, initial_value, convolution) == first_match_from(
                    self.rules@,
                    i as int,
                    initial_value,
                    convolution,
                ),
            decreases n - i,
        {
            let rule = self.rules[i];
            if rule.matches(initial_value, convolution) {
                return rule.transition;
            }
            i = i + 1;
        }
        initial_value
    }

    /// Like [`RuleSet::apply`], but a matching rule with an attached
    /// probability fires only when a fresh uniform draw in `0..1000` falls
    /// below it; a non-firing match falls through to later rules.  Whatever
    /// the draws, the result is either the transition of some matching rule
    /// or the unchanged initial value, and when no matching rule carries a
    /// probability the result equals [`first_match`].
    pub fn apply_random(&self, initial_value: CellType, convolution: FieldType) -> (r: CellType)
        ensures
            r == initial_value || exists|i: int|
                0 <= i < self.rules@.len() && (#[trigger] self.rules@[i]).spec_matches(
                    initial_value,
                    convolution,
                ) && r == self.rules@[i].transition,
            (forall|i: int|
                0 <= i < self.rules@.len() ==> !(#[trigger] self.rules@[i]).spec_matches(
                    initial_value,
                    convolution,
                )) ==> r == initial_value,
            (forall|i: int|
                0 <= i < self.rules@.len() && (#[trigger] self.rules@[i]).spec_matches(
                    initial_value,
                    convolution,
                ) ==> self.rules@[i].transition_probability is None) ==> r == first_match(
                self.rules@,
                initial_value,
                convolution,
            ),
    {
        let n = self.rules.len();
        let mut i: usize = 0;
        while i < n
            invariant
                i <= n,
                n == self.rules@.len(),
                forall|j: int|
                    0 <= j < i ==> !(#[trigger] self.rules@[j]).spec_matches(
                        initial_value,
                        convolution,
                    ) || self.rules@[j].transition_probability is Some,
                (forall|j: int|
                    0 <= j < self.rules@.len() && (#[trigger] self.rules@[j]).spec_matches(
                        initial_value,
                        convolution,
                    ) ==> self.rules@[j].transition_probability is None) ==> first_match(
                    self.rules@,
                    initial_value,
                    convolution,
                ) == first_match_from(self.rules@, i as int, initial_value, convolution),
            decreases n - i,
        {
            let rule = self.rules[i];
            if rule.matches(initial_value, convolution) {
                let fire = match rule.transition_probability {
                    Option::None => true,
                    Option::Some(p) => {
                        let draw = random_usize(0, 1000);
                        draw < p as usize
                    },
                };
                if fire {
                    return rule.transition;
                }
            }
            i = i + 1;
        }
        initial_value
    }
}

/// The rules that [`classic_rules`] builds.
pub open spec fn spec_classic_rules() -> Seq<Rule> {
    seq![
        Rule {
            state: CellType::A,
            range_start: 0,
            range_end: 1,
            transition: CellType::NoCell,
            transition_probability: None,
        },
        Rule {
            state: CellType::A,
            range_start: 4,
            range_end: 8,
            transition: CellType::NoCell,
            transition_probability: None,
        },
        Rule {
            state: CellType::NoCell,
            range_start: 3,
            range_end: 3,
            transition: CellType::A,
            transition_probability: None,
        },
    ]
}

/// The classic life-like rule set: a live `A` cell starves below 2 or
/// suffocates above 3, and an empty cell with exactly 3 live neighbours
/// comes alive.
pub fn classic_rules() -> (r: RuleSet)
    ensures
        r.rules@ == spec_classic_rules(),
        r.rules@.len() == 3,
        r.rules@[0] == (Rule {
            state: CellType::A,
            range_start: 0,
            range_end: 1,
            transition: CellType::NoCell,
            transition_probability: None,
        }),
        r.rules@[1] == (Rule {
            state: CellType::A,
            range_start: 4,
            range_end: 8,
            transition: CellType::NoCell,
            transition_probability: None,
        }),
        r.rules@[2] == (Rule {
            state: CellType::NoCell,
            range_start: 3,
            range_end: 3,
            transition: CellType::A,
            transition_probability: None,
        }),
    {
    let mut rules: Vec<Rule> = Vec::new();
    rules.push(
        Rule {
            state: CellType::A,
            range_start: 0,
            range_end: 1,
            transition: CellType::NoCell,
            transition_probability: None,
        },
    );
    rules.push(
        Rule {
            state: CellType::A,
            range_start: 4,
            range_end: 8,
            transition: CellType::NoCell,
            transition_probability: None,
        },
    );
    rules.push(
        Rule {
            state: CellType::NoCell,
            range_start: 3,
            range_end: 3,
            transition: CellType::A,
            transition_probability: None,
        },
    );
    proof {
        assert(rules@ =~= spec_classic_rules());
    }
    RuleSet { rules }
}

/// A rule set that makes sparse live regions flicker like flames.
pub fn flame_rules() -> (r: RuleSet)
    ensures
        r.rules@.len() == 3,
        r.rules@[0] == (Rule {
            state: CellType::A,
            range_start: 0,
            range_end: 3,
            transition: CellType::NoCell,
            transition_probability: None,
        }),
        r.rules@[1] == (Rule {
            state: CellType::A,
            range_start: 10,
            range_end: 28,
            transition: CellType::NoCell,
            transition_probability: None,
        }),
        r.rules@[2] == (Rule {
            state: CellType::NoCell,
            range_start: 6,
            range_end: 8,
            transition: CellType::A,
            transition_probability: None,
        }),
    {
    let mut rules: Vec<Rule> = Vec::new();
    rules.push(
        Rule {
            state: CellType::A,
            range_start: 0,
            range_end: 3,
            transition: CellType::NoCell,
            transition_probability: None,
        },
    );
    rules.push(
        Rule {
            state: CellType::A,
            range_start: 10,
            range_end: 28,
            transition: CellType::NoCell,
            transition_probability: None,
        },
    );
    rules.push(
        Rule {
            state: CellType::NoCell,
            range_start: 6,
            range_end: 8,
            transition: CellType::A,
            transition_probability: None,
        },
    );
    RuleSet { rules }
}

/// Rule precedence: when two rules both match, the earlier-indexed one
/// decides the transition.  In particular, when the rule at index `i`
/// matches and no rule before it does, the result of [`first_match`] is
/// exactly rule `i`'s transition.
pub proof fn lemma_rule_first_match_wins(
    rules: Seq<Rule>,
    initial: CellType,
    conv: FieldType,
    i: int,
)
    requires
        0 <= i < rules.len(),
        rules[i].spec_matches(initial, conv),
        forall|j: int| 0 <= j < i ==> !(#[trigger] rules[j]).spec_matches(initial, conv),
    ensures
        first_match(rules, initial, conv) == rules[i].transition,
{
    assert forall|k: int|
        0 <= k <= i implies first_match_from(rules, k, initial, conv) == rules[i].transition by {
        lemma_first_match_from_step(rules, initial, conv, i, k);
    }
}

/// Helper for [`lemma_rule_first_match_wins`]: scanning from any index at
/// or before the first matching rule lands on that rule.
proof fn lemma_first_match_from_step(
    rules: Seq<Rule>,
    initial: CellType,
    conv: FieldType,
    i: int,
    k: int,
)
    requires
        0 <= k <= i < rules.len(),
        rules[i].spec_matches(initial, conv),
        forall|j: int| 0 <= j < i ==> !(#[trigger] rules[j]).spec_matches(initial, conv),
    ensures
        first_match_from(rules, k, initial, conv) == rules[i].transition,
    decreases i - k,
{
    if k < i {
        lemma_first_match_from_step(rules, initial, conv, i, k + 1);
    }
}

} // verus!
