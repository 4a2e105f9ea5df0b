//! Query options that are plain choices: where prefix search applies, and
//! how the results of several terms or subqueries combine.
use vstd::prelude::*;

verus! {

/// Which query terms are matched by prefix.
#[derive(Clone, Copy, Debug, PartialEq, Eq)]
pub enum Prefix {
    /// All terms, or none.
    Enabled(bool),
    /// Only the last query term: the default for auto-suggestions.
    LastTerm,
}

impl Prefix {
    /// Whether the term at `position` of `count` query terms is matched by
    /// prefix.
    pub fn applies(&self, position: usize, count: usize) -> (prefix: bool)
        requires
            position < count,
        ensures
            prefix == match *self {
                Prefix::Enabled(enabled) => enabled,
                Prefix::LastTerm => position == count - 1,
            },
    {
        match self {
            Prefix::Enabled(enabled) => *enabled,
            Prefix::LastTerm => position == count - 1,
        }
    }
}

/// How results combine.
#[derive(Clone, Copy, Debug, PartialEq, Eq)]
pub enum Combine {
    /// Documents matching either side.
    Or,
    /// Documents matching both sides.
    And,
    /// Documents matching the first side but not the second.
    AndNot,
}

/// The combination operator that `text` names, ignoring case: `or`, `and`
/// or `and_not`.
pub open spec fn combine_named(lower: Seq<char>) -> Option<Combine> {
    if lower == seq!['o', 'r'] {
        Some(Combine::Or)
    } else if lower == seq!['a', 'n', 'd'] {
        Some(Combine::And)
    } else if lower == seq!['a', 'n', 'd', '_', 'n', 'o', 't'] {
        Some(Combine::AndNot)
    } else {
        None
    }
}

/// Parses a combination operator, ignoring case.
pub fn parse_combine(text: &str) -> (combine: Option<Combine>)
    ensures
        combine == combine_named(crate::tokens::lowercase_text(text@)),
{
    let lower = crate::tokens::lowercase(text);
    let chars = crate::text::chars_of(lower.as_str());
    if chars.len() == 2 && chars[0] == 'o' && chars[1] == 'r' {
        proof {
            assert(chars@ =~= seq!['o', 'r']);
        }
        Some(Combine::Or)
    } else if chars.len() == 3 && chars[0] == 'a' && chars[1] == 'n' && chars[2] == 'd' {
        proof {
            assert(chars@ =~= seq!['a', 'n', 'd']);
        }
        Some(Combine::And)
    } else if chars.len() == 7 && chars[0] == 'a' && chars[1] == 'n' && chars[2] == 'd' && chars[3]
        == '_' && chars[4] == 'n' && chars[5] == 'o' && chars[6] == 't' {
        proof {
            assert(chars@ =~= seq!['a', 'n', 'd', '_', 'n', 'o', 't']);
        }
        Some(Combine::AndNot)
    } else {
        proof {
            if chars@ == seq!['o', 'r'] {
                assert(chars@.len() == 2 && chars@[0] == 'o' && chars@[1] == 'r');
            }
            if chars@ == seq!['a', 'n', 'd'] {
                assert(chars@.len() == 3 && chars@[0] == 'a');
            }
            if chars@ == seq!['a', 'n', 'd', '_', 'n', 'o', 't'] {
                assert(chars@.len() == 7 && chars@[0] == 'a' && chars@[3] == '_');
            }
        }
        None
    }
}

} // verus!
