//! Birth/survive rule tables and the two surface grammars that describe
//! them.
//!
//! A rule table has nine entries, indexed by the number of live Moore
//! neighbors (0 through 8). The empty rule string denotes the standard Life
//! rule B3/S23. Two grammars are accepted:
//!
//! * the tagged form (`dfa_rules`): `B`/`b` starts collecting birth counts,
//!   `S`/`s` starts collecting survival counts, and digits fill the current
//!   table — `"B3S23"`, `"b3s23"` and `"S23B3"` all mean B3/S23;
//! * the split form (`split_rules`): the string is cut at every `s` or `S`;
//!   a segment whose first character is `b` or `B` contributes its digits to
//!   the birth table, any other segment contributes its digits to the
//!   survival table — `"b3s23"` again means B3/S23.
//!
//! In both grammars a digit outside 0–8 or an unrecognized character is a
//! `RuleParseError` that carries the offending rule string.

use vstd::prelude::*;

verus! {

/// Two nine-entry tables: `birth[n]` tells whether a dead cell with `n`
/// live neighbors is born, `survive[n]` whether a live cell with `n` live
/// neighbors survives.
#[derive(Clone, Copy, Debug)]
pub struct RuleSet {
    pub birth: [bool; 9],
    pub survive: [bool; 9],
}

/// A rule string that fits neither grammar; carries the string itself.
#[derive(Clone, Debug)]
pub struct RuleParseError {
    pub rule: String,
}

/// The standard Life birth table: birth on exactly three neighbors.
pub open spec fn default_birth() -> Seq<bool> {
    seq![false, false, false, true, false, false, false, false, false]
}

/// The standard Life survival table: survival on two or three neighbors.
pub open spec fn default_survive() -> Seq<bool> {
    seq![false, false, true, true, false, false, false, false, false]
}

/// An all-false rule table.
pub open spec fn blank_table() -> Seq<bool> {
    Seq::new(9, |i: int| false)
}

/// Whether `c` is an ASCII digit.
pub open spec fn is_digit(c: char) -> bool {
    48 <= c as u32 <= 57
}

/// The numeric value of an ASCII digit.
pub open spec fn digit_val(c: char) -> int {
    c as u32 - 48
}

/// The tagged-grammar automaton, from an intermediate state. `state` is 0
/// before any phase marker, 1 while collecting births, 2 while collecting
/// survivals. Returns the finished tables, or `None` on a violation:
/// re-entering the current phase, a digit before any marker, a digit
/// outside 0–8, or a foreign character.
pub open spec fn dfa_from(s: Seq<char>, state: int, birth: Seq<bool>, survive: Seq<bool>) -> Option<
    (Seq<bool>, Seq<bool>),
>
    decreases s.len(),
{
    if s.len() == 0 {
        Some((birth, survive))
    } else {
        let c = s[0];
        if c == 'b' || c == 'B' {
            if state == 0 || state == 2 {
                dfa_from(s.drop_first(), 1, birth, survive)
            } else {
                None
            }
        } else if c == 's' || c == 'S' {
            if state == 0 || state == 1 {
                dfa_from(s.drop_first(), 2, birth, survive)
            } else {
                None
            }
        } else if is_digit(c) {
            if digit_val(c) > 8 {
                None
            } else if state == 1 {
                dfa_from(s.drop_first(), 1, birth.update(digit_val(c), true), survive)
            } else if state == 2 {
                dfa_from(s.drop_first(), 2, birth, survive.update(digit_val(c), true))
            } else {
                None
            }
        } else {
            None
        }
    }
}

/// What the tagged grammar makes of a whole rule string. The empty string
/// is the standard rule B3/S23.
pub open spec fn parse_rule_string(s: Seq<char>) -> Option<(Seq<bool>, Seq<bool>)> {
    if s.len() == 0 {
        Some((default_birth(), default_survive()))
    } else {
        dfa_from(s, 0, blank_table(), blank_table())
    }
}

/// The split-grammar automaton. `seg_start` is true right after a cut (or
/// at the very beginning), `in_birth` tells which table the current
/// segment's digits fill.
pub open spec fn split_from(
    s: Seq<char>,
    seg_start: bool,
    in_birth: bool,
    birth: Seq<bool>,
    survive: Seq<bool>,
) -> Option<(Seq<bool>, Seq<bool>)>
    decreases s.len(),
{
    if s.len() == 0 {
        Some((birth, survive))
    } else {
        let c = s[0];
        if c == 's' || c == 'S' {
            split_from(s.drop_first(), true, false, birth, survive)
        } else if (c == 'b' || c == 'B') && seg_start {
            split_from(s.drop_first(), false, true, birth, survive)
        } else if is_digit(c) && digit_val(c) <= 8 {
            if in_birth {
                split_from(s.drop_first(), false, true, birth.update(digit_val(c), true), survive)
            } else {
                split_from(s.drop_first(), false, false, birth, survive.update(digit_val(c), true))
            }
        } else {
            None
        }
    }
}

/// What the split grammar makes of a whole rule string. The empty string
/// is the standard rule B3/S23.
pub open spec fn parse_split_rule_string(s: Seq<char>) -> Option<(Seq<bool>, Seq<bool>)> {
    if s.len() == 0 {
        Some((default_birth(), default_survive()))
    } else {
        split_from(s, true, false, blank_table(), blank_table())
    }
}

impl RuleSet {
    /// The standard Life rule, B3/S23.
    pub fn standard() -> (rs: RuleSet)
        ensures
            rs.birth@ == default_birth(),
            rs.survive@ == default_survive(),
    {
        let rs = RuleSet {
            birth: [false, false, false, true, false, false, false, false, false],
            survive: [false, false, true, true, false, false, false, false, false],
        };
        proof {
            assert(rs.birth@ =~= default_birth());
            assert(rs.survive@ =~= default_survive());
        }
        rs
    }
}

/// Parses a rule string in the tagged grammar: `B`/`b` opens the birth
/// phase, `S`/`s` the survival phase, digits 0–8 fill the open phase's
/// table, and the empty string means B3/S23. Any other input is rejected
/// with a `RuleParseError` carrying the string.
pub fn dfa_rules(rule_str: &str) -> (r: Result<RuleSet, RuleParseError>)
    ensures
        r is Ok <==> parse_rule_string(rule_str@) is Some,
        r matches Ok(rs) ==> parse_rule_string(rule_str@) == Some((rs.birth@, rs.survive@)),
        r matches Err(e) ==> e.rule@ == rule_str@,
{
    let len = rule_str.unicode_len();
    if len == 0 {
        return Ok(RuleSet::standard());
    }
    let mut birth: [bool; 9] = [false, false, false, false, false, false, false, false, false];
    let mut survive: [bool; 9] = [false, false, false, false, false, false, false, false, false];
    let mut state: u8 = 0;
    proof {
        assert(birth@ =~= blank_table());
        assert(survive@ =~= blank_table());
        assert(rule_str@.skip(0) =~= rule_str@);
    }
    let mut i: usize = 0;
    while i < len
        invariant
            len == rule_str@.len(),
            0 <= i <= len,
            state == 0 || state == 1 || state == 2,
            dfa_from(rule_str@.skip(i as int), state as int, birth@, survive@) == dfa_from(
                rule_str@,
                0,
                blank_table(),
                blank_table(),
            ),
        decreases len - i,
    {
        let c = rule_str.get_char(i);
        proof {
            assert(rule_str@.skip(i as int)[0] == rule_str@[i as int]);
            assert(rule_str@.skip(i as int).drop_first() =~= rule_str@.skip(i as int + 1));
        }
        if c == 'b' || c == 'B' {
            if state == 0 || state == 2 {
                state = 1;
            } else {
                return Err(RuleParseError { rule: rule_str.to_owned() });
            }
        } else if c == 's' || c == 'S' {
            if state == 0 || state == 1 {
                state = 2;
            } else {
                return Err(RuleParseError { rule: rule_str.to_owned() });
            }
        } else if c >= '0' && c <= '9' {
            let d = (c as u32 - 48) as usize;
            if d > 8 {
                return Err(RuleParseError { rule: rule_str.to_owned() });
            } else if state == 1 {
                birth[d] = true;
            } else if state == 2 {
                survive[d] = true;
            } else {
                return Err(RuleParseError { rule: rule_str.to_owned() });
            }
        } else {
            return Err(RuleParseError { rule: rule_str.to_owned() });
        }
        i += 1;
    }
    proof {
        assert(rule_str@.skip(len as int) =~= Seq::<char>::empty());
    }
    Ok(RuleSet { birth, survive })
}

/// Parses a rule string in the split grammar: the string is cut at every
/// `s`/`S`; a segment whose first character is `b`/`B` fills the birth
/// table with its digits, every other segment fills the survival table.
/// The empty string means B3/S23. A digit outside 0–8, or any character
/// that is neither a digit, a cut, nor a segment-leading `b`, is rejected
/// with a `RuleParseError` carrying the string.
pub fn split_rules(rule_str: &str) -> (r: Result<RuleSet, RuleParseError>)
    ensures
        r is Ok <==> parse_split_rule_string(rule_str@) is Some,
        r matches Ok(rs) ==> parse_split_rule_string(rule_str@) == Some((rs.birth@, rs.survive@)),
        r matches Err(e) ==> e.rule@ == rule_str@,
{
    let len = rule_str.unicode_len();
    if len == 0 {
        return Ok(RuleSet::standard());
    }
    let mut birth: [bool; 9] = [false, false, false, false, false, false, false, false, false];
    let mut survive: [bool; 9] = [false, false, false, false, false, false, false, false, false];
    let mut seg_start: bool = true;
    let mut in_birth: bool = false;
    proof {
        assert(birth@ =~= blank_table());
        assert(survive@ =~= blank_table());
        assert(rule_str@.skip(0) =~= rule_str@);
    }
    let mut i: usize = 0;
    while i < len
        invariant
            len == rule_str@.len(),
            0 <= i <= len,
            split_from(rule_str@.skip(i as int), seg_start, in_birth, birth@, survive@)
                == split_from(rule_str@, true, false, blank_table(), blank_table()),
        decreases len - i,
    {
        let c = rule_str.get_char(i);
        proof {
            assert(rule_str@.skip(i as int)[0] == rule_str@[i as int]);
            assert(rule_str@.skip(i as int).drop_first() =~= rule_str@.skip(i as int + 1));
        }
        if c == 's' || c == 'S' {
            seg_start = true;
            in_birth = false;
        } else if (c == 'b' || c == 'B') && seg_start {
            seg_start = false;
            in_birth = true;
        } else if c >= '0' && c <= '8' {
            let d = (c as u32 - 48) as usize;
            if in_birth {
                birth[d] = true;
            } else {
                survive[d] = true;
            }
            seg_start = false;
        } else {
            return Err(RuleParseError { rule: rule_str.to_owned() });
        }
        i += 1;
    }
    proof {
        assert(rule_str@.skip(len as int) =~= Seq::<char>::empty());
    }
    Ok(RuleSet { birth, survive })
}

} // verus!
