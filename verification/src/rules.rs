//! Rules that send URLs matching a pattern to a chosen browser.
use vstd::prelude::*;
use vstd::string::*;
use crate::text::has_suffix;

verus! {

#[verifier::external_type_specification]
#[verifier::external_body]
pub struct ExRegex(regex::Regex);

/// Whether `regex::Regex::new` accepts a pattern.
pub uninterp spec fn regex_compiles(pattern: Seq<char>) -> bool;

/// `regex::Regex::new(pattern).ok()`. The contract claims that whether a
/// regex comes back depends on the pattern alone; the compiled regex itself
/// is opaque here.
#[verifier::external_body]
fn compile_pattern(pattern: &str) -> (r: Option<regex::Regex>)
    ensures
        r is Some <==> regex_compiles(pattern@),
{
    regex::Regex::new(pattern).ok()
}

/// A rule: URLs matching `pattern` (a substring, or a regex when `is_regex`
/// is `Some(true)`) open in `browser` (a browser spec).
#[derive(Debug)]
pub struct Rule {
    pub pattern: String,
    pub browser: String,
    pub is_regex: Option<bool>,
    pub compiled_regex: Option<regex::Regex>,
}

impl Rule {
    /// Pre-compiles the pattern of a regex rule, so that it is not compiled
    /// again for every match; a pattern that does not compile leaves no
    /// compiled regex. Other rules are left as they are.
    pub fn compile_regex(&mut self)
        ensures
            final(self).pattern == old(self).pattern,
            final(self).browser == old(self).browser,
            final(self).is_regex == old(self).is_regex,
            old(self).is_regex == Some(true) ==> (final(self).compiled_regex is Some
                <==> regex_compiles(old(self).pattern@)),
            old(self).is_regex != Some(true) ==> final(self).compiled_regex == old(
                self,
            ).compiled_regex,
    {
        let is_regex = match self.is_regex {
            Some(b) => b,
            None => false,
        };
        if is_regex {
            self.compiled_regex = compile_pattern(self.pattern.as_str());
        }
    }
}

/// The rule that `add_rule` appends.
pub open spec fn new_rule(pattern: String, browser: String, is_regex: bool) -> Rule {
    Rule { pattern, browser, is_regex: Some(is_regex), compiled_regex: None }
}

/// Appends a rule (not yet compiled) to the rule list.
pub fn add_rule(rules: &mut Vec<Rule>, pattern: String, browser: String, is_regex: bool)
    ensures
        final(rules)@ == old(rules)@.push(new_rule(pattern, browser, is_regex)),
{
    rules.push(Rule { pattern, browser, is_regex: Some(is_regex), compiled_regex: None });
}

/// Whether a rule survives removing `pattern`: its pattern differs.
pub open spec fn rule_kept(pattern: Seq<char>) -> spec_fn(Rule) -> bool {
    |r: Rule| r.pattern@ != pattern
}

/// Removes every rule whose pattern is `pattern`, keeping the others in
/// order; returns whether any was removed.
pub fn remove_rule(rules: &mut Vec<Rule>, pattern: &str) -> (removed: bool)
    ensures
        final(rules)@ == old(rules)@.filter(rule_kept(pattern@)),
        removed == (final(rules)@.len() < old(rules)@.len()),
{
    let ghost orig = rules@;
    let n = rules.len();
    let ghost keep = rule_kept(pattern@);
    let target = pattern.to_owned();
    let mut rest: Vec<Rule> = Vec::new();
    std::mem::swap(rules, &mut rest);
    let ghost mut k: int = 0;
    while rest.len() > 0
        invariant
            0 <= k,
            k + rest@.len() == orig.len(),
            rest@ == orig.subrange(k, orig.len() as int),
            rules@ == orig.subrange(0, k).filter(keep),
            keep == rule_kept(pattern@),
            target@ == pattern@,
        decreases rest@.len(),
    {
        let r = rest.remove(0);
        assert(r == orig[k]);
        assert(orig.subrange(0, k + 1).drop_last() =~= orig.subrange(0, k));
        reveal_with_fuel(Seq::filter, 1);
        if r.pattern != target {
            rules.push(r);
        }
        assert(rest@ =~= orig.subrange(k + 1, orig.len() as int));
        proof {
            k = k + 1;
        }
    }
    assert(orig.subrange(0, orig.len() as int) =~= orig);
    proof {
        orig.lemma_filter_len(keep);
    }
    rules.len() < n
}

/// After removing `pattern` no rule has it, and a rule was removed exactly
/// when one had it.
pub proof fn removal_clears_pattern(rules: Seq<Rule>, pattern: Seq<char>)
    ensures
        forall|k: int|
            0 <= k < rules.filter(rule_kept(pattern)).len() ==> (#[trigger] rules.filter(
                rule_kept(pattern),
            )[k]).pattern@ != pattern,
        rules.filter(rule_kept(pattern)).len() < rules.len() <==> exists|k: int|
            0 <= k < rules.len() && (#[trigger] rules[k]).pattern@ == pattern,
    decreases rules.len(),
{
    let keep = rule_kept(pattern);
    assert forall|k: int| 0 <= k < rules.filter(keep).len() implies (#[trigger] rules.filter(
        keep,
    )[k]).pattern@ != pattern by {
        rules.lemma_filter_pred(keep, k);
    }
    reveal_with_fuel(Seq::filter, 1);
    if rules.len() > 0 {
        let front = rules.drop_last();
        removal_clears_pattern(front, pattern);
        front.lemma_filter_len(keep);
        if exists|k: int| 0 <= k < front.len() && (#[trigger] front[k]).pattern@ == pattern {
            let k = choose|k: int| 0 <= k < front.len() && (#[trigger] front[k]).pattern@ == pattern;
            assert(rules[k] == front[k]);
        }
        if exists|k: int| 0 <= k < rules.len() && (#[trigger] rules[k]).pattern@ == pattern {
            let k = choose|k: int| 0 <= k < rules.len() && (#[trigger] rules[k]).pattern@ == pattern;
            if k < rules.len() - 1 {
                assert(front[k] == rules[k]);
            }
        }
    }
}

/// The decimal digits of `n`.
pub open spec fn decimal(n: nat) -> Seq<char>
    decreases n,
{
    if n < 10 {
        seq![digit_char(n)]
    } else {
        decimal(n / 10).push(digit_char(n % 10))
    }
}

/// The character of a decimal digit.
pub open spec fn digit_char(d: nat) -> char {
    ((d + 48) as u8) as char
}

/// The decimal text of `n`.
pub fn decimal_text(n: usize) -> (r: Vec<char>)
    ensures
        r@ == decimal(n as nat),
    decreases n,
{
    if n < 10 {
        let c = ((n as u8) + 48u8) as char;
        let mut r: Vec<char> = Vec::new();
        r.push(c);
        assert(r@ =~= decimal(n as nat));
        r
    } else {
        let mut r = decimal_text(n / 10);
        let d = n % 10;
        let c = ((d as u8) + 48u8) as char;
        r.push(c);
        r
    }
}

/// `true` or `false`.
pub open spec fn bool_text(b: bool) -> Seq<char> {
    if b {
        "true"@
    } else {
        "false"@
    }
}

/// The listing line of rule `i`.
pub open spec fn rule_line(i: nat, r: Rule) -> Seq<char> {
    decimal(i) + ": Pattern: "@ + r.pattern@ + ", Browser: "@ + r.browser@ + ", Is Regex: "@
        + bool_text(r.is_regex == Some(true))
}

/// The lines that list the rules: one per rule, numbered from 0, or a single
/// line saying there are none.
pub open spec fn rule_listing(rules: Seq<Rule>) -> Seq<Seq<char>> {
    if rules.len() == 0 {
        seq!["No rules defined."@]
    } else {
        Seq::new(rules.len(), |i: int| rule_line(i as nat, rules[i]))
    }
}

/// The lines that `list_rules` prints.
pub fn list_rule_lines(rules: &[Rule]) -> (r: Vec<String>)
    ensures
        r@.map_values(|s: String| s@) == rule_listing(rules@),
{
    let mut r: Vec<String> = Vec::new();
    if rules.len() == 0 {
        r.push("No rules defined.".to_owned());
        assert(r@.map_values(|s: String| s@) =~= rule_listing(rules@));
        return r;
    }
    let mut i: usize = 0;
    while i < rules.len()
        invariant
            i <= rules@.len(),
            rules@.len() > 0,
            r@.map_values(|s: String| s@) == rule_listing(rules@).subrange(0, i as int),
        decreases rules@.len() - i,
    {
        let rule = &rules[i];
        let num = crate::text::string_from_chars(decimal_text(i).as_slice());
        let flag = match rule.is_regex {
            Some(b) => b,
            None => false,
        };
        let flag_text = if flag {
            "true"
        } else {
            "false"
        };
        let line = num.concat(": Pattern: ").concat(rule.pattern.as_str()).concat(
            ", Browser: ",
        ).concat(rule.browser.as_str()).concat(", Is Regex: ").concat(flag_text);
        let ghost before = r@.map_values(|s: String| s@);
        r.push(line);
        assert(r@.map_values(|s: String| s@) =~= before.push(line@));
        assert(line@ == rule_line(i as nat, rules@[i as int]));
        assert(r@.map_values(|s: String| s@) =~= rule_listing(rules@).subrange(0, i + 1));
        i += 1;
    }
    assert(rule_listing(rules@).subrange(0, rules@.len() as int) =~= rule_listing(rules@));
    r
}


/// The listing shows a rule as a regex exactly when its flag is
/// `Some(true)`: the line of a rule whose flag is `Some(false)` or `None`
/// ends with `Is Regex: false`, and that of a rule flagged `Some(true)`
/// ends with `Is Regex: true`.
pub proof fn listing_shows_regex_flag(rules: Seq<Rule>, i: int)
    requires
        0 <= i < rules.len(),
    ensures
        rules[i].is_regex != Some(true) ==> has_suffix(rule_listing(rules)[i], "Is Regex: false"@),
        rules[i].is_regex == Some(true) ==> has_suffix(rule_listing(rules)[i], "Is Regex: true"@),
{
    reveal_strlit("Is Regex: false");
    reveal_strlit("Is Regex: true");
    reveal_strlit(", Is Regex: ");
    reveal_strlit("true");
    reveal_strlit("false");
    let r = rules[i];
    let line = rule_listing(rules)[i];
    let head = decimal(i as nat) + ": Pattern: "@ + r.pattern@ + ", Browser: "@ + r.browser@;
    assert(line == head + ", Is Regex: "@ + bool_text(r.is_regex == Some(true)));
    if r.is_regex == Some(true) {
        let sfx = "Is Regex: true"@;
        assert(line.subrange(line.len() - sfx.len(), line.len() as int) =~= sfx);
    } else {
        let sfx = "Is Regex: false"@;
        assert(line.subrange(line.len() - sfx.len(), line.len() as int) =~= sfx);
    }
}

} // verus!
