//! Ignore rules for the commit scan: substring, star-glob, and tag rules,
//! matched case-insensitively.

use vstd::prelude::*;

use crate::text;
use crate::trusted::{self, lower_of};

verus! {

/// The model of a rule: its pattern, already lowercased.
pub enum IgnoreRuleV {
    Substring(Seq<char>),
    Glob(Seq<char>),
    Tag(Seq<char>),
}

/// One ignore rule; patterns are stored lowercased.
#[derive(Debug)]
pub enum IgnoreRule {
    /// Matches when the description contains this text.
    Substring(String),
    /// Matches when the description matches this `*`-wildcard pattern.
    Glob(String),
    /// Matches when the task carries this tag.
    Tag(String),
}

impl View for IgnoreRule {
    type V = IgnoreRuleV;

    open spec fn view(&self) -> IgnoreRuleV {
        match self {
            IgnoreRule::Substring(s) => IgnoreRuleV::Substring(s@),
            IgnoreRule::Glob(s) => IgnoreRuleV::Glob(s@),
            IgnoreRule::Tag(s) => IgnoreRuleV::Tag(s@),
        }
    }
}

impl DeepView for IgnoreRule {
    type V = IgnoreRuleV;

    open spec fn deep_view(&self) -> IgnoreRuleV {
        self.view()
    }
}

/// The final scan position after matching the glob pieces left to right,
/// or nothing when a piece cannot be found.
pub open spec fn spec_glob_loop(parts: Seq<Seq<char>>, text: Seq<char>, i: int, pos: int)
    -> Option<int>
    decreases parts.len() - i,
{
    if i < 0 || i >= parts.len() {
        Some(pos)
    } else if parts[i].len() == 0 {
        spec_glob_loop(parts, text, i + 1, pos)
    } else {
        match text::spec_find_sub(text, parts[i], pos) {
            None => None,
            Some(idx) => if i == 0 && idx != 0 {
                None
            } else {
                spec_glob_loop(parts, text, i + 1, idx + parts[i].len())
            },
        }
    }
}

/// Star-wildcard matching as this library defines it: the pattern's
/// star-separated pieces must occur in order; without a leading star the
/// first piece anchors at the start, without a trailing star the last match
/// must reach the end.
pub open spec fn spec_glob_match(pattern: Seq<char>, text: Seq<char>) -> bool {
    let parts = text::spec_split(pattern, '*');
    if parts.len() == 1 {
        text == pattern
    } else {
        match spec_glob_loop(parts, text, 0, 0) {
            None => false,
            Some(pos) => if pattern.len() > 0 && pattern.last() == '*' {
                true
            } else {
                pos == text.len()
            },
        }
    }
}

/// Matches a `*`-wildcard pattern against text; both are expected already
/// lowercased.
pub fn glob_match(pattern: &Vec<char>, tx: &Vec<char>) -> (r: bool)
    ensures
        r == spec_glob_match(pattern@, tx@),
{
    let parts = text::split_char(pattern, '*');
    let ghost pv = parts.deep_view();
    if parts.len() == 1 {
        return text::chars_eq(tx, pattern);
    }
    let n = parts.len();
    let tn = tx.len();
    let mut i: usize = 0;
    let mut pos: usize = 0;
    while i < n
        invariant
            i <= n,
            pos <= tn,
            tn == tx@.len(),
            n == parts@.len(),
            n == pv.len(),
            n > 1,
            pv == parts.deep_view(),
            pv == text::spec_split(pattern@, '*'),
            spec_glob_loop(pv, tx@, 0, 0) == spec_glob_loop(pv, tx@, i as int, pos as int),
        decreases n - i,
    {
        proof {
            assert(parts@[i as int]@ == pv[i as int]);
        }
        if parts[i].len() == 0 {
            i = i + 1;
            continue ;
        }
        match text::find_sub(tx, &parts[i], pos) {
            None => {
                return false;
            },
            Some(idx) => {
                if i == 0 && idx != 0 {
                    return false;
                }
                proof {
                    text::lemma_find_sub_bounds(tx@, pv[i as int], pos as int);
                }
                pos = idx + parts[i].len();
                i = i + 1;
            },
        }
    }
    let ends_star = pattern.len() > 0 && pattern[pattern.len() - 1] == '*';
    if !ends_star {
        pos == tn
    } else {
        true
    }
}

/// Whether a rule fires for a task with this lowercased description and
/// these tags.
pub open spec fn rule_matches(r: IgnoreRuleV, desc_lower: Seq<char>, tags: Seq<Seq<char>>)
    -> bool {
    match r {
        IgnoreRuleV::Substring(p) => text::spec_contains(desc_lower, p),
        IgnoreRuleV::Glob(p) => spec_glob_match(p, desc_lower),
        IgnoreRuleV::Tag(t) => exists|i: int|
            0 <= i < tags.len() && lower_of(#[trigger] tags[i]) == t,
    }
}

/// What one trimmed, nonempty rule line denotes.
pub open spec fn spec_parse_rule(l: Seq<char>) -> IgnoreRuleV {
    if l.len() > 0 && l[0] == '#' {
        IgnoreRuleV::Tag(lower_of(l.skip(1)))
    } else if text::spec_contains(l, seq!['*']) {
        IgnoreRuleV::Glob(lower_of(l))
    } else {
        IgnoreRuleV::Substring(lower_of(l))
    }
}

/// The rules in a file's lines: trimmed, with blank lines and `#` comments
/// dropped.
pub open spec fn spec_rules(lines: Seq<Seq<char>>, i: int) -> Seq<IgnoreRuleV>
    decreases lines.len() - i,
{
    if i < 0 || i >= lines.len() {
        Seq::empty()
    } else {
        let t = text::spec_trim(lines[i]);
        if t.len() == 0 || t[0] == '#' {
            spec_rules(lines, i + 1)
        } else {
            seq![spec_parse_rule(t)] + spec_rules(lines, i + 1)
        }
    }
}

/// The ignore rules a project carries.
#[derive(Debug)]
pub struct IgnoreStorage {
    pub rules: Vec<IgnoreRule>,
}

impl View for IgnoreStorage {
    type V = Seq<IgnoreRuleV>;

    open spec fn view(&self) -> Seq<IgnoreRuleV> {
        self.rules.deep_view()
    }
}

/// Parses one rule line: a `#` prefix names a tag rule, a `*` inside makes
/// a glob, anything else a substring; patterns are lowercased.
pub fn parse_rule(line: &str) -> (r: Option<IgnoreRule>)
    ensures
        r matches Some(rule) && rule@ == spec_parse_rule(line@),
{
    let lc = text::str_to_chars(line);
    if lc.len() > 0 && lc[0] == '#' {
        let rest = text::subvec(&lc, 1, lc.len());
        proof {
            assert(rest@ =~= line@.skip(1));
        }
        let rest_s = text::chars_to_string(&rest);
        Some(IgnoreRule::Tag(trusted::lowercase(rest_s.as_str())))
    } else {
        let star = text::str_to_chars("*");
        proof {
            reveal_strlit("*");
            assert(star@ =~= seq!['*']);
        }
        if text::contains_sub(&lc, &star) {
            Some(IgnoreRule::Glob(trusted::lowercase(line)))
        } else {
            Some(IgnoreRule::Substring(trusted::lowercase(line)))
        }
    }
}

impl IgnoreStorage {
    /// An empty rule set.
    pub fn new() -> (r: IgnoreStorage)
        ensures
            r@.len() == 0,
    {
        IgnoreStorage { rules: Vec::new() }
    }

    /// Parses the rules out of an ignore file's text.
    pub fn from_content(content: &str) -> (r: IgnoreStorage)
        ensures
            r@ == spec_rules(text::spec_lines(content@), 0),
    {
        let chars = text::str_to_chars(content);
        let dlines = text::lines_of(&chars);
        let ghost lv = text::spec_lines(content@);
        proof {
            assert(dlines.deep_view() == lv);
        }
        let mut rules: Vec<IgnoreRule> = Vec::new();
        let n = dlines.len();
        let mut i: usize = 0;
        proof {
            assert(rules.deep_view() =~~= Seq::<IgnoreRuleV>::empty());
        }
        while i < n
            invariant
                i <= n,
                n == dlines@.len(),
                n == lv.len(),
                lv == dlines.deep_view(),
                rules.deep_view() + spec_rules(lv, i as int) == spec_rules(lv, 0),
            decreases n - i,
        {
            proof {
                assert(dlines@[i as int]@ == lv[i as int]);
            }
            let t = text::trim(&dlines[i]);
            if t.len() > 0 && !(t[0] == '#') {
                let ts = text::chars_to_string(&t);
                match parse_rule(ts.as_str()) {
                    Some(rule) => {
                        let ghost prev = rules.deep_view();
                        let ghost rv = rule@;
                        rules.push(rule);
                        proof {
                            assert(rules.deep_view() =~~= prev.push(rv));
                            assert(rules.deep_view() + spec_rules(lv, i as int + 1) =~~= prev + (
                            seq![rv] + spec_rules(lv, i as int + 1)));
                        }
                    },
                    None => {},
                }
            }
            i = i + 1;
        }
        proof {
            assert(rules.deep_view() =~~= spec_rules(lv, 0));
        }
        IgnoreStorage { rules }
    }

    /// Whether a task with this description and these tags should be left
    /// out of the scan.
    pub fn is_ignored(&self, description: &str, tags: &Vec<String>) -> (r: bool)
        ensures
            r == exists|k: int|
                0 <= k < self@.len() && rule_matches(
                    #[trigger] self@[k],
                    lower_of(description@),
                    tags.deep_view(),
                ),
    {
        let desc_lower_s = trusted::lowercase(description);
        let desc_lower = text::str_to_chars(desc_lower_s.as_str());
        let n = self.rules.len();
        let mut k: usize = 0;
        while k < n
            invariant
                k <= n,
                n == self.rules@.len(),
                n == self@.len(),
                desc_lower@ == lower_of(description@),
                forall|t: int|
                    0 <= t < k ==> !rule_matches(
                        #[trigger] self@[t],
                        lower_of(description@),
                        tags.deep_view(),
                    ),
            decreases n - k,
        {
            proof {
                assert(self.rules@[k as int]@ == self@[k as int]);
            }
            let hit: bool = match &self.rules[k] {
                IgnoreRule::Substring(p) => {
                    let pc = text::str_to_chars(p.as_str());
                    text::contains_sub(&desc_lower, &pc)
                },
                IgnoreRule::Glob(p) => {
                    let pc = text::str_to_chars(p.as_str());
                    glob_match(&pc, &desc_lower)
                },
                IgnoreRule::Tag(t) => {
                    let mut found = false;
                    let m = tags.len();
                    let mut j: usize = 0;
                    while j < m
                        invariant
                            j <= m,
                            m == tags@.len(),
                            m == tags.deep_view().len(),
                            found <==> exists|a: int|
                                0 <= a < j && lower_of(#[trigger] tags.deep_view()[a]) == t@,
                        decreases m - j,
                    {
                        proof {
                            assert(tags@[j as int]@ == tags.deep_view()[j as int]);
                        }
                        let tag_lower = trusted::lowercase(tags[j].as_str());
                        if tag_lower.eq(t) {
                            found = true;
                        }
                        j = j + 1;
                    }
                    found
                },
            };
            if hit {
                proof {
                    assert(rule_matches(self@[k as int], lower_of(description@),
                        tags.deep_view()));
                }
                return true;
            }
            k = k + 1;
        }
        false
    }
}

} // verus!
