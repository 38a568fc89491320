//! Rules that pick domain names: exact names, suffixes, keywords and top level
//! domains, one rule per line of a text file.
use crate::error::bad_input;
use crate::error::Error;
use crate::error::ErrorKind;
use crate::error::Failure;
use crate::text::blank;
use crate::text::chars_of;
use crate::text::contains_chars;
use crate::text::contains_text;
use crate::text::copy_chars;
use crate::text::decimal;
use crate::text::dots_only;
use crate::text::is_white_space;
use crate::text::law_capitals_become_small;
use crate::text::law_comment_does_not_matter;
use crate::text::law_line_text;
use crate::text::law_split_once;
use crate::text::law_trim;
use crate::text::law_trim_end_dots;
use crate::text::law_trim_start_dots;
use crate::text::line_chars;
use crate::text::line_text;
use crate::text::lines;
use crate::text::lines_of;
use crate::text::lower;
use crate::text::lower_char;
use crate::text::lower_chars;
use crate::text::push_chars;
use crate::text::push_decimal;
use crate::text::same_text;
use crate::text::spells;
use crate::text::split_once;
use crate::text::split_once_chars;
use crate::text::string_of;
use crate::text::tight;
use crate::text::trim;
use crate::text::trim_chars;
use crate::text::trim_end;
use crate::text::trim_end_dots;
use crate::text::trim_end_dots_chars;
use crate::text::trim_start;
use crate::text::trim_start_dots;
use crate::text::trim_start_dots_chars;
use crate::text::views;
use vstd::prelude::*;
use vstd::slice::slice_subrange;

verus! {

// --- Names ---

/// A domain name as rules compare it: without white space around it, without
/// dots at its end, in small letters.
pub open spec fn normalized(name: Seq<char>) -> Seq<char> {
    lower(trim_end_dots(trim(name)))
}

fn normalize_chars(chars: &[char]) -> (out: Vec<char>)
    ensures
        out@ == normalized(chars@),
{
    lower_chars(trim_end_dots_chars(trim_chars(chars)))
}

/// A domain name as rules compare it: without white space around it, without
/// dots at its end, in small letters.
pub fn normalize_domain_rule(value: &str) -> (out: String)
    ensures
        out@ == normalized(value@),
{
    let chars = chars_of(value);
    string_of(normalize_chars(chars.as_slice()).as_slice())
}

/// Whether `domain` is `rule` or a name below it.
pub open spec fn suffix_match(domain: Seq<char>, rule: Seq<char>) -> bool {
    domain == rule || (seq!['.'] + rule).is_suffix_of(domain)
}

fn suffix_match_chars(domain: &[char], rule: &[char]) -> (m: bool)
    ensures
        m == suffix_match(domain@, rule@),
{
    if same_text(domain, rule) {
        return true;
    }
    if domain.len() <= rule.len() {
        return false;
    }
    let at: usize = domain.len() - rule.len();
    let tail = slice_subrange(domain, at, domain.len());
    let m = domain[at - 1] == '.' && same_text(tail, rule);
    proof {
        let d = domain@;
        let r = rule@;
        let whole = seq!['.'] + r;
        assert(whole.skip(1) == r);
        assert(d.skip(at - 1) == seq![d[at - 1]] + tail@);
        if m {
            assert(whole == d.skip(at - 1));
        }
        if whole.is_suffix_of(d) {
            assert(d.skip(at - 1) == whole);
            assert(d.skip(at - 1)[0] == whole[0]);
            assert(tail@ == d.skip(at - 1).skip(1));
        }
    }
    m
}

/// Whether `domain` is `rule` or a name below it.
pub fn domain_matches_suffix(domain: &str, rule: &str) -> (m: bool)
    ensures
        m == suffix_match(domain@, rule@),
{
    let d = chars_of(domain);
    let r = chars_of(rule);
    suffix_match_chars(d.as_slice(), r.as_slice())
}

// --- Rules ---

/// What a rule compares.
#[derive(Clone, Copy, Debug, PartialEq, Eq, Structural)]
pub enum RuleKind {
    /// The name itself.
    Exact,
    /// The name and every name below it.
    Suffix,
    /// Every name with the keyword in it.
    Keyword,
    /// Every name below a top level domain.
    Tld,
}

/// Whether the rule `value` of kind `kind` picks `domain`.
pub open spec fn rule_matches(kind: RuleKind, value: Seq<char>, domain: Seq<char>) -> bool {
    match kind {
        RuleKind::Exact => domain == value,
        RuleKind::Suffix => suffix_match(domain, value),
        RuleKind::Keyword => contains_text(domain, value),
        RuleKind::Tld => suffix_match(domain, value),
    }
}

/// Whether one of the rules `values` of kind `kind` picks `domain`.
pub open spec fn some_rule_matches(
    kind: RuleKind,
    values: Seq<Seq<char>>,
    domain: Seq<char>,
) -> bool {
    exists|i: int| 0 <= i < values.len() && rule_matches(kind, #[trigger] values[i], domain)
}

/// The mathematical view of [`DomainRules`]: the values of each kind, in order.
#[verifier::ext_equal]
pub struct RulesView {
    pub exact: Seq<Seq<char>>,
    pub suffix: Seq<Seq<char>>,
    pub keyword: Seq<Seq<char>>,
    pub tld: Seq<Seq<char>>,
}

impl RulesView {
    pub open spec fn empty() -> RulesView {
        RulesView {
            exact: Seq::empty(),
            suffix: Seq::empty(),
            keyword: Seq::empty(),
            tld: Seq::empty(),
        }
    }

    /// The values of one kind.
    pub open spec fn of(self, kind: RuleKind) -> Seq<Seq<char>> {
        match kind {
            RuleKind::Exact => self.exact,
            RuleKind::Suffix => self.suffix,
            RuleKind::Keyword => self.keyword,
            RuleKind::Tld => self.tld,
        }
    }

    /// These rules and one more behind them.
    pub open spec fn with(self, kind: RuleKind, value: Seq<char>) -> RulesView {
        match kind {
            RuleKind::Exact => RulesView { exact: self.exact.push(value), ..self },
            RuleKind::Suffix => RulesView { suffix: self.suffix.push(value), ..self },
            RuleKind::Keyword => RulesView { keyword: self.keyword.push(value), ..self },
            RuleKind::Tld => RulesView { tld: self.tld.push(value), ..self },
        }
    }

    /// Whether a rule of kind `kind` picks `domain`.
    pub open spec fn matches_kind(self, kind: RuleKind, domain: Seq<char>) -> bool {
        some_rule_matches(kind, self.of(kind), domain)
    }

    /// Whether some rule picks `domain`, a name in the form that rules compare.
    pub open spec fn matches(self, domain: Seq<char>) -> bool {
        ||| self.matches_kind(RuleKind::Exact, domain)
        ||| self.matches_kind(RuleKind::Suffix, domain)
        ||| self.matches_kind(RuleKind::Keyword, domain)
        ||| self.matches_kind(RuleKind::Tld, domain)
    }

    /// Whether some rule picks the name `domain`, however it is written.
    pub open spec fn picks(self, domain: Seq<char>) -> bool {
        normalized(domain).len() > 0 && self.matches(normalized(domain))
    }
}

/// The rules of a domain file.
#[derive(Debug)]
pub struct DomainRules {
    exact: Vec<Vec<char>>,
    suffix: Vec<Vec<char>>,
    keyword: Vec<Vec<char>>,
    tld: Vec<Vec<char>>,
}

/// The texts in `rules`.
pub open spec fn rule_views(rules: Seq<Vec<char>>) -> Seq<Seq<char>> {
    rules.map_values(|r: Vec<char>| r@)
}

impl View for DomainRules {
    type V = RulesView;

    closed spec fn view(&self) -> RulesView {
        RulesView {
            exact: rule_views(self.exact@),
            suffix: rule_views(self.suffix@),
            keyword: rule_views(self.keyword@),
            tld: rule_views(self.tld@),
        }
    }
}

impl Default for DomainRules {
    fn default() -> (rules: Self)
        ensures
            rules@ == RulesView::empty(),
    {
        DomainRules {
            exact: Vec::new(),
            suffix: Vec::new(),
            keyword: Vec::new(),
            tld: Vec::new(),
        }
    }
}

// --- The file ---

/// The kind that `name` names.
pub open spec fn kind_named(name: Seq<char>) -> Option<RuleKind> {
    let name = lower(name);
    if name == "exact"@ {
        Some(RuleKind::Exact)
    } else if name == "suffix"@ {
        Some(RuleKind::Suffix)
    } else if name == "keyword"@ {
        Some(RuleKind::Keyword)
    } else if name == "tld"@ {
        Some(RuleKind::Tld)
    } else {
        None
    }
}

/// The rule in line `number`, if there is one in it: a kind, a colon and a
/// value, or a value alone for an exact name.
pub open spec fn rule_of_line(line: Seq<char>, number: nat) -> Result<
    Option<(RuleKind, Seq<char>)>,
    Failure,
> {
    let text = line_text(line);
    let (kind, name, value) = match split_once(text, ':') {
        Some((name, value)) => (kind_named(trim(name)), trim(name), normalized(trim(value))),
        None => (Some(RuleKind::Exact), text, normalized(text)),
    };
    if text.len() == 0 {
        Ok(None)
    } else if value.len() == 0 {
        Err(bad_input("empty domain rule at line "@ + decimal(number)))
    } else {
        match kind {
            Some(RuleKind::Tld) => Ok(Some((RuleKind::Tld, trim_start_dots(value)))),
            Some(kind) => Ok(Some((kind, value))),
            None => Err(
                bad_input(
                    "unsupported domain rule type '"@ + name + "' at line "@ + decimal(number),
                ),
            ),
        }
    }
}

/// The rules in some lines, or what is wrong with the first line that is wrong.
pub open spec fn rules_of_lines(lines: Seq<Seq<char>>) -> Result<RulesView, Failure>
    decreases lines.len(),
{
    if lines.len() == 0 {
        Ok(RulesView::empty())
    } else {
        match rules_of_lines(lines.drop_last()) {
            Err(f) => Err(f),
            Ok(rules) => match rule_of_line(lines.last(), lines.len()) {
                Err(f) => Err(f),
                Ok(None) => Ok(rules),
                Ok(Some((kind, value))) => Ok(rules.with(kind, value)),
            },
        }
    }
}

/// The rules in the file with the text `content`.
pub open spec fn rules_text(content: Seq<char>) -> Result<RulesView, Failure> {
    rules_of_lines(lines(content))
}

/// What is wrong with the first lines is wrong with all of them.
proof fn lemma_error_stays(lines: Seq<Seq<char>>, n: int)
    requires
        0 <= n <= lines.len(),
        rules_of_lines(lines.take(n)) is Err,
    ensures
        rules_of_lines(lines) == rules_of_lines(lines.take(n)),
    decreases lines.len(),
{
    if n == lines.len() {
        assert(lines.take(n) == lines);
    } else {
        assert(lines.drop_last().take(n) == lines.take(n));
        lemma_error_stays(lines.drop_last(), n);
    }
}

fn read_kind(name: &[char]) -> (kind: Option<RuleKind>)
    ensures
        kind == kind_named(name@),
{
    let name = lower_chars(name);
    if spells(name.as_slice(), "exact") {
        Some(RuleKind::Exact)
    } else if spells(name.as_slice(), "suffix") {
        Some(RuleKind::Suffix)
    } else if spells(name.as_slice(), "keyword") {
        Some(RuleKind::Keyword)
    } else if spells(name.as_slice(), "tld") {
        Some(RuleKind::Tld)
    } else {
        None
    }
}

/// What `read_line` found, as the specifications speak of it.
spec fn line_result(r: Result<Option<(RuleKind, Vec<char>)>, Error>) -> Result<
    Option<(RuleKind, Seq<char>)>,
    Failure,
> {
    match r {
        Ok(Some((kind, value))) => Ok(Some((kind, value@))),
        Ok(None) => Ok(None),
        Err(e) => Err(e@),
    }
}

fn read_line(line: &[char], number: usize) -> (r: Result<Option<(RuleKind, Vec<char>)>, Error>)
    ensures
        line_result(r) == rule_of_line(line@, number as nat),
{
    let text = line_chars(line);
    if text.len() == 0 {
        return Ok(None);
    }
    let (kind, name, value) = match split_once_chars(text, ':') {
        Some((name, value)) => {
            let name = trim_chars(name);
            (read_kind(name), name, normalize_chars(trim_chars(value)))
        },
        None => (Some(RuleKind::Exact), text, normalize_chars(text)),
    };
    if value.len() == 0 {
        let mut message = "empty domain rule at line ".to_string();
        push_decimal(&mut message, number);
        return Err(Error { kind: ErrorKind::InvalidInput, message });
    }
    match kind {
        Some(RuleKind::Tld) => Ok(
            Some((RuleKind::Tld, copy_chars(trim_start_dots_chars(value.as_slice())))),
        ),
        Some(kind) => Ok(Some((kind, value))),
        None => {
            let mut message = "unsupported domain rule type '".to_string();
            push_chars(&mut message, name);
            message.append("' at line ");
            push_decimal(&mut message, number);
            Err(Error { kind: ErrorKind::InvalidInput, message })
        },
    }
}

fn any_rule(rules: &Vec<Vec<char>>, kind: RuleKind, domain: &[char]) -> (found: bool)
    ensures
        found == some_rule_matches(kind, rule_views(rules@), domain@),
{
    for i in 0..rules.len()
        invariant
            forall|j: int|
                0 <= j < i ==> !rule_matches(kind, #[trigger] rule_views(rules@)[j], domain@),
    {
        let rule = rules[i].as_slice();
        let found = match kind {
            RuleKind::Exact => same_text(domain, rule),
            RuleKind::Suffix => suffix_match_chars(domain, rule),
            RuleKind::Keyword => contains_chars(domain, rule),
            RuleKind::Tld => suffix_match_chars(domain, rule),
        };
        assert(rule_views(rules@)[i as int] == rule@);
        if found {
            return true;
        }
    }
    false
}

impl DomainRules {
    fn add(&mut self, kind: RuleKind, value: Vec<char>)
        ensures
            final(self)@ == old(self)@.with(kind, value@),
    {
        match kind {
            RuleKind::Exact => self.exact.push(value),
            RuleKind::Suffix => self.suffix.push(value),
            RuleKind::Keyword => self.keyword.push(value),
            RuleKind::Tld => self.tld.push(value),
        }
        assert(self@ =~= old(self)@.with(kind, value@));
    }

    /// Reads the rules in the text of a domain file.
    pub fn parse(content: &str) -> (r: Result<Self, Error>)
        ensures
            match r {
                Ok(rules) => rules_text(content@) == Ok::<RulesView, Failure>(rules@),
                Err(e) => rules_text(content@) == Err::<RulesView, Failure>(e@),
            },
    {
        let chars = chars_of(content);
        let all = lines_of(chars.as_slice());
        let ghost model = lines(content@);
        let mut rules = Self::default();
        assert(model.take(0) == Seq::<Seq<char>>::empty());
        for i in 0..all.len()
            invariant
                views(all@) == model,
                rules_of_lines(model.take(i as int)) == Ok::<RulesView, Failure>(rules@),
                model == lines(content@),
        {
            assert(model[i as int] == all@[i as int]@);
            assert(model.take(i + 1).drop_last() == model.take(i as int));
            match read_line(all[i], i + 1) {
                Ok(Some((kind, value))) => rules.add(kind, value),
                Ok(None) => {},
                Err(e) => {
                    proof {
                        lemma_error_stays(model, i + 1);
                    }
                    return Err(e);
                },
            }
        }
        assert(model.take(all@.len() as int) == model);
        Ok(rules)
    }

    fn matches_chars(&self, domain: &[char]) -> (m: bool)
        ensures
            m == self@.matches(domain@),
    {
        any_rule(&self.exact, RuleKind::Exact, domain) || any_rule(
            &self.suffix,
            RuleKind::Suffix,
            domain,
        ) || any_rule(&self.keyword, RuleKind::Keyword, domain) || any_rule(
            &self.tld,
            RuleKind::Tld,
            domain,
        )
    }

    /// Whether some rule picks `domain`, a name in the form that rules compare.
    pub fn is_normalized_match(&self, domain: &str) -> (m: bool)
        ensures
            m == self@.matches(domain@),
    {
        let chars = chars_of(domain);
        self.matches_chars(chars.as_slice())
    }

    /// Whether some rule picks the name `domain`, however it is written.
    pub fn is_match(&self, domain: &str) -> (m: bool)
        ensures
            m == self@.picks(domain@),
    {
        let chars = chars_of(domain);
        let name = normalize_chars(chars.as_slice());
        if name.len() == 0 {
            return false;
        }
        self.matches_chars(name.as_slice())
    }
}

// --- Laws ---

/// An exact rule picks its own name and no other.
pub proof fn law_exact_rule(rule: Seq<char>, domain: Seq<char>)
    ensures
        RulesView::empty().with(RuleKind::Exact, rule).matches(domain) <==> domain == rule,
{
    let rules = RulesView::empty().with(RuleKind::Exact, rule);
    assert(rules.of(RuleKind::Exact)[0] == rule);
}

/// A suffix rule picks its own name, every name below it, at any depth, and no
/// other.
pub proof fn law_suffix_rule(rule: Seq<char>, domain: Seq<char>)
    ensures
        RulesView::empty().with(RuleKind::Suffix, rule).matches(domain) <==> domain == rule
            || exists|below: Seq<char>| domain == #[trigger] (below + seq!['.']) + rule,
        RulesView::empty().with(RuleKind::Tld, rule).matches(domain) <==> domain == rule
            || exists|below: Seq<char>| domain == #[trigger] (below + seq!['.']) + rule,
{
    assert(RulesView::empty().with(RuleKind::Suffix, rule).of(RuleKind::Suffix)[0] == rule);
    assert(RulesView::empty().with(RuleKind::Tld, rule).of(RuleKind::Tld)[0] == rule);
    let tail = seq!['.'] + rule;
    if tail.is_suffix_of(domain) {
        let below = domain.take(domain.len() - tail.len());
        assert(domain == below + domain.subrange(below.len() as int, domain.len() as int));
        assert(below + tail == (below + seq!['.']) + rule);
    }
    if exists|below: Seq<char>| domain == #[trigger] (below + seq!['.']) + rule {
        let below = choose|below: Seq<char>| domain == #[trigger] (below + seq!['.']) + rule;
        assert(domain.skip(below.len() as int) == tail);
        assert(tail.is_suffix_of(domain));
    }
}

/// A keyword rule picks the names with the keyword somewhere in them, and no
/// other.
pub proof fn law_keyword_rule(rule: Seq<char>, domain: Seq<char>)
    ensures
        RulesView::empty().with(RuleKind::Keyword, rule).matches(domain) <==> exists|
            before: Seq<char>,
            after: Seq<char>,
        |
            domain == #[trigger] (before + rule + after),
{
    assert(RulesView::empty().with(RuleKind::Keyword, rule).of(RuleKind::Keyword)[0] == rule);
    if contains_text(domain, rule) {
        let i = choose|i: int|
            0 <= i && i + rule.len() <= domain.len() && #[trigger] domain.subrange(
                i,
                i + rule.len(),
            ) == rule;
        assert(domain == domain.take(i) + rule + domain.skip(i + rule.len()));
    }
    if exists|before: Seq<char>, after: Seq<char>| domain == #[trigger] (before + rule + after) {
        let (before, after) = choose|before: Seq<char>, after: Seq<char>|
            domain == #[trigger] (before + rule + after);
        let i = before.len() as int;
        assert(domain.subrange(i, i + rule.len()) == rule);
    }
}

/// One more rule picks what it picks alone, besides what was picked before.
pub proof fn law_rules_are_alternatives(
    rules: RulesView,
    kind: RuleKind,
    value: Seq<char>,
    domain: Seq<char>,
)
    ensures
        rules.with(kind, value).matches(domain) <==> rules.matches(domain) || rule_matches(
            kind,
            value,
            domain,
        ),
{
    let more = rules.with(kind, value);
    let before = rules.of(kind);
    let after = more.of(kind);
    assert(after == before.push(value));
    if some_rule_matches(kind, before, domain) {
        let i = choose|i: int|
            0 <= i < before.len() && rule_matches(kind, #[trigger] before[i], domain);
        assert(after[i] == before[i]);
    }
    if rule_matches(kind, value, domain) {
        assert(after[before.len() as int] == value);
    }
    if some_rule_matches(kind, after, domain) {
        let i = choose|i: int|
            0 <= i < after.len() && rule_matches(kind, #[trigger] after[i], domain);
        if i < before.len() {
            assert(after[i] == before[i]);
        }
    }
    assert forall|k: RuleKind| k != kind implies rules.of(k) == more.of(k) by {}
    assert(rules.matches_kind(kind, domain) || rule_matches(kind, value, domain)
        <==> more.matches_kind(kind, domain));
    assert(forall|k: RuleKind|
        k != kind ==> rules.matches_kind(k, domain) == more.matches_kind(k, domain));
}

/// Whether line `i` of `lines` holds a rule that picks `domain`.
pub open spec fn line_picks(lines: Seq<Seq<char>>, i: int, domain: Seq<char>) -> bool {
    rule_of_line(lines[i], (i + 1) as nat) matches Ok(Some((kind, value))) && rule_matches(
        kind,
        value,
        domain,
    )
}

/// A file that can be read picks a name exactly if one of its lines holds a
/// rule that does.
pub proof fn law_file_picks_by_line(lines: Seq<Seq<char>>, domain: Seq<char>)
    requires
        rules_of_lines(lines) is Ok,
    ensures
        rules_of_lines(lines)->Ok_0.matches(domain) <==> exists|i: int|
            0 <= i < lines.len() && #[trigger] line_picks(lines, i, domain),
    decreases lines.len(),
{
    if lines.len() > 0 {
        let n = lines.len() - 1;
        let front = lines.drop_last();
        law_file_picks_by_line(front, domain);
        let rules = rules_of_lines(front)->Ok_0;
        assert forall|i: int| 0 <= i < n implies line_picks(front, i, domain) == line_picks(
            lines,
            i,
            domain,
        ) by {
            assert(front[i] == lines[i]);
        }
        if let Ok(Some((kind, value))) = rule_of_line(lines.last(), lines.len()) {
            law_rules_are_alternatives(rules, kind, value, domain);
        }
        if rules.matches(domain) {
            let i = choose|i: int| 0 <= i < front.len() && #[trigger] line_picks(front, i, domain);
            assert(line_picks(lines, i, domain));
        }
        if exists|i: int| 0 <= i < lines.len() && #[trigger] line_picks(lines, i, domain) {
            let i = choose|i: int| 0 <= i < lines.len() && #[trigger] line_picks(lines, i, domain);
            if i < n {
                assert(line_picks(front, i, domain));
            }
        }
        assert(line_picks(lines, n, domain) <==> (rule_of_line(lines.last(), lines.len()) matches
            Ok(Some((kind, value))) && rule_matches(kind, value, domain)));
    }
}

/// A file of comments and empty lines holds no rules, and picks no name.
pub proof fn law_blank_lines_hold_no_rule(lines: Seq<Seq<char>>, domain: Seq<char>)
    requires
        forall|i: int| 0 <= i < lines.len() ==> line_text(#[trigger] lines[i]).len() == 0,
    ensures
        rules_of_lines(lines) == Ok::<RulesView, Failure>(RulesView::empty()),
        !RulesView::empty().matches(domain),
    decreases lines.len(),
{
    if lines.len() > 0 {
        let front = lines.drop_last();
        assert forall|i: int| 0 <= i < front.len() implies line_text(#[trigger] front[i]).len()
            == 0 by {
            assert(front[i] == lines[i]);
        }
        law_blank_lines_hold_no_rule(front, domain);
    }
}

/// Whether `value` has the form that every rule is kept in: not empty, no dot
/// at its end, in small letters.
pub open spec fn normal_value(value: Seq<char>) -> bool {
    &&& value.len() > 0
    &&& value.last() != '.'
    &&& lower(value) == value
}

proof fn lemma_lower_char(c: char)
    ensures
        is_white_space(lower_char(c)) == is_white_space(c),
        lower_char(c) == '.' <==> c == '.',
        lower_char(lower_char(c)) == lower_char(c),
{
}

/// Small letters stay as they are.
pub proof fn lemma_lower_twice(s: Seq<char>)
    ensures
        lower(lower(s)) == lower(s),
{
    assert forall|i: int| 0 <= i < s.len() implies lower(lower(s))[i] == lower(s)[i] by {
        lemma_lower_char(s[i]);
    }
    assert(lower(lower(s)) =~= lower(s));
}

proof fn lemma_trim_end_dots(s: Seq<char>)
    ensures
        trim_end_dots(s).len() > 0 ==> trim_end_dots(s).last() != '.',
    decreases s.len(),
{
    if s.len() > 0 && s.last() == '.' {
        lemma_trim_end_dots(s.drop_last());
    }
}

proof fn lemma_trim_start_dots(s: Seq<char>)
    requires
        normal_value(s),
    ensures
        normal_value(trim_start_dots(s)),
        trim_start_dots(s)[0] != '.',
    decreases s.len(),
{
    if s[0] == '.' {
        let t = s.skip(1);
        assert(s.len() > 1);
        assert(t.last() == s.last());
        assert forall|i: int| 0 <= i < t.len() implies lower(t)[i] == t[i] by {
            assert(lower(s)[i + 1] == s[i + 1]);
        }
        assert(lower(t) =~= t);
        lemma_trim_start_dots(t);
    }
}

proof fn lemma_normalized(name: Seq<char>)
    ensures
        normalized(name).len() > 0 ==> normal_value(normalized(name)),
{
    let t = trim_end_dots(trim(name));
    lemma_trim_end_dots(trim(name));
    lemma_lower_twice(t);
    if t.len() > 0 {
        lemma_lower_char(t.last());
        assert(lower(t).last() == lower_char(t.last()));
    }
}

/// Every rule that a file holds is kept in the form that names are compared in.
/// In particular no rule is empty, so that none picks every name.
pub proof fn law_rules_are_normal(lines: Seq<Seq<char>>, kind: RuleKind, i: int)
    requires
        rules_of_lines(lines) is Ok,
        0 <= i < rules_of_lines(lines)->Ok_0.of(kind).len(),
    ensures
        normal_value(rules_of_lines(lines)->Ok_0.of(kind)[i]),
        kind is Tld ==> rules_of_lines(lines)->Ok_0.of(kind)[i][0] != '.',
    decreases lines.len(),
{
    let front = rules_of_lines(lines.drop_last())->Ok_0;
    if i < front.of(kind).len() {
        law_rules_are_normal(lines.drop_last(), kind, i);
    } else {
        let text = line_text(lines.last());
        lemma_normalized(text);
        if let Some((_, value)) = split_once(text, ':') {
            lemma_normalized(trim(value));
            if normalized(trim(value)).len() > 0 {
                lemma_trim_start_dots(normalized(trim(value)));
            }
        }
    }
}

/// No rule that a file holds picks the empty name.
pub proof fn law_empty_name_is_never_picked(lines: Seq<Seq<char>>)
    requires
        rules_of_lines(lines) is Ok,
    ensures
        !rules_of_lines(lines)->Ok_0.matches(Seq::empty()),
        !rules_of_lines(lines)->Ok_0.picks(Seq::empty()),
{
    let rules = rules_of_lines(lines)->Ok_0;
    let none = Seq::<char>::empty();
    assert forall|kind: RuleKind| !rules.matches_kind(kind, none) by {
        let values = rules.of(kind);
        if some_rule_matches(kind, values, none) {
            let i = choose|i: int|
                0 <= i < values.len() && rule_matches(kind, #[trigger] values[i], none);
            law_rules_are_normal(lines, kind, i);
        }
    }
}

proof fn lemma_trim_lower(s: Seq<char>)
    ensures
        trim(lower(s)) == lower(trim(s)),
{
    lemma_trim_start_lower(s);
    lemma_trim_end_lower(trim_start(s));
}

proof fn lemma_trim_start_lower(s: Seq<char>)
    ensures
        trim_start(lower(s)) == lower(trim_start(s)),
    decreases s.len(),
{
    if s.len() > 0 {
        lemma_lower_char(s[0]);
        assert(lower(s).skip(1) =~= lower(s.skip(1)));
        lemma_trim_start_lower(s.skip(1));
    }
}

proof fn lemma_trim_end_lower(s: Seq<char>)
    ensures
        trim_end(lower(s)) == lower(trim_end(s)),
    decreases s.len(),
{
    if s.len() > 0 {
        lemma_lower_char(s.last());
        assert(lower(s).drop_last() =~= lower(s.drop_last()));
        lemma_trim_end_lower(s.drop_last());
    }
}

proof fn lemma_trim_end_dots_lower(s: Seq<char>)
    ensures
        trim_end_dots(lower(s)) == lower(trim_end_dots(s)),
    decreases s.len(),
{
    if s.len() > 0 {
        lemma_lower_char(s.last());
        assert(lower(s).drop_last() =~= lower(s.drop_last()));
        lemma_trim_end_dots_lower(s.drop_last());
    }
}

/// Capital and small letters are the same to the rules.
pub proof fn law_case_does_not_matter(rules: RulesView, a: Seq<char>, b: Seq<char>)
    requires
        lower(a) == lower(b),
    ensures
        normalized(a) == normalized(b),
        rules.picks(a) == rules.picks(b),
{
    lemma_normalized_lower(a);
    lemma_normalized_lower(b);
}

proof fn lemma_normalized_lower(s: Seq<char>)
    ensures
        normalized(lower(s)) == normalized(s),
{
    lemma_trim_lower(s);
    lemma_trim_end_dots_lower(trim(s));
    lemma_lower_twice(trim_end_dots(trim(s)));
}

/// A dot behind a name does not change what the rules say of it, unless white
/// space stands before the dot.
pub proof fn law_dot_at_the_end_does_not_matter(rules: RulesView, name: Seq<char>)
    requires
        name.len() > 0,
        !is_white_space(name.last()),
    ensures
        normalized(name.push('.')) == normalized(name),
        rules.picks(name.push('.')) == rules.picks(name),
{
    lemma_trim_start_push(name, '.');
    let t = trim_start(name);
    assert(t.push('.').drop_last() == t);
    assert(trim_end_dots(t.push('.')) == trim_end_dots(t));
}

/// Trimming at the start leaves what stands at the end.
proof fn lemma_trim_start_push(s: Seq<char>, c: char)
    requires
        s.len() > 0,
        !is_white_space(s.last()),
    ensures
        trim_start(s.push(c)) == trim_start(s).push(c),
        trim_start(s).len() > 0,
        trim_start(s).last() == s.last(),
    decreases s.len(),
{
    if is_white_space(s[0]) {
        assert(s.len() > 1);
        assert(s.push(c).skip(1) == s.skip(1).push(c));
        assert(s.skip(1).last() == s.last());
        lemma_trim_start_push(s.skip(1), c);
    }
}

/// A name in the form that rules compare, without white space at its ends, is
/// picked as it stands.
pub proof fn law_normal_name_is_compared_as_it_stands(rules: RulesView, name: Seq<char>)
    requires
        normal_value(name),
        !is_white_space(name[0]),
        !is_white_space(name.last()),
    ensures
        normalized(name) == name,
        rules.picks(name) == rules.matches(name),
{
}

// --- Laws on names and rules as they are written ---

/// A name is compared without the white space around it and the dots at its end,
/// in small letters; every other character counts.
pub proof fn law_name_is_normalized(
    rules: RulesView,
    before: Seq<char>,
    core: Seq<char>,
    dots: Seq<char>,
    after: Seq<char>,
)
    requires
        blank(before),
        blank(after),
        dots_only(dots),
        core.len() > 0,
        !is_white_space(core[0]),
        core.last() != '.',
        dots.len() == 0 ==> !is_white_space(core.last()),
    ensures
        ({
            let n = normalized(before + (core + dots) + after);
            &&& n.len() == core.len()
            &&& forall|i: int|
                #![trigger n[i]]
                0 <= i < core.len() ==> n[i] as int == if 65 <= core[i] as int <= 90 {
                    core[i] as int + 32
                } else {
                    core[i] as int
                }
            &&& rules.picks(before + (core + dots) + after) == rules.matches(n)
        }),
{
    lemma_normalized_parts(before, core, dots, after);
    law_capitals_become_small(core);
}

proof fn lemma_normalized_parts(
    before: Seq<char>,
    core: Seq<char>,
    dots: Seq<char>,
    after: Seq<char>,
)
    requires
        blank(before),
        blank(after),
        dots_only(dots),
        core.len() > 0,
        !is_white_space(core[0]),
        core.last() != '.',
        dots.len() == 0 ==> !is_white_space(core.last()),
    ensures
        normalized(before + (core + dots) + after) == lower(core),
{
    let inner = core + dots;
    assert(inner[0] == core[0]);
    if dots.len() > 0 {
        assert(inner.last() == dots[dots.len() - 1]);
    } else {
        assert(inner == core);
    }
    law_trim(before, inner, after);
    law_trim_end_dots(core, dots);
}

/// A name of white space and dots only is never picked.
pub proof fn law_dots_alone_are_never_picked(
    rules: RulesView,
    before: Seq<char>,
    dots: Seq<char>,
    after: Seq<char>,
)
    requires
        blank(before),
        blank(after),
        dots_only(dots),
    ensures
        normalized(before + dots + after).len() == 0,
        !rules.picks(before + dots + after),
{
    lemma_normalized_dots(before, dots, after);
}

proof fn lemma_normalized_dots(before: Seq<char>, dots: Seq<char>, after: Seq<char>)
    requires
        blank(before),
        blank(after),
        dots_only(dots),
    ensures
        normalized(before + dots + after).len() == 0,
{
    let none = Seq::<char>::empty();
    if dots.len() > 0 {
        assert(dots[0] == '.' && dots[dots.len() - 1] == '.');
    }
    law_trim(before, dots, after);
    assert(none + dots == dots);
    law_trim_end_dots(none, dots);
}

/// Whether `name` is `word`, which has small letters only, in capitals or small
/// letters.
pub open spec fn spelled(name: Seq<char>, word: Seq<char>) -> bool {
    name.len() == word.len() && forall|i: int|
        0 <= i < word.len() ==> {
            ||| #[trigger] name[i] == word[i]
            ||| name[i] as int + 32 == word[i] as int
        }
}

/// A text is a word in capitals or small letters exactly if it is that word once
/// its capitals are small.
pub proof fn lemma_spelled(name: Seq<char>, word: Seq<char>)
    requires
        forall|i: int| 0 <= i < word.len() ==> 97 <= #[trigger] word[i] as int <= 122,
    ensures
        lower(name) == word <==> spelled(name, word),
{
    law_capitals_become_small(name);
    if lower(name) == word {
        assert forall|i: int| 0 <= i < word.len() implies #[trigger] name[i] == word[i]
            || name[i] as int + 32 == word[i] as int by {
            assert(lower(name)[i] == word[i]);
        }
    }
    if spelled(name, word) {
        assert forall|i: int| 0 <= i < word.len() implies lower(name)[i] == word[i] by {
            assert(name[i] == word[i] || name[i] as int + 32 == word[i] as int);
            assert(97 <= word[i] as int <= 122);
        }
        assert(lower(name) =~= word);
    }
}

/// A kind is named by its word, in capitals or small letters, and by nothing
/// else.
pub proof fn law_kinds_are_named(name: Seq<char>)
    ensures
        kind_named(name) == Some(RuleKind::Exact) <==> spelled(name, seq!['e', 'x', 'a', 'c', 't']),
        kind_named(name) == Some(RuleKind::Suffix) <==> spelled(
            name,
            seq!['s', 'u', 'f', 'f', 'i', 'x'],
        ),
        kind_named(name) == Some(RuleKind::Keyword) <==> spelled(
            name,
            seq!['k', 'e', 'y', 'w', 'o', 'r', 'd'],
        ),
        kind_named(name) == Some(RuleKind::Tld) <==> spelled(name, seq!['t', 'l', 'd']),
{
    reveal_strlit("exact");
    reveal_strlit("suffix");
    reveal_strlit("keyword");
    reveal_strlit("tld");
    let exact = seq!['e', 'x', 'a', 'c', 't'];
    let suffix = seq!['s', 'u', 'f', 'f', 'i', 'x'];
    let keyword = seq!['k', 'e', 'y', 'w', 'o', 'r', 'd'];
    let tld = seq!['t', 'l', 'd'];
    assert("exact"@ =~= exact);
    assert("suffix"@ =~= suffix);
    assert("keyword"@ =~= keyword);
    assert("tld"@ =~= tld);
    assert(exact.len() == 5 && suffix.len() == 6 && keyword.len() == 7 && tld.len() == 3);
    lemma_spelled(name, exact);
    lemma_spelled(name, suffix);
    lemma_spelled(name, keyword);
    lemma_spelled(name, tld);
}

/// Whether `lead`, `core` and `dots` are the parts of a written value: dots, a text
/// that starts and ends with something else, and dots.
pub open spec fn value_parts(lead: Seq<char>, core: Seq<char>, dots: Seq<char>) -> bool {
    &&& dots_only(lead)
    &&& dots_only(dots)
    &&& core.len() > 0
    &&& core[0] != '.'
    &&& core.last() != '.'
    &&& lead.len() == 0 ==> !is_white_space(core[0])
    &&& dots.len() == 0 ==> !is_white_space(core.last())
    &&& !core.contains('#')
}

proof fn lemma_value(mid: Seq<char>, lead: Seq<char>, core: Seq<char>, dots: Seq<char>)
    requires
        blank(mid),
        value_parts(lead, core, dots),
    ensures
        normalized(trim(mid + ((lead + core) + dots))) == lower(lead + core),
        normalized((lead + core) + dots) == lower(lead + core),
        tight((lead + core) + dots),
        !((lead + core) + dots).contains('#'),
        trim_start_dots(lower(lead + core)) == lower(core),
{
    let none = Seq::<char>::empty();
    let kept = lead + core;
    let value = kept + dots;
    if lead.len() > 0 {
        assert(kept[0] == lead[0]);
    } else {
        assert(kept[0] == core[0]);
    }
    assert(kept.last() == core.last());
    assert(value[0] == kept[0]);
    if dots.len() > 0 {
        assert(value.last() == dots[dots.len() - 1]);
    } else {
        assert(value.last() == kept.last());
    }
    assert(mid + value + none == mid + value);
    law_trim(mid, value, none);
    assert(none + value + none == value);
    lemma_normalized_parts(none, kept, dots, none);
    if value.contains('#') {
        let i = choose|i: int| 0 <= i < value.len() && value[i] == '#';
        if i < lead.len() {
            assert(lead[i] == '.');
        } else if i < kept.len() {
            assert(core[i - lead.len()] == '#');
        } else {
            assert(dots[i - kept.len()] == '.');
        }
    }
    assert(lower(kept) == lead + lower(core)) by {
        assert forall|i: int| 0 <= i < kept.len() implies lower(kept)[i] == (lead + lower(
            core,
        ))[i] by {
            if i < lead.len() {
                assert(lead[i] == '.');
            }
        }
        assert(lower(kept) =~= lead + lower(core));
    }
    lemma_lower_char(core[0]);
    law_trim_start_dots(lead, lower(core));
}

/// A line with a value alone is an exact rule for it, in small letters and
/// without the dots at its end.
pub proof fn law_bare_rule_is_read(
    before: Seq<char>,
    lead: Seq<char>,
    core: Seq<char>,
    dots: Seq<char>,
    after: Seq<char>,
    number: nat,
)
    requires
        blank(before),
        blank(after),
        value_parts(lead, core, dots),
        !core.contains(':'),
    ensures
        rule_of_line(before + ((lead + core) + dots) + after, number) == Ok::<
            Option<(RuleKind, Seq<char>)>,
            Failure,
        >(Some((RuleKind::Exact, lower(lead + core)))),
{
    let none = Seq::<char>::empty();
    let value = (lead + core) + dots;
    lemma_value(none, lead, core, dots);
    law_line_text(before, value, after, none);
    assert(!value.contains(':')) by {
        if value.contains(':') {
            let i = choose|i: int| 0 <= i < value.len() && value[i] == ':';
            if i < lead.len() {
                assert(lead[i] == '.');
            } else if i < lead.len() + core.len() {
                assert(core[i - lead.len()] == ':');
            } else {
                assert(dots[i - lead.len() - core.len()] == '.');
            }
        }
    }
    law_split_once(value, ':', none);
}

/// A line with a kind, a colon and a value is that rule for the value, in small
/// letters and without the dots at its end; for a top level domain also without
/// the dots at its start. Any other kind is refused, with its name and the number
/// of the line.
pub proof fn law_rule_is_read(
    before: Seq<char>,
    name: Seq<char>,
    mid: Seq<char>,
    mid2: Seq<char>,
    lead: Seq<char>,
    core: Seq<char>,
    dots: Seq<char>,
    after: Seq<char>,
    number: nat,
)
    requires
        blank(before),
        blank(mid),
        blank(mid2),
        blank(after),
        name.len() > 0,
        tight(name),
        !name.contains(':'),
        !name.contains('#'),
        value_parts(lead, core, dots),
    ensures
        rule_of_line(
            before + ((name + mid).push(':') + (mid2 + ((lead + core) + dots))) + after,
            number,
        ) == match kind_named(name) {
            Some(RuleKind::Tld) => Ok(Some((RuleKind::Tld, lower(core)))),
            Some(kind) => Ok(Some((kind, lower(lead + core)))),
            None => Err(
                bad_input(
                    "unsupported domain rule type '"@ + name + "' at line "@ + decimal(number),
                ),
            ),
        },
{
    let none = Seq::<char>::empty();
    let value = (lead + core) + dots;
    let left = name + mid;
    let right = mid2 + value;
    let text = left.push(':') + right;
    lemma_value(mid2, lead, core, dots);
    assert(text[0] == name[0]);
    assert(text.last() == value.last());
    assert(!left.contains(':')) by {
        if left.contains(':') {
            let i = choose|i: int| 0 <= i < left.len() && left[i] == ':';
            if i < name.len() {
                assert(name[i] == ':');
            } else {
                assert(is_white_space(mid[i - name.len()]));
            }
        }
    }
    assert(!text.contains('#')) by {
        if text.contains('#') {
            let i = choose|i: int| 0 <= i < text.len() && text[i] == '#';
            let n = left.len() as int;
            if i < name.len() {
                assert(name[i] == '#');
            } else if i < n {
                assert(is_white_space(mid[i - name.len()]));
            } else if n < i <= n + mid2.len() {
                assert(is_white_space(mid2[i - n - 1]));
            } else if i > n {
                assert(value[i - n - 1 - mid2.len()] == '#');
            }
        }
    }
    law_line_text(before, text, after, none);
    law_split_once(left, ':', right);
    assert(none + name + mid == left);
    law_trim(none, name, mid);
}

/// A comment behind a line does not change its rule.
pub proof fn law_comment_does_not_change_the_rule(line: Seq<char>, comment: Seq<char>, number: nat)
    ensures
        rule_of_line(line.push('#') + comment, number) == rule_of_line(line, number),
{
    law_comment_does_not_matter(line, comment);
}

/// A rule without a value, or with dots only, is refused with the number of its
/// line.
pub proof fn law_empty_rule_is_refused(
    before: Seq<char>,
    name: Seq<char>,
    mid: Seq<char>,
    dots: Seq<char>,
    after: Seq<char>,
    number: nat,
)
    requires
        blank(before),
        blank(mid),
        blank(after),
        tight(name),
        !name.contains(':'),
        !name.contains('#'),
        dots_only(dots),
    ensures
        rule_of_line(before + name.push(':') + mid + dots + after, number) == Err::<
            Option<(RuleKind, Seq<char>)>,
            Failure,
        >(bad_input("empty domain rule at line "@ + decimal(number))),
{
    let none = Seq::<char>::empty();
    // Where there are no dots, the white space is at the end of the line.
    let (inner, tail) = if dots.len() == 0 {
        (none, mid + after)
    } else {
        (mid + dots, after)
    };
    let text = name.push(':') + inner;
    let line = before + name.push(':') + mid + dots + after;
    assert(line =~= before + text + tail);
    assert(blank(tail)) by {
        assert forall|i: int| 0 <= i < tail.len() implies is_white_space(#[trigger] tail[i]) by {
            if dots.len() == 0 {
                if i < mid.len() {
                    assert(tail[i] == mid[i]);
                } else {
                    assert(tail[i] == after[i - mid.len()]);
                }
            }
        }
    }
    if name.len() > 0 {
        assert(text[0] == name[0]);
    } else {
        assert(text[0] == ':');
    }
    if dots.len() > 0 {
        assert(text.last() == dots[dots.len() - 1]);
    } else {
        assert(text.last() == ':');
    }
    assert(!text.contains('#')) by {
        if text.contains('#') {
            let i = choose|i: int| 0 <= i < text.len() && text[i] == '#';
            let n = name.len() as int;
            if i < n {
                assert(name[i] == '#');
            } else if n < i <= n + mid.len() {
                assert(is_white_space(mid[i - n - 1]));
            } else if i > n {
                assert(dots[i - n - 1 - mid.len()] == '.');
            }
        }
    }
    law_line_text(before, text, tail, none);
    law_split_once(name, ':', inner);
    if dots.len() > 0 {
        assert(dots[0] == '.' && dots[dots.len() - 1] == '.');
        assert(mid + dots + none == inner);
        law_trim(mid, dots, none);
    } else {
        assert(none + dots + none == inner);
        law_trim(none, dots, none);
    }
    assert(none + dots + none == dots);
    lemma_normalized_dots(none, dots, none);
}

/// A file is refused exactly if one of its lines is, and then for the first of
/// them.
pub proof fn law_first_bad_line_is_reported(lines: Seq<Seq<char>>)
    ensures
        rules_of_lines(lines) is Ok <==> forall|i: int|
            0 <= i < lines.len() ==> rule_of_line(#[trigger] lines[i], (i + 1) as nat) is Ok,
        rules_of_lines(lines) matches Err(f) ==> exists|i: int|
            0 <= i < lines.len() && rule_of_line(#[trigger] lines[i], (i + 1) as nat) == Err::<
                Option<(RuleKind, Seq<char>)>,
                Failure,
            >(f) && forall|j: int|
                0 <= j < i ==> rule_of_line(#[trigger] lines[j], (j + 1) as nat) is Ok,
    decreases lines.len(),
{
    if lines.len() > 0 {
        let n = lines.len() - 1;
        let front = lines.drop_last();
        law_first_bad_line_is_reported(front);
        assert forall|i: int| 0 <= i < n implies front[i] == lines[i] by {}
        if rules_of_lines(front) is Ok {
            assert forall|j: int| 0 <= j < n implies rule_of_line(
                #[trigger] lines[j],
                (j + 1) as nat,
            ) is Ok by {
                assert(rule_of_line(front[j], (j + 1) as nat) is Ok);
            }
            assert(rule_of_line(lines[n], (n + 1) as nat) == rule_of_line(
                lines.last(),
                lines.len(),
            ));
        } else {
            let f = rules_of_lines(front)->Err_0;
            let i = choose|i: int|
                0 <= i < front.len() && rule_of_line(#[trigger] front[i], (i + 1) as nat) == Err::<
                    Option<(RuleKind, Seq<char>)>,
                    Failure,
                >(f) && forall|j: int|
                    0 <= j < i ==> rule_of_line(#[trigger] front[j], (j + 1) as nat) is Ok;
            assert(lines[i] == front[i]);
            assert forall|j: int| 0 <= j < i implies rule_of_line(
                #[trigger] lines[j],
                (j + 1) as nat,
            ) is Ok by {
                assert(rule_of_line(front[j], (j + 1) as nat) is Ok);
            }
        }
    }
}

} // verus!
