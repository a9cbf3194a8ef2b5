use vstd::prelude::*;

use crate::text::{contains_char, is_prefix, same_text, starts_with};

verus! {

/// The kind of resource a request fetches; a rule may be limited to one kind.
#[derive(Debug, Clone, Copy, PartialEq, Eq, Structural)]
pub enum ResourceType {
    Document,
    Script,
    Image,
    Stylesheet,
    Xhr,
    Other,
}

/// The outcome of evaluating one request.
#[derive(Debug, Clone, Copy, PartialEq, Eq, Structural)]
pub enum BlockingDecision {
    Allow,
    Block,
}

/// A compiled filter rule: a domain-anchored pattern, whether it is an
/// exception (`@@`), and an optional resource-type qualifier.
#[derive(Debug)]
pub struct FilterRule {
    pub pattern: String,
    pub exception: bool,
    pub resource: Option<ResourceType>,
}

pub struct FilterRuleView {
    pub pattern: Seq<char>,
    pub exception: bool,
    pub resource: Option<ResourceType>,
}

impl View for FilterRule {
    type V = FilterRuleView;

    open spec fn view(&self) -> FilterRuleView {
        FilterRuleView { pattern: self.pattern@, exception: self.exception, resource: self.resource }
    }
}

/// One request to be evaluated: its URL, the host of the page that issued it,
/// and the kind of resource it fetches.
#[derive(Debug)]
pub struct BlockerRequest {
    pub url: String,
    pub source_host: String,
    pub resource: ResourceType,
}

/// The part of a URL that rules are matched against: the URL without its
/// `http://` or `https://` scheme.
pub open spec fn match_target(url: Seq<char>) -> Seq<char> {
    if is_prefix("https://"@, url) {
        url.skip(8)
    } else if is_prefix("http://"@, url) {
        url.skip(7)
    } else {
        url
    }
}

/// Characters that end a host name inside a URL.
pub open spec fn is_host_end(c: char) -> bool {
    c == '/' || c == '?' || c == ':' || c == '#'
}

/// A pattern matches a target when it is a non-empty prefix of it. A pattern
/// without `/` names a host, so it must also end where the host ends: a rule
/// for `ads.example.com` does not match `ads.example.com.net`.
pub open spec fn pattern_matches(p: Seq<char>, t: Seq<char>) -> bool {
    &&& p.len() > 0
    &&& is_prefix(p, t)
    &&& (p.len() == t.len() || p.contains('/') || is_host_end(t[p.len() as int]))
}

pub open spec fn rule_applies(r: FilterRuleView, url: Seq<char>, kind: ResourceType) -> bool {
    &&& pattern_matches(r.pattern, match_target(url))
    &&& (r.resource is None || r.resource == Some(kind))
}

pub open spec fn some_rule_applies(rules: Seq<FilterRuleView>, exception: bool, url: Seq<char>, kind: ResourceType) -> bool {
    exists|i: int| 0 <= i < rules.len() && rules[i].exception == exception && rule_applies(#[trigger] rules[i], url, kind)
}

/// The decision for a request: blocked when blocking is enabled, some
/// blocking rule applies and no exception rule applies; allowed otherwise.
pub open spec fn decision_of(disabled: bool, rules: Seq<FilterRuleView>, url: Seq<char>, kind: ResourceType) -> BlockingDecision {
    if !disabled && some_rule_applies(rules, false, url, kind) && !some_rule_applies(rules, true, url, kind) {
        BlockingDecision::Block
    } else {
        BlockingDecision::Allow
    }
}

/// The length of the scheme that `match_target` removes.
fn scheme_len(url: &str) -> (r: usize)
    ensures
        url@.skip(r as int) == match_target(url@),
        r <= url@.len(),
{
    proof {
        reveal_strlit("https://");
        reveal_strlit("http://");
    }
    if starts_with(url, "https://") {
        8
    } else if starts_with(url, "http://") {
        7
    } else {
        assert(url@.skip(0) =~= url@);
        0
    }
}

/// Whether `pattern` matches `url` once the scheme (`skip` characters) is removed.
fn pattern_matches_at(pattern: &str, url: &str, skip: usize) -> (r: bool)
    requires
        skip <= url@.len(),
    ensures
        r == pattern_matches(pattern@, url@.skip(skip as int)),
{
    let n = url.unicode_len();
    let target = url.substring_char(skip, n);
    assert(target@ =~= url@.skip(skip as int));
    if pattern.unicode_len() == 0 || !starts_with(target, pattern) {
        return false;
    }
    let plen = pattern.unicode_len();
    let tlen = target.unicode_len();
    if plen == tlen || contains_char(pattern, '/') {
        return true;
    }
    let c = target.get_char(plen);
    c == '/' || c == '?' || c == ':' || c == '#'
}

impl FilterRule {
    /// Whether this rule applies to a request for `url` fetching a `kind` resource.
    pub fn applies(&self, url: &str, kind: ResourceType) -> (r: bool)
        ensures
            r == rule_applies(self@, url@, kind),
    {
        let skip = scheme_len(url);
        let kind_ok = match self.resource {
            None => true,
            Some(k) => k == kind,
        };
        kind_ok && pattern_matches_at(&self.pattern, url, skip)
    }
}

/// Evaluates a request against `rules`. When `disabled` is set the answer is
/// `Allow` whatever the rules say; otherwise exception rules take precedence
/// over blocking rules, and a request that no rule matches is allowed.
pub fn evaluate(disabled: bool, rules: &Vec<FilterRule>, request: &BlockerRequest) -> (r: BlockingDecision)
    ensures
        r == decision_of(disabled, rules@.map_values(|x: FilterRule| x@), request.url@, request.resource),
        disabled ==> r == BlockingDecision::Allow,
{
    let ghost views = rules@.map_values(|x: FilterRule| x@);
    if disabled {
        return BlockingDecision::Allow;
    }
    let mut blocked = false;
    let mut excepted = false;
    let mut i: usize = 0;
    while i < rules.len()
        invariant
            i <= rules@.len(),
            views == rules@.map_values(|x: FilterRule| x@),
            blocked == some_rule_applies(views.take(i as int), false, request.url@, request.resource),
            excepted == some_rule_applies(views.take(i as int), true, request.url@, request.resource),
        decreases rules@.len() - i,
    {
        let rule = &rules[i];
        let hit = rule.applies(&request.url, request.resource);
        proof {
            let u = request.url@;
            let k = request.resource;
            let prev = views.take(i as int);
            let next = views.take(i + 1);
            assert(next[i as int] == rule@);
            assert forall|e: bool| some_rule_applies(next, e, u, k) == (some_rule_applies(prev, e, u, k) || (hit && rule.exception == e)) by {
                if some_rule_applies(next, e, u, k) {
                    let j = choose|j: int| 0 <= j < next.len() && next[j].exception == e && rule_applies(#[trigger] next[j], u, k);
                    if j < i {
                        assert(prev[j] == next[j]);
                    }
                }
                if some_rule_applies(prev, e, u, k) {
                    let j = choose|j: int| 0 <= j < prev.len() && prev[j].exception == e && rule_applies(#[trigger] prev[j], u, k);
                    assert(prev[j] == next[j]);
                }
            }
        }
        if hit {
            if rule.exception {
                excepted = true;
            } else {
                blocked = true;
            }
        }
        i = i + 1;
    }
    assert(views.take(i as int) =~= views);
    if blocked && !excepted {
        BlockingDecision::Block
    } else {
        BlockingDecision::Allow
    }
}

/// The resource type that a `$` option names.
pub open spec fn option_kind(o: Seq<char>) -> Option<ResourceType> {
    if o == "document"@ {
        Some(ResourceType::Document)
    } else if o == "script"@ {
        Some(ResourceType::Script)
    } else if o == "image"@ {
        Some(ResourceType::Image)
    } else if o == "stylesheet"@ {
        Some(ResourceType::Stylesheet)
    } else if o == "xmlhttprequest"@ {
        Some(ResourceType::Xhr)
    } else if o == "other"@ {
        Some(ResourceType::Other)
    } else {
        None
    }
}

fn parse_option(o: &str) -> (r: Option<ResourceType>)
    ensures
        r == option_kind(o@),
{
    if same_text(o, "document") {
        Some(ResourceType::Document)
    } else if same_text(o, "script") {
        Some(ResourceType::Script)
    } else if same_text(o, "image") {
        Some(ResourceType::Image)
    } else if same_text(o, "stylesheet") {
        Some(ResourceType::Stylesheet)
    } else if same_text(o, "xmlhttprequest") {
        Some(ResourceType::Xhr)
    } else if same_text(o, "other") {
        Some(ResourceType::Other)
    } else {
        None
    }
}

/// `k` is the position of the first `$` in `s`.
pub open spec fn first_dollar(s: Seq<char>, k: int) -> bool {
    0 <= k < s.len() && s[k] == '$' && forall|j: int| 0 <= j < k ==> s[j] != '$'
}

/// `s` without the `@@` that marks an exception.
pub open spec fn after_exception_mark(s: Seq<char>) -> Seq<char> {
    if is_prefix("@@"@, s) { s.skip(2) } else { s }
}

/// `s` without the `||` domain anchor.
pub open spec fn after_anchor(s: Seq<char>) -> Seq<char> {
    if is_prefix("||"@, s) { s.skip(2) } else { s }
}

/// `p` without a final `^` separator.
pub open spec fn without_separator(p: Seq<char>) -> Seq<char> {
    if p.len() > 0 && p.last() == '^' { p.drop_last() } else { p }
}

/// The rule that a line of a filter list states, if any. A line is
/// `[@@][||]pattern[^][$type]`: `@@` makes an exception, `||` anchors the
/// pattern at the host, `^` ends it, and one `$` option limits the rule to a
/// resource type. Empty lines, `!` comments, unknown options and empty
/// patterns state no rule.
pub open spec fn rule_of_line(line: Seq<char>) -> Option<FilterRuleView> {
    let body = after_anchor(after_exception_mark(line));
    let exception = is_prefix("@@"@, line);
    if line.len() == 0 || line[0] == '!' {
        None
    } else if exists|k: int| first_dollar(body, k) {
        let k = choose|k: int| first_dollar(body, k);
        let pattern = without_separator(body.take(k));
        match option_kind(body.skip(k + 1)) {
            Some(kind) => if pattern.len() > 0 {
                Some(FilterRuleView { pattern, exception, resource: Some(kind) })
            } else {
                None
            },
            None => None,
        }
    } else {
        let pattern = without_separator(body);
        if pattern.len() > 0 {
            Some(FilterRuleView { pattern, exception, resource: None })
        } else {
            None
        }
    }
}

fn find_dollar(s: &str) -> (r: Option<usize>)
    ensures
        match r {
            Some(k) => first_dollar(s@, k as int),
            None => forall|j: int| 0 <= j < s@.len() ==> s@[j] != '$',
        },
{
    let n = s.unicode_len();
    let mut i: usize = 0;
    while i < n
        invariant
            n == s@.len(),
            i <= n,
            forall|j: int| 0 <= j < i ==> s@[j] != '$',
        decreases n - i,
    {
        if s.get_char(i) == '$' {
            return Some(i);
        }
        i = i + 1;
    }
    None
}

fn strip_separator(p: &str) -> (r: String)
    ensures
        r@ == without_separator(p@),
{
    let n = p.unicode_len();
    if n > 0 && p.get_char(n - 1) == '^' {
        let r = p.substring_char(0, n - 1).to_string();
        assert(r@ =~= p@.drop_last());
        r
    } else {
        p.to_string()
    }
}

/// Compiles one line of a filter list.
pub fn parse_rule(line: &str) -> (r: Option<FilterRule>)
    ensures
        match r {
            Some(rule) => rule_of_line(line@) == Some(rule@),
            None => rule_of_line(line@) is None,
        },
{
    proof {
        reveal_strlit("@@");
        reveal_strlit("||");
    }
    let n = line.unicode_len();
    if n == 0 || line.get_char(0) == '!' {
        return None;
    }
    let exception = starts_with(line, "@@");
    let rest = if exception { line.substring_char(2, n) } else { line.substring_char(0, n) };
    assert(rest@ =~= after_exception_mark(line@));
    let m = rest.unicode_len();
    let body = if starts_with(rest, "||") { rest.substring_char(2, m) } else { rest.substring_char(0, m) };
    assert(body@ =~= after_anchor(after_exception_mark(line@)));
    let b = body.unicode_len();
    match find_dollar(body) {
        Some(k) => {
            proof {
                assert forall|k2: int| first_dollar(body@, k2) implies k2 == k by {
                    if k2 < k { assert(body@[k2] == '$'); }
                    if k2 > k { assert(body@[k as int] != '$'); }
                }
            }
            let head = body.substring_char(0, k);
            let option = body.substring_char(k + 1, b);
            assert(head@ =~= body@.take(k as int));
            assert(option@ =~= body@.skip(k + 1));
            let pattern = strip_separator(head);
            match parse_option(option) {
                Some(kind) => {
                    if pattern.unicode_len() > 0 {
                        Some(FilterRule { pattern, exception, resource: Some(kind) })
                    } else {
                        None
                    }
                },
                None => None,
            }
        },
        None => {
            let pattern = strip_separator(body);
            if pattern.unicode_len() > 0 {
                Some(FilterRule { pattern, exception, resource: None })
            } else {
                None
            }
        },
    }
}

/// The rules that the lines of a filter list state, in order.
pub open spec fn rules_of_lines(lines: Seq<Seq<char>>) -> Seq<FilterRuleView>
    decreases lines.len(),
{
    if lines.len() == 0 {
        Seq::empty()
    } else {
        match rule_of_line(lines.last()) {
            Some(r) => rules_of_lines(lines.drop_last()).push(r),
            None => rules_of_lines(lines.drop_last()),
        }
    }
}

/// Compiles the lines of a filter list, skipping those that state no rule.
pub fn compile_rules(lines: &Vec<String>) -> (r: Vec<FilterRule>)
    ensures
        r@.map_values(|x: FilterRule| x@) == rules_of_lines(lines@.map_values(|s: String| s@)),
{
    let ghost all = lines@.map_values(|s: String| s@);
    let mut out: Vec<FilterRule> = Vec::new();
    let mut i: usize = 0;
    while i < lines.len()
        invariant
            i <= lines@.len(),
            all == lines@.map_values(|s: String| s@),
            out@.map_values(|x: FilterRule| x@) == rules_of_lines(all.take(i as int)),
        decreases lines@.len() - i,
    {
        assert(all.take(i + 1).drop_last() =~= all.take(i as int));
        assert(all.take(i + 1).last() == lines@[i as int]@);
        let ghost before = out@.map_values(|x: FilterRule| x@);
        match parse_rule(lines[i].as_str()) {
            Some(rule) => {
                let ghost v = rule@;
                out.push(rule);
                assert(out@.map_values(|x: FilterRule| x@) =~= before.push(v));
            },
            None => {},
        }
        i = i + 1;
    }
    assert(all.take(i as int) =~= all);
    out
}

/// The decision engine's state: the compiled rule set it owns. A refresh
/// swaps the whole set between two evaluations.
#[derive(Debug)]
pub struct BlockingService {
    rules: Vec<FilterRule>,
}

impl BlockingService {
    pub closed spec fn rules(&self) -> Seq<FilterRuleView> {
        self.rules@.map_values(|x: FilterRule| x@)
    }

    pub fn new(rules: Vec<FilterRule>) -> (r: BlockingService)
        ensures
            r.rules() == rules@.map_values(|x: FilterRule| x@),
    {
        BlockingService { rules }
    }

    /// Replaces the rule set wholesale.
    pub fn replace_rules(&mut self, rules: Vec<FilterRule>)
        ensures
            final(self).rules() == rules@.map_values(|x: FilterRule| x@),
    {
        self.rules = rules;
    }

    /// Answers one request. `disabled` is the current value of the global
    /// switch that turns blocking off.
    pub fn handle(&self, disabled: bool, request: &BlockerRequest) -> (r: BlockingDecision)
        ensures
            r == decision_of(disabled, self.rules(), request.url@, request.resource),
            disabled ==> r == BlockingDecision::Allow,
    {
        evaluate(disabled, &self.rules, request)
    }
}

/// The decision a caller acts on once its reply slot has been resolved: the
/// worker's answer, or `Allow` when no answer came because the worker is gone.
/// The engine fails open, so a crashed worker stops ad blocking instead of
/// cutting off all traffic.
pub fn decision_or_fail_open(reply: Option<BlockingDecision>) -> (r: BlockingDecision)
    ensures
        r == match reply {
            Some(d) => d,
            None => BlockingDecision::Allow,
        },
{
    match reply {
        Some(d) => d,
        None => BlockingDecision::Allow,
    }
}

/// Whatever the rules, every request is allowed while blocking is disabled.
pub proof fn lemma_disabled_allows_all(rules: Seq<FilterRuleView>, url: Seq<char>, kind: ResourceType)
    ensures
        decision_of(true, rules, url, kind) == BlockingDecision::Allow,
{
}

/// An exception rule that applies to a request overrides every blocking rule.
pub proof fn lemma_exception_wins(disabled: bool, rules: Seq<FilterRuleView>, i: int, url: Seq<char>, kind: ResourceType)
    requires
        0 <= i < rules.len(),
        rules[i].exception,
        rule_applies(rules[i], url, kind),
    ensures
        decision_of(disabled, rules, url, kind) == BlockingDecision::Allow,
{
}

} // verus!
