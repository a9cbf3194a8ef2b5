use vstd::prelude::*;

use crate::exclusion::LocalExclusionStore;
use crate::text::{contains_char, is_prefix, same_text, starts_with};

verus! {

pub const BASE_FILTERS_URL: &'static str = "https://filters.privaxy.net";

pub const METADATA_FILE_NAME: &'static str = "metadata.json";

pub const CONFIGURATION_DIRECTORY_NAME: &'static str = ".privaxy";

pub const CONFIGURATION_FILE_NAME: &'static str = "config";

/// std's I/O error, carried unopened inside `FileSystemError`.
#[verifier::external_type_specification]
#[verifier::external_body]
pub struct ExIoError(std::io::Error);

#[derive(Debug)]
pub enum ConfigurationError {
    /// Reading or writing the configuration on disk failed.
    FileSystemError(std::io::Error),
    /// The user's home directory could not be determined.
    HomeDirectoryNotFound,
    /// The filter catalog's address could not be formed from its base URL.
    InvalidFiltersUrl,
    /// Fetching or reading the remote filter catalog failed.
    FilterFetchError,
    /// The configuration file does not have the expected form.
    MalformedConfiguration,
}

/// The result of joining `relative` onto the URL `base` by the URL
/// standard's rules: `None` when `base` does not parse or the join fails.
pub uninterp spec fn url_joined(base: Seq<char>, relative: Seq<char>) -> Option<Seq<char>>;

/// Relies on `reqwest::Url::parse` and `Url::join`: each either fails or
/// gives a URL, depending on its arguments alone; the joined URL is handed
/// back serialised.
#[verifier::external_body]
fn join_url(base: &str, relative: &str) -> (r: Option<String>)
    ensures
        r is Some <==> url_joined(base@, relative@) is Some,
        r matches Some(s) ==> url_joined(base@, relative@) == Some(s@),
{
    let url = reqwest::Url::parse(base).ok()?;
    let joined = url.join(relative).ok()?;
    Some(joined.as_str().to_string())
}

/// The address of the filter catalog under the base URL `base`.
pub fn filters_metadata_url(base: &str) -> (r: Result<String, ConfigurationError>)
    ensures
        match url_joined(base@, METADATA_FILE_NAME@) {
            Some(u) => r matches Ok(s) && s@ == u,
            None => r matches Err(ConfigurationError::InvalidFiltersUrl),
        },
{
    match join_url(base, METADATA_FILE_NAME) {
        Some(s) => Ok(s),
        None => Err(ConfigurationError::InvalidFiltersUrl),
    }
}

/// The user's home directory, or the error that there is none.
pub fn home_directory<P>(found: Option<P>) -> (r: Result<P, ConfigurationError>)
    ensures
        match found {
            Some(p) => r == Ok::<P, ConfigurationError>(p),
            None => r matches Err(ConfigurationError::HomeDirectoryNotFound),
        },
{
    match found {
        Some(dir) => Ok(dir),
        None => Err(ConfigurationError::HomeDirectoryNotFound),
    }
}

/// What a look at a path of the configuration (its directory or its file) found.
#[derive(Debug, Clone, Copy, PartialEq, Eq, Structural)]
pub enum DirectoryProbe {
    Present,
    Missing,
    Unreadable,
}

/// What to do at startup about the configuration directory.
#[derive(Debug, Clone, Copy, PartialEq, Eq, Structural)]
pub enum StartupStep {
    /// The directory is there: load what it holds.
    UseExisting,
    /// The directory is missing: create it, then write a default configuration.
    CreateThenDefault,
    /// The directory cannot be read: build a default configuration.
    DefaultOnly,
}

pub fn plan_startup(probe: DirectoryProbe) -> (r: StartupStep)
    ensures
        probe == DirectoryProbe::Present <==> r == StartupStep::UseExisting,
        probe == DirectoryProbe::Missing <==> r == StartupStep::CreateThenDefault,
        probe == DirectoryProbe::Unreadable <==> r == StartupStep::DefaultOnly,
{
    match probe {
        DirectoryProbe::Present => StartupStep::UseExisting,
        DirectoryProbe::Missing => StartupStep::CreateThenDefault,
        DirectoryProbe::Unreadable => StartupStep::DefaultOnly,
    }
}

/// What to do, once the configuration directory is there, about its file.
#[derive(Debug, Clone, Copy, PartialEq, Eq, Structural)]
pub enum LoadStep {
    /// The file is there: read it.
    ReadFile,
    /// The file is missing: build a default configuration and write it.
    WriteDefault,
    /// The file cannot be looked at: report the file system error.
    ReportError,
}

pub fn plan_load(file: DirectoryProbe) -> (r: LoadStep)
    ensures
        file == DirectoryProbe::Present <==> r == LoadStep::ReadFile,
        file == DirectoryProbe::Missing <==> r == LoadStep::WriteDefault,
        file == DirectoryProbe::Unreadable <==> r == LoadStep::ReportError,
{
    match file {
        DirectoryProbe::Present => LoadStep::ReadFile,
        DirectoryProbe::Missing => LoadStep::WriteDefault,
        DirectoryProbe::Unreadable => LoadStep::ReportError,
    }
}

/// One entry of the remote filter catalog.
#[derive(Debug)]
pub struct FilterMetadata {
    pub title: String,
    pub group: String,
    pub file_name: String,
    pub enabled_by_default: bool,
}

pub struct FilterMetadataView {
    pub title: Seq<char>,
    pub group: Seq<char>,
    pub file_name: Seq<char>,
    pub enabled_by_default: bool,
}

impl View for FilterMetadata {
    type V = FilterMetadataView;

    open spec fn view(&self) -> FilterMetadataView {
        FilterMetadataView {
            title: self.title@,
            group: self.group@,
            file_name: self.file_name@,
            enabled_by_default: self.enabled_by_default,
        }
    }
}

pub open spec fn strings(v: Seq<String>) -> Seq<Seq<char>> {
    v.map_values(|s: String| s@)
}

pub open spec fn catalog(v: Seq<FilterMetadata>) -> Seq<FilterMetadataView> {
    v.map_values(|f: FilterMetadata| f@)
}

/// The file names of the catalog entries that are enabled by default, in
/// catalog order.
pub open spec fn default_enabled(c: Seq<FilterMetadataView>) -> Seq<Seq<char>>
    decreases c.len(),
{
    if c.len() == 0 {
        Seq::empty()
    } else if c.last().enabled_by_default {
        default_enabled(c.drop_last()).push(c.last().file_name)
    } else {
        default_enabled(c.drop_last())
    }
}

/// Text made of `lines`, each followed by a newline.
pub open spec fn text_of_lines(lines: Seq<Seq<char>>) -> Seq<char>
    decreases lines.len(),
{
    if lines.len() == 0 {
        Seq::empty()
    } else {
        lines[0] + "\n"@ + text_of_lines(lines.drop_first())
    }
}

/// `tag` put in front of each item.
pub open spec fn tagged(tag: Seq<char>, items: Seq<Seq<char>>) -> Seq<Seq<char>> {
    items.map_values(|i: Seq<char>| tag + i)
}

/// The lines of a configuration file: `exclude <host>` per exclusion, then
/// `rule <rule>` per custom rule, then `enable <file name>` per enabled list.
pub open spec fn configuration_lines(exclusions: Seq<Seq<char>>, rules: Seq<Seq<char>>, enabled: Seq<Seq<char>>) -> Seq<Seq<char>> {
    tagged("exclude "@, exclusions) + tagged("rule "@, rules) + tagged("enable "@, enabled)
}

pub open spec fn has_newline(s: Seq<char>) -> bool {
    s.contains('\n')
}

/// Adding a line at the end of a text adds it, and its newline, at the end.
pub proof fn lemma_text_push(lines: Seq<Seq<char>>, l: Seq<char>)
    ensures
        text_of_lines(lines.push(l)) == text_of_lines(lines) + l + "\n"@,
    decreases lines.len(),
{
    if lines.len() == 0 {
        assert(lines.push(l).drop_first() =~= Seq::<Seq<char>>::empty());
        assert(text_of_lines(lines.push(l).drop_first()) == Seq::<char>::empty());
        assert(lines.push(l)[0] == l);
        assert(text_of_lines(lines) == Seq::<char>::empty());
        assert(text_of_lines(lines.push(l)) =~= l + "\n"@ + Seq::<char>::empty());
        assert(l + "\n"@ + Seq::<char>::empty() =~= Seq::<char>::empty() + l + "\n"@);
    } else {
        lemma_text_push(lines.drop_first(), l);
        assert(lines.push(l).drop_first() =~= lines.drop_first().push(l));
        assert(text_of_lines(lines.push(l)) =~= text_of_lines(lines) + l + "\n"@);
    }
}

/// Appends to `out` the line `tag` + item for every item, and to `lines` those lines.
fn append_tagged_lines(out: &mut String, lines: Ghost<Seq<Seq<char>>>, tag: &str, items: &Vec<String>) -> (r: Ghost<Seq<Seq<char>>>)
    requires
        old(out)@ == text_of_lines(lines@),
    ensures
        r@ == lines@ + tagged(tag@, strings(items@)),
        final(out)@ == text_of_lines(r@),
{
    let ghost all = tagged(tag@, strings(items@));
    let ghost mut done = lines@;
    let mut i: usize = 0;
    while i < items.len()
        invariant
            i <= items@.len(),
            all == tagged(tag@, strings(items@)),
            done == lines@ + all.take(i as int),
            out@ == text_of_lines(done),
        decreases items@.len() - i,
    {
        out.append(tag);
        out.append(items[i].as_str());
        out.append("\n");
        proof {
            let l = tag@ + items@[i as int]@;
            lemma_text_push(done, l);
            assert(all[i as int] == l);
            assert(lines@ + all.take(i + 1) =~= done.push(l));
            assert(out@ =~= text_of_lines(done) + l + "\n"@);
            done = done.push(l);
        }
        i = i + 1;
    }
    assert(all.take(i as int) =~= all);
    Ghost(done)
}

/// `lines` are the lines of `text`: no line holds a newline, and each is
/// followed by one.
pub open spec fn lines_of(text: Seq<char>, lines: Seq<Seq<char>>) -> bool {
    &&& text == text_of_lines(lines)
    &&& forall|i: int| 0 <= i < lines.len() ==> !has_newline(#[trigger] lines[i])
}

/// Each line starts with one of the three tags of a configuration file.
pub open spec fn well_tagged(lines: Seq<Seq<char>>) -> bool {
    forall|i: int| 0 <= i < lines.len() ==> is_prefix("exclude "@, #[trigger] lines[i]) || is_prefix("rule "@, lines[i]) || is_prefix("enable "@, lines[i])
}

/// What follows `tag` on each line that starts with it, in order.
pub open spec fn bucket(lines: Seq<Seq<char>>, tag: Seq<char>) -> Seq<Seq<char>>
    decreases lines.len(),
{
    if lines.len() == 0 {
        Seq::empty()
    } else if is_prefix(tag, lines.last()) {
        bucket(lines.drop_last(), tag).push(lines.last().skip(tag.len() as int))
    } else {
        bucket(lines.drop_last(), tag)
    }
}

/// A text is cut into lines in at most one way.
pub proof fn lemma_lines_unique(text: Seq<char>, a: Seq<Seq<char>>, b: Seq<Seq<char>>)
    requires
        lines_of(text, a),
        lines_of(text, b),
    ensures
        a == b,
    decreases a.len(),
{
    reveal_strlit("\n");
    if a.len() == 0 {
        if b.len() > 0 {
            assert(text == b[0] + "\n"@ + text_of_lines(b.drop_first()));
            assert(text.len() > 0);
        }
        assert(a =~= b);
    } else {
        assert(text == a[0] + "\n"@ + text_of_lines(a.drop_first()));
        assert(text.len() > 0);
        assert(b.len() > 0);
        let n = a[0].len();
        let m = b[0].len();
        assert(text == a[0] + "\n"@ + text_of_lines(a.drop_first()));
        assert(text == b[0] + "\n"@ + text_of_lines(b.drop_first()));
        assert(text[n as int] == '\n');
        assert(text[m as int] == '\n');
        if m > n {
            assert(text[n as int] == b[0][n as int]);
            assert(has_newline(b[0]));
        }
        if n > m {
            assert(text[m as int] == a[0][m as int]);
            assert(has_newline(a[0]));
        }
        assert(a[0] =~= text.take(n as int));
        assert(b[0] =~= text.take(m as int));
        let rest = text.skip(n as int + 1);
        assert(rest =~= text_of_lines(a.drop_first()));
        assert(rest =~= text_of_lines(b.drop_first()));
        assert forall|i: int| 0 <= i < a.drop_first().len() implies !has_newline(#[trigger] a.drop_first()[i]) by {
            assert(a.drop_first()[i] == a[i + 1]);
        }
        assert forall|i: int| 0 <= i < b.drop_first().len() implies !has_newline(#[trigger] b.drop_first()[i]) by {
            assert(b.drop_first()[i] == b[i + 1]);
        }
        lemma_lines_unique(rest, a.drop_first(), b.drop_first());
        assert(n == m);
        assert(a[0] == b[0]);
        assert forall|i: int| 0 <= i < a.len() implies a[i] == b[i] by {
            if i > 0 {
                assert(a[i] == a.drop_first()[i - 1]);
                assert(b[i] == b.drop_first()[i - 1]);
            }
        }
        assert(a =~= b);
    }
}

/// A text made of lines is empty or ends with a newline.
pub proof fn lemma_text_ends_with_newline(lines: Seq<Seq<char>>)
    ensures
        text_of_lines(lines).len() == 0 || text_of_lines(lines).last() == '\n',
    decreases lines.len(),
{
    reveal_strlit("\n");
    if lines.len() > 0 {
        lemma_text_ends_with_newline(lines.drop_first());
        let rest = text_of_lines(lines.drop_first());
        assert(text_of_lines(lines) == lines[0] + "\n"@ + rest);
        if rest.len() == 0 {
            assert((lines[0] + "\n"@ + rest).last() == '\n');
        } else {
            assert((lines[0] + "\n"@ + rest).last() == rest.last());
        }
    }
}

/// Cuts `text` into its lines; `None` when it does not end with a newline.
fn split_lines(text: &str) -> (r: Option<Vec<String>>)
    ensures
        match r {
            Some(ls) => lines_of(text@, strings(ls@)),
            None => !(exists|ls: Seq<Seq<char>>| lines_of(text@, ls)),
        },
{
    let n = text.unicode_len();
    let mut lines: Vec<String> = Vec::new();
    let mut start: usize = 0;
    let mut i: usize = 0;
    assert(text@.take(0) =~= text_of_lines(strings(lines@)));
    while i < n
        invariant
            n == text@.len(),
            start <= i <= n,
            text@.take(start as int) == text_of_lines(strings(lines@)),
            forall|k: int| 0 <= k < strings(lines@).len() ==> !has_newline(#[trigger] strings(lines@)[k]),
            forall|j: int| start <= j < i ==> text@[j] != '\n',
        decreases n - i,
    {
        if text.get_char(i) == '\n' {
            let line = text.substring_char(start, i).to_string();
            let ghost before = strings(lines@);
            lines.push(line);
            proof {
                reveal_strlit("\n");
                let l = text@.subrange(start as int, i as int);
                assert(strings(lines@) =~= before.push(l));
                lemma_text_push(before, l);
                assert(text@.take(i + 1) =~= text@.take(start as int) + l + "\n"@);
                assert(!has_newline(l)) by {
                    if has_newline(l) {
                        let k = choose|k: int| 0 <= k < l.len() && l[k] == '\n';
                        assert(text@[start + k] == '\n');
                    }
                }
                assert forall|k: int| 0 <= k < strings(lines@).len() implies !has_newline(#[trigger] strings(lines@)[k]) by {
                    if k < before.len() {
                        assert(strings(lines@)[k] == before[k]);
                    }
                }
            }
            start = i + 1;
        }
        i = i + 1;
    }
    if start < n {
        proof {
            assert(text@.last() != '\n');
            if exists|ls: Seq<Seq<char>>| lines_of(text@, ls) {
                let ls = choose|ls: Seq<Seq<char>>| lines_of(text@, ls);
                lemma_text_ends_with_newline(ls);
            }
        }
        return None;
    }
    assert(text@.take(start as int) =~= text@);
    Some(lines)
}

/// No item holds a newline.
pub open spec fn no_newlines(items: Seq<Seq<char>>) -> bool {
    forall|i: int| 0 <= i < items.len() ==> !has_newline(#[trigger] items[i])
}

/// Whether no item of `v` holds a newline.
fn all_single_line(v: &Vec<String>) -> (r: bool)
    ensures
        r == no_newlines(strings(v@)),
{
    let mut i: usize = 0;
    while i < v.len()
        invariant
            i <= v@.len(),
            forall|j: int| 0 <= j < i ==> !has_newline(#[trigger] strings(v@)[j]),
        decreases v@.len() - i,
    {
        if contains_char(v[i].as_str(), '\n') {
            assert(strings(v@)[i as int] == v@[i as int]@);
            return false;
        }
        assert(strings(v@)[i as int] == v@[i as int]@);
        i = i + 1;
    }
    true
}

/// Whether the items of `v` are pairwise different.
fn all_distinct(v: &Vec<String>) -> (r: bool)
    ensures
        r == strings(v@).no_duplicates(),
{
    let ghost sv = strings(v@);
    let mut i: usize = 0;
    while i < v.len()
        invariant
            i <= v@.len(),
            sv == strings(v@),
            forall|a: int, b: int| 0 <= a < b < sv.len() && a < i ==> sv[a] != sv[b],
        decreases v@.len() - i,
    {
        let mut j: usize = i + 1;
        while j < v.len()
            invariant
                i < v@.len(),
                i < j <= v@.len(),
                sv == strings(v@),
                forall|a: int, b: int| 0 <= a < b < sv.len() && a < i ==> sv[a] != sv[b],
                forall|b: int| i < b < j ==> sv[i as int] != sv[b],
            decreases v@.len() - j,
        {
            if same_text(v[i].as_str(), v[j].as_str()) {
                assert(sv[i as int] == sv[j as int]);
                return false;
            }
            j = j + 1;
        }
        i = i + 1;
    }
    true
}

/// The three tags differ within their common length, so a line starts with
/// at most one of them.
proof fn lemma_tags_exclusive(l: Seq<char>)
    ensures
        is_prefix("exclude "@, l) ==> !is_prefix("rule "@, l) && !is_prefix("enable "@, l),
        is_prefix("rule "@, l) ==> !is_prefix("enable "@, l),
{
    reveal_strlit("exclude ");
    reveal_strlit("rule ");
    reveal_strlit("enable ");
    if is_prefix("exclude "@, l) {
        assert(l.subrange(0, 8)[0] == 'e');
        assert(l.subrange(0, 8)[1] == 'x');
        assert(l[0] == 'e' && l[1] == 'x');
        if is_prefix("rule "@, l) {
            assert(l.subrange(0, 5)[0] == 'r');
        }
        if is_prefix("enable "@, l) {
            assert(l.subrange(0, 7)[1] == 'n');
        }
    }
    if is_prefix("rule "@, l) {
        assert(l.subrange(0, 5)[0] == 'r');
        if is_prefix("enable "@, l) {
            assert(l.subrange(0, 7)[0] == 'e');
        }
    }
}

proof fn lemma_bucket_step(lines: Seq<Seq<char>>, i: int, tag: Seq<char>)
    requires
        0 <= i < lines.len(),
    ensures
        bucket(lines.take(i + 1), tag) == if is_prefix(tag, lines[i]) {
            bucket(lines.take(i), tag).push(lines[i].skip(tag.len() as int))
        } else {
            bucket(lines.take(i), tag)
        },
{
    assert(lines.take(i + 1).drop_last() =~= lines.take(i));
    assert(lines.take(i + 1).last() == lines[i]);
}

proof fn lemma_bucket_concat(a: Seq<Seq<char>>, b: Seq<Seq<char>>, tag: Seq<char>)
    ensures
        bucket(a + b, tag) == bucket(a, tag) + bucket(b, tag),
    decreases b.len(),
{
    if b.len() == 0 {
        assert(a + b =~= a);
        assert(bucket(a, tag) + bucket(b, tag) =~= bucket(a, tag));
    } else {
        lemma_bucket_concat(a, b.drop_last(), tag);
        assert((a + b).drop_last() =~= a + b.drop_last());
        assert((a + b).last() == b.last());
        if is_prefix(tag, b.last()) {
            assert(bucket(a + b, tag) =~= bucket(a, tag) + bucket(b, tag));
        }
    }
}

proof fn lemma_bucket_tagged(t: Seq<char>, tag: Seq<char>, items: Seq<Seq<char>>)
    requires
        t == tag || exists|k: int| 0 <= k < t.len() && k < tag.len() && t[k] != tag[k],
    ensures
        bucket(tagged(tag, items), t) == if t == tag { items } else { Seq::<Seq<char>>::empty() },
    decreases items.len(),
{
    if items.len() == 0 {
        assert(tagged(tag, items) =~= Seq::<Seq<char>>::empty());
        assert(items =~= Seq::<Seq<char>>::empty());
    } else {
        lemma_bucket_tagged(t, tag, items.drop_last());
        let l = tag + items.last();
        assert(tagged(tag, items).drop_last() =~= tagged(tag, items.drop_last()));
        assert(tagged(tag, items).last() == l);
        if t == tag {
            assert(l.subrange(0, tag.len() as int) =~= tag);
            assert(l.skip(tag.len() as int) =~= items.last());
            assert(items.drop_last().push(items.last()) =~= items);
        } else {
            let k = choose|k: int| 0 <= k < t.len() && k < tag.len() && t[k] != tag[k];
            if is_prefix(t, l) {
                assert(l.subrange(0, t.len() as int)[k] == l[k]);
            }
        }
    }
}

/// Reading back the text of a configuration gives its exclusions, custom
/// rules and enabled lists, provided none of them holds a newline: the text
/// is cut into lines in one way only, each line carries its tag, and the
/// lines of each tag come back in order.
pub proof fn lemma_round_trip(exclusions: Seq<Seq<char>>, rules: Seq<Seq<char>>, enabled: Seq<Seq<char>>)
    requires
        no_newlines(exclusions),
        no_newlines(rules),
        no_newlines(enabled),
    ensures
        ({
            let lines = configuration_lines(exclusions, rules, enabled);
            &&& lines_of(text_of_lines(lines), lines)
            &&& well_tagged(lines)
            &&& forall|ls: Seq<Seq<char>>| #[trigger] lines_of(text_of_lines(lines), ls) ==> ls == lines
            &&& bucket(lines, "exclude "@) == exclusions
            &&& bucket(lines, "rule "@) == rules
            &&& bucket(lines, "enable "@) == enabled
        }),
{
    reveal_strlit("exclude ");
    reveal_strlit("rule ");
    reveal_strlit("enable ");
    let ex = "exclude "@;
    let ru = "rule "@;
    let en = "enable "@;
    let cl = configuration_lines(exclusions, rules, enabled);
    let a = tagged(ex, exclusions);
    let b = tagged(ru, rules);
    let c = tagged(en, enabled);
    assert forall|i: int| 0 <= i < cl.len() implies !has_newline(#[trigger] cl[i]) && (is_prefix(ex, cl[i]) || is_prefix(ru, cl[i]) || is_prefix(en, cl[i])) by {
        let (tag, item) = if i < a.len() {
            (ex, exclusions[i])
        } else if i < a.len() + b.len() {
            (ru, rules[i - a.len()])
        } else {
            (en, enabled[i - a.len() - b.len()])
        };
        assert(cl[i] == tag + item);
        assert((tag + item).subrange(0, tag.len() as int) =~= tag);
        if has_newline(tag + item) {
            let k = choose|k: int| 0 <= k < (tag + item).len() && (tag + item)[k] == '\n';
            if k >= tag.len() {
                assert(item[k - tag.len()] == '\n');
            }
        }
    }
    assert forall|ls: Seq<Seq<char>>| #[trigger] lines_of(text_of_lines(cl), ls) implies ls == cl by {
        lemma_lines_unique(text_of_lines(cl), cl, ls);
    }
    lemma_bucket_concat(a + b, c, ex);
    lemma_bucket_concat(a, b, ex);
    lemma_bucket_concat(a + b, c, ru);
    lemma_bucket_concat(a, b, ru);
    lemma_bucket_concat(a + b, c, en);
    lemma_bucket_concat(a, b, en);
    assert(ex[0] != ru[0]);
    assert(ex[1] != en[1]);
    assert(ru[0] != en[0]);
    lemma_bucket_tagged(ex, ex, exclusions);
    lemma_bucket_tagged(ex, ru, rules);
    lemma_bucket_tagged(ex, en, enabled);
    lemma_bucket_tagged(ru, ex, exclusions);
    lemma_bucket_tagged(ru, ru, rules);
    lemma_bucket_tagged(ru, en, enabled);
    lemma_bucket_tagged(en, ex, exclusions);
    lemma_bucket_tagged(en, ru, rules);
    lemma_bucket_tagged(en, en, enabled);
    assert(exclusions + Seq::<Seq<char>>::empty() + Seq::<Seq<char>>::empty() =~= exclusions);
    assert(Seq::<Seq<char>>::empty() + rules + Seq::<Seq<char>>::empty() =~= rules);
    assert(Seq::<Seq<char>>::empty() + Seq::<Seq<char>>::empty() + enabled =~= enabled);
}

/// The persisted configuration: excluded hosts, custom filter rules, the
/// filter catalog and which of its lists are enabled.
#[derive(Debug)]
pub struct Configuration {
    pub exclusions: Vec<String>,
    pub custom_filters: Vec<String>,
    pub filters: Vec<FilterMetadata>,
    pub enabled_filters: Vec<String>,
}

impl Configuration {
    /// No host is excluded twice.
    pub open spec fn wf(&self) -> bool {
        strings(self.exclusions@).no_duplicates()
    }

    /// No item holds a newline, so each fits on one line of the file.
    pub open spec fn storable(&self) -> bool {
        &&& no_newlines(strings(self.exclusions@))
        &&& no_newlines(strings(self.custom_filters@))
        &&& no_newlines(strings(self.enabled_filters@))
    }

    /// Whether the configuration can be written to its file.
    pub fn is_storable(&self) -> (r: bool)
        ensures
            r == self.storable(),
    {
        all_single_line(&self.exclusions) && all_single_line(&self.custom_filters) && all_single_line(&self.enabled_filters)
    }

    /// The configuration of a first start: no exclusions, no custom rules,
    /// the fetched catalog, and the lists it enables by default.
    pub fn new_default(filters: Vec<FilterMetadata>) -> (r: Configuration)
        ensures
            r.wf(),
            r.exclusions@.len() == 0,
            r.custom_filters@.len() == 0,
            catalog(r.filters@) == catalog(filters@),
            strings(r.enabled_filters@) == default_enabled(catalog(filters@)),
    {
        let enabled = Self::default_enabled_filters(&filters);
        let r = Configuration { exclusions: Vec::new(), custom_filters: Vec::new(), filters, enabled_filters: enabled };
        assert(strings(r.exclusions@) =~= Seq::<Seq<char>>::empty());
        r
    }

    /// The file names of the lists of `filters` that are enabled by default.
    pub fn default_enabled_filters(filters: &Vec<FilterMetadata>) -> (r: Vec<String>)
        ensures
            strings(r@) == default_enabled(catalog(filters@)),
    {
        let ghost c = catalog(filters@);
        let mut r: Vec<String> = Vec::new();
        let mut i: usize = 0;
        while i < filters.len()
            invariant
                i <= filters@.len(),
                c == catalog(filters@),
                strings(r@) == default_enabled(c.take(i as int)),
            decreases filters@.len() - i,
        {
            assert(c.take(i + 1).drop_last() =~= c.take(i as int));
            assert(c.take(i + 1).last() == filters@[i as int]@);
            if filters[i].enabled_by_default {
                let ghost before = r@;
                r.push(filters[i].file_name.clone());
                assert(strings(r@) =~= strings(before).push(filters@[i as int].file_name@));
            }
            i = i + 1;
        }
        assert(c.take(i as int) =~= c);
        r
    }

    /// The exclusion store that this configuration describes.
    pub fn get_exclusion(&self) -> (r: LocalExclusionStore)
        ensures
            r.wf(),
            r.set() == strings(self.exclusions@).to_set(),
    {
        let mut copy: Vec<String> = Vec::new();
        let mut i: usize = 0;
        while i < self.exclusions.len()
            invariant
                i <= self.exclusions@.len(),
                strings(copy@) == strings(self.exclusions@).take(i as int),
            decreases self.exclusions@.len() - i,
        {
            let ghost before = copy@;
            let item = self.exclusions[i].clone();
            copy.push(item);
            assert(copy@ == before.push(item));
            assert(strings(copy@) =~= strings(before).push(self.exclusions@[i as int]@));
            assert(strings(self.exclusions@).take(i + 1) =~= strings(self.exclusions@).take(i as int).push(self.exclusions@[i as int]@));
            i = i + 1;
        }
        assert(strings(self.exclusions@).take(i as int) =~= strings(self.exclusions@));
        LocalExclusionStore::new(copy)
    }

    /// The text written to the configuration file: one line per exclusion,
    /// custom rule and enabled filter list, as `configuration_lines` says.
    pub fn to_text(&self) -> (r: String)
        requires
            self.storable(),
        ensures
            r@ == text_of_lines(configuration_lines(strings(self.exclusions@), strings(self.custom_filters@), strings(self.enabled_filters@))),
    {
        let mut out = String::new();
        let ghost start: Seq<Seq<char>> = Seq::empty();
        assert(out@ =~= text_of_lines(start));
        let g = append_tagged_lines(&mut out, Ghost(start), "exclude ", &self.exclusions);
        let g = append_tagged_lines(&mut out, g, "rule ", &self.custom_filters);
        let g = append_tagged_lines(&mut out, g, "enable ", &self.enabled_filters);
        assert(g@ =~= configuration_lines(strings(self.exclusions@), strings(self.custom_filters@), strings(self.enabled_filters@)));
        out
    }

    /// Reads a configuration file written by `to_text`. The text must be a
    /// sequence of newline-terminated lines, each starting with `exclude `,
    /// `rule ` or `enable `; what follows the tag goes to the exclusions, the
    /// custom rules or the enabled lists, in file order. The catalog is not
    /// part of the file and comes back empty. A host excluded twice makes the
    /// file malformed.
    pub fn from_text(text: &str) -> (r: Result<Configuration, ConfigurationError>)
        ensures
            match r {
                Ok(c) => c.wf() && exists|ls: Seq<Seq<char>>| lines_of(text@, ls) && well_tagged(ls)
                    && strings(c.exclusions@) == bucket(ls, "exclude "@)
                    && strings(c.custom_filters@) == bucket(ls, "rule "@)
                    && strings(c.enabled_filters@) == bucket(ls, "enable "@)
                    && c.filters@.len() == 0,
                Err(e) => e is MalformedConfiguration && !(exists|ls: Seq<Seq<char>>| lines_of(text@, ls) && well_tagged(ls)
                    && bucket(ls, "exclude "@).no_duplicates()),
            },
    {
        let lines = match split_lines(text) {
            Some(lines) => lines,
            None => return Err(ConfigurationError::MalformedConfiguration),
        };
        let ghost all = strings(lines@);
        let mut exclusions: Vec<String> = Vec::new();
        let mut custom_filters: Vec<String> = Vec::new();
        let mut enabled_filters: Vec<String> = Vec::new();
        proof {
            reveal_strlit("exclude ");
            reveal_strlit("rule ");
            reveal_strlit("enable ");
            assert(all.take(0) =~= Seq::<Seq<char>>::empty());
            assert(strings(exclusions@) =~= Seq::<Seq<char>>::empty());
            assert(strings(custom_filters@) =~= Seq::<Seq<char>>::empty());
            assert(strings(enabled_filters@) =~= Seq::<Seq<char>>::empty());
        }
        let mut i: usize = 0;
        while i < lines.len()
            invariant
                i <= lines@.len(),
                all == strings(lines@),
                lines_of(text@, all),
                "exclude "@.len() == 8,
                "rule "@.len() == 5,
                "enable "@.len() == 7,
                forall|j: int| 0 <= j < i ==> is_prefix("exclude "@, #[trigger] all[j]) || is_prefix("rule "@, all[j]) || is_prefix("enable "@, all[j]),
                strings(exclusions@) == bucket(all.take(i as int), "exclude "@),
                strings(custom_filters@) == bucket(all.take(i as int), "rule "@),
                strings(enabled_filters@) == bucket(all.take(i as int), "enable "@),
            decreases lines@.len() - i,
        {
            let line = lines[i].as_str();
            let n = line.unicode_len();
            let ghost l = all[i as int];
            assert(line@ == l);
            proof {
                lemma_tags_exclusive(l);
                lemma_bucket_step(all, i as int, "exclude "@);
                lemma_bucket_step(all, i as int, "rule "@);
                lemma_bucket_step(all, i as int, "enable "@);
            }
            if starts_with(line, "exclude ") {
                let ghost before = strings(exclusions@);
                exclusions.push(line.substring_char(8, n).to_string());
                assert(strings(exclusions@) =~= before.push(l.skip(8)));
            } else if starts_with(line, "rule ") {
                let ghost before = strings(custom_filters@);
                custom_filters.push(line.substring_char(5, n).to_string());
                assert(strings(custom_filters@) =~= before.push(l.skip(5)));
            } else if starts_with(line, "enable ") {
                let ghost before = strings(enabled_filters@);
                enabled_filters.push(line.substring_char(7, n).to_string());
                assert(strings(enabled_filters@) =~= before.push(l.skip(7)));
            } else {
                proof {
                    if exists|ls: Seq<Seq<char>>| lines_of(text@, ls) && well_tagged(ls) && bucket(ls, "exclude "@).no_duplicates() {
                        let ls = choose|ls: Seq<Seq<char>>| lines_of(text@, ls) && well_tagged(ls) && bucket(ls, "exclude "@).no_duplicates();
                        lemma_lines_unique(text@, all, ls);
                        assert(ls[i as int] == l);
                    }
                }
                return Err(ConfigurationError::MalformedConfiguration);
            }
            i = i + 1;
        }
        assert(all.take(i as int) =~= all);
        if !all_distinct(&exclusions) {
            proof {
                if exists|ls: Seq<Seq<char>>| lines_of(text@, ls) && well_tagged(ls) && bucket(ls, "exclude "@).no_duplicates() {
                    let ls = choose|ls: Seq<Seq<char>>| lines_of(text@, ls) && well_tagged(ls) && bucket(ls, "exclude "@).no_duplicates();
                    lemma_lines_unique(text@, all, ls);
                }
            }
            return Err(ConfigurationError::MalformedConfiguration);
        }
        let c = Configuration { exclusions, custom_filters, filters: Vec::new(), enabled_filters };
        assert(lines_of(text@, all) && well_tagged(all));
        Ok(c)
    }

    /// Takes in the outcome of fetching the filter catalog. A catalog that
    /// came replaces the old one wholesale; a failed fetch leaves the whole
    /// configuration as it was and hands the error back.
    pub fn apply_filter_refresh(&mut self, fetched: Result<Vec<FilterMetadata>, ConfigurationError>) -> (r: Result<(), ConfigurationError>)
        ensures
            strings(final(self).exclusions@) == strings(old(self).exclusions@),
            strings(final(self).custom_filters@) == strings(old(self).custom_filters@),
            strings(final(self).enabled_filters@) == strings(old(self).enabled_filters@),
            match fetched {
                Ok(v) => r is Ok && catalog(final(self).filters@) == catalog(v@),
                Err(e) => r == Err::<(), ConfigurationError>(e) && catalog(final(self).filters@) == catalog(old(self).filters@),
            },
    {
        match fetched {
            Ok(v) => {
                self.filters = v;
                Ok(())
            },
            Err(e) => Err(e),
        }
    }
}

} // verus!
