//! Command-line arguments, and their expansion into names and top-level domains.
//!
//! [`Cli`] holds the arguments as given, [`Inputs`] the flat list of
//! `(name, tld)` pairs that they stand for. What comes after this module sees
//! pairs only, never the question whether `apple,orange` was one name or two.

use vstd::hash_set::StringHashSet;
use vstd::prelude::*;

use crate::models::{text_of, LookupLevel};
use crate::text::{
    chars_of, is_space, law_lower_changes_capitals_only, law_strip_start, law_trim,
    law_white_space, lemma_non_empty_concat, lemma_split_around, lemma_unsplit, literals, lower,
    lower_of, non_empty, pieces, same_text, split, split_of, string_of, strip_start,
    strip_start_of, trim, trim_of, CharSet,
};
use crate::unique::{
    distinct, law_distinct, law_distinct_stays, law_first_appearances_count, lemma_distinct_all,
    with_all, UniquePairs, UniqueTexts,
};

verus! {

broadcast use vstd::seq_lib::group_seq_properties;

/// The arguments of one invocation.
#[derive(Debug, Clone)]
pub struct Cli {
    /// Base names, several of them in one argument separated by commas.
    /// `@file.txt` stands for the names in a file.
    pub names: Vec<String>,
    /// Top-level domains, or the name of a group of them.
    pub tld: Option<String>,
    /// Show registrar, dates and nameservers where they are known.
    pub details: bool,
    /// Ask WHOIS servers only.
    pub whois: bool,
    /// Resolve and show the DNS records of taken domains.
    pub dns_records: bool,
    /// Show which registry answered.
    pub registry: bool,
    /// Show which protocol and server answered.
    pub show_where: bool,
    /// Show available domains only.
    pub available_only: bool,
    /// Export the results to files.
    pub save: bool,
    /// The domain level, `first` or `second`.
    pub level: Option<String>,
    /// The number of lookups that run at once.
    pub concurrent: Option<usize>,
    /// The time that a lookup may take, in milliseconds.
    pub timeout: Option<u64>,
    /// A file of RDAP servers.
    pub rdap_json: Option<String>,
    /// A file of WHOIS servers.
    pub whois_json: Option<String>,
    /// Let the given files replace the bundled servers.
    pub no_merge: bool,
    /// The URL template of the `.bd` lookup service.
    pub bd_endpoint: Option<String>,
}

/// The pairs to look up, and the level to look them up at.
#[derive(Debug, Clone)]
pub struct Inputs {
    /// `(name, tld)` pairs, each once.
    pub pairs: Vec<(String, String)>,
    pub level: LookupLevel,
}

/// Why arguments cannot be expanded.
#[derive(Debug, Clone)]
pub enum CliError {
    /// The file at this path cannot be read.
    NamesFile(String),
    /// There is no such level.
    InvalidLevel(String),
}

/// The view of [`CliError`].
pub enum CliErrorView {
    NamesFile(Seq<char>),
    InvalidLevel(Seq<char>),
}

impl View for CliError {
    type V = CliErrorView;

    open spec fn view(&self) -> CliErrorView {
        match self {
            CliError::NamesFile(path) => CliErrorView::NamesFile(path@),
            CliError::InvalidLevel(level) => CliErrorView::InvalidLevel(level@),
        }
    }
}

impl CliError {
    /// The text that tells the user what is wrong.
    pub fn message(&self) -> (r: String)
        ensures
            r@ == match self@ {
                CliErrorView::NamesFile(path) => "reading names file: "@ + path,
                CliErrorView::InvalidLevel(level) => "invalid --level: "@ + level
                    + " (expected 'first' or 'second')"@,
            },
    {
        match self {
            CliError::NamesFile(path) => {
                let mut s = "reading names file: ".to_owned();
                s.append(path.as_str());
                s
            },
            CliError::InvalidLevel(level) => {
                let mut s = "invalid --level: ".to_owned();
                s.append(level.as_str());
                s.append(" (expected 'first' or 'second')");
                s
            },
        }
    }
}

// ---------- top-level domains ----------

/// The zones below `.bd`: `bd` itself and its second-level domains.
pub const BD_ZONE_TLDS: [&'static str; 10] = [
    "bd",
    "com.bd",
    "net.bd",
    "org.bd",
    "edu.bd",
    "gov.bd",
    "ac.bd",
    "co.bd",
    "info.bd",
    "name.bd",
];

/// The top-level domains that are looked up most often.
pub const POPULAR_TLDS: [&'static str; 19] = [
    "com",
    "net",
    "org",
    "io",
    "app",
    "dev",
    "co",
    "ai",
    "me",
    "info",
    "xyz",
    "tech",
    "cloud",
    "store",
    "shop",
    "site",
    "online",
    "blog",
    "bd",
];

/// A set of top-level domains, in lower case and without a leading dot.
pub struct TldSet {
    tlds: StringHashSet,
}

impl View for TldSet {
    type V = Set<Seq<char>>;

    closed spec fn view(&self) -> Set<Seq<char>> {
        self.tlds@
    }
}

impl TldSet {
    /// The empty set.
    pub fn new() -> (r: Self)
        ensures
            r@ == Set::<Seq<char>>::empty(),
    {
        TldSet { tlds: StringHashSet::new() }
    }

    /// Adds a top-level domain.
    pub fn insert(&mut self, tld: String)
        ensures
            final(self)@ == old(self)@.insert(tld@),
    {
        let _ = self.tlds.insert(tld);
    }

    /// Whether the set holds `tld`.
    pub fn contains(&self, tld: &str) -> (r: bool)
        ensures
            r == self@.contains(tld@),
    {
        self.tlds.contains(tld)
    }
}

/// The texts of a list, in lower case, as a set.
pub open spec fn lowered(list: Seq<Seq<char>>) -> Set<Seq<char>> {
    list.map_values(|t: Seq<char>| lower(t)).to_set()
}

/// Adds each of `list`, in lower case, to `known`.
fn insert_lowered(known: &mut TldSet, list: &[&'static str])
    ensures
        final(known)@ == old(known)@ + lowered(literals(list@)),
{
    let mut i: usize = 0;
    let ghost all = literals(list@).map_values(|t: Seq<char>| lower(t));
    proof {
        assert(known@ =~= old(known)@ + all.take(0).to_set());
    }
    while i < list.len()
        invariant
            i <= list@.len(),
            all == literals(list@).map_values(|t: Seq<char>| lower(t)),
            known@ == old(known)@ + all.take(i as int).to_set(),
        decreases list@.len() - i,
    {
        let ghost was = known@;
        known.insert(string_of(&lower_of(&chars_of(list[i]))));
        proof {
            assert(all.take(i + 1) =~= all.take(i as int).push(all[i as int]));
            assert(known@ =~= old(known)@ + all.take(i + 1).to_set());
        }
        i += 1;
    }
    proof {
        assert(all.take(i as int) =~= all);
    }
}

/// The top-level domains that are known without any server list.
pub fn known_tlds() -> (r: TldSet)
    ensures
        r@ == lowered(literals(POPULAR_TLDS@)) + lowered(literals(BD_ZONE_TLDS@)),
{
    let mut out = TldSet::new();
    insert_lowered(&mut out, &POPULAR_TLDS);
    insert_lowered(&mut out, &BD_ZONE_TLDS);
    proof {
        assert(out@ =~= lowered(literals(POPULAR_TLDS@)) + lowered(literals(BD_ZONE_TLDS@)));
    }
    out
}

/// The top-level domains that one word of a list stands for: a group's name for
/// its members, any other word for itself.
pub open spec fn tld_group(word: Seq<char>) -> Seq<Seq<char>> {
    let w = lower(word);
    if w == "all"@ || w == "popular"@ {
        literals(POPULAR_TLDS@)
    } else if w == "bd"@ {
        literals(BD_ZONE_TLDS@)
    } else {
        seq![w]
    }
}

/// The top-level domains that a list of words stands for. Empty words stand for
/// nothing.
pub open spec fn tld_groups(words: Seq<Seq<char>>) -> Seq<Seq<char>>
    decreases words.len(),
{
    if words.len() == 0 {
        Seq::empty()
    } else if words.last().len() == 0 {
        tld_groups(words.drop_last())
    } else {
        tld_groups(words.drop_last()) + tld_group(words.last())
    }
}

/// The top-level domains that the text `raw` lists, each once.
pub open spec fn tlds_in(raw: Seq<char>) -> Seq<Seq<char>> {
    distinct(tld_groups(split(raw, CharSet::SpaceOrComma)))
}

/// Adds each of `list` that is new.
fn add_literals(out: &mut UniqueTexts, list: &[&'static str])
    requires
        old(out).wf(),
    ensures
        final(out).wf(),
        final(out)@ == with_all(old(out)@, literals(list@)),
{
    let mut i: usize = 0;
    while i < list.len()
        invariant
            i <= list@.len(),
            out.wf(),
            out@ == with_all(old(out)@, literals(list@).take(i as int)),
        decreases list@.len() - i,
    {
        out.add(list[i].to_owned());
        proof {
            assert(literals(list@).take(i + 1).drop_last() =~= literals(list@).take(i as int));
        }
        i += 1;
    }
    proof {
        assert(literals(list@).take(i as int) =~= literals(list@));
    }
}

/// Expands the value of `--tld`: words separated by commas or white space, each a
/// top-level domain or one of the groups `all`, `popular` and `bd`.
pub fn expand_tlds(raw: &str) -> (r: Result<Vec<String>, CliError>)
    ensures
        r matches Ok(tlds) && tlds.deep_view() == tlds_in(raw@),
{
    let words = split_of(&chars_of(raw), CharSet::SpaceOrComma);
    let ghost all = pieces(words@);
    let mut out = UniqueTexts::new();
    let mut i: usize = 0;
    proof {
        assert(tld_groups(all.take(0)) =~= Seq::empty());
    }
    while i < words.len()
        invariant
            i <= words@.len(),
            all == pieces(words@),
            out.wf(),
            out@ == distinct(tld_groups(all.take(i as int))),
        decreases words@.len() - i,
    {
        let word = words[i].as_slice();
        let ghost sofar = tld_groups(all.take(i as int));
        proof {
            assert(all.take(i + 1).drop_last() =~= all.take(i as int));
            assert(all.take(i + 1).last() == word@);
        }
        if word.len() > 0 {
            let small = string_of(&lower_of(word));
            proof {
                lemma_distinct_all(sofar, tld_group(word@));
            }
            if same_text(small.as_str(), "all") || same_text(small.as_str(), "popular") {
                add_literals(&mut out, &POPULAR_TLDS);
            } else if same_text(small.as_str(), "bd") {
                add_literals(&mut out, &BD_ZONE_TLDS);
            } else {
                proof {
                    assert(seq![small@].drop_last() =~= Seq::empty());
                }
                out.add(small);
            }
        }
        i += 1;
    }
    proof {
        assert(all.take(i as int) =~= all);
    }
    Ok(out.into_list())
}

// ---------- names ----------

/// A name as it is looked up: without white space around it, without leading
/// dots, in lower case.
pub open spec fn normalized(raw: Seq<char>) -> Seq<char> {
    lower(bare(raw))
}

/// `raw` without white space around it and without leading dots.
pub open spec fn bare(raw: Seq<char>) -> Seq<char> {
    strip_start(trim(raw), CharSet::Only('.'))
}

/// Brings a name into the form in which it is looked up.
pub fn normalize_name(raw: &str) -> (r: String)
    ensures
        r@ == normalized(raw@),
{
    let chars = chars_of(raw);
    string_of(&lower_of(strip_start_of(trim_of(&chars), CharSet::Only('.'))))
}

/// Whether what follows index `i` in `s` is a dot and then a known top-level
/// domain.
pub open spec fn splits_at(s: Seq<char>, known: Set<Seq<char>>, i: int) -> bool {
    0 <= i < s.len() && s[i] == '.' && known.contains(lower(s.skip(i + 1)))
}

/// The first index from `i` on at which `s` splits, if there is one.
pub open spec fn split_index(s: Seq<char>, known: Set<Seq<char>>, i: int) -> Option<int>
    decreases s.len() - i,
{
    if i >= s.len() {
        None
    } else if splits_at(s, known, i) {
        Some(i)
    } else {
        split_index(s, known, i + 1)
    }
}

/// The name and the top-level domain in `raw`, where it ends in a known one: the
/// longest known one counts. The name keeps its case.
pub open spec fn full_domain(raw: Seq<char>, known: Set<Seq<char>>) -> Option<
    (Seq<char>, Seq<char>),
> {
    match split_index(bare(raw), known, 0) {
        Some(i) => Some((bare(raw).take(i), lower(bare(raw).skip(i + 1)))),
        None => None,
    }
}

/// Splits a full domain such as `apple.com` or `apple.co.uk` into its name and
/// its top-level domain.
pub fn split_full_domain(raw: &str, known_tlds: &TldSet) -> (r: Option<(String, String)>)
    ensures
        r.deep_view() == full_domain(raw@, known_tlds@),
{
    let chars = chars_of(raw);
    let s = strip_start_of(trim_of(&chars), CharSet::Only('.'));
    let mut i: usize = 0;
    while i < s.len()
        invariant
            i <= s@.len(),
            split_index(s@, known_tlds@, 0) == split_index(s@, known_tlds@, i as int),
            s@ == bare(raw@),
        decreases s@.len() - i,
    {
        if s[i] == '.' {
            let tld = string_of(&lower_of(&s[i + 1..s.len()]));
            proof {
                assert(s@.skip(i + 1) =~= s@.subrange(i + 1, s@.len() as int));
                assert(s@.take(i as int) =~= s@.subrange(0, i as int));
            }
            if known_tlds.contains(tld.as_str()) {
                return Some((string_of(&s[0..i]), tld));
            }
        }
        i += 1;
    }
    None
}

/// The names in a text that separates them by commas, without white space around
/// them. Empty ones are no names.
pub open spec fn names_in(token: Seq<char>) -> Seq<Seq<char>> {
    non_empty(trimmed(split(token, CharSet::Only(','))))
}

/// Each text without white space around it.
pub open spec fn trimmed(parts: Seq<Seq<char>>) -> Seq<Seq<char>> {
    parts.map_values(|p: Seq<char>| trim(p))
}

/// The names in all the texts, in order.
pub open spec fn all_names(tokens: Seq<Seq<char>>) -> Seq<Seq<char>>
    decreases tokens.len(),
{
    if tokens.len() == 0 {
        Seq::empty()
    } else {
        all_names(tokens.drop_last()) + names_in(tokens.last())
    }
}

/// Appends the names in `token` to `out`.
fn append_names(out: &mut Vec<String>, token: &[char])
    ensures
        final(out).deep_view() == old(out).deep_view() + names_in(token@),
{
    let parts = split_of(token, CharSet::Only(','));
    let ghost all = trimmed(pieces(parts@));
    let mut i: usize = 0;
    proof {
        assert(non_empty(all.take(0)) =~= Seq::empty());
    }
    while i < parts.len()
        invariant
            i <= parts@.len(),
            all == trimmed(pieces(parts@)),
            out.deep_view() == old(out).deep_view() + non_empty(all.take(i as int)),
        decreases parts@.len() - i,
    {
        let name = trim_of(&parts[i]);
        let ghost was = out.deep_view();
        proof {
            assert(all.take(i + 1).drop_last() =~= all.take(i as int));
            assert(all.take(i + 1).last() == name@);
        }
        if name.len() > 0 {
            out.push(string_of(name));
            proof {
                assert(out.deep_view() =~= was.push(name@));
            }
        }
        i += 1;
    }
    proof {
        assert(all.take(i as int) =~= all);
    }
}

/// Whether a line of a names file holds no names: it is empty or a comment.
pub open spec fn skipped(line: Seq<char>) -> bool {
    line.len() == 0 || line[0] == '#'
}

/// The names in the lines of a file.
pub open spec fn names_in_lines(lines: Seq<Seq<char>>) -> Seq<Seq<char>>
    decreases lines.len(),
{
    if lines.len() == 0 {
        Seq::empty()
    } else {
        let before = names_in_lines(lines.drop_last());
        let line = trim(lines.last());
        if skipped(line) {
            before
        } else {
            before + names_in(line)
        }
    }
}

/// The names in a file with this content.
pub open spec fn names_in_file(content: Seq<char>) -> Seq<Seq<char>> {
    names_in_lines(split(content, CharSet::Only('\n')))
}

/// The names in a file: one per line, or several separated by commas. Blank lines
/// and lines that begin with `#` are skipped. `content` is what the file holds, or
/// nothing where it cannot be read.
pub fn read_names_file(path: &str, content: &Option<String>) -> (r: Result<Vec<String>, CliError>)
    ensures
        match *content {
            Some(text) => r matches Ok(names) && names.deep_view() == names_in_file(text@),
            None => r matches Err(e) && e@ == CliErrorView::NamesFile(path@),
        },
{
    match content {
        None => Err(CliError::NamesFile(path.to_owned())),
        Some(text) => {
            let lines = split_of(&chars_of(text.as_str()), CharSet::Only('\n'));
            let ghost all = pieces(lines@);
            let mut out: Vec<String> = Vec::new();
            let mut i: usize = 0;
            proof {
                assert(out.deep_view() =~= names_in_lines(all.take(0)));
            }
            while i < lines.len()
                invariant
                    i <= lines@.len(),
                    all == pieces(lines@),
                    out.deep_view() == names_in_lines(all.take(i as int)),
                decreases lines@.len() - i,
            {
                let line = trim_of(&lines[i]);
                proof {
                    assert(all.take(i + 1).drop_last() =~= all.take(i as int));
                    assert(all.take(i + 1).last() == lines@[i as int]@);
                }
                if line.len() > 0 && line[0] != '#' {
                    append_names(&mut out, line);
                }
                i += 1;
            }
            proof {
                assert(all.take(i as int) =~= all);
            }
            Ok(out)
        },
    }
}

/// Whether a name stands for the names in a file.
pub open spec fn is_file(name: Seq<char>) -> bool {
    name.len() > 0 && name[0] == '@'
}

/// The paths of the files that the names refer to, in order.
pub open spec fn files_in(names: Seq<Seq<char>>) -> Seq<Seq<char>>
    decreases names.len(),
{
    if names.len() == 0 {
        Seq::empty()
    } else {
        let before = files_in(names.drop_last());
        if is_file(names.last()) {
            before.push(names.last().drop_first())
        } else {
            before
        }
    }
}

/// The names with each file replaced by the names in it, or the path of the first
/// file that cannot be read. The contents of the files stand in `files`, in the
/// order of [`files_in`]; a content that is missing there cannot be read either.
pub open spec fn with_files(names: Seq<Seq<char>>, files: Seq<Option<Seq<char>>>) -> Result<
    Seq<Seq<char>>,
    Seq<char>,
>
    decreases names.len(),
{
    if names.len() == 0 {
        Ok(Seq::empty())
    } else {
        match with_files(names.drop_last(), files) {
            Err(path) => Err(path),
            Ok(before) => if is_file(names.last()) {
                match content_at(files, files_in(names.drop_last()).len() as int) {
                    Some(content) => Ok(before + names_in_file(content)),
                    None => Err(names.last().drop_first()),
                }
            } else {
                Ok(before.push(names.last()))
            },
        }
    }
}

/// The content of file number `k`, where there is one.
pub open spec fn content_at(files: Seq<Option<Seq<char>>>, k: int) -> Option<Seq<char>> {
    if 0 <= k < files.len() {
        files[k]
    } else {
        None
    }
}

/// The names in the arguments, with files as yet standing for themselves.
fn split_names(raw: &[String]) -> (r: Vec<String>)
    ensures
        r.deep_view() == all_names(raw.deep_view()),
{
    let ghost all = raw.deep_view();
    let mut out: Vec<String> = Vec::new();
    let mut i: usize = 0;
    proof {
        assert(out.deep_view() =~= all_names(all.take(0)));
    }
    while i < raw.len()
        invariant
            i <= raw@.len(),
            all == raw.deep_view(),
            out.deep_view() == all_names(all.take(i as int)),
        decreases raw@.len() - i,
    {
        append_names(&mut out, &chars_of(raw[i].as_str()));
        proof {
            assert(all.take(i + 1).drop_last() =~= all.take(i as int));
        }
        i += 1;
    }
    proof {
        assert(all.take(i as int) =~= all);
    }
    out
}

/// The path in a name that stands for a file.
fn file_path(name: &str) -> (r: Option<String>)
    ensures
        match r {
            Some(path) => is_file(name@) && path@ == name@.drop_first(),
            None => !is_file(name@),
        },
{
    let chars = chars_of(name);
    if chars.len() > 0 && chars[0] == '@' {
        proof {
            assert(chars@.drop_first() =~= chars@.subrange(1, chars@.len() as int));
        }
        Some(string_of(&chars[1..chars.len()]))
    } else {
        None
    }
}

/// The paths of the files that the arguments refer to, in the order in which
/// [`expand_names`] wants their contents.
pub fn name_files(raw: &[String]) -> (r: Vec<String>)
    ensures
        r.deep_view() == files_in(all_names(raw.deep_view())),
{
    let names = split_names(raw);
    let ghost all = names.deep_view();
    let mut out: Vec<String> = Vec::new();
    let mut i: usize = 0;
    proof {
        assert(out.deep_view() =~= files_in(all.take(0)));
    }
    while i < names.len()
        invariant
            i <= names@.len(),
            all == names.deep_view(),
            out.deep_view() == files_in(all.take(i as int)),
        decreases names@.len() - i,
    {
        let ghost was = out.deep_view();
        proof {
            assert(all.take(i + 1).drop_last() =~= all.take(i as int));
        }
        if let Some(path) = file_path(names[i].as_str()) {
            out.push(path);
            proof {
                assert(out.deep_view() =~= was.push(path@));
            }
        }
        i += 1;
    }
    proof {
        assert(all.take(i as int) =~= all);
    }
    out
}

/// Expands the names in the arguments. `files` holds the contents of the files
/// that [`name_files`] lists, nothing for one that cannot be read.
pub fn expand_names(raw: &[String], files: &[Option<String>]) -> (r: Result<Vec<String>, CliError>)
    ensures
        match with_files(all_names(raw.deep_view()), files.deep_view()) {
            Ok(names) => r matches Ok(v) && v.deep_view() == names,
            Err(path) => r matches Err(e) && e@ == CliErrorView::NamesFile(path),
        },
{
    let names = split_names(raw);
    let ghost all = names.deep_view();
    let mut out: Vec<String> = Vec::new();
    let mut k: usize = 0;
    let mut i: usize = 0;
    proof {
        assert(out.deep_view() =~= Seq::<Seq<char>>::empty());
    }
    while i < names.len()
        invariant
            i <= names@.len(),
            all == names.deep_view(),
            all == all_names(raw.deep_view()),
            with_files(all.take(i as int), files.deep_view()) == Ok::<
                Seq<Seq<char>>,
                Seq<char>,
            >(out.deep_view()),
            k == files_in(all.take(i as int)).len(),
            k <= i,
        decreases names@.len() - i,
    {
        let ghost was = out.deep_view();
        proof {
            assert(all.take(i + 1).drop_last() =~= all.take(i as int));
        }
        if let Some(path) = file_path(names[i].as_str()) {
            let none: Option<String> = None;
            let content = if k < files.len() {
                &files[k]
            } else {
                &none
            };
            k += 1;
            match read_names_file(path.as_str(), content) {
                Err(e) => {
                    proof {
                        lemma_with_files_err(all, files.deep_view(), i + 1);
                    }
                    return Err(e);
                },
                Ok(more) => {
                    append_texts(&mut out, more);
                },
            }
        } else {
            out.push(names[i].clone());
            proof {
                assert(out.deep_view() =~= was.push(all[i as int]));
            }
        }
        i += 1;
    }
    proof {
        assert(all.take(i as int) =~= all);
    }
    Ok(out)
}

/// Appends `more` to `out`.
fn append_texts(out: &mut Vec<String>, more: Vec<String>)
    ensures
        final(out).deep_view() == old(out).deep_view() + more.deep_view(),
{
    let mut i: usize = 0;
    proof {
        assert(out.deep_view() =~= old(out).deep_view() + more.deep_view().take(0));
    }
    while i < more.len()
        invariant
            i <= more@.len(),
            out.deep_view() == old(out).deep_view() + more.deep_view().take(i as int),
        decreases more@.len() - i,
    {
        let ghost was = out.deep_view();
        out.push(more[i].clone());
        proof {
            assert(out.deep_view() =~= was.push(more.deep_view()[i as int]));
        }
        i += 1;
    }
    proof {
        assert(more.deep_view().take(i as int) =~= more.deep_view());
    }
}

/// An error in the first names is the error of all of them.
proof fn lemma_with_files_err(names: Seq<Seq<char>>, files: Seq<Option<Seq<char>>>, n: int)
    requires
        0 <= n <= names.len(),
        with_files(names.take(n), files) is Err,
    ensures
        with_files(names, files) == with_files(names.take(n), files),
    decreases names.len(),
{
    if n == names.len() {
        assert(names.take(n) =~= names);
    } else {
        assert(names.drop_last().take(n) =~= names.take(n));
        lemma_with_files_err(names.drop_last(), files, n);
    }
}

// ---------- inputs ----------

/// The level that a `--level` value stands for, if it stands for one.
pub open spec fn level_of(raw: Option<Seq<char>>) -> Option<LookupLevel> {
    match raw {
        None => Some(LookupLevel::First),
        Some(l) => if l == "first"@ {
            Some(LookupLevel::First)
        } else if l == "second"@ {
            Some(LookupLevel::Second)
        } else {
            None
        },
    }
}

/// Reads the value of `--level`; without one the level is the first.
pub fn parse_level(raw: &Option<String>) -> (r: Result<LookupLevel, CliError>)
    ensures
        match level_of(text_of(*raw)) {
            Some(level) => r == Ok::<LookupLevel, CliError>(level),
            None => r matches Err(e) && *raw matches Some(l) && e@ == CliErrorView::InvalidLevel(
                l@,
            ),
        },
{
    match raw {
        None => Ok(LookupLevel::First),
        Some(l) => if same_text(l.as_str(), "first") {
            Ok(LookupLevel::First)
        } else if same_text(l.as_str(), "second") {
            Ok(LookupLevel::Second)
        } else {
            Err(CliError::InvalidLevel(l.clone()))
        },
    }
}

/// The pairs that one name stands for: the pair in it, if it is a full domain, else
/// the name with each of `tlds`. A name of which nothing is left stands for none.
pub open spec fn pairs_for(
    raw: Seq<char>,
    tlds: Seq<Seq<char>>,
    known: Set<Seq<char>>,
) -> Seq<(Seq<char>, Seq<char>)> {
    match full_domain(raw, known) {
        Some(pair) => seq![pair],
        None => if normalized(raw).len() == 0 {
            Seq::empty()
        } else {
            tlds.map_values(|tld: Seq<char>| (normalized(raw), tld))
        },
    }
}

/// The pairs that all the names stand for, in order.
pub open spec fn all_pairs(
    raws: Seq<Seq<char>>,
    tlds: Seq<Seq<char>>,
    known: Set<Seq<char>>,
) -> Seq<(Seq<char>, Seq<char>)>
    decreases raws.len(),
{
    if raws.len() == 0 {
        Seq::empty()
    } else {
        all_pairs(raws.drop_last(), tlds, known) + pairs_for(raws.last(), tlds, known)
    }
}

/// The value of `--tld`, or what counts in its place.
pub open spec fn tld_argument(tld: Option<Seq<char>>) -> Seq<char> {
    match tld {
        Some(list) => list,
        None => "com"@,
    }
}

/// Adds each of the pairs of `name` with `tlds` that is new.
fn add_pairs(out: &mut UniquePairs, name: &String, tlds: &[String])
    requires
        old(out).wf(),
    ensures
        final(out).wf(),
        final(out)@ == with_all(
            old(out)@,
            tlds.deep_view().map_values(|tld: Seq<char>| (name@, tld)),
        ),
{
    let ghost new = tlds.deep_view().map_values(|tld: Seq<char>| (name@, tld));
    let mut i: usize = 0;
    while i < tlds.len()
        invariant
            i <= tlds@.len(),
            out.wf(),
            new == tlds.deep_view().map_values(|tld: Seq<char>| (name@, tld)),
            out@ == with_all(old(out)@, new.take(i as int)),
        decreases tlds@.len() - i,
    {
        out.add(name.clone(), tlds[i].clone());
        proof {
            assert(new.take(i + 1).drop_last() =~= new.take(i as int));
        }
        i += 1;
    }
    proof {
        assert(new.take(i as int) =~= new);
    }
}

/// Expands the arguments into the list of pairs to look up.
///
/// * A name that ends in one of `known_tlds` is split there, and `--tld` does not
///   apply to it.
/// * Any other name is combined with each top-level domain of `--tld`, or with
///   `com` where there is no `--tld`.
/// * `files` holds the contents of the files that [`name_files`] lists.
pub fn expand_inputs(cli: &Cli, known_tlds: &TldSet, files: &[Option<String>]) -> (r: Result<
    Inputs,
    CliError,
>)
    ensures
        match with_files(all_names(cli.names.deep_view()), files.deep_view()) {
            Err(path) => r matches Err(e) && e@ == CliErrorView::NamesFile(path),
            Ok(raws) => match level_of(text_of(cli.level)) {
                None => r matches Err(e) && cli.level matches Some(l) && e@
                    == CliErrorView::InvalidLevel(l@),
                Some(level) => {
                    &&& r matches Ok(inputs)
                    &&& inputs.level == level
                    &&& inputs.pairs.deep_view() == distinct(
                        all_pairs(raws, tlds_in(tld_argument(text_of(cli.tld))), known_tlds@),
                    )
                },
            },
        },
{
    let raws = match expand_names(&cli.names, files) {
        Ok(raws) => raws,
        Err(e) => {
            return Err(e);
        },
    };
    let list = match &cli.tld {
        Some(list) => list.as_str(),
        None => "com",
    };
    let tlds = match expand_tlds(list) {
        Ok(tlds) => tlds,
        Err(e) => {
            return Err(e);
        },
    };
    let level = match parse_level(&cli.level) {
        Ok(level) => level,
        Err(e) => {
            return Err(e);
        },
    };

    let ghost all = raws.deep_view();
    let ghost each = tlds.deep_view();
    let mut out = UniquePairs::new();
    let mut i: usize = 0;
    proof {
        assert(all_pairs(all.take(0), each, known_tlds@) =~= Seq::empty());
    }
    while i < raws.len()
        invariant
            i <= raws@.len(),
            all == raws.deep_view(),
            each == tlds.deep_view(),
            out.wf(),
            out@ == distinct(all_pairs(all.take(i as int), each, known_tlds@)),
        decreases raws@.len() - i,
    {
        let ghost sofar = all_pairs(all.take(i as int), each, known_tlds@);
        proof {
            assert(all.take(i + 1).drop_last() =~= all.take(i as int));
            assert(all.take(i + 1).last() == raws@[i as int]@);
            lemma_distinct_all(
                sofar,
                pairs_for(raws@[i as int]@, each, known_tlds@),
            );
        }
        if let Some((name, tld)) = split_full_domain(raws[i].as_str(), known_tlds) {
            proof {
                assert(seq![(name@, tld@)].drop_last() =~= Seq::empty());
            }
            out.add(name, tld);
        } else {
            let base = normalize_name(raws[i].as_str());
            if base.as_str().unicode_len() > 0 {
                add_pairs(&mut out, &base, &tlds);
            }
        }
        i += 1;
    }
    proof {
        assert(all.take(i as int) =~= all);
    }
    Ok(Inputs { pairs: out.into_list(), level })
}

// ---------- laws ----------

/// What [`split_index`] finds is the first index at which the text splits.
proof fn lemma_split_index(s: Seq<char>, known: Set<Seq<char>>, i: int)
    requires
        0 <= i,
    ensures
        match split_index(s, known, i) {
            Some(k) => i <= k && splits_at(s, known, k) && forall|j: int|
                i <= j < k ==> !splits_at(s, known, j),
            None => forall|j: int| i <= j ==> !splits_at(s, known, j),
        },
    decreases s.len() - i,
{
    if i < s.len() && !splits_at(s, known, i) {
        lemma_split_index(s, known, i + 1);
    }
}

/// Nothing is left to strip from a stripped text.
proof fn lemma_strip_start(s: Seq<char>, set: CharSet)
    ensures
        strip_start(s, set).len() > 0 ==> !set.holds(
            strip_start(s, set)[0],
        ),
    decreases s.len(),
{
    if s.len() > 0 && set.holds(s[0]) {
        lemma_strip_start(s.drop_first(), set);
    }
}

/// A full domain is split into a name that is not empty, a dot and a known
/// top-level domain, and no longer ending of it is a known top-level domain.
pub proof fn law_longest_tld_wins(raw: Seq<char>, known: Set<Seq<char>>)
    ensures
        match full_domain(raw, known) {
            Some((name, tld)) => {
                &&& name.len() > 0
                &&& known.contains(tld)
                &&& lower(bare(raw)) == lower(name) + seq!['.'] + tld
                &&& forall|j: int| #[trigger]
                    splits_at(bare(raw), known, j) ==> bare(raw).skip(j + 1).len() <= tld.len()
            },
            None => forall|j: int| !#[trigger] splits_at(bare(raw), known, j),
        },
{
    let s = bare(raw);
    lemma_split_index(s, known, 0);
    lemma_strip_start(trim(raw), CharSet::Only('.'));
    if let Some(i) = split_index(s, known, 0) {
        assert(s =~= s.take(i) + seq!['.'] + s.skip(i + 1));
        assert(lower(s) =~= lower(s.take(i)) + seq!['.']
            + lower(s.skip(i + 1)));
    }
}

/// No pair is looked up twice, and no pair that a name stands for is left out.
pub proof fn law_each_pair_once(
    raws: Seq<Seq<char>>,
    tlds: Seq<Seq<char>>,
    known: Set<Seq<char>>,
)
    ensures
        distinct(all_pairs(raws, tlds, known)).no_duplicates(),
        forall|i: int, pair: (Seq<char>, Seq<char>)|
            0 <= i < raws.len() && #[trigger] pairs_for(raws[i], tlds, known).contains(pair)
                ==> distinct(all_pairs(raws, tlds, known)).contains(pair),
{
    let all = all_pairs(raws, tlds, known);
    law_distinct(all);
    assert forall|i: int, pair: (Seq<char>, Seq<char>)|
        0 <= i < raws.len() && #[trigger] pairs_for(raws[i], tlds, known).contains(
            pair,
        ) implies distinct(all).contains(pair) by {
        lemma_all_pairs(raws, tlds, known, i, pair);
    }
}

/// The pairs of each name are among the pairs of all names.
proof fn lemma_all_pairs(
    raws: Seq<Seq<char>>,
    tlds: Seq<Seq<char>>,
    known: Set<Seq<char>>,
    i: int,
    pair: (Seq<char>, Seq<char>),
)
    requires
        0 <= i < raws.len(),
        pairs_for(raws[i], tlds, known).contains(pair),
    ensures
        all_pairs(raws, tlds, known).contains(pair),
    decreases raws.len(),
{
    let before = all_pairs(raws.drop_last(), tlds, known);
    let new = pairs_for(raws.last(), tlds, known);
    if i < raws.len() - 1 {
        lemma_all_pairs(raws.drop_last(), tlds, known, i, pair);
        let k = choose|k: int| 0 <= k < before.len() && before[k] == pair;
        assert((before + new)[k] == pair);
    } else {
        let k = choose|k: int| 0 <= k < new.len() && new[k] == pair;
        assert((before + new)[before.len() + k] == pair);
    }
}

/// A full domain stands for the pair in it, whatever `--tld` lists.
pub proof fn law_full_domain_ignores_tlds(
    raw: Seq<char>,
    some: Seq<Seq<char>>,
    other: Seq<Seq<char>>,
    known: Set<Seq<char>>,
)
    requires
        full_domain(raw, known) is Some,
    ensures
        pairs_for(raw, some, known) == pairs_for(raw, other, known),
        pairs_for(raw, some, known).len() == 1,
{
}

/// No top-level domain is listed twice, whatever the list says, and each of the
/// groups and words in it counts.
pub proof fn law_each_tld_once(raw: Seq<char>)
    ensures
        tlds_in(raw).no_duplicates(),
        forall|t: Seq<char>|
            tlds_in(raw).contains(t) <==> tld_groups(
                split(raw, CharSet::SpaceOrComma),
            ).contains(t),
{
    law_distinct(tld_groups(split(raw, CharSet::SpaceOrComma)));
}

/// Names may be separated by commas in one argument or stand in arguments of their
/// own: that makes no difference.
pub proof fn law_commas_and_arguments_are_alike(a: Seq<char>, b: Seq<char>)
    ensures
        all_names(seq![a + seq![','] + b]) == all_names(seq![a, b]),
{
    let comma = CharSet::Only(',');
    let x = split(a, comma);
    let y = split(b, comma);
    lemma_split_around(a, ',', b, comma);
    assert(trimmed(x + y) =~= trimmed(x) + trimmed(y));
    lemma_non_empty_concat(trimmed(x), trimmed(y));
    let one = seq![a + seq![','] + b];
    let two = seq![a, b];
    assert(one.drop_last() =~= Seq::empty());
    assert(two.drop_last() =~= seq![a]);
    assert(seq![a].drop_last() =~= Seq::empty());
    assert(all_names(Seq::<Seq<char>>::empty()) =~= Seq::empty());
    assert(all_names(seq![a]) =~= names_in(a));
    assert(all_names(one) =~= names_in(a) + names_in(b));
}

/// Top-level domains may be separated by commas or by white space: that makes no
/// difference.
pub proof fn law_separators_are_alike(a: Seq<char>, b: Seq<char>, some: char, other: char)
    requires
        CharSet::SpaceOrComma.holds(some),
        CharSet::SpaceOrComma.holds(other),
    ensures
        tlds_in(a + seq![some] + b) == tlds_in(a + seq![other] + b),
{
    lemma_split_around(a, some, b, CharSet::SpaceOrComma);
    lemma_split_around(a, other, b, CharSet::SpaceOrComma);
}

/// White space around a name and dots before it do not count, and nothing else of it is
/// lost.
pub proof fn law_bare(before: Seq<char>, dots: Seq<char>, name: Seq<char>, behind: Seq<char>)
    requires
        forall|i: int| 0 <= i < before.len() ==> is_space(#[trigger] before[i]),
        forall|i: int| 0 <= i < behind.len() ==> is_space(#[trigger] behind[i]),
        forall|i: int| 0 <= i < dots.len() ==> #[trigger] dots[i] == '.',
        name.len() > 0,
        name[0] != '.',
        !is_space(name[0]),
        !is_space(name.last()),
    ensures
        bare(before + dots + name + behind) == name,
        normalized(before + dots + name + behind) == lower(name),
{
    let text = dots + name;
    let raw = before + dots + name + behind;
    assert(raw =~= before + text + behind);
    law_white_space('.');
    assert(text.last() == name.last());
    if dots.len() > 0 {
        assert(text[0] == dots[0]);
    } else {
        assert(text[0] == name[0]);
    }
    law_trim(before, text, behind);
    let set = CharSet::Only('.');
    law_strip_start(text, set);
    let n = choose|n: int|
        0 <= n <= text.len() && strip_start(text, set) == #[trigger] text.skip(n) && (forall|i: int|
            0 <= i < n ==> set.holds(#[trigger] text[i])) && (n < text.len() ==> !set.holds(text[n]));
    let d = dots.len() as int;
    if n > d {
        assert(set.holds(text[d]));
        assert(text[d] == name[0]);
    }
    if n < d {
        assert(text[n] == dots[n]);
    }
    assert(text.skip(n) =~= name);
}

/// A name keeps its characters: one without white space around it and without a leading dot
/// is looked up at its full length, each character in its place, capitals in lower case. A
/// name without capitals is looked up as it is.
pub proof fn law_names_keep_their_characters(name: Seq<char>)
    requires
        name.len() > 0,
        name[0] != '.',
        !is_space(name[0]),
        !is_space(name.last()),
    ensures
        normalized(name).len() == name.len(),
        forall|i: int|
            0 <= i < name.len() && 'A' <= name[i] <= 'Z' ==> (#[trigger] normalized(name)[i]) as u32
                == name[i] as u32 + 32,
        forall|i: int|
            0 <= i < name.len() && !('A' <= name[i] <= 'Z') ==> #[trigger] normalized(name)[i]
                == name[i],
        (forall|i: int| 0 <= i < name.len() ==> !('A' <= #[trigger] name[i] <= 'Z')) ==> normalized(
            name,
        ) == name,
{
    law_bare(Seq::empty(), Seq::empty(), name, Seq::empty());
    assert(Seq::<char>::empty() + Seq::<char>::empty() + name + Seq::<char>::empty() =~= name);
    law_lower_changes_capitals_only(name);
    if forall|i: int| 0 <= i < name.len() ==> !('A' <= #[trigger] name[i] <= 'Z') {
        assert(normalized(name) =~= name);
    }
}

/// Two names are looked up as one only where they differ in nothing but capitals.
pub proof fn law_different_names_stay_different(some: Seq<char>, other: Seq<char>)
    requires
        some.len() > 0 && some[0] != '.' && !is_space(some[0]) && !is_space(some.last()),
        other.len() > 0 && other[0] != '.' && !is_space(other[0]) && !is_space(other.last()),
    ensures
        normalized(some) == normalized(other) <==> lower(some) == lower(other),
{
    law_bare(Seq::empty(), Seq::empty(), some, Seq::empty());
    law_bare(Seq::empty(), Seq::empty(), other, Seq::empty());
    assert(Seq::<char>::empty() + Seq::<char>::empty() + some + Seq::<char>::empty() =~= some);
    assert(Seq::<char>::empty() + Seq::<char>::empty() + other + Seq::<char>::empty() =~= other);
}

/// A name of white space and dots alone has nothing left, and stands for no pair.
pub proof fn law_nothing_is_left(
    before: Seq<char>,
    dots: Seq<char>,
    behind: Seq<char>,
    tlds: Seq<Seq<char>>,
    known: Set<Seq<char>>,
)
    requires
        forall|i: int| 0 <= i < before.len() ==> is_space(#[trigger] before[i]),
        forall|i: int| 0 <= i < behind.len() ==> is_space(#[trigger] behind[i]),
        forall|i: int| 0 <= i < dots.len() ==> #[trigger] dots[i] == '.',
    ensures
        pairs_for(before + dots + behind, tlds, known).len() == 0,
{
    law_white_space('.');
    if dots.len() > 0 {
        assert(dots[0] == '.' && dots[dots.len() - 1] == '.');
    }
    law_trim(before, dots, behind);
    let set = CharSet::Only('.');
    law_strip_start(dots, set);
    let n = choose|n: int|
        0 <= n <= dots.len() && strip_start(dots, set) == #[trigger] dots.skip(n) && (forall|i: int|
            0 <= i < n ==> set.holds(#[trigger] dots[i])) && (n < dots.len() ==> !set.holds(dots[n]));
    if n < dots.len() {
        assert(dots[n] == '.');
    }
    let s = bare(before + dots + behind);
    assert(s.len() == 0);
    lemma_split_index(s, known, 0);
}

/// A base name, which has no dot in it, is looked up under each top-level domain of the
/// list, in their order.
pub proof fn law_base_names_are_combined(
    name: Seq<char>,
    tlds: Seq<Seq<char>>,
    known: Set<Seq<char>>,
)
    requires
        name.len() > 0,
        !is_space(name[0]),
        !is_space(name.last()),
        forall|i: int| 0 <= i < name.len() ==> #[trigger] name[i] != '.',
    ensures
        pairs_for(name, tlds, known).len() == tlds.len(),
        forall|i: int|
            0 <= i < tlds.len() ==> #[trigger] pairs_for(name, tlds, known)[i] == (
                lower(name),
                tlds[i],
            ),
{
    assert(name[0] != '.');
    law_bare(Seq::empty(), Seq::empty(), name, Seq::empty());
    assert(Seq::<char>::empty() + Seq::<char>::empty() + name + Seq::<char>::empty() =~= name);
    lemma_split_index(name, known, 0);
    law_lower_changes_capitals_only(name);
}

/// A name with dots that ends in no known top-level domain is a base name too.
pub proof fn law_unknown_endings_are_part_of_the_name(
    raw: Seq<char>,
    tlds: Seq<Seq<char>>,
    known: Set<Seq<char>>,
)
    requires
        bare(raw).len() > 0,
        forall|j: int|
            0 <= j < bare(raw).len() && #[trigger] bare(raw)[j] == '.' ==> !known.contains(
                lower(bare(raw).skip(j + 1)),
            ),
    ensures
        pairs_for(raw, tlds, known).len() == tlds.len(),
        forall|i: int|
            0 <= i < tlds.len() ==> #[trigger] pairs_for(raw, tlds, known)[i] == (
                lower(bare(raw)),
                tlds[i],
            ),
{
    lemma_split_index(bare(raw), known, 0);
    law_lower_changes_capitals_only(bare(raw));
}

/// A name, a dot and a known top-level domain are split at the dot. The name keeps its
/// case, the top-level domain is in lower case, and `--tld` does not apply.
pub proof fn law_full_domains_are_split(
    name: Seq<char>,
    tld: Seq<char>,
    tlds: Seq<Seq<char>>,
    known: Set<Seq<char>>,
)
    requires
        name.len() > 0,
        !is_space(name[0]),
        forall|i: int| 0 <= i < name.len() ==> #[trigger] name[i] != '.',
        tld.len() > 0,
        !is_space(tld.last()),
        known.contains(lower(tld)),
    ensures
        full_domain(name + seq!['.'] + tld, known) == Some((name, lower(tld))),
        pairs_for(name + seq!['.'] + tld, tlds, known) == seq![(name, lower(tld))],
{
    let raw = name + seq!['.'] + tld;
    assert(raw[0] == name[0] && raw.last() == tld.last());
    assert(name[0] != '.');
    law_bare(Seq::empty(), Seq::empty(), raw, Seq::empty());
    assert(Seq::<char>::empty() + Seq::<char>::empty() + raw + Seq::<char>::empty() =~= raw);
    lemma_split_index(raw, known, 0);
    let n = name.len() as int;
    assert(raw.skip(n + 1) =~= tld);
    assert(splits_at(raw, known, n));
    let i = split_index(raw, known, 0)->0;
    if i < n {
        assert(raw[i] == name[i]);
    }
    assert(raw.take(n) =~= name);
}

/// One word of a list stands for itself, in lower case, unless it names a group.
pub proof fn law_words_stand_for_themselves(word: Seq<char>)
    requires
        word.len() > 0,
        forall|i: int| 0 <= i < word.len() ==> #[trigger] word[i] != ',' && !is_space(word[i]),
        lower(word) != "all"@,
        lower(word) != "popular"@,
        lower(word) != "bd"@,
    ensures
        tlds_in(word) == seq![lower(word)],
{
    lemma_one_word(word);
    law_distinct_stays(seq![lower(word)]);
}

/// The top-level domains of one word.
proof fn lemma_one_word(word: Seq<char>)
    requires
        word.len() > 0,
        forall|i: int| 0 <= i < word.len() ==> #[trigger] word[i] != ',' && !is_space(word[i]),
    ensures
        tlds_in(word) == distinct(tld_group(word)),
{
    let set = CharSet::SpaceOrComma;
    assert forall|i: int| 0 <= i < word.len() implies !set.holds(#[trigger] word[i]) by {
        assert(word[i] != ',' && !is_space(word[i]));
    }
    lemma_unsplit(word, set);
    assert(seq![word].drop_last() =~= Seq::empty());
    assert(tld_groups(Seq::<Seq<char>>::empty()) =~= Seq::empty());
    assert(tld_groups(seq![word]) =~= tld_group(word));
}

/// The words `all` and `popular` stand for the popular top-level domains, and `bd` for the
/// zones of `.bd`, capitals or not.
pub proof fn law_groups(word: Seq<char>, t: Seq<char>)
    requires
        word.len() > 0,
        forall|i: int| 0 <= i < word.len() ==> #[trigger] word[i] != ',' && !is_space(word[i]),
    ensures
        lower(word) == "all"@ || lower(word) == "popular"@ ==> (tlds_in(word).contains(t)
            <==> seq![
                "com"@,
                "net"@,
                "org"@,
                "io"@,
                "app"@,
                "dev"@,
                "co"@,
                "ai"@,
                "me"@,
                "info"@,
                "xyz"@,
                "tech"@,
                "cloud"@,
                "store"@,
                "shop"@,
                "site"@,
                "online"@,
                "blog"@,
                "bd"@,
            ].contains(t)),
        lower(word) == "bd"@ ==> (tlds_in(word).contains(t) <==> seq![
                "bd"@,
                "com.bd"@,
                "net.bd"@,
                "org.bd"@,
                "edu.bd"@,
                "gov.bd"@,
                "ac.bd"@,
                "co.bd"@,
                "info.bd"@,
                "name.bd"@,
            ].contains(t)),
{
    lemma_one_word(word);
    law_distinct(tld_group(word));
    reveal_strlit("all");
    reveal_strlit("popular");
    reveal_strlit("bd");
    assert("all"@.len() == 3 && "popular"@.len() == 7 && "bd"@.len() == 2);
    if lower(word) == "all"@ || lower(word) == "popular"@ {
        assert(literals(POPULAR_TLDS@) =~= seq![
                "com"@,
                "net"@,
                "org"@,
                "io"@,
                "app"@,
                "dev"@,
                "co"@,
                "ai"@,
                "me"@,
                "info"@,
                "xyz"@,
                "tech"@,
                "cloud"@,
                "store"@,
                "shop"@,
                "site"@,
                "online"@,
                "blog"@,
                "bd"@,
            ]);
    } else if lower(word) == "bd"@ {
        assert(literals(BD_ZONE_TLDS@) =~= seq![
                "bd"@,
                "com.bd"@,
                "net.bd"@,
                "org.bd"@,
                "edu.bd"@,
                "gov.bd"@,
                "ac.bd"@,
                "co.bd"@,
                "info.bd"@,
                "name.bd"@,
            ]);
    }
}

/// The top-level domains of two lists of words.
proof fn lemma_tld_groups_concat(a: Seq<Seq<char>>, b: Seq<Seq<char>>)
    ensures
        tld_groups(a + b) == tld_groups(a) + tld_groups(b),
    decreases b.len(),
{
    if b.len() == 0 {
        assert(a + b =~= a);
        assert(tld_groups(a) + tld_groups(b) =~= tld_groups(a));
    } else {
        lemma_tld_groups_concat(a, b.drop_last());
        assert((a + b).drop_last() =~= a + b.drop_last());
        assert((a + b).last() == b.last());
        assert(tld_groups(a + b) =~= tld_groups(a) + tld_groups(b));
    }
}

/// A list of words stands for what its words stand for: first what the first words stand
/// for, then what the others add to it. No word is lost.
pub proof fn law_lists_of_words(a: Seq<char>, c: char, b: Seq<char>, t: Seq<char>)
    requires
        c == ',' || is_space(c),
    ensures
        tlds_in(a + seq![c] + b).contains(t) <==> tlds_in(a).contains(t) || tlds_in(b).contains(t),
        tlds_in(a + seq![c] + b).no_duplicates(),
        tlds_in(a).len() <= tlds_in(a + seq![c] + b).len(),
        tlds_in(a + seq![c] + b).take(tlds_in(a).len() as int) == tlds_in(a),
        tlds_in(Seq::empty()).len() == 0,
{
    let set = CharSet::SpaceOrComma;
    let x = split(a, set);
    let y = split(b, set);
    lemma_split_around(a, c, b, set);
    lemma_tld_groups_concat(x, y);
    law_first_appearances_count(tld_groups(x), tld_groups(y));
    law_distinct(tld_groups(x) + tld_groups(y));
    law_distinct(tld_groups(x));
    law_distinct(tld_groups(y));
    lemma_contains_either(tld_groups(x), tld_groups(y), t);
    assert(split(Seq::<char>::empty(), set) =~= seq![Seq::<char>::empty()]);
    assert(seq![Seq::<char>::empty()].drop_last() =~= Seq::empty());
    assert(tld_groups(Seq::<Seq<char>>::empty()) =~= Seq::empty());
    assert(tld_groups(seq![Seq::<char>::empty()]) =~= Seq::empty());
}

/// What stands in one of two lists stands in both together.
proof fn lemma_contains_either<A>(a: Seq<A>, b: Seq<A>, t: A)
    ensures
        (a + b).contains(t) <==> a.contains(t) || b.contains(t),
{
    if a.contains(t) {
        let i = choose|i: int| 0 <= i < a.len() && a[i] == t;
        assert((a + b)[i] == t);
    }
    if b.contains(t) {
        let i = choose|i: int| 0 <= i < b.len() && b[i] == t;
        assert((a + b)[a.len() + i] == t);
    }
    if (a + b).contains(t) {
        let i = choose|i: int| 0 <= i < (a + b).len() && (a + b)[i] == t;
        if i < a.len() {
            assert(a[i] == t);
        } else {
            assert(b[i - a.len()] == t);
        }
    }
}

/// Without `--tld` names are looked up under `com`, and with it under what it lists.
pub proof fn law_tld_argument(list: Seq<char>)
    ensures
        tlds_in(tld_argument(None)) == seq![seq!['c', 'o', 'm']],
        tld_argument(Some(list)) == list,
{
    reveal_strlit("com");
    reveal_strlit("all");
    reveal_strlit("popular");
    reveal_strlit("bd");
    let word = seq!['c', 'o', 'm'];
    assert("com"@ =~= word);
    assert(lower(word) =~= word);
    assert("all"@[0] == 'a' && "popular"@[0] == 'p' && "bd"@[0] == 'b' && word[0] == 'c');
    law_words_stand_for_themselves(word);
}

/// A text without a comma is one name, without the white space around it, if anything is
/// left of it. A comma parts the names before it from those behind it.
pub proof fn law_names_in_a_text(a: Seq<char>, b: Seq<char>)
    ensures
        (forall|i: int| 0 <= i < a.len() ==> #[trigger] a[i] != ',') ==> names_in(a) == if trim(
            a,
        ).len() == 0 {
            Seq::empty()
        } else {
            seq![trim(a)]
        },
        names_in(a + seq![','] + b) == names_in(a) + names_in(b),
{
    let comma = CharSet::Only(',');
    if forall|i: int| 0 <= i < a.len() ==> #[trigger] a[i] != ',' {
        lemma_unsplit(a, comma);
        assert(trimmed(seq![a]) =~= seq![trim(a)]);
        assert(seq![trim(a)].drop_last() =~= Seq::empty());
        assert(non_empty(Seq::<Seq<char>>::empty()) =~= Seq::empty());
        if trim(a).len() > 0 {
            assert(names_in(a) =~= seq![trim(a)]);
        }
    }
    let x = split(a, comma);
    let y = split(b, comma);
    lemma_split_around(a, ',', b, comma);
    assert(trimmed(x + y) =~= trimmed(x) + trimmed(y));
    lemma_non_empty_concat(trimmed(x), trimmed(y));
}

/// The names of some arguments are those of each of them, in order.
pub proof fn law_names_in_arguments(a: Seq<Seq<char>>, b: Seq<Seq<char>>, one: Seq<char>)
    ensures
        all_names(a + b) == all_names(a) + all_names(b),
        all_names(seq![one]) == names_in(one),
    decreases b.len(),
{
    assert(seq![one].drop_last() =~= Seq::empty());
    assert(all_names(Seq::<Seq<char>>::empty()) =~= Seq::empty());
    assert(all_names(seq![one]) =~= names_in(one));
    if b.len() == 0 {
        assert(a + b =~= a);
        assert(all_names(a) + all_names(b) =~= all_names(a));
    } else {
        law_names_in_arguments(a, b.drop_last(), one);
        assert((a + b).drop_last() =~= a + b.drop_last());
        assert((a + b).last() == b.last());
        assert(all_names(a + b) =~= all_names(a) + all_names(b));
    }
}

/// The names in the lines of two texts.
proof fn lemma_lines_concat(a: Seq<Seq<char>>, b: Seq<Seq<char>>)
    ensures
        names_in_lines(a + b) == names_in_lines(a) + names_in_lines(b),
    decreases b.len(),
{
    if b.len() == 0 {
        assert(a + b =~= a);
        assert(names_in_lines(a) + names_in_lines(b) =~= names_in_lines(a));
    } else {
        lemma_lines_concat(a, b.drop_last());
        assert((a + b).drop_last() =~= a + b.drop_last());
        assert((a + b).last() == b.last());
        assert(names_in_lines(a + b) =~= names_in_lines(a) + names_in_lines(b));
    }
}

/// A file is read line by line. A line that is blank, or begins with `#` behind its white
/// space, has no names; any other has those of a text.
pub proof fn law_names_in_a_file(a: Seq<char>, b: Seq<char>)
    ensures
        names_in_file(a + seq!['\n'] + b) == names_in_file(a) + names_in_file(b),
        (forall|i: int| 0 <= i < a.len() ==> #[trigger] a[i] != '\n') ==> names_in_file(a) == if trim(
            a,
        ).len() == 0 || trim(a)[0] == '#' {
            Seq::empty()
        } else {
            names_in(trim(a))
        },
{
    let end = CharSet::Only('\n');
    lemma_split_around(a, '\n', b, end);
    lemma_lines_concat(split(a, end), split(b, end));
    if forall|i: int| 0 <= i < a.len() ==> #[trigger] a[i] != '\n' {
        lemma_unsplit(a, end);
        assert(seq![a].drop_last() =~= Seq::empty());
        assert(names_in_lines(Seq::<Seq<char>>::empty()) =~= Seq::empty());
        assert(names_in_file(a) =~= if trim(a).len() == 0 || trim(a)[0] == '#' {
            Seq::empty()
        } else {
            names_in(trim(a))
        });
    }
}

/// Names that do not begin with `@` stand for themselves, and need no files.
pub proof fn law_names_without_files(names: Seq<Seq<char>>, files: Seq<Option<Seq<char>>>)
    requires
        forall|i: int|
            0 <= i < names.len() ==> (#[trigger] names[i]).len() == 0 || names[i][0] != '@',
    ensures
        with_files(names, files) == Ok::<Seq<Seq<char>>, Seq<char>>(names),
        files_in(names).len() == 0,
    decreases names.len(),
{
    if names.len() > 0 {
        let less = names.drop_last();
        assert forall|i: int| 0 <= i < less.len() implies (#[trigger] less[i]).len() == 0
            || less[i][0] != '@' by {
            assert(less[i] == names[i]);
        }
        law_names_without_files(less, files);
        assert(names[names.len() - 1] == names.last());
        assert(less.push(names.last()) =~= names);
    } else {
        assert(names =~= Seq::empty());
    }
}

/// A name that begins with `@` stands for the names in the file behind it, at its place
/// among the others. A file that cannot be read is an error that names it, and the first
/// such error remains.
pub proof fn law_files_stand_for_their_names(
    names: Seq<Seq<char>>,
    path: Seq<char>,
    files: Seq<Option<Seq<char>>>,
)
    ensures
        ({
            let more = names.push(seq!['@'] + path);
            let k = files_in(names).len() as int;
            &&& files_in(more) == files_in(names).push(path)
            &&& with_files(names, files) matches Err(first) ==> with_files(more, files) == Err::<
                Seq<Seq<char>>,
                Seq<char>,
            >(first)
            &&& with_files(names, files) matches Ok(before) ==> with_files(more, files) == if k
                < files.len() && files[k] is Some {
                Ok::<Seq<Seq<char>>, Seq<char>>(before + names_in_file(files[k]->0))
            } else {
                Err(path)
            }
        }),
{
    let name = seq!['@'] + path;
    let more = names.push(name);
    assert(more.drop_last() =~= names);
    assert(name.drop_first() =~= path);
    assert(name[0] == '@');
    assert(is_file(name));
    assert(more.last() == name);
}

/// A name behind others is added to them.
pub proof fn law_names_are_added(
    names: Seq<Seq<char>>,
    name: Seq<char>,
    files: Seq<Option<Seq<char>>>,
)
    requires
        name.len() == 0 || name[0] != '@',
    ensures
        files_in(names.push(name)) == files_in(names),
        with_files(names, files) matches Ok(before) ==> with_files(names.push(name), files) == Ok::<
            Seq<Seq<char>>,
            Seq<char>,
        >(before.push(name)),
{
    assert(names.push(name).drop_last() =~= names);
}

/// There are two levels, and the first is meant where none is given.
pub proof fn law_levels(other: Seq<char>)
    requires
        other != "first"@,
        other != "second"@,
    ensures
        level_of(None) == Some(LookupLevel::First),
        level_of(Some("first"@)) == Some(LookupLevel::First),
        level_of(Some("second"@)) == Some(LookupLevel::Second),
        level_of(Some(other)) is None,
{
    reveal_strlit("first");
    reveal_strlit("second");
    assert("first"@.len() == 5 && "second"@.len() == 6);
}

/// The pairs of some names are those of each of them, in order, and what is looked up are
/// these pairs.
pub proof fn law_pairs_of_names(
    a: Seq<Seq<char>>,
    b: Seq<Seq<char>>,
    one: Seq<char>,
    tlds: Seq<Seq<char>>,
    known: Set<Seq<char>>,
)
    ensures
        all_pairs(a + b, tlds, known) == all_pairs(a, tlds, known) + all_pairs(b, tlds, known),
        all_pairs(seq![one], tlds, known) == pairs_for(one, tlds, known),
        forall|pair: (Seq<char>, Seq<char>)| #[trigger]
            distinct(all_pairs(a, tlds, known)).contains(pair) <==> all_pairs(
                a,
                tlds,
                known,
            ).contains(pair),
    decreases b.len(),
{
    law_distinct(all_pairs(a, tlds, known));
    assert(seq![one].drop_last() =~= Seq::empty());
    assert(all_pairs(Seq::<Seq<char>>::empty(), tlds, known) =~= Seq::empty());
    assert(all_pairs(seq![one], tlds, known) =~= pairs_for(one, tlds, known));
    let first = all_pairs(a, tlds, known);
    if b.len() == 0 {
        assert(a + b =~= a);
        assert(first + all_pairs(b, tlds, known) =~= first);
    } else {
        law_pairs_of_names(a, b.drop_last(), one, tlds, known);
        assert((a + b).drop_last() =~= a + b.drop_last());
        assert((a + b).last() == b.last());
        assert(all_pairs(a + b, tlds, known) =~= first + all_pairs(b, tlds, known));
    }
}

/// A list of top-level domains is known with each of them, in lower case, and with no
/// others.
pub proof fn law_lowered(list: Seq<Seq<char>>, t: Seq<char>)
    ensures
        lowered(list).contains(t) <==> exists|i: int|
            0 <= i < list.len() && t == lower(#[trigger] list[i]),
{
    let all = list.map_values(|t: Seq<char>| lower(t));
    if lowered(list).contains(t) {
        let i = choose|i: int| 0 <= i < all.len() && all[i] == t;
        assert(t == lower(list[i]));
    }
    if exists|i: int| 0 <= i < list.len() && t == lower(#[trigger] list[i]) {
        let i = choose|i: int| 0 <= i < list.len() && t == lower(#[trigger] list[i]);
        assert(all[i] == t);
    }
}

/// A full domain is split at its first dot behind which a known top-level domain stands,
/// whatever stands before that dot.
pub proof fn law_split_at_the_first_known_ending(raw: Seq<char>, known: Set<Seq<char>>, j: int)
    requires
        0 <= j < bare(raw).len(),
        bare(raw)[j] == '.',
        known.contains(lower(bare(raw).skip(j + 1))),
        forall|i: int|
            0 <= i < j && #[trigger] bare(raw)[i] == '.' ==> !known.contains(
                lower(bare(raw).skip(i + 1)),
            ),
    ensures
        full_domain(raw, known) == Some((bare(raw).take(j), lower(bare(raw).skip(j + 1)))),
{
    let s = bare(raw);
    lemma_split_index(s, known, 0);
    assert(splits_at(s, known, j));
    let i = split_index(s, known, 0)->0;
    assert(splits_at(s, known, i));
    if i < j {
        assert(s[i] == '.');
    }
}

} // verus!
