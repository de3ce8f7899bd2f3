//! The languages that an editor knows, and finding the one of a file or of a piece of text.

use crate::chars::{same_str, string_of};
use crate::syntax_tree::{char_index, char_of, lemma_char_of_monotone};
use crate::text::chars_of;
use globset::{Glob, GlobSet, GlobSetBuilder};
use regex_cursor::engines::meta::Regex;
use ropey::RopeSlice;
use vstd::prelude::*;
use vstd::utf8::encode_utf8;

verus! {

/// A language, by its index among the known ones.
#[derive(Clone, Copy, Debug, PartialEq, Eq, Structural)]
pub struct Language(pub u32);

/// What tells that a file is of a language.
#[derive(Clone, Debug, PartialEq, Eq)]
pub enum FileType {
    /// The extension of the file, without its dot.
    Extension(String),
    /// A pattern for the path of the file.
    Glob(String),
}

/// What is known of a language.
#[derive(Clone, Debug)]
pub struct LanguageConfiguration {
    pub language_id: String,
    pub scope: String,
    pub file_types: Vec<FileType>,
    pub shebangs: Vec<String>,
    /// A regular expression for the names under which text of the language is injected.
    pub injection_regex: Option<String>,
    /// The name of the grammar, if it is not that of the language.
    pub grammar: Option<String>,
}

impl LanguageConfiguration {
    /// The name under which the grammar of the language is found.
    pub fn parser_name(&self) -> (name: &str)
        ensures
            name@ == match self.grammar {
                Some(grammar) => grammar@,
                None => self.language_id@,
            },
    {
        match &self.grammar {
            Some(grammar) => grammar.as_str(),
            None => self.language_id.as_str(),
        }
    }
}

/// A set of compiled glob patterns, see `globs_of` for which ones.
#[verifier::external_type_specification]
#[verifier::external_body]
pub struct ExGlobSet(globset::GlobSet);

/// What is wrong with a glob pattern.
#[verifier::external_type_specification]
#[verifier::external_body]
pub struct ExGlobError(globset::Error);

/// The patterns of a set of globs, in the order in which they were added.
pub uninterp spec fn globs_of(set: GlobSet) -> Seq<Seq<char>>;

/// Whether all the patterns are valid globs.
pub uninterp spec fn valid_globs(globs: Seq<Seq<char>>) -> bool;

/// The indices of the patterns that match a path.
pub uninterp spec fn matching_globs(globs: Seq<Seq<char>>, path: Seq<char>) -> Seq<usize>;

/// The extension of a path that [`is_plain`] does not hold of.
pub uninterp spec fn odd_extension(path: Seq<char>) -> Option<Seq<char>>;

/// What comes after the last `c` of a text, or all of it if there is none.
pub open spec fn after_last(text: Seq<char>, c: char) -> Seq<char>
    decreases text.len(),
{
    if text.len() == 0 || text.last() == c {
        Seq::empty()
    } else {
        after_last(text.drop_last(), c).push(text.last())
    }
}

/// Whether a path ends with the name of a file and is made of names and slashes on every system: it
/// has no backslash, no colon and no two slashes at its start.
pub open spec fn is_plain(path: Seq<char>) -> bool {
    let name = after_last(path, '/');
    &&& !path.contains('\\')
    &&& !path.contains(':')
    &&& !(path.len() > 1 && path[0] == '/' && path[1] == '/')
    &&& name.len() > 0
    &&& name != seq!['.']
    &&& name != seq!['.', '.']
}

/// The extension of the file name `name`: what comes after its last dot, unless that is its first
/// char.
pub open spec fn name_extension(name: Seq<char>) -> Option<Seq<char>> {
    let extension = after_last(name, '.');
    if extension.len() + 1 < name.len() {
        Some(extension)
    } else {
        None
    }
}

/// The extension of a path, if it has one.
pub open spec fn path_extension(path: Seq<char>) -> Option<Seq<char>> {
    if is_plain(path) {
        name_extension(after_last(path, '/'))
    } else {
        odd_extension(path)
    }
}

/// The bytes of the first match of a group of a regular expression in a text, group 0 being the
/// whole match; none for an invalid expression.
pub uninterp spec fn regex_group(
    pattern: Seq<char>,
    text: Seq<char>,
    group: nat,
) -> Option<(nat, nat)>;

/// The views of strings.
pub open spec fn strings_view(strings: Seq<String>) -> Seq<Seq<char>> {
    strings.map_values(|string: String| string@)
}

/// Compiles `globs` with `Glob::new` and `GlobSetBuilder::build`. The set holds all patterns, in
/// their order.
#[verifier::external_body]
fn build_globs(globs: &Vec<String>) -> (set: Result<GlobSet, globset::Error>)
    ensures
        set is Ok == valid_globs(strings_view(globs@)),
        set matches Ok(set) ==> globs_of(set) == strings_view(globs@),
{
    let mut builder = GlobSetBuilder::new();
    for glob in globs {
        builder.add(Glob::new(glob)?);
    }
    builder.build()
}

/// The indices of the patterns of `set` that match `path`, which `GlobSet::matches` returns in
/// ascending order.
#[verifier::external_body]
fn glob_set_matches(set: &GlobSet, path: &str) -> (matches: Vec<usize>)
    ensures
        matches@ == matching_globs(globs_of(*set), path@),
        forall|i: int| 0 <= i < matches@.len() ==> #[trigger] matches@[i] < globs_of(*set).len(),
{
    set.matches(path)
}

/// The extension of `path` that `Path::extension` returns: of a plain path what comes after the last
/// dot of its last name, unless that starts the name.
#[verifier::external_body]
fn extension_of(path: &str) -> (extension: Option<String>)
    ensures
        is_plain(path@) ==> match extension {
            Some(extension) => name_extension(after_last(path@, '/')) == Some(extension@),
            None => name_extension(after_last(path@, '/')) is None,
        },
        !is_plain(path@) ==> match extension {
            Some(extension) => odd_extension(path@) == Some(extension@),
            None => odd_extension(path@) is None,
        },
{
    let extension = std::path::Path::new(path).extension();
    extension.and_then(|extension| extension.to_str()).map(String::from)
}

/// The bytes of the group `group` of the first match that `Regex::captures_iter` finds in `text`
/// for `pattern`. They lie in the text.
#[verifier::external_body]
fn regex_first_group(pattern: &str, text: RopeSlice, group: usize) -> (range: Option<(usize, usize)>)
    ensures
        match range {
            Some((start, end)) => {
                &&& regex_group(pattern@, chars_of(text), group as nat) == Some(
                    (start as nat, end as nat),
                )
                &&& start <= end <= encode_utf8(chars_of(text)).len()
            },
            None => regex_group(pattern@, chars_of(text), group as nat) is None,
        },
{
    let regex = Regex::new(pattern).ok()?;
    let captures = regex.captures_iter(regex_cursor::Input::new(text)).next()?;
    captures.get_group(group).map(|span| (span.start, span.end))
}

/// Why the known languages cannot be loaded.
pub enum LoaderError {
    /// A file type has an invalid pattern.
    Glob(globset::Error),
}

/// Whether one of the file types is the extension `extension`.
pub open spec fn has_extension(file_types: Seq<FileType>, extension: Seq<char>) -> bool {
    exists|i: int|
        0 <= i < file_types.len() && (#[trigger] file_types[i] matches FileType::Extension(e) && e@
            == extension)
}

/// Whether one of the strings is `string`.
pub open spec fn has_string(strings: Seq<String>, string: Seq<char>) -> bool {
    exists|i: int| 0 <= i < strings.len() && (#[trigger] strings[i])@ == string
}

/// Being the language with the id `id`.
pub open spec fn with_id(id: Seq<char>) -> spec_fn(LanguageConfiguration) -> bool {
    |language: LanguageConfiguration| language.language_id@ == id
}

/// Being a language with the scope `scope`.
pub open spec fn with_scope(scope: Seq<char>) -> spec_fn(LanguageConfiguration) -> bool {
    |language: LanguageConfiguration| language.scope@ == scope
}

/// Being a language with the extension `extension`.
pub open spec fn with_extension(extension: Seq<char>) -> spec_fn(LanguageConfiguration) -> bool {
    |language: LanguageConfiguration| has_extension(language.file_types@, extension)
}

/// Being a language with the shebang `marker`.
pub open spec fn with_shebang(marker: Seq<char>) -> spec_fn(LanguageConfiguration) -> bool {
    |language: LanguageConfiguration| has_string(language.shebangs@, marker)
}

fn extension_among(file_types: &Vec<FileType>, extension: &str) -> (has: bool)
    ensures
        has == has_extension(file_types@, extension@),
{
    let mut k: usize = 0;
    while k < file_types.len()
        invariant
            k <= file_types@.len(),
            forall|m: int|
                0 <= m < k ==> !(#[trigger] file_types@[m] matches FileType::Extension(e) && e@
                    == extension@),
        decreases file_types.len() - k,
    {
        if let FileType::Extension(e) = &file_types[k] {
            if same_str(e.as_str(), extension) {
                return true;
            }
        }
        k += 1;
    }
    false
}

fn string_among(strings: &Vec<String>, string: &str) -> (has: bool)
    ensures
        has == has_string(strings@, string@),
{
    let mut k: usize = 0;
    while k < strings.len()
        invariant
            k <= strings@.len(),
            forall|m: int| 0 <= m < k ==> (#[trigger] strings@[m])@ != string@,
        decreases strings.len() - k,
    {
        if same_str(strings[k].as_str(), string) {
            return true;
        }
        k += 1;
    }
    false
}

/// The last of the languages that `wanted` holds of.
pub open spec fn last_language(
    languages: Seq<LanguageConfiguration>,
    wanted: spec_fn(LanguageConfiguration) -> bool,
) -> Option<Language>
    decreases languages.len(),
{
    if languages.len() == 0 {
        None
    } else if wanted(languages.last()) {
        Some(Language((languages.len() - 1) as u32))
    } else {
        last_language(languages.drop_last(), wanted)
    }
}

/// The first of the languages from `from` on that `wanted` holds of.
pub open spec fn first_language(
    languages: Seq<LanguageConfiguration>,
    wanted: spec_fn(LanguageConfiguration) -> bool,
    from: int,
) -> Option<Language>
    decreases languages.len() - from,
{
    if from >= languages.len() {
        None
    } else if wanted(languages[from]) {
        Some(Language(from as u32))
    } else {
        first_language(languages, wanted, from + 1)
    }
}

/// The glob patterns of the file types of one language.
pub open spec fn globs_in(file_types: Seq<FileType>) -> Seq<Seq<char>>
    decreases file_types.len(),
{
    if file_types.len() == 0 {
        Seq::empty()
    } else {
        let before = globs_in(file_types.drop_last());
        match file_types.last() {
            FileType::Glob(glob) => before.push(glob@),
            FileType::Extension(_) => before,
        }
    }
}

/// The glob patterns of all languages, with the language of each.
pub open spec fn all_globs(languages: Seq<LanguageConfiguration>) -> Seq<(Seq<char>, Language)>
    decreases languages.len(),
{
    if languages.len() == 0 {
        Seq::empty()
    } else {
        let language = Language((languages.len() - 1) as u32);
        all_globs(languages.drop_last()) + globs_in(languages.last().file_types@).map_values(
            |glob: Seq<char>| (glob, language),
        )
    }
}

/// The patterns without their languages.
pub open spec fn patterns(globs: Seq<(Seq<char>, Language)>) -> Seq<Seq<char>> {
    globs.map_values(|glob: (Seq<char>, Language)| glob.0)
}

/// The language of the longest of the patterns with the indices `matches`, counted in bytes, and
/// of the last one of several that are as long.
pub open spec fn longest_glob(
    globs: Seq<(Seq<char>, Language)>,
    matches: Seq<usize>,
) -> Option<usize>
    decreases matches.len(),
{
    if matches.len() == 0 {
        None
    } else {
        let best = longest_glob(globs, matches.drop_last());
        let index = matches.last();
        match best {
            Some(best) if encode_utf8(globs[best as int].0).len() > encode_utf8(
                globs[index as int].0,
            ).len() => Some(best),
            _ => Some(index),
        }
    }
}

/// The bytes that a language's injection pattern matches in a text.
pub open spec fn injection_length(language: LanguageConfiguration, text: Seq<char>) -> nat {
    match language.injection_regex {
        Some(pattern) => match regex_group(pattern@, text, 0) {
            Some((start, end)) => (end - start) as nat,
            None => 0,
        },
        None => 0,
    }
}

/// The first of the languages with the longest match, given the lengths of their matches; none if
/// nothing matches.
pub open spec fn longest(lengths: Seq<nat>) -> Option<Language>
    decreases lengths.len(),
{
    if lengths.len() == 0 {
        None
    } else {
        let best = longest(lengths.drop_last());
        let longer = match best {
            Some(best) => lengths.last() > lengths[best.0 as int],
            None => lengths.last() > 0,
        };
        if longer {
            Some(Language((lengths.len() - 1) as u32))
        } else {
            best
        }
    }
}

/// The first of the languages whose injection pattern matches the most bytes of a text.
pub open spec fn best_injection(languages: Seq<LanguageConfiguration>, text: Seq<char>) -> Option<
    Language,
> {
    longest(
        languages.map_values(|language: LanguageConfiguration| injection_length(language, text)),
    )
}

/// The lengths as numbers.
pub open spec fn counts(lengths: Seq<usize>) -> Seq<nat> {
    lengths.map_values(|length: usize| length as nat)
}

/// The first of the languages with the longest match, given the lengths of their matches.
pub fn longest_match(lengths: &Vec<usize>) -> (language: Option<Language>)
    requires
        lengths@.len() <= u32::MAX,
    ensures
        language == longest(counts(lengths@)),
{
    let ghost all = counts(lengths@);
    let mut best: Option<Language> = None;
    let mut best_match_length: usize = 0;
    let mut i: usize = 0;
    while i < lengths.len()
        invariant
            lengths@.len() <= u32::MAX,
            i <= lengths@.len(),
            all == counts(lengths@),
            best == longest(all.take(i as int)),
            match best {
                Some(best) => best.0 < i && best_match_length == lengths@[best.0 as int],
                None => best_match_length == 0,
            },
        decreases lengths.len() - i,
    {
        assert(all.take(i + 1).drop_last() =~= all.take(i as int));
        if lengths[i] > best_match_length {
            best = Some(Language(i as u32));
            best_match_length = lengths[i];
        }
        i += 1;
    }
    assert(all.take(i as int) =~= all);
    best
}

/// The marker of a shebang at the start of a text: the name of the interpreter, without its path
/// and its version.
pub open spec fn shebang_pattern() -> Seq<char> {
    "^#!\\s*(?:\\S*[/\\\\](?:env\\s+(?:\\-\\S+\\s+)*)?)?([^\\s\\.\\d]+)"@
}

/// How a piece of text tells its language.
#[derive(Clone, Copy)]
pub enum InjectionMarker<'a> {
    /// By the id of the language.
    Name(&'a str),
    /// By a text that the injection patterns are matched against.
    Match(RopeSlice<'a>),
    /// By the name of a file.
    Filename(RopeSlice<'a>),
    /// By the interpreter of a shebang.
    Shebang(RopeSlice<'a>),
}

/// Finds the languages of files and of pieces of text.
pub struct Loader {
    languages: Vec<LanguageConfiguration>,
    matcher: GlobSet,
    globs: Vec<(String, Language)>,
    scopes: Vec<String>,
}

/// The patterns as plain sequences.
pub open spec fn globs_view(globs: Seq<(String, Language)>) -> Seq<(Seq<char>, Language)> {
    globs.map_values(|glob: (String, Language)| (glob.0@, glob.1))
}

impl Loader {
    /// The known languages.
    pub closed spec fn view(&self) -> Seq<LanguageConfiguration> {
        self.languages@
    }

    /// The names that highlights are recognized by.
    pub closed spec fn scope_names(&self) -> Seq<String> {
        self.scopes@
    }

    /// Whether the patterns of the file types are compiled.
    pub closed spec fn wf(&self) -> bool {
        &&& self.languages@.len() <= u32::MAX
        &&& globs_view(self.globs@) == all_globs(self.languages@)
        &&& globs_of(self.matcher) == patterns(all_globs(self.languages@))
    }

    pub fn new(languages: Vec<LanguageConfiguration>) -> (loader: Result<Loader, LoaderError>)
        requires
            languages@.len() <= u32::MAX,
        ensures
            loader is Ok == valid_globs(patterns(all_globs(languages@))),
            loader matches Ok(loader) ==> loader.wf() && loader@ == languages@
                && loader.scope_names().len() == 0,
    {
        let mut globs: Vec<(String, Language)> = Vec::new();
        let mut patterns_only: Vec<String> = Vec::new();
        let mut i: usize = 0;
        proof {
            assert(globs_view(globs@) =~= all_globs(languages@.take(0)));
            assert(strings_view(patterns_only@) =~= patterns(globs_view(globs@)));
        }
        while i < languages.len()
            invariant
                languages@.len() <= u32::MAX,
                i <= languages@.len(),
                globs_view(globs@) == all_globs(languages@.take(i as int)),
                strings_view(patterns_only@) == patterns(globs_view(globs@)),
            decreases languages.len() - i,
        {
            let language = Language(i as u32);
            let file_types: &Vec<FileType> = &languages[i].file_types;
            let ghost before = globs_view(globs@);
            let ghost tag = |glob: Seq<char>| (glob, language);
            let mut k: usize = 0;
            proof {
                assert(languages@.take(i + 1).drop_last() =~= languages@.take(i as int));
                assert(before =~= before + globs_in(file_types@.take(0)).map_values(tag));
            }
            while k < file_types.len()
                invariant
                    k <= file_types@.len(),
                    tag == (|glob: Seq<char>| (glob, language)),
                    globs_view(globs@) == before + globs_in(file_types@.take(k as int)).map_values(
                        tag,
                    ),
                    strings_view(patterns_only@) == patterns(globs_view(globs@)),
                decreases file_types.len() - k,
            {
                proof {
                    assert(file_types@.take(k + 1).drop_last() =~= file_types@.take(k as int));
                }
                if let FileType::Glob(glob) = &file_types[k] {
                    let ghost old_globs = globs@;
                    let ghost old_patterns = patterns_only@;
                    let ghost so_far = globs_in(file_types@.take(k as int));
                    globs.push((glob.clone(), language));
                    patterns_only.push(glob.clone());
                    proof {
                        assert(globs_view(globs@) =~= globs_view(old_globs).push((glob@, language)));
                        assert(so_far.push(glob@).map_values(tag) =~= so_far.map_values(tag).push(
                            (glob@, language),
                        ));
                        assert(globs_view(globs@) =~= before + so_far.push(glob@).map_values(tag));
                        assert(strings_view(patterns_only@) =~= strings_view(old_patterns).push(
                            glob@,
                        ));
                        assert(patterns(globs_view(globs@)) =~= patterns(
                            globs_view(old_globs),
                        ).push(glob@));
                    }
                }
                k += 1;
            }
            assert(file_types@.take(k as int) =~= file_types@);
            i += 1;
        }
        assert(languages@.take(i as int) =~= languages@);
        match build_globs(&patterns_only) {
            Ok(matcher) => Ok(Loader { languages, matcher, globs, scopes: Vec::new() }),
            Err(error) => Err(LoaderError::Glob(error)),
        }
    }

    /// All languages.
    pub fn languages(&self) -> (languages: &Vec<LanguageConfiguration>)
        ensures
            languages@ == self@,
    {
        &self.languages
    }

    /// What is known of a language.
    pub fn language(&self, lang: Language) -> (language: &LanguageConfiguration)
        requires
            lang.0 < self@.len(),
        ensures
            *language == self@[lang.0 as int],
    {
        &self.languages[lang.0 as usize]
    }

    /// The language with the id `name`.
    pub fn language_for_name(&self, name: &str) -> (language: Option<Language>)
        requires
            self.wf(),
        ensures
            language == first_language(self@, with_id(name@), 0),
    {
        let ghost wanted = with_id(name@);
        let mut i: usize = 0;
        while i < self.languages.len()
            invariant
                self.languages@.len() <= u32::MAX,
                i <= self.languages@.len(),
                wanted == with_id(name@),
                first_language(self@, wanted, 0) == first_language(self@, wanted, i as int),
            decreases self.languages.len() - i,
        {
            if same_str(self.languages[i].language_id.as_str(), name) {
                return Some(Language(i as u32));
            }
            i += 1;
        }
        None
    }

    /// The language with the scope `scope`.
    pub fn language_for_scope(&self, scope: &str) -> (language: Option<Language>)
        requires
            self.wf(),
        ensures
            language == first_language(self@, with_scope(scope@), 0),
    {
        let ghost wanted = with_scope(scope@);
        let mut i: usize = 0;
        while i < self.languages.len()
            invariant
                self.languages@.len() <= u32::MAX,
                i <= self.languages@.len(),
                wanted == with_scope(scope@),
                first_language(self@, wanted, 0) == first_language(self@, wanted, i as int),
            decreases self.languages.len() - i,
        {
            if same_str(self.languages[i].scope.as_str(), scope) {
                return Some(Language(i as u32));
            }
            i += 1;
        }
        None
    }

    /// The language of text that is injected under the name `text`: the one with this id, or the
    /// one whose injection pattern matches most of it.
    pub fn language_for_match(&self, text: RopeSlice) -> (language: Option<Language>)
        requires
            self.wf(),
        ensures
            language == (match first_language(self@, with_id(chars_of(text)), 0) {
                Some(language) => Some(language),
                None => best_injection(self@, chars_of(text)),
            }),
    {
        // PERF: If the name matches up with the id, then this saves the need to do expensive regex.
        let name: String = text_to_string(text, 0, text.len_chars());
        proof {
            assert(chars_of(text).subrange(0, chars_of(text).len() as int) =~= chars_of(text));
        }
        let shortcircuit: Option<Language> = self.language_for_name(name.as_str());
        if shortcircuit.is_some() {
            return shortcircuit;
        }
        // If the name did not match up with a known id, then match on injection regex.
        let mut lengths: Vec<usize> = Vec::new();
        let mut i: usize = 0;
        while i < self.languages.len()
            invariant
                i <= self.languages@.len(),
                lengths@.len() == i,
                forall|k: int|
                    0 <= k < i ==> #[trigger] lengths@[k] as nat == injection_length(
                        self.languages@[k],
                        chars_of(text),
                    ),
            decreases self.languages.len() - i,
        {
            let length: usize = match &self.languages[i].injection_regex {
                Some(pattern) => match regex_first_group(pattern.as_str(), text, 0) {
                    Some((start, end)) => end - start,
                    None => 0,
                },
                None => 0,
            };
            lengths.push(length);
            i += 1;
        }
        assert(counts(lengths@) =~= self@.map_values(
            |language: LanguageConfiguration| injection_length(language, chars_of(text)),
        ));
        longest_match(&lengths)
    }

    /// The language of the pattern that matches `path`, the longest one if there are several.
    pub fn language_for_path(&self, path: &str) -> (language: Option<Language>)
        requires
            self.wf(),
        ensures
            language == (match longest_glob(
                all_globs(self@),
                matching_globs(patterns(all_globs(self@)), path@),
            ) {
                Some(index) => Some(all_globs(self@)[index as int].1),
                None => None,
            }),
    {
        let matches: Vec<usize> = glob_set_matches(&self.matcher, path);
        self.language_of_globs(&matches)
    }

    /// The language of the longest of the patterns with the indices `matches`, counted in the order
    /// of the languages.
    pub fn language_of_globs(&self, matches: &Vec<usize>) -> (language: Option<Language>)
        requires
            self.wf(),
            forall|k: int|
                0 <= k < matches@.len() ==> #[trigger] matches@[k] < all_globs(self@).len(),
        ensures
            language == (match longest_glob(all_globs(self@), matches@) {
                Some(index) => Some(all_globs(self@)[index as int].1),
                None => None,
            }),
    {
        let ghost globs = all_globs(self@);
        let mut best: Option<usize> = None;
        let mut i: usize = 0;
        while i < matches.len()
            invariant
                i <= matches@.len(),
                globs == globs_view(self.globs@),
                forall|k: int| 0 <= k < matches@.len() ==> #[trigger] matches@[k] < globs.len(),
                best == longest_glob(globs, matches@.take(i as int)),
                best matches Some(best) ==> best < globs.len(),
            decreases matches.len() - i,
        {
            let index: usize = matches[i];
            proof {
                assert(matches@.take(i + 1).drop_last() =~= matches@.take(i as int));
                assert(matches@[i as int] < globs.len());
            }
            let longer: bool = match best {
                Some(best) => {
                    assert(globs[best as int].0 == self.globs@[best as int].0@);
                    assert(globs[index as int].0 == self.globs@[index as int].0@);
                    longer_in_bytes(
                        self.globs[best].0.as_str(),
                        self.globs[index].0.as_str(),
                    )
                },
                None => false,
            };
            if !longer {
                best = Some(index);
            }
            i += 1;
        }
        assert(matches@.take(i as int) =~= matches@);
        match best {
            Some(index) => {
                assert(globs[index as int].1 == self.globs@[index as int].1);
                Some(self.globs[index].1)
            },
            None => None,
        }
    }

    /// The language of the file `path`: that of a pattern that matches it, or that of its
    /// extension.
    pub fn language_for_filename(&self, path: &str) -> (language: Option<Language>)
        requires
            self.wf(),
        ensures
            language == (match longest_glob(
                all_globs(self@),
                matching_globs(patterns(all_globs(self@)), path@),
            ) {
                Some(index) => Some(all_globs(self@)[index as int].1),
                None => match path_extension(path@) {
                    Some(extension) => last_language(self@, with_extension(extension)),
                    None => None,
                },
            }),
    {
        match self.language_for_path(path) {
            Some(language) => Some(language),
            None => match extension_of(path) {
                Some(extension) => self.language_for_extension(extension.as_str()),
                None => None,
            },
        }
    }

    /// The last language with the extension `extension`.
    pub fn language_for_extension(&self, extension: &str) -> (language: Option<Language>)
        requires
            self.wf(),
        ensures
            language == last_language(self@, with_extension(extension@)),
    {
        let ghost wanted = with_extension(extension@);
        let mut i: usize = self.languages.len();
        assert(self.languages@.take(i as int) =~= self.languages@);
        while i > 0
            invariant
                self.languages@.len() <= u32::MAX,
                i <= self.languages@.len(),
                wanted == with_extension(extension@),
                last_language(self@, wanted) == last_language(self.languages@.take(i as int), wanted),
            decreases i,
        {
            let ghost seen = self.languages@.take(i as int);
            i -= 1;
            assert(seen.drop_last() =~= self.languages@.take(i as int));
            if extension_among(&self.languages[i].file_types, extension) {
                return Some(Language(i as u32));
            }
        }
        None
    }

    /// The language of a script that starts with a shebang.
    pub fn language_for_shebang(&self, text: RopeSlice) -> (language: Option<Language>)
        requires
            self.wf(),
        ensures
            language == (match regex_group(shebang_pattern(), chars_of(text), 1) {
                Some((start, end)) => last_language(
                    self@,
                    with_shebang(
                        chars_of(text).subrange(
                            char_of(chars_of(text), start) as int,
                            char_of(chars_of(text), end) as int,
                        ),
                    ),
                ),
                None => None,
            }),
    {
        // this is anchored at the beginning
        match regex_first_group(
            "^#!\\s*(?:\\S*[/\\\\](?:env\\s+(?:\\-\\S+\\s+)*)?)?([^\\s\\.\\d]+)",
            text,
            1,
        ) {
            Some((start, end)) => {
                let from: usize = char_index(text, start);
                let to: usize = char_index(text, end);
                proof {
                    lemma_char_of_monotone(
                        chars_of(text),
                        start as nat,
                        end as nat,
                        from as nat,
                        to as nat,
                    );
                }
                let marker: String = text_to_string(text, from, to);
                self.language_for_shebang_marker(marker.as_str())
            },
            None => None,
        }
    }

    /// The language of text that is injected with the marker `marker`.
    pub fn language_for_marker(&self, marker: InjectionMarker) -> (language: Option<Language>)
        requires
            self.wf(),
        ensures
            language == (match marker {
                InjectionMarker::Name(name) => first_language(self@, with_id(name@), 0),
                InjectionMarker::Match(text) => match first_language(
                    self@,
                    with_id(chars_of(text)),
                    0,
                ) {
                    Some(language) => Some(language),
                    None => best_injection(self@, chars_of(text)),
                },
                InjectionMarker::Filename(text) => match longest_glob(
                    all_globs(self@),
                    matching_globs(patterns(all_globs(self@)), chars_of(text)),
                ) {
                    Some(index) => Some(all_globs(self@)[index as int].1),
                    None => match path_extension(chars_of(text)) {
                        Some(extension) => last_language(self@, with_extension(extension)),
                        None => None,
                    },
                },
                InjectionMarker::Shebang(text) => last_language(
                    self@,
                    with_shebang(chars_of(text)),
                ),
            }),
    {
        match marker {
            InjectionMarker::Name(name) => self.language_for_name(name),
            InjectionMarker::Match(text) => self.language_for_match(text),
            InjectionMarker::Filename(text) => {
                let path: String = text_to_string(text, 0, text.len_chars());
                assert(chars_of(text).subrange(0, chars_of(text).len() as int) =~= chars_of(text));
                self.language_for_filename(path.as_str())
            },
            InjectionMarker::Shebang(text) => {
                let marker: String = text_to_string(text, 0, text.len_chars());
                assert(chars_of(text).subrange(0, chars_of(text).len() as int) =~= chars_of(text));
                self.language_for_shebang_marker(marker.as_str())
            },
        }
    }

    /// The last language with the shebang `marker`.
    pub fn language_for_shebang_marker(&self, marker: &str) -> (language: Option<Language>)
        requires
            self.wf(),
        ensures
            language == last_language(self@, with_shebang(marker@)),
    {
        let ghost wanted = with_shebang(marker@);
        let mut i: usize = self.languages.len();
        assert(self.languages@.take(i as int) =~= self.languages@);
        while i > 0
            invariant
                self.languages@.len() <= u32::MAX,
                i <= self.languages@.len(),
                wanted == with_shebang(marker@),
                last_language(self@, wanted) == last_language(self.languages@.take(i as int), wanted),
            decreases i,
        {
            let ghost seen = self.languages@.take(i as int);
            i -= 1;
            assert(seen.drop_last() =~= self.languages@.take(i as int));
            if string_among(&self.languages[i].shebangs, marker) {
                return Some(Language(i as u32));
            }
        }
        None
    }

    /// The names that highlights are recognized by.
    pub fn scopes(&self) -> (scopes: &Vec<String>)
        ensures
            scopes@ == self.scope_names(),
    {
        &self.scopes
    }

    pub fn set_scopes(&mut self, scopes: Vec<String>)
        requires
            old(self).wf(),
        ensures
            final(self).wf(),
            final(self)@ == old(self)@,
            final(self).scope_names() == scopes@,
    {
        self.scopes = scopes;
    }
}

/// Whether `a` is longer than `b` in bytes.
fn longer_in_bytes(a: &str, b: &str) -> (longer: bool)
    ensures
        longer == (encode_utf8(a@).len() > encode_utf8(b@).len()),
{
    let a_bytes: &[u8] = a.as_bytes();
    let b_bytes: &[u8] = b.as_bytes();
    a_bytes.len() > b_bytes.len()
}

/// The chars `from..to` of the text.
pub fn text_to_string(text: RopeSlice, from: usize, to: usize) -> (string: String)
    requires
        from <= to <= chars_of(text).len(),
    ensures
        string@ == chars_of(text).subrange(from as int, to as int),
{
    let mut chars: Vec<char> = Vec::new();
    let mut i: usize = from;
    while i < to
        invariant
            from <= i <= to <= chars_of(text).len(),
            chars@ == chars_of(text).subrange(from as int, i as int),
        decreases to - i,
    {
        chars.push(text.char(i));
        i += 1;
        assert(chars@ =~= chars_of(text).subrange(from as int, i as int));
    }
    string_of(&chars)
}

/// The first of the languages that is wanted comes before all others that are.
pub proof fn law_the_first_language_counts(
    languages: Seq<LanguageConfiguration>,
    wanted: spec_fn(LanguageConfiguration) -> bool,
    from: int,
)
    requires
        0 <= from,
        languages.len() <= u32::MAX,
    ensures
        match first_language(languages, wanted, from) {
            Some(language) => from <= language.0 < languages.len() && wanted(
                languages[language.0 as int],
            ) && forall|i: int| from <= i < language.0 ==> !wanted(#[trigger] languages[i]),
            None => forall|i: int| from <= i < languages.len() ==> !wanted(#[trigger] languages[i]),
        },
    decreases languages.len() - from,
{
    if from < languages.len() && !wanted(languages[from]) {
        law_the_first_language_counts(languages, wanted, from + 1);
    }
}

/// The last of the languages that is wanted comes after all others that are.
pub proof fn law_the_last_language_counts(
    languages: Seq<LanguageConfiguration>,
    wanted: spec_fn(LanguageConfiguration) -> bool,
)
    requires
        languages.len() <= u32::MAX,
    ensures
        match last_language(languages, wanted) {
            Some(language) => language.0 < languages.len() && wanted(languages[language.0 as int])
                && forall|i: int|
                language.0 < i < languages.len() ==> !wanted(#[trigger] languages[i]),
            None => forall|i: int| 0 <= i < languages.len() ==> !wanted(#[trigger] languages[i]),
        },
    decreases languages.len(),
{
    if languages.len() > 0 && !wanted(languages.last()) {
        let rest = languages.drop_last();
        law_the_last_language_counts(rest, wanted);
        assert forall|i: int| 0 <= i < rest.len() implies rest[i] == #[trigger] languages[i] by {}
        assert(languages[languages.len() - 1] == languages.last());
    }
}

/// Of the patterns that match, the longest one counts, and of several that are as long the last one.
pub proof fn law_the_longest_glob_counts(globs: Seq<(Seq<char>, Language)>, matches: Seq<usize>)
    ensures
        match longest_glob(globs, matches) {
            Some(best) => exists|k: int|
                0 <= k < matches.len() && #[trigger] matches[k] == best && (forall|i: int|
                    0 <= i < matches.len() ==> encode_utf8(
                        globs[#[trigger] matches[i] as int].0,
                    ).len() <= encode_utf8(globs[best as int].0).len()) && (forall|i: int|
                    k < i < matches.len() ==> encode_utf8(
                        globs[#[trigger] matches[i] as int].0,
                    ).len() < encode_utf8(globs[best as int].0).len()),
            None => matches.len() == 0,
        },
    decreases matches.len(),
{
    if matches.len() > 0 {
        let rest = matches.drop_last();
        law_the_longest_glob_counts(globs, rest);
        assert forall|i: int| 0 <= i < rest.len() implies rest[i] == #[trigger] matches[i] by {}
        let last = matches.len() - 1;
        assert(matches[last] == matches.last());
        match longest_glob(globs, rest) {
            Some(best) => {
                let k = choose|k: int|
                    0 <= k < rest.len() && #[trigger] rest[k] == best && (forall|i: int|
                        0 <= i < rest.len() ==> encode_utf8(
                            globs[#[trigger] rest[i] as int].0,
                        ).len() <= encode_utf8(globs[best as int].0).len()) && (forall|i: int|
                        k < i < rest.len() ==> encode_utf8(globs[#[trigger] rest[i] as int].0).len()
                            < encode_utf8(globs[best as int].0).len());
                assert(matches[k] == best);
                assert forall|i: int| 0 <= i < rest.len() implies encode_utf8(
                    globs[#[trigger] matches[i] as int].0,
                ).len() <= encode_utf8(globs[best as int].0).len() by {
                    assert(rest[i] == matches[i]);
                }
                assert forall|i: int| k < i < rest.len() implies encode_utf8(
                    globs[#[trigger] matches[i] as int].0,
                ).len() < encode_utf8(globs[best as int].0).len() by {
                    assert(rest[i] == matches[i]);
                }
            },
            None => {},
        }
    }
}

/// The longest match counts, and the first one of several that are as long. One that is empty does
/// not.
pub proof fn law_the_longest_match_counts(lengths: Seq<nat>)
    requires
        lengths.len() <= u32::MAX,
    ensures
        match longest(lengths) {
            Some(best) => {
                &&& best.0 < lengths.len()
                &&& lengths[best.0 as int] > 0
                &&& forall|i: int|
                    0 <= i < lengths.len() ==> #[trigger] lengths[i] <= lengths[best.0 as int]
                &&& forall|i: int| 0 <= i < best.0 ==> #[trigger] lengths[i] < lengths[best.0 as int]
            },
            None => forall|i: int| 0 <= i < lengths.len() ==> #[trigger] lengths[i] == 0,
        },
    decreases lengths.len(),
{
    if lengths.len() > 0 {
        let rest = lengths.drop_last();
        law_the_longest_match_counts(rest);
        assert forall|i: int| 0 <= i < rest.len() implies rest[i] == #[trigger] lengths[i] by {}
        assert(lengths[lengths.len() - 1] == lengths.last());
        if let Some(best) = longest(rest) {
            assert(rest[best.0 as int] == lengths[best.0 as int]);
        }
    }
}

/// What comes after the last `c` has no `c` in it, and is what the text ends with.
pub proof fn law_nothing_is_after_the_last(text: Seq<char>, c: char)
    ensures
        ({
            let end = after_last(text, c);
            let n = text.len() - end.len();
            &&& end.len() <= text.len()
            &&& end == text.skip(n)
            &&& !end.contains(c)
            &&& n > 0 ==> text[n - 1] == c
        }),
    decreases text.len(),
{
    let end = after_last(text, c);
    if text.len() > 0 && text.last() != c {
        let rest = text.drop_last();
        law_nothing_is_after_the_last(rest, c);
        let shorter = after_last(rest, c);
        let n = text.len() - end.len();
        assert(end =~= text.skip(n));
        if end.contains(c) {
            let k = end.index_of(c);
            if k < shorter.len() {
                assert(shorter[k] == c);
            }
        }
    } else {
        assert(end =~= text.skip(text.len() as int));
    }
}

/// The extension of a name is what comes after its last dot. A name without a dot, or with none but at
/// its start, has no extension.
pub proof fn law_extensions_come_after_the_last_dot(stem: Seq<char>, extension: Seq<char>)
    requires
        !extension.contains('.'),
    ensures
        stem.len() > 0 ==> name_extension(stem + seq!['.'] + extension) == Some(extension),
        name_extension(seq!['.'] + extension) is None,
        name_extension(extension) is None,
{
    lemma_after_last(stem + seq!['.'], extension, '.');
    assert(stem + seq!['.'] + extension =~= (stem + seq!['.']) + extension);
    lemma_after_last(seq!['.'], extension, '.');
    law_nothing_is_after_the_last(extension, '.');
    let end = after_last(extension, '.');
    if end.len() < extension.len() {
        assert(extension[extension.len() - end.len() - 1] == '.');
    }
}

proof fn lemma_after_last(front: Seq<char>, end: Seq<char>, c: char)
    requires
        front.len() > 0,
        front.last() == c,
        !end.contains(c),
    ensures
        after_last(front + end, c) == end,
    decreases end.len(),
{
    if end.len() == 0 {
        assert(front + end =~= front);
        assert(after_last(front, c) =~= end);
    } else {
        let rest = end.drop_last();
        if rest.contains(c) {
            assert(end[rest.index_of(c)] == c);
        }
        lemma_after_last(front, rest, c);
        assert((front + end).drop_last() =~= front + rest);
        assert(end.contains(end.last()));
        assert((front + end).last() == end.last());
        assert(rest.push(end.last()) =~= end);
    }
}

/// The patterns of the languages are those of their file types, in the order of the languages, each
/// with its language: the patterns of one more language come after all others.
pub proof fn law_globs_belong_to_their_languages(
    languages: Seq<LanguageConfiguration>,
    language: LanguageConfiguration,
)
    requires
        languages.len() < u32::MAX,
    ensures
        ({
            let before = all_globs(languages);
            let after = all_globs(languages.push(language));
            let own = globs_in(language.file_types@);
            &&& after.len() == before.len() + own.len()
            &&& after.take(before.len() as int) == before
            &&& forall|i: int|
                0 <= i < own.len() ==> (#[trigger] after[before.len() + i]).0 == own[i]
                    && after[before.len() + i].1.0 == languages.len()
        }),
{
    assert(languages.push(language).drop_last() =~= languages);
    let before = all_globs(languages);
    assert(all_globs(languages.push(language)).take(before.len() as int) =~= before);
}

/// Of the file types, the patterns are kept in their order, and the extensions are not among them.
pub proof fn law_extensions_are_no_globs(file_types: Seq<FileType>, text: String)
    ensures
        globs_in(file_types.push(FileType::Glob(text))) == globs_in(file_types).push(text@),
        globs_in(file_types.push(FileType::Extension(text))) == globs_in(file_types),
        has_extension(file_types.push(FileType::Extension(text)), text@),
{
    let with_glob = file_types.push(FileType::Glob(text));
    let with_extension = file_types.push(FileType::Extension(text));
    assert(with_glob.drop_last() =~= file_types);
    assert(with_extension.drop_last() =~= file_types);
    assert(with_extension[file_types.len() as int] == FileType::Extension(text));
}

/// A language is looked up by its id, by its scope, by the extensions among its file types, or by its
/// shebangs.
pub proof fn law_languages_are_looked_up_by_what_they_say(
    language: LanguageConfiguration,
    text: Seq<char>,
)
    ensures
        with_id(text)(language) <==> language.language_id@ == text,
        with_scope(text)(language) <==> language.scope@ == text,
        with_extension(text)(language) <==> exists|i: int|
            0 <= i < language.file_types@.len() && (#[trigger] language.file_types@[i] matches
                FileType::Extension(extension) && extension@ == text),
        with_shebang(text)(language) <==> exists|i: int|
            0 <= i < language.shebangs@.len() && (#[trigger] language.shebangs@[i])@ == text,
{
}

/// A path that is made of names and slashes has the extension of its last name.
pub proof fn law_paths_have_the_extension_of_their_name(dir: Seq<char>, stem: Seq<char>, extension: Seq<char>)
    requires
        stem.len() > 0,
        !stem.contains('/'),
        !extension.contains('/'),
        !extension.contains('.'),
        is_plain(dir + seq!['/'] + (stem + seq!['.'] + extension)),
    ensures
        path_extension(dir + seq!['/'] + (stem + seq!['.'] + extension)) == Some(extension),
{
    let name = stem + seq!['.'] + extension;
    if name.contains('/') {
        let i = name.index_of('/');
        if i < stem.len() {
            assert(stem[i] == '/');
        } else if i > stem.len() {
            assert(extension[i - stem.len() - 1] == '/');
        }
    }
    lemma_after_last(dir + seq!['/'], name, '/');
    assert(dir + seq!['/'] + name =~= (dir + seq!['/']) + name);
    law_extensions_come_after_the_last_dot(stem, extension);
}

/// A text is injected as the language whose pattern matches most of it, and a language without a
/// pattern matches nothing.
pub proof fn law_injections_match_by_their_patterns(
    languages: Seq<LanguageConfiguration>,
    text: Seq<char>,
)
    requires
        languages.len() <= u32::MAX,
    ensures
        forall|i: int|
            0 <= i < languages.len() && (#[trigger] languages[i]).injection_regex is None
                ==> injection_length(languages[i], text) == 0,
        match best_injection(languages, text) {
            Some(best) => best.0 < languages.len() && languages[best.0 as int].injection_regex
                is Some && forall|i: int|
                0 <= i < languages.len() ==> injection_length(#[trigger] languages[i], text)
                    <= injection_length(languages[best.0 as int], text),
            None => forall|i: int|
                0 <= i < languages.len() ==> injection_length(#[trigger] languages[i], text) == 0,
        },
{
    let lengths = languages.map_values(
        |language: LanguageConfiguration| injection_length(language, text),
    );
    law_the_longest_match_counts(lengths);
    assert forall|i: int| 0 <= i < languages.len() implies injection_length(
        #[trigger] languages[i],
        text,
    ) == lengths[i] by {}
}

/// An interpreter is named after `#!` at the start of a text, after its path and after `env` with its
/// options, up to a space, a dot or a digit.
pub proof fn law_shebangs_name_interpreters()
    ensures
        shebang_pattern()
            == "^#!\\s*(?:\\S*[/\\\\](?:env\\s+(?:\\-\\S+\\s+)*)?)?([^\\s\\.\\d]+)"@,
{
}

} // verus!
