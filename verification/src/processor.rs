//! The pipeline: exclusion patterns, discovery of eligible files, and the
//! extraction of one chunk from each file.
//!
//! Nothing here touches the file system. The caller reads the ignore file,
//! walks the tree with the compiled exclusions and reads each file; the
//! functions of this module decide what follows from what was found.

use vstd::prelude::*;
use vstd::string::*;
use ignore::overrides::{Override, OverrideBuilder};
use crate::language::{classify, is_code_file, is_eligible, language_of, Language};
use crate::markdown::{markdown_events, process_markdown, segment};
use crate::text::{
    chars_of, is_blank, join, joined, lemma_blank_trims_to_empty, lemma_trim_end_keeps_first,
    lemma_trim_start_at, lines, lines_of, skip_whitespace, trim, trim_end, trim_start,
};

verus! {

/// The name of the ignore file: read once at the root of the tree for
/// exclusion patterns, and honoured in every directory during the walk.
pub const IGNORE_FILE_NAME: &'static str = ".coderagignore";

/// The line that separates the sections of a Markdown chunk.
pub const SECTION_SEPARATOR: &'static str = "\n---\n";

/// Why the pipeline stopped. Every failure ends the run; none is retried.
#[derive(Clone, Copy, Debug, PartialEq, Eq, Structural)]
pub enum PipelineError {
    /// The ignore file exists but could not be read as text.
    IgnoreFileRead,
    /// An exclusion pattern is malformed: `pattern` is its position in the
    /// effective exclusion set, which holds the patterns of the ignore file
    /// and then those of the caller. Without a position, each pattern is
    /// well formed and the set as a whole does not compile.
    PatternCompile { pattern: Option<usize> },
    /// An entry of the tree could not be read during the walk.
    Traversal,
    /// A discovered file could not be read as text.
    FileRead,
}

/// What the caller found when it looked for the ignore file at the root.
#[derive(Clone, Debug, PartialEq, Eq)]
pub enum IgnoreFile {
    /// There is no such file.
    Absent,
    /// The file exists but could not be read as UTF-8 text.
    Unreadable,
    /// The text of the file.
    Text(String),
}

/// One item that the walk yielded.
#[derive(Clone, Debug, PartialEq, Eq)]
pub enum WalkItem {
    /// An entry of the tree, with its path and whether it is a regular file.
    Entry { path: String, is_file: bool },
    /// An entry that could not be read.
    Failed,
}

/// A discovered file and what reading it gave: its text, or nothing if it
/// could not be read as UTF-8 text.
#[derive(Clone, Debug, PartialEq, Eq)]
pub struct SourceFile {
    pub path: String,
    pub text: Option<String>,
}

/// A chunk of code with its metadata.
#[derive(Clone, Debug, PartialEq, Eq)]
pub struct CodeChunk {
    pub file_path: String,
    pub content: String,
    pub language: String,
}

/// The mathematical model of an [`IgnoreFile`].
pub enum IgnoreFileModel {
    Absent,
    Unreadable,
    Text(Seq<char>),
}

impl View for IgnoreFile {
    type V = IgnoreFileModel;

    open spec fn view(&self) -> IgnoreFileModel {
        match self {
            IgnoreFile::Absent => IgnoreFileModel::Absent,
            IgnoreFile::Unreadable => IgnoreFileModel::Unreadable,
            IgnoreFile::Text(content) => IgnoreFileModel::Text(content@),
        }
    }
}

/// The mathematical model of a [`WalkItem`].
pub enum WalkItemModel {
    Entry { path: Seq<char>, is_file: bool },
    Failed,
}

/// The mathematical model of a [`SourceFile`].
pub struct SourceFileModel {
    pub path: Seq<char>,
    pub text: Option<Seq<char>>,
}

/// The mathematical model of a [`CodeChunk`].
pub struct ChunkModel {
    pub file_path: Seq<char>,
    pub content: Seq<char>,
    pub language: Seq<char>,
}

impl View for WalkItem {
    type V = WalkItemModel;

    open spec fn view(&self) -> WalkItemModel {
        match self {
            WalkItem::Entry { path, is_file } => WalkItemModel::Entry {
                path: path@,
                is_file: *is_file,
            },
            WalkItem::Failed => WalkItemModel::Failed,
        }
    }
}

impl DeepView for WalkItem {
    type V = WalkItemModel;

    open spec fn deep_view(&self) -> WalkItemModel {
        self@
    }
}

impl View for SourceFile {
    type V = SourceFileModel;

    open spec fn view(&self) -> SourceFileModel {
        SourceFileModel {
            path: self.path@,
            text: match self.text {
                Some(text) => Some(text@),
                None => None,
            },
        }
    }
}

impl DeepView for SourceFile {
    type V = SourceFileModel;

    open spec fn deep_view(&self) -> SourceFileModel {
        self@
    }
}

impl View for CodeChunk {
    type V = ChunkModel;

    open spec fn view(&self) -> ChunkModel {
        ChunkModel {
            file_path: self.file_path@,
            content: self.content@,
            language: self.language@,
        }
    }
}

impl DeepView for CodeChunk {
    type V = ChunkModel;

    open spec fn deep_view(&self) -> ChunkModel {
        self@
    }
}

/// Whether `line` is a comment: its first character that is not white space is `#`.
pub open spec fn is_comment(line: Seq<char>) -> bool {
    trim_start(line).len() > 0 && trim_start(line).first() == '#'
}

/// Whether `line` is a pattern: neither a comment nor empty once trimmed.
pub open spec fn is_pattern(line: Seq<char>) -> bool {
    !is_comment(line) && trim(line).len() > 0
}

/// The patterns among `lines`, untouched and in order.
pub open spec fn patterns_among(lines: Seq<Seq<char>>) -> Seq<Seq<char>>
    decreases lines.len(),
{
    if lines.len() == 0 {
        Seq::empty()
    } else if is_pattern(lines.last()) {
        patterns_among(lines.drop_last()).push(lines.last())
    } else {
        patterns_among(lines.drop_last())
    }
}

/// The exclusion patterns that an ignore file with the text `content` holds.
pub open spec fn ignore_patterns(content: Seq<char>) -> Seq<Seq<char>> {
    patterns_among(lines(content))
}

/// The exclusion patterns that the ignore file gives: those of its text, and
/// none where there is no file or no text.
pub open spec fn found_patterns(ignore_file: IgnoreFileModel) -> Seq<Seq<char>> {
    match ignore_file {
        IgnoreFileModel::Text(content) => ignore_patterns(content),
        _ => Seq::empty(),
    }
}

/// Lines that are all comments or blank hold no pattern.
pub proof fn lemma_no_pattern_among(lines: Seq<Seq<char>>)
    requires
        forall|i: int|
            0 <= i < lines.len() ==> is_comment(#[trigger] lines[i]) || is_blank(lines[i]),
    ensures
        patterns_among(lines) == Seq::<Seq<char>>::empty(),
    decreases lines.len(),
{
    if lines.len() > 0 {
        let front = lines.drop_last();
        assert forall|i: int| 0 <= i < front.len() implies is_comment(#[trigger] front[i])
            || is_blank(front[i]) by {
            assert(front[i] == lines[i]);
        }
        lemma_no_pattern_among(front);
        assert(is_comment(lines[lines.len() - 1]) || is_blank(lines[lines.len() - 1]));
        lemma_blank_trims_to_empty(lines.last());
    }
}

/// An ignore file that holds only comments and blank lines holds no pattern.
pub proof fn lemma_comments_and_blanks_hold_no_pattern(content: Seq<char>)
    requires
        forall|i: int|
            0 <= i < lines(content).len() ==> is_comment(#[trigger] lines(content)[i])
                || is_blank(lines(content)[i]),
    ensures
        ignore_patterns(content) == Seq::<Seq<char>>::empty(),
{
    lemma_no_pattern_among(lines(content));
}

/// Whether the line `line` is a pattern.
fn line_is_pattern(line: &str) -> (kept: bool)
    ensures
        kept == is_pattern(line@),
{
    let chars = chars_of(line);
    let n = chars.len();
    let start = skip_whitespace(&chars, 0, n);
    proof {
        lemma_trim_start_at(line@, start as int);
        lemma_blank_trims_to_empty(line@);
    }
    start < n && chars[start] != '#'
}

/// The exclusion patterns that an ignore file with the text `content` holds.
pub fn parse_ignore_patterns(content: &str) -> (patterns: Vec<String>)
    ensures
        patterns.deep_view() == ignore_patterns(content@),
{
    let all = lines_of(content);
    let mut patterns: Vec<String> = Vec::new();
    let mut i: usize = 0;
    assert(all.deep_view().take(0) =~= Seq::<Seq<char>>::empty());
    assert(patterns.deep_view() =~= Seq::<Seq<char>>::empty());
    while i < all.len()
        invariant
            i <= all.len(),
            all.deep_view() == lines(content@),
            patterns.deep_view() == patterns_among(all.deep_view().take(i as int)),
        decreases all.len() - i,
    {
        let ghost before = patterns.deep_view();
        let ghost upto = all.deep_view().take(i + 1);
        assert(upto.drop_last() =~= all.deep_view().take(i as int));
        assert(upto.last() == all[i as int]@);
        if line_is_pattern(all[i].as_str()) {
            patterns.push(all[i].clone());
            assert(patterns.deep_view() =~= before.push(all[i as int]@));
        }
        i += 1;
    }
    assert(all.deep_view().take(all.len() as int) =~= all.deep_view());
    patterns
}

/// The exclusion patterns of the project's ignore file. A project without
/// the file has none; a file that cannot be read ends the run.
pub fn load_ignore_patterns(ignore_file: &IgnoreFile) -> (result: Result<Vec<String>, PipelineError>)
    ensures
        match result {
            Ok(patterns) => !(ignore_file@ is Unreadable) && patterns.deep_view()
                == found_patterns(ignore_file@),
            Err(error) => ignore_file@ is Unreadable && error == PipelineError::IgnoreFileRead,
        },
{
    match ignore_file {
        IgnoreFile::Absent => {
            let patterns: Vec<String> = Vec::new();
            assert(patterns.deep_view() =~= Seq::<Seq<char>>::empty());
            Ok(patterns)
        },
        IgnoreFile::Unreadable => Err(PipelineError::IgnoreFileRead),
        IgnoreFile::Text(content) => Ok(parse_ignore_patterns(content.as_str())),
    }
}

/// The override line that excludes what `pattern` matches: the pattern
/// behind a `!`, whatever the pattern itself begins with.
pub open spec fn negated(pattern: Seq<char>) -> Seq<char> {
    seq!['!'] + pattern
}

/// The effective exclusion set: the patterns of the ignore file, then those
/// of the caller, each negated.
pub open spec fn exclusion_rules(
    file_patterns: Seq<Seq<char>>,
    cli_patterns: Seq<Seq<char>>,
) -> Seq<Seq<char>> {
    (file_patterns + cli_patterns).map_values(|pattern: Seq<char>| negated(pattern))
}

/// Every pattern, whether the ignore file or the caller gave it, stands in
/// the effective exclusion set as an exclusion: the rules are the patterns of
/// the ignore file and then those of the caller, each behind a `!`, and no
/// rule is anything else.
pub proof fn lemma_every_pattern_excludes(
    file_patterns: Seq<Seq<char>>,
    cli_patterns: Seq<Seq<char>>,
)
    ensures
        exclusion_rules(file_patterns, cli_patterns).len() == file_patterns.len()
            + cli_patterns.len(),
        forall|i: int|
            0 <= i < file_patterns.len() ==> exclusion_rules(file_patterns, cli_patterns)[i]
                == negated(#[trigger] file_patterns[i]),
        forall|j: int|
            0 <= j < cli_patterns.len() ==> exclusion_rules(
                file_patterns,
                cli_patterns,
            )[file_patterns.len() + j] == negated(#[trigger] cli_patterns[j]),
        forall|k: int|
            0 <= k < exclusion_rules(file_patterns, cli_patterns).len() ==> {
                let rule = #[trigger] exclusion_rules(file_patterns, cli_patterns)[k];
                rule.len() > 0 && rule[0] == '!'
            },
{
}

/// `ignore::overrides::OverrideBuilder`, carried through as an opaque value.
#[verifier::external_type_specification]
#[verifier::external_body]
pub struct ExOverrideBuilder(OverrideBuilder);

/// `ignore::overrides::Override`, carried through as an opaque value.
#[verifier::external_type_specification]
#[verifier::external_body]
pub struct ExOverride(Override);

/// `ignore::Error`, carried through as an opaque value.
#[verifier::external_type_specification]
#[verifier::external_body]
pub struct ExIgnoreError(ignore::Error);

/// Whether `line` ends with a backslash and a space.
pub open spec fn ends_with_escaped_space(line: Seq<char>) -> bool {
    line.len() >= 2 && line[line.len() - 2] == '\\' && line.last() == ' '
}

/// The text that a builder keeps of an override line: the line without its
/// trailing white space, or the whole line if it ends with a backslash and a
/// space.
pub open spec fn stored_rule(line: Seq<char>) -> Seq<char> {
    if ends_with_escaped_space(line) {
        line
    } else {
        trim_end(line)
    }
}

/// The texts that a builder keeps of `lines`, in order.
pub open spec fn stored_rules(lines: Seq<Seq<char>>) -> Seq<Seq<char>> {
    lines.map_values(|line: Seq<char>| stored_rule(line))
}

/// The globs that a builder holds, each by the text that the builder kept of
/// its line, in the order in which they were added.
pub uninterp spec fn builder_rules(builder: OverrideBuilder) -> Seq<Seq<char>>;

/// Whether a builder still has the options that `OverrideBuilder::new` gave it.
pub uninterp spec fn has_default_options(builder: OverrideBuilder) -> bool;

/// The globs that a matcher holds, each by the text that its builder kept of
/// its line, in the order in which they were added to the builder.
pub uninterp spec fn override_rules(overrides: Override) -> Seq<Seq<char>>;

/// Whether a builder with default options accepts the line `rule` as a glob.
pub uninterp spec fn rule_is_valid(rule: Seq<char>) -> bool;

/// Whether a builder with default options that holds the globs `kept` builds
/// a matcher.
pub uninterp spec fn rule_set_builds(kept: Seq<Seq<char>>) -> bool;

/// Whether each of `rules` is a valid glob.
pub open spec fn rules_are_valid(rules: Seq<Seq<char>>) -> bool {
    forall|i: int| 0 <= i < rules.len() ==> rule_is_valid(#[trigger] rules[i])
}

/// Whether the exclusion set `rules` compiles: each rule is a valid glob,
/// and what the builder keeps of them builds a matcher.
pub open spec fn rules_compile(rules: Seq<Seq<char>>) -> bool {
    rules_are_valid(rules) && rule_set_builds(stored_rules(rules))
}

/// Whether `k` is the position of the first of `rules` that is no valid glob.
pub open spec fn is_first_invalid(rules: Seq<Seq<char>>, k: int) -> bool {
    &&& 0 <= k < rules.len()
    &&& !rule_is_valid(rules[k])
    &&& forall|j: int| 0 <= j < k ==> rule_is_valid(#[trigger] rules[j])
}

/// Whether `result` is what compiling `rules` gives: a matcher that holds
/// what a builder keeps of each rule, if the set compiles; else the position
/// of the first rule that is no valid glob, or no position if every rule is
/// valid and the set does not build.
pub open spec fn is_compilation_of(
    result: Result<Override, PipelineError>,
    rules: Seq<Seq<char>>,
) -> bool {
    match result {
        Ok(overrides) => rules_compile(rules) && override_rules(overrides) == stored_rules(
            rules,
        ),
        Err(PipelineError::PatternCompile { pattern: Some(k) }) => is_first_invalid(
            rules,
            k as int,
        ),
        Err(PipelineError::PatternCompile { pattern: None }) => rules_are_valid(rules)
            && !rule_set_builds(stored_rules(rules)),
        Err(_) => false,
    }
}

/// Calls `ignore::overrides::OverrideBuilder::new` for the directory `root`.
/// The new builder holds no glob, matches case-sensitively and rejects
/// unclosed character classes.
#[verifier::external_body]
fn new_override_builder(root: &str) -> (builder: OverrideBuilder)
    ensures
        builder_rules(builder) == Seq::<Seq<char>>::empty(),
        has_default_options(builder),
{
    OverrideBuilder::new(root)
}

/// Calls `ignore::overrides::OverrideBuilder::add` with `rule`. A line that
/// begins with `!` is never skipped as a comment or as blank: the builder
/// either parses it and keeps one more glob, or rejects it and stays as it
/// was. The glob that it keeps holds the line without its trailing white
/// space, unless the line ends with a backslash and a space: `stored_rule`.
/// Which of the two happens depends on the line alone, for a builder with
/// default options; the contract names that outcome `rule_is_valid`.
#[verifier::external_body]
fn add_override_rule(builder: &mut OverrideBuilder, rule: &str) -> (result: Result<
    (),
    ignore::Error,
>)
    requires
        has_default_options(*old(builder)),
        rule@.len() > 0,
        rule@[0] == '!',
    ensures
        has_default_options(*final(builder)),
        result is Ok == rule_is_valid(rule@),
        result is Ok ==> builder_rules(*final(builder)) == builder_rules(*old(builder)).push(
            stored_rule(rule@),
        ),
        result is Err ==> builder_rules(*final(builder)) == builder_rules(*old(builder)),
{
    builder.add(rule).map(|_| ())
}

/// Calls `ignore::overrides::OverrideBuilder::build`. The matcher is made of
/// the builder's globs; whether it can be made depends on them alone, and
/// the contract names that outcome `rule_set_builds`.
#[verifier::external_body]
fn build_overrides(builder: &OverrideBuilder) -> (result: Result<Override, ignore::Error>)
    requires
        has_default_options(*builder),
    ensures
        result is Ok == rule_set_builds(builder_rules(*builder)),
        result matches Ok(overrides) ==> override_rules(overrides) == builder_rules(*builder),
{
    builder.build()
}

/// The override line that excludes what `pattern` matches.
fn negate(pattern: &str) -> (rule: String)
    ensures
        rule@ == negated(pattern@),
{
    proof {
        reveal_strlit("!");
    }
    let mut rule = "!".to_owned();
    rule.append(pattern);
    assert("!"@ =~= seq!['!']);
    rule
}

/// The effective exclusion set: the patterns of the ignore file, then those
/// of the caller, each negated.
pub fn effective_exclusions(file_patterns: &Vec<String>, cli_patterns: &Vec<String>) -> (rules: Vec<
    String,
>)
    ensures
        rules.deep_view() == exclusion_rules(file_patterns.deep_view(), cli_patterns.deep_view()),
{
    let ghost wanted = exclusion_rules(file_patterns.deep_view(), cli_patterns.deep_view());
    let mut rules: Vec<String> = Vec::new();
    let mut i: usize = 0;
    assert(rules.deep_view() =~= wanted.take(0));
    while i < file_patterns.len()
        invariant
            i <= file_patterns.len(),
            wanted == exclusion_rules(file_patterns.deep_view(), cli_patterns.deep_view()),
            rules.deep_view() == wanted.take(i as int),
        decreases file_patterns.len() - i,
    {
        let ghost before = rules.deep_view();
        let rule = negate(file_patterns[i].as_str());
        rules.push(rule);
        proof {
            lemma_every_pattern_excludes(file_patterns.deep_view(), cli_patterns.deep_view());
            assert(file_patterns.deep_view()[i as int] == file_patterns[i as int]@);
            assert(rules.deep_view() =~= before.push(rule@));
            assert(wanted.take(i + 1) =~= wanted.take(i as int).push(wanted[i as int]));
        }
        i += 1;
    }
    let mut j: usize = 0;
    while j < cli_patterns.len()
        invariant
            j <= cli_patterns.len(),
            wanted == exclusion_rules(file_patterns.deep_view(), cli_patterns.deep_view()),
            rules.deep_view() == wanted.take(file_patterns.len() + j),
        decreases cli_patterns.len() - j,
    {
        let ghost before = rules.deep_view();
        let rule = negate(cli_patterns[j].as_str());
        rules.push(rule);
        proof {
            lemma_every_pattern_excludes(file_patterns.deep_view(), cli_patterns.deep_view());
            assert(cli_patterns.deep_view()[j as int] == cli_patterns[j as int]@);
            assert(rules.deep_view() =~= before.push(rule@));
            assert(wanted.take(file_patterns.len() + j + 1) =~= wanted.take(
                file_patterns.len() + j,
            ).push(wanted[file_patterns.len() + j]));
        }
        j += 1;
    }
    proof {
        lemma_every_pattern_excludes(file_patterns.deep_view(), cli_patterns.deep_view());
        assert(wanted.take(file_patterns.len() + cli_patterns.len()) =~= wanted);
    }
    rules
}

/// Compiles the effective exclusion set for a walk of the tree at `root`.
/// The matcher that comes back holds what the builder keeps of each rule, in
/// order; the first rule that is no valid glob ends the run before any walk.
pub fn compile_exclusions(
    root: &str,
    file_patterns: &Vec<String>,
    cli_patterns: &Vec<String>,
) -> (result: Result<Override, PipelineError>)
    ensures
        is_compilation_of(
            result,
            exclusion_rules(file_patterns.deep_view(), cli_patterns.deep_view()),
        ),
{
    let rules = effective_exclusions(file_patterns, cli_patterns);
    let ghost wanted = rules.deep_view();
    let mut builder = new_override_builder(root);
    let mut i: usize = 0;
    assert(stored_rules(wanted).take(0) =~= Seq::<Seq<char>>::empty());
    while i < rules.len()
        invariant
            i <= rules.len(),
            wanted == rules.deep_view(),
            wanted == exclusion_rules(file_patterns.deep_view(), cli_patterns.deep_view()),
            has_default_options(builder),
            builder_rules(builder) == stored_rules(wanted).take(i as int),
            forall|k: int| 0 <= k < i ==> rule_is_valid(#[trigger] wanted[k]),
        decreases rules.len() - i,
    {
        proof {
            lemma_every_pattern_excludes(file_patterns.deep_view(), cli_patterns.deep_view());
            assert(wanted[i as int] == rules[i as int]@);
        }
        match add_override_rule(&mut builder, rules[i].as_str()) {
            Ok(()) => {},
            Err(_) => {
                return Err(PipelineError::PatternCompile { pattern: Some(i) });
            },
        }
        assert(stored_rules(wanted).take(i + 1) =~= stored_rules(wanted).take(i as int).push(
            stored_rule(wanted[i as int]),
        ));
        i += 1;
    }
    assert(stored_rules(wanted).take(rules.len() as int) =~= stored_rules(wanted));
    match build_overrides(&builder) {
        Ok(overrides) => Ok(overrides),
        Err(_) => Err(PipelineError::PatternCompile { pattern: None }),
    }
}

/// Prepares the exclusions for a walk of the tree at `root`, from what was
/// found of the ignore file and from the caller's patterns. An ignore file
/// that cannot be read ends the run first, whatever the patterns are; only
/// then are the patterns compiled.
pub fn prepare_exclusions(
    root: &str,
    ignore_file: &IgnoreFile,
    cli_patterns: &Vec<String>,
) -> (result: Result<Override, PipelineError>)
    ensures
        ignore_file@ is Unreadable ==> result == Err::<Override, PipelineError>(
            PipelineError::IgnoreFileRead,
        ),
        !(ignore_file@ is Unreadable) ==> is_compilation_of(
            result,
            exclusion_rules(found_patterns(ignore_file@), cli_patterns.deep_view()),
        ),
{
    match load_ignore_patterns(ignore_file) {
        Ok(file_patterns) => compile_exclusions(root, &file_patterns, cli_patterns),
        Err(error) => Err(error),
    }
}

/// What a builder keeps of a negated pattern is still an exclusion: it
/// begins with `!`.
pub proof fn lemma_stored_rule_excludes(pattern: Seq<char>)
    ensures
        stored_rule(negated(pattern)).len() > 0,
        stored_rule(negated(pattern)).first() == '!',
{
    let rule = negated(pattern);
    lemma_trim_end_keeps_first(rule);
}

/// A matcher that holds the effective exclusion set holds one exclusion for
/// each pattern, whether the ignore file or the caller gave it: what a
/// builder keeps of the pattern behind a `!`. It holds nothing else, so no
/// rule of it includes anything.
pub proof fn lemma_matcher_holds_every_pattern(
    overrides: Override,
    file_patterns: Seq<Seq<char>>,
    cli_patterns: Seq<Seq<char>>,
)
    requires
        override_rules(overrides) == stored_rules(exclusion_rules(file_patterns, cli_patterns)),
    ensures
        override_rules(overrides).len() == file_patterns.len() + cli_patterns.len(),
        forall|i: int|
            0 <= i < file_patterns.len() ==> override_rules(overrides)[i] == stored_rule(
                negated(#[trigger] file_patterns[i]),
            ),
        forall|j: int|
            0 <= j < cli_patterns.len() ==> override_rules(overrides)[file_patterns.len() + j]
                == stored_rule(negated(#[trigger] cli_patterns[j])),
        forall|k: int|
            0 <= k < override_rules(overrides).len() ==> {
                let kept = #[trigger] override_rules(overrides)[k];
                kept.len() > 0 && kept.first() == '!'
            },
{
    lemma_every_pattern_excludes(file_patterns, cli_patterns);
    let rules = exclusion_rules(file_patterns, cli_patterns);
    assert forall|k: int| 0 <= k < override_rules(overrides).len() implies {
        let kept = #[trigger] override_rules(overrides)[k];
        kept.len() > 0 && kept.first() == '!'
    } by {
        let pattern = (file_patterns + cli_patterns)[k];
        assert(rules[k] == negated(pattern));
        lemma_stored_rule_excludes(pattern);
    }
}

/// An ignore file of comments and blank lines gives the exclusion set of a
/// project without the file: the caller's patterns alone, each negated.
pub proof fn lemma_comments_only_file_is_as_absent(
    content: Seq<char>,
    cli_patterns: Seq<Seq<char>>,
)
    requires
        forall|i: int|
            0 <= i < lines(content).len() ==> is_comment(#[trigger] lines(content)[i])
                || is_blank(lines(content)[i]),
    ensures
        exclusion_rules(found_patterns(IgnoreFileModel::Text(content)), cli_patterns)
            == exclusion_rules(found_patterns(IgnoreFileModel::Absent), cli_patterns),
        exclusion_rules(found_patterns(IgnoreFileModel::Absent), cli_patterns)
            == cli_patterns.map_values(|pattern: Seq<char>| negated(pattern)),
{
    lemma_comments_and_blanks_hold_no_pattern(content);
    assert(Seq::<Seq<char>>::empty() + cli_patterns =~= cli_patterns);
}

/// Whether the walk met an entry that it could not read.
pub open spec fn walk_failed(items: Seq<WalkItemModel>) -> bool {
    exists|i: int| 0 <= i < items.len() && #[trigger] items[i] is Failed
}

/// Whether an item of the walk is a regular file with an eligible extension.
pub open spec fn is_code_entry(item: WalkItemModel) -> bool {
    item matches WalkItemModel::Entry { path, is_file } && is_file && is_eligible(path)
}

/// The paths of the regular files among `items` whose extension is
/// eligible, in the order of the walk.
pub open spec fn eligible_paths(items: Seq<WalkItemModel>) -> Seq<Seq<char>>
    decreases items.len(),
{
    if items.len() == 0 {
        Seq::empty()
    } else {
        match items.last() {
            WalkItemModel::Entry { path, is_file } => if is_file && is_eligible(path) {
                eligible_paths(items.drop_last()).push(path)
            } else {
                eligible_paths(items.drop_last())
            },
            WalkItemModel::Failed => eligible_paths(items.drop_last()),
        }
    }
}

/// Discovery adds nothing to the walk: every selected path is the path of
/// an entry that the walk yielded, a regular file with an eligible extension.
pub proof fn lemma_selected_files_were_walked(items: Seq<WalkItemModel>, k: int)
    requires
        0 <= k < eligible_paths(items).len(),
    ensures
        exists|i: int|
            0 <= i < items.len() && #[trigger] items[i] == (WalkItemModel::Entry {
                path: eligible_paths(items)[k],
                is_file: true,
            }) && is_eligible(eligible_paths(items)[k]),
    decreases items.len(),
{
    let front = items.drop_last();
    if k < eligible_paths(front).len() {
        lemma_selected_files_were_walked(front, k);
        let i = choose|i: int|
            0 <= i < front.len() && #[trigger] front[i] == (WalkItemModel::Entry {
                path: eligible_paths(front)[k],
                is_file: true,
            }) && is_eligible(eligible_paths(front)[k]);
        assert(items[i] == front[i]);
    } else {
        assert(items[items.len() - 1] == items.last());
    }
}

/// Discovery leaves nothing out: every regular file with an eligible
/// extension that the walk yielded is among the selected paths.
pub proof fn lemma_walked_code_files_are_selected(items: Seq<WalkItemModel>, i: int)
    requires
        0 <= i < items.len(),
        is_code_entry(items[i]),
    ensures
        eligible_paths(items).contains(items[i]->path),
    decreases items.len(),
{
    let front = items.drop_last();
    if i < front.len() {
        assert(front[i] == items[i]);
        lemma_walked_code_files_are_selected(front, i);
        let k = choose|k: int|
            0 <= k < eligible_paths(front).len() && eligible_paths(front)[k] == items[i]->path;
        assert(eligible_paths(items)[k] == items[i]->path);
    } else {
        let selected = eligible_paths(items);
        assert(selected[selected.len() - 1] == items[i]->path);
    }
}

/// Selects the code files among what the walk yielded: the regular files
/// with an eligible extension, in the order of the walk. An entry that could
/// not be read ends the run.
pub fn find_code_files(items: &Vec<WalkItem>) -> (result: Result<Vec<String>, PipelineError>)
    ensures
        match result {
            Ok(paths) => !walk_failed(items.deep_view()) && paths.deep_view() == eligible_paths(
                items.deep_view(),
            ),
            Err(error) => error == PipelineError::Traversal && walk_failed(items.deep_view()),
        },
{
    let ghost all = items.deep_view();
    let mut paths: Vec<String> = Vec::new();
    let mut i: usize = 0;
    assert(all.take(0) =~= Seq::<WalkItemModel>::empty());
    assert(paths.deep_view() =~= Seq::<Seq<char>>::empty());
    while i < items.len()
        invariant
            i <= items.len(),
            all == items.deep_view(),
            forall|k: int| 0 <= k < i ==> !(#[trigger] all[k] is Failed),
            paths.deep_view() == eligible_paths(all.take(i as int)),
        decreases items.len() - i,
    {
        let ghost before = paths.deep_view();
        let ghost upto = all.take(i + 1);
        assert(upto.drop_last() =~= all.take(i as int));
        assert(upto.last() == items[i as int]@);
        match &items[i] {
            WalkItem::Entry { path, is_file } => {
                if *is_file && is_code_file(path.as_str()) {
                    paths.push(path.clone());
                    assert(paths.deep_view() =~= before.push(path@));
                }
            },
            WalkItem::Failed => {
                assert(all[i as int] is Failed);
                return Err(PipelineError::Traversal);
            },
        }
        i += 1;
    }
    assert(all.take(items.len() as int) =~= all);
    Ok(paths)
}

/// The positions among `items` of the regular files with an eligible
/// extension, in ascending order.
pub open spec fn code_positions(items: Seq<WalkItemModel>) -> Seq<int>
    decreases items.len(),
{
    if items.len() == 0 {
        Seq::empty()
    } else if is_code_entry(items.last()) {
        code_positions(items.drop_last()).push(items.len() - 1)
    } else {
        code_positions(items.drop_last())
    }
}

/// The positions of the code files and their paths go together: the item at
/// each position is a regular file with the selected path of the same rank,
/// and the positions ascend.
pub proof fn lemma_positions_give_paths(items: Seq<WalkItemModel>)
    ensures
        code_positions(items).len() == eligible_paths(items).len(),
        forall|k: int|
            0 <= k < code_positions(items).len() ==> {
                let position = #[trigger] code_positions(items)[k];
                &&& 0 <= position < items.len()
                &&& items[position] == (WalkItemModel::Entry {
                    path: eligible_paths(items)[k],
                    is_file: true,
                })
            },
        forall|j: int, k: int|
            0 <= j < k < code_positions(items).len() ==> code_positions(items)[j]
                < code_positions(items)[k],
    decreases items.len(),
{
    if items.len() > 0 {
        let front = items.drop_last();
        lemma_positions_give_paths(front);
        assert forall|k: int| 0 <= k < code_positions(items).len() implies {
            let position = #[trigger] code_positions(items)[k];
            &&& 0 <= position < items.len()
            &&& items[position] == (WalkItemModel::Entry {
                path: eligible_paths(items)[k],
                is_file: true,
            })
        } by {
            if k < code_positions(front).len() {
                let position = code_positions(front)[k];
                assert(items[position] == front[position]);
            } else {
                assert(items[items.len() - 1] == items.last());
            }
        }
    }
}

/// Selects the code files among what the walk yielded, by their positions,
/// for a caller that holds a record of its own for each item. An entry that
/// could not be read ends the run.
pub fn code_file_positions(items: &Vec<WalkItem>) -> (result: Result<Vec<usize>, PipelineError>)
    ensures
        match result {
            Ok(positions) => !walk_failed(items.deep_view()) && positions@.map_values(
                |position: usize| position as int,
            ) == code_positions(items.deep_view()),
            Err(error) => error == PipelineError::Traversal && walk_failed(items.deep_view()),
        },
{
    let ghost all = items.deep_view();
    let mut positions: Vec<usize> = Vec::new();
    let mut i: usize = 0;
    assert(all.take(0) =~= Seq::<WalkItemModel>::empty());
    while i < items.len()
        invariant
            i <= items.len(),
            all == items.deep_view(),
            forall|k: int| 0 <= k < i ==> !(#[trigger] all[k] is Failed),
            positions@.map_values(|position: usize| position as int) =~= code_positions(
                all.take(i as int),
            ),
        decreases items.len() - i,
    {
        let ghost before = positions@.map_values(|position: usize| position as int);
        let ghost upto = all.take(i + 1);
        assert(upto.drop_last() =~= all.take(i as int));
        assert(upto.last() == items[i as int]@);
        match &items[i] {
            WalkItem::Entry { path, is_file } => {
                if *is_file && is_code_file(path.as_str()) {
                    positions.push(i);
                    assert(positions@.map_values(|position: usize| position as int)
                        =~= before.push(i as int));
                }
            },
            WalkItem::Failed => {
                assert(all[i as int] is Failed);
                return Err(PipelineError::Traversal);
            },
        }
        i += 1;
    }
    assert(all.take(items.len() as int) =~= all);
    Ok(positions)
}

/// The content of the chunk for a file with the text `text` at `path`: the
/// sections of a Markdown document, joined by the separator line; the text
/// itself for every other file.
pub open spec fn chunk_content(path: Seq<char>, text: Seq<char>) -> Seq<char> {
    if classify(path) == Language::Markdown {
        join(segment(markdown_events(text)), SECTION_SEPARATOR@)
    } else {
        text
    }
}

/// The chunk for a file with the text `text` at `path`.
pub open spec fn chunk_of(path: Seq<char>, text: Seq<char>) -> ChunkModel {
    ChunkModel {
        file_path: path,
        content: chunk_content(path, text),
        language: classify(path).label(),
    }
}

/// Whether every file of `files` was read.
pub open spec fn all_readable(files: Seq<SourceFileModel>) -> bool {
    forall|i: int| 0 <= i < files.len() ==> (#[trigger] files[i]).text is Some
}

/// The chunks of `files`, one for each file and in the same order.
pub open spec fn chunks_of(files: Seq<SourceFileModel>) -> Seq<ChunkModel> {
    files.map_values(|file: SourceFileModel| chunk_of(file.path, file.text.unwrap()))
}

/// Makes the chunk for a file with the text `text` at `path`.
pub fn extract_chunk(path: &str, text: &str) -> (chunk: CodeChunk)
    ensures
        chunk@ == chunk_of(path@, text@),
{
    let language = language_of(path);
    let content = match language {
        Language::Markdown => {
            let sections = process_markdown(text);
            joined(&sections, SECTION_SEPARATOR)
        },
        _ => text.to_owned(),
    };
    CodeChunk { file_path: path.to_owned(), content, language: language.name().to_owned() }
}

/// Makes one chunk for each file, in the order given. A file that could
/// not be read ends the run: no chunk is handed out for the others.
pub fn extract_code_chunks(files: Vec<SourceFile>) -> (result: Result<Vec<CodeChunk>, PipelineError>)
    ensures
        match result {
            Ok(chunks) => all_readable(files.deep_view()) && chunks.deep_view() == chunks_of(
                files.deep_view(),
            ),
            Err(error) => error == PipelineError::FileRead && !all_readable(files.deep_view()),
        },
{
    let ghost all = files.deep_view();
    let mut chunks: Vec<CodeChunk> = Vec::new();
    let mut i: usize = 0;
    while i < files.len()
        invariant
            i <= files.len(),
            all == files.deep_view(),
            forall|k: int| 0 <= k < i ==> (#[trigger] all[k]).text is Some,
            chunks.deep_view() =~= chunks_of(all).take(i as int),
        decreases files.len() - i,
    {
        let ghost before = chunks.deep_view();
        assert(all[i as int] == files[i as int]@);
        match &files[i].text {
            Some(text) => {
                let chunk = extract_chunk(files[i].path.as_str(), text.as_str());
                chunks.push(chunk);
                assert(chunks.deep_view() =~= before.push(chunk@));
                assert(chunks_of(all).take(i + 1) =~= chunks_of(all).take(i as int).push(
                    chunks_of(all)[i as int],
                ));
            },
            None => {
                return Err(PipelineError::FileRead);
            },
        }
        i += 1;
    }
    assert(chunks_of(all).take(files.len() as int) =~= chunks_of(all));
    Ok(chunks)
}

} // verus!
