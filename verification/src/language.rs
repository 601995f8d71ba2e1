//! Classification of files by the extension of their path.
//!
//! A path is a text whose components are separated by `/`. Separators at
//! its end and components that are a lone `.` say nothing and are left out.
//! The file name of a path is its last component, unless that is `..`; the
//! extension is what follows the last `.` of the file name, unless that `.`
//! is the first character of the name.

use vstd::prelude::*;
use vstd::string::*;
use crate::text::{chars_of, same_text};

verus! {

/// The language, or kind of content, that a file holds.
#[derive(Clone, Copy, Debug, PartialEq, Eq, Structural)]
pub enum Language {
    Rust,
    Python,
    JavaScript,
    TypeScript,
    Go,
    Markdown,
    Json,
    Toml,
    Yaml,
    Unknown,
}

/// The position of the last `c` in `s`, or -1 if `s` holds none.
pub open spec fn last_index_of(s: Seq<char>, c: char) -> int
    decreases s.len(),
{
    if s.len() == 0 {
        -1
    } else if s.last() == c {
        s.len() - 1
    } else {
        last_index_of(s.drop_last(), c)
    }
}

/// Whether `path` ends with something that says nothing: a separator, or a
/// component that is a lone `.`.
pub open spec fn ends_with_void(path: Seq<char>) -> bool {
    &&& path.len() > 0
    &&& {
        ||| path.last() == '/'
        ||| path.last() == '.' && (path.len() == 1 || path[path.len() - 2] == '/')
    }
}

/// The file name of `path`: its last component, once the separators and the
/// lone `.` components at its end are left out. The empty path, a path of
/// separators and `.` components only, and a path whose last component is
/// `..` have none.
pub open spec fn file_name(path: Seq<char>) -> Option<Seq<char>>
    decreases path.len(),
{
    if path.len() == 0 {
        None
    } else if ends_with_void(path) {
        file_name(path.drop_last())
    } else if path.skip(last_index_of(path, '/') + 1) == seq!['.', '.'] {
        None
    } else {
        Some(path.skip(last_index_of(path, '/') + 1))
    }
}

/// The extension of a file name: what follows its last `.`. A name without
/// a `.`, or whose only `.` is its first character, has none.
pub open spec fn extension_of_name(name: Seq<char>) -> Option<Seq<char>> {
    if last_index_of(name, '.') > 0 {
        Some(name.skip(last_index_of(name, '.') + 1))
    } else {
        None
    }
}

/// The extension of `path`: that of its file name, if it has one.
pub open spec fn extension(path: Seq<char>) -> Option<Seq<char>> {
    match file_name(path) {
        Some(name) => extension_of_name(name),
        None => None,
    }
}

/// The language that an extension stands for. The match is exact and
/// distinguishes upper from lower case.
pub open spec fn language_of_extension(ext: Seq<char>) -> Language {
    if ext == "rs"@ {
        Language::Rust
    } else if ext == "py"@ {
        Language::Python
    } else if ext == "js"@ {
        Language::JavaScript
    } else if ext == "ts"@ {
        Language::TypeScript
    } else if ext == "go"@ {
        Language::Go
    } else if ext == "md"@ {
        Language::Markdown
    } else if ext == "json"@ {
        Language::Json
    } else if ext == "toml"@ {
        Language::Toml
    } else if ext == "yaml"@ || ext == "yml"@ {
        Language::Yaml
    } else {
        Language::Unknown
    }
}

/// Whether `ext` is one of the extensions of code, documentation and
/// configuration files.
pub open spec fn is_eligible_extension(ext: Seq<char>) -> bool {
    ||| ext == "rs"@
    ||| ext == "py"@
    ||| ext == "js"@
    ||| ext == "ts"@
    ||| ext == "go"@
    ||| ext == "md"@
    ||| ext == "json"@
    ||| ext == "toml"@
    ||| ext == "yaml"@
    ||| ext == "yml"@
}

/// The language of the file at `path`, by its extension alone.
pub open spec fn classify(path: Seq<char>) -> Language {
    match extension(path) {
        Some(ext) => language_of_extension(ext),
        None => Language::Unknown,
    }
}

/// Whether the file at `path` is eligible for discovery.
pub open spec fn is_eligible(path: Seq<char>) -> bool {
    match extension(path) {
        Some(ext) => is_eligible_extension(ext),
        None => false,
    }
}

impl Language {
    /// The name under which the language appears in a chunk.
    pub open spec fn label(self) -> Seq<char> {
        match self {
            Language::Rust => "Rust"@,
            Language::Python => "Python"@,
            Language::JavaScript => "JavaScript"@,
            Language::TypeScript => "TypeScript"@,
            Language::Go => "Go"@,
            Language::Markdown => "Markdown"@,
            Language::Json => "JSON"@,
            Language::Toml => "TOML"@,
            Language::Yaml => "YAML"@,
            Language::Unknown => "Unknown"@,
        }
    }

    /// The name under which the language appears in a chunk.
    pub fn name(&self) -> (name: &'static str)
        ensures
            name@ == self.label(),
    {
        match self {
            Language::Rust => "Rust",
            Language::Python => "Python",
            Language::JavaScript => "JavaScript",
            Language::TypeScript => "TypeScript",
            Language::Go => "Go",
            Language::Markdown => "Markdown",
            Language::Json => "JSON",
            Language::Toml => "TOML",
            Language::Yaml => "YAML",
            Language::Unknown => "Unknown",
        }
    }
}

/// `c` stands at `k` and nowhere after it; or, with `k` = -1, nowhere at all.
pub proof fn lemma_last_index_at(s: Seq<char>, c: char, k: int)
    requires
        -1 <= k < s.len(),
        k >= 0 ==> s[k] == c,
        forall|i: int| k < i < s.len() ==> #[trigger] s[i] != c,
    ensures
        last_index_of(s, c) == k,
    decreases s.len(),
{
    if s.len() > 0 && k < s.len() - 1 {
        lemma_last_index_at(s.drop_last(), c, k);
    }
}

/// Where the last `c` of a text stands, and that none follows it.
pub proof fn lemma_last_index_of(s: Seq<char>, c: char)
    ensures
        -1 <= last_index_of(s, c) < s.len(),
        last_index_of(s, c) >= 0 ==> s[last_index_of(s, c)] == c,
        forall|i: int| last_index_of(s, c) < i < s.len() ==> #[trigger] s[i] != c,
    decreases s.len(),
{
    if s.len() > 0 && s.last() != c {
        let front = s.drop_last();
        lemma_last_index_of(front, c);
        assert forall|i: int| last_index_of(s, c) < i < s.len() implies #[trigger] s[i] != c by {
            if i < front.len() {
                assert(s[i] == front[i]);
            }
        }
    }
}

/// Whether `name` can be the name of a file: it is not empty, holds no
/// `/`, and is neither `.` nor `..`.
pub open spec fn is_file_name(name: Seq<char>) -> bool {
    &&& name.len() > 0
    &&& forall|i: int| 0 <= i < name.len() ==> #[trigger] name[i] != '/'
    &&& name != seq!['.']
    &&& name != seq!['.', '.']
}

/// The file name of a path can be the name of a file, and is its own file
/// name.
pub proof fn lemma_file_name_is_file_name(path: Seq<char>)
    ensures
        file_name(path) matches Some(name) ==> is_file_name(name) && file_name(name) == Some(
            name,
        ),
    decreases path.len(),
{
    if path.len() > 0 {
        if ends_with_void(path) {
            lemma_file_name_is_file_name(path.drop_last());
        } else {
            let name = path.skip(last_index_of(path, '/') + 1);
            lemma_last_index_of(path, '/');
            assert(name.last() == path.last());
            if name.len() == 1 {
                assert(name[0] == path[path.len() - 1]);
                if path.len() > 1 {
                    assert(path[path.len() - 2] == '/');
                }
                assert(name != seq!['.']);
            } else {
                assert(seq!['.'].len() == 1);
            }
            if name != seq!['.', '.'] {
                lemma_is_own_file_name(name);
            }
        }
    }
}

/// What can be the name of a file is its own file name.
pub proof fn lemma_is_own_file_name(name: Seq<char>)
    requires
        is_file_name(name),
    ensures
        file_name(name) == Some(name),
{
    lemma_last_index_at(name, '/', -1);
    assert(name.skip(0) =~= name);
    if name.len() == 1 && name.last() == '.' {
        assert(name =~= seq!['.']);
    }
}

/// The extension and the language of a file depend on its name alone: the
/// directory in front of the name, whatever its length or depth, changes
/// neither.
pub proof fn lemma_directory_is_irrelevant(directory: Seq<char>, name: Seq<char>)
    requires
        is_file_name(name),
    ensures
        file_name(directory + seq!['/'] + name) == Some(name),
        file_name(name) == Some(name),
        extension(directory + seq!['/'] + name) == extension(name),
        classify(directory + seq!['/'] + name) == classify(name),
        is_eligible(directory + seq!['/'] + name) == is_eligible(name),
{
    let path = directory + seq!['/'] + name;
    lemma_last_index_at(path, '/', directory.len() as int);
    assert(path.skip(directory.len() as int + 1) =~= name);
    assert(path.last() == name.last());
    if name.len() == 1 {
        assert(name.last() == name[0]);
        if name[0] == '.' {
            assert(name =~= seq!['.']);
        }
    } else {
        assert(path[path.len() - 2] == name[name.len() - 2]);
    }
    lemma_is_own_file_name(name);
}

/// Eligibility and language are those of the file name: no directory in
/// front of it, whatever its length or depth, changes either.
pub proof fn lemma_eligibility_depends_on_file_name(path: Seq<char>)
    ensures
        file_name(path) matches Some(name) ==> extension(path) == extension(name) && classify(
            path,
        ) == classify(name) && is_eligible(path) == is_eligible(name),
        file_name(path) is None ==> extension(path) is None && classify(path)
            == Language::Unknown && !is_eligible(path),
{
    lemma_file_name_is_file_name(path);
}

/// Separators and lone `.` components at the end of a path change neither
/// its file name nor what follows from it.
pub proof fn lemma_trailing_void_is_irrelevant(path: Seq<char>)
    ensures
        file_name(path + seq!['/']) == file_name(path),
        file_name(path + seq!['/', '.']) == file_name(path),
        is_eligible(path + seq!['/']) == is_eligible(path),
        is_eligible(path + seq!['/', '.']) == is_eligible(path),
        classify(path + seq!['/']) == classify(path),
        classify(path + seq!['/', '.']) == classify(path),
{
    let slash = path + seq!['/'];
    let dot = path + seq!['/', '.'];
    assert(slash.drop_last() =~= path);
    assert(dot.drop_last() =~= slash);
    assert(dot[dot.len() - 2] == '/');
}

/// A file is eligible exactly when its language is known.
pub proof fn lemma_eligible_iff_known(path: Seq<char>)
    ensures
        is_eligible(path) <==> classify(path) != Language::Unknown,
{
}

/// The position of the last `c` among the characters from `from` up to `to`,
/// if any.
fn last_position(chars: &Vec<char>, from: usize, to: usize, c: char) -> (found: Option<usize>)
    requires
        from <= to <= chars.len(),
    ensures
        match found {
            Some(k) => from <= k < to && last_index_of(
                chars@.subrange(from as int, to as int),
                c,
            ) == k - from,
            None => last_index_of(chars@.subrange(from as int, to as int), c) == -1,
        },
{
    let ghost part = chars@.subrange(from as int, to as int);
    let mut k: usize = to;
    while k > from
        invariant
            from <= k <= to <= chars.len(),
            part == chars@.subrange(from as int, to as int),
            forall|i: int| k - from <= i < part.len() ==> #[trigger] part[i] != c,
        decreases k - from,
    {
        k -= 1;
        if chars[k] == c {
            proof {
                assert(part[k - from] == chars@[k as int]);
                lemma_last_index_at(part, c, k - from);
            }
            return Some(k);
        }
        assert forall|i: int| k - from <= i < part.len() implies #[trigger] part[i] != c by {
            assert(part[i] == chars@[from + i]);
        }
    }
    proof {
        lemma_last_index_at(part, c, -1);
    }
    None
}

/// The extension of `path`, if it has one.
pub fn extension_of(path: &str) -> (ext: Option<&str>)
    ensures
        match ext {
            Some(e) => extension(path@) == Some(e@),
            None => extension(path@) is None,
        },
{
    let chars = chars_of(path);
    let mut end: usize = chars.len();
    assert(path@.take(end as int) =~= path@);
    while end > 0 && (chars[end - 1] == '/' || (chars[end - 1] == '.' && (end == 1 || chars[end
        - 2] == '/')))
        invariant
            end <= chars.len(),
            chars@ == path@,
            file_name(path@) == file_name(path@.take(end as int)),
        decreases end,
    {
        proof {
            let kept = path@.take(end as int);
            assert(kept.last() == chars@[end - 1]);
            if end > 1 {
                assert(kept[kept.len() - 2] == chars@[end - 2]);
            }
            assert(ends_with_void(kept));
            assert(kept.drop_last() =~= path@.take(end - 1));
        }
        end -= 1;
    }
    if end == 0 {
        return None;
    }
    let ghost kept = path@.take(end as int);
    proof {
        assert(kept.last() == chars@[end - 1]);
        if end > 1 {
            assert(kept[kept.len() - 2] == chars@[end - 2]);
        }
        assert(!ends_with_void(kept));
        assert(chars@.subrange(0, end as int) =~= kept);
    }
    let start: usize = match last_position(&chars, 0, end, '/') {
        Some(slash) => slash + 1,
        None => 0,
    };
    let ghost name = kept.skip(start as int);
    assert(name =~= chars@.subrange(start as int, end as int));
    let is_parent = end - start == 2 && chars[start] == '.' && chars[start + 1] == '.';
    proof {
        if is_parent {
            assert(name =~= seq!['.', '.']);
        } else if name.len() == 2 {
            assert(name[0] == chars@[start as int]);
            assert(name[1] == chars@[start + 1]);
            assert(seq!['.', '.'][0] == '.' && seq!['.', '.'][1] == '.');
        }
    }
    if is_parent {
        return None;
    }
    match last_position(&chars, start, end, '.') {
        Some(dot) => {
            if dot > start {
                assert(name.skip(dot - start + 1) =~= path@.subrange(dot + 1, end as int));
                Some(path.substring_char(dot + 1, end))
            } else {
                None
            }
        },
        None => None,
    }
}

/// The language of the file at `path`, by its extension alone.
pub fn language_of(path: &str) -> (language: Language)
    ensures
        language == classify(path@),
{
    match extension_of(path) {
        Some(ext) => {
            if same_text(ext, "rs") {
                Language::Rust
            } else if same_text(ext, "py") {
                Language::Python
            } else if same_text(ext, "js") {
                Language::JavaScript
            } else if same_text(ext, "ts") {
                Language::TypeScript
            } else if same_text(ext, "go") {
                Language::Go
            } else if same_text(ext, "md") {
                Language::Markdown
            } else if same_text(ext, "json") {
                Language::Json
            } else if same_text(ext, "toml") {
                Language::Toml
            } else if same_text(ext, "yaml") || same_text(ext, "yml") {
                Language::Yaml
            } else {
                Language::Unknown
            }
        },
        None => Language::Unknown,
    }
}

/// Whether the file at `path` is one of code, documentation or configuration.
pub fn is_code_file(path: &str) -> (eligible: bool)
    ensures
        eligible == is_eligible(path@),
{
    proof {
        lemma_eligible_iff_known(path@);
    }
    match language_of(path) {
        Language::Unknown => false,
        _ => true,
    }
}

} // verus!
