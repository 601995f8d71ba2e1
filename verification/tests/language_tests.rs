use coderag::language::{extension_of, is_code_file, language_of, Language};
use std::path::Path;

#[test]
fn every_extension_of_the_table_has_its_language() {
    assert_eq!(language_of("main.rs"), Language::Rust);
    assert_eq!(language_of("tool.py"), Language::Python);
    assert_eq!(language_of("app.js"), Language::JavaScript);
    assert_eq!(language_of("app.ts"), Language::TypeScript);
    assert_eq!(language_of("main.go"), Language::Go);
    assert_eq!(language_of("README.md"), Language::Markdown);
    assert_eq!(language_of("package.json"), Language::Json);
    assert_eq!(language_of("Cargo.toml"), Language::Toml);
    assert_eq!(language_of("ci.yaml"), Language::Yaml);
    assert_eq!(language_of("ci.yml"), Language::Yaml);
}

#[test]
fn other_extensions_and_none_are_unknown() {
    assert_eq!(language_of("b.tmp"), Language::Unknown);
    assert_eq!(language_of("test.bak"), Language::Unknown);
    assert_eq!(language_of("Makefile"), Language::Unknown);
    assert_eq!(language_of(""), Language::Unknown);
    assert_eq!(language_of("a."), Language::Unknown);
    assert_eq!(language_of("archive.rs.gz"), Language::Unknown);
    assert_eq!(language_of("a.rsx"), Language::Unknown);
    assert_eq!(language_of("a.r"), Language::Unknown);
}

#[test]
fn the_match_is_case_sensitive() {
    assert_eq!(language_of("MAIN.RS"), Language::Unknown);
    assert_eq!(language_of("readme.MD"), Language::Unknown);
    assert_eq!(language_of("data.Json"), Language::Unknown);
    assert!(!is_code_file("MAIN.RS"));
    assert!(!is_code_file("ci.YML"));
}

#[test]
fn names_of_the_languages() {
    assert_eq!(Language::Rust.name(), "Rust");
    assert_eq!(Language::Python.name(), "Python");
    assert_eq!(Language::JavaScript.name(), "JavaScript");
    assert_eq!(Language::TypeScript.name(), "TypeScript");
    assert_eq!(Language::Go.name(), "Go");
    assert_eq!(Language::Markdown.name(), "Markdown");
    assert_eq!(Language::Json.name(), "JSON");
    assert_eq!(Language::Toml.name(), "TOML");
    assert_eq!(Language::Yaml.name(), "YAML");
    assert_eq!(Language::Unknown.name(), "Unknown");
}

#[test]
fn eligible_files_are_those_of_the_table() {
    for name in ["a.rs", "a.py", "a.js", "a.ts", "a.go", "a.md", "a.json", "a.toml", "a.yaml", "a.yml"] {
        assert!(is_code_file(name), "{}", name);
    }
    for name in ["a.tmp", "a.bak", "a.txt", "a", "", ".coderagignore", "a.c", "a.rs~"] {
        assert!(!is_code_file(name), "{}", name);
    }
}

#[test]
fn a_leading_dot_begins_no_extension() {
    assert_eq!(extension_of(".rs"), None);
    assert!(!is_code_file(".rs"));
    assert!(!is_code_file("src/.md"));
    assert_eq!(extension_of(".hidden.rs"), Some("rs"));
    assert!(is_code_file("src/.hidden.rs"));
}

#[test]
fn eligibility_does_not_depend_on_the_directory() {
    let directories = ["", ".", "src", "/abs/olute", "a/b/c/d/e/f/g/h", "dir.with.dots", "über/ñ"];
    let names = ["a.rs", "b.tmp", "README.md", ".rs", "noext", "x.YML", "y.yml"];
    for name in names {
        for directory in directories {
            let path = format!("{}/{}", directory, name);
            assert_eq!(is_code_file(&path), is_code_file(name), "{}", path);
            assert_eq!(language_of(&path), language_of(name), "{}", path);
        }
    }
}

#[test]
fn a_dot_in_a_directory_is_no_extension_of_the_file() {
    assert_eq!(extension_of("dir.rs/file"), None);
    assert!(!is_code_file("dir.rs/file"));
    assert_eq!(extension_of("dir.rs/file.py"), Some("py"));
}

#[test]
fn extension_is_what_follows_the_last_dot() {
    assert_eq!(extension_of("a.tar.gz"), Some("gz"));
    assert_eq!(extension_of("a."), Some(""));
    assert_eq!(extension_of("a"), None);
    assert_eq!(extension_of(""), None);
    assert_eq!(extension_of("x/y.z/w.toml"), Some("toml"));
    assert_eq!(extension_of(".."), None);
    assert_eq!(extension_of("src/.."), None);
    assert_eq!(extension_of("..."), Some(""));
}

#[test]
fn extension_agrees_with_std_on_file_paths() {
    let paths = [
        "a.rs",
        "src/main.rs",
        "./src/lib.rs",
        "/abs/path/tool.py",
        "deep/er/and/deeper/x.json",
        ".gitignore",
        "dir/.hidden",
        "dir/.hidden.md",
        "noext",
        "dir.d/noext",
        "trailing.",
        "two.dots.yaml",
        "UPPER.RS",
        "..",
        "a/..",
        "...",
        "a/...rs",
        ".",
        "",
        "/",
        "//",
        "./",
        "./.",
        "a.rs/",
        "a.rs/.",
        "docs/x.md//",
        "notes.md/.",
        "a.rs/././/./",
        "a.rs/..",
        "a.rs/../",
        "x/./y.toml",
        "./a.rs",
        "/a.rs",
        "/.",
        "/..",
        "..rs",
        "a/b.",
        "a/b./",
        ".a/",
        "a/.b/.",
    ];
    for path in paths {
        let expected = Path::new(path).extension().and_then(|ext| ext.to_str());
        assert_eq!(extension_of(path), expected, "{}", path);
    }
}

#[test]
fn separators_and_dot_components_at_the_end_are_left_out() {
    assert!(is_code_file("a.rs/"));
    assert!(is_code_file("a.rs/."));
    assert!(is_code_file("docs/x.md//"));
    assert_eq!(language_of("notes.md/."), Language::Markdown);
    assert_eq!(language_of("a.rs/"), Language::Rust);
    assert_eq!(extension_of("a.rs/././/"), Some("rs"));
    assert_eq!(extension_of("docs/x.md//"), Some("md"));
}

#[test]
fn a_path_without_a_file_name_has_no_extension() {
    for path in ["", "/", "//", ".", "./", "./.", "/.", "..", "../", "a.rs/..", "a.rs/../", "/.."] {
        assert_eq!(extension_of(path), None, "{:?}", path);
        assert!(!is_code_file(path), "{:?}", path);
        assert_eq!(language_of(path), Language::Unknown, "{:?}", path);
    }
}

#[test]
fn extension_agrees_with_std_on_every_short_path() {
    let alphabet = ['/', '.', 'r', 's', 'x'];
    let mut paths: Vec<String> = vec![String::new()];
    let mut first = 0;
    for _ in 0..7 {
        let last = paths.len();
        for index in first..last {
            for letter in alphabet {
                let mut longer = paths[index].clone();
                longer.push(letter);
                paths.push(longer);
            }
        }
        first = last;
    }
    assert_eq!(paths.len(), 97656);
    for path in &paths {
        let expected = Path::new(path).extension().and_then(|ext| ext.to_str());
        assert_eq!(extension_of(path), expected, "{:?}", path);
        assert_eq!(is_code_file(path), expected == Some("rs"), "{:?}", path);
    }
}
