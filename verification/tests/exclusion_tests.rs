use coderag::processor::{
    compile_exclusions, extract_code_chunks, find_code_files, load_ignore_patterns, IgnoreFile,
    SourceFile, WalkItem,
};

#[test]
fn test_cli_exclusions() {
    let test_dir = "test_exclude_cli";
    let test_file = format!("{}/ignore.tmp", test_dir);

    let patterns = load_ignore_patterns(&IgnoreFile::Absent).unwrap();
    let overrides = compile_exclusions(test_dir, &patterns, &vec!["*.tmp".to_string()]).unwrap();
    assert!(overrides.matched(&test_file, false).is_ignore());

    let items = vec![
        WalkItem::Entry { path: test_dir.to_string(), is_file: false },
        WalkItem::Entry { path: test_file.clone(), is_file: true },
    ];
    let files = find_code_files(&items).unwrap();
    let reads: Vec<SourceFile> = files
        .iter()
        .map(|path| SourceFile { path: path.clone(), text: Some("content".to_string()) })
        .collect();
    let chunks = extract_code_chunks(reads).unwrap();
    assert!(!chunks.iter().any(|chunk| chunk.file_path.contains("ignore.tmp")));
}

#[test]
fn test_ignore_file() {
    let test_dir = "test_data";
    let found = IgnoreFile::Text("*.bak\n# Comentario\ntemp/".to_string());
    let patterns = load_ignore_patterns(&found).unwrap();
    let overrides = compile_exclusions(test_dir, &patterns, &[].to_vec()).unwrap();

    let entries = [
        (format!("{}/.coderagignore", test_dir), false),
        (format!("{}/test.bak", test_dir), false),
        (format!("{}/temp", test_dir), true),
    ];
    let mut items = vec![WalkItem::Entry { path: test_dir.to_string(), is_file: false }];
    for (path, is_dir) in entries {
        if !overrides.matched(&path, is_dir).is_ignore() {
            items.push(WalkItem::Entry { path, is_file: !is_dir });
        }
    }

    let files = find_code_files(&items).unwrap();
    assert!(!files.iter().any(|p| p.contains("test.bak")));
}
