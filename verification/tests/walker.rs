use splik::filter::Filter;
use splik::walker::{analyze_directory, DirEntry, EntryKind, SourceFile};

fn filter(include_dotfiles: bool, included: &[&str], excluded: &[&str]) -> Filter {
    Filter {
        include_dotfiles,
        included: included.iter().map(|s| s.to_string()).collect(),
        excluded: excluded.iter().map(|s| s.to_string()).collect(),
        here: false,
    }
}

fn file(directory: &str, name: &str) -> DirEntry {
    DirEntry { name: name.to_string(), path: format!("{}/{}", directory, name), kind: EntryKind::File }
}

fn directory(parent: &str, name: &str) -> DirEntry {
    DirEntry {
        name: name.to_string(),
        path: format!("{}/{}", parent, name),
        kind: EntryKind::Directory,
    }
}

fn pairs(found: &Vec<SourceFile>) -> Vec<(String, &'static str)> {
    found.iter().map(|f| (f.path.clone(), f.language)).collect()
}

#[test]
fn analyze_directory_of_nothing() {
    let mut pending = vec!["/later".to_string()];
    let found = analyze_directory(&Vec::new(), &filter(false, &[], &[]), &mut pending);
    assert!(found.is_empty());
    assert_eq!(pending, vec!["/later".to_string()]);
}

#[test]
fn analyze_directory_sorts_entries_into_files_and_directories() {
    let entries = vec![
        file("/p", "a.py"),
        directory("/p", "src"),
        file("/p", "notes.txt"),
        file("/p", "b.rs"),
        directory("/p", "docs"),
        DirEntry { name: "dangling.rs".to_string(), path: "/p/dangling.rs".to_string(), kind: EntryKind::Other },
    ];
    let mut pending = vec!["/q".to_string()];
    let found = analyze_directory(&entries, &filter(false, &[], &[]), &mut pending);
    assert_eq!(
        pairs(&found),
        vec![("/p/a.py".to_string(), "Python"), ("/p/b.rs".to_string(), "Rust")]
    );
    assert_eq!(pending, vec!["/q".to_string(), "/p/src".to_string(), "/p/docs".to_string()]);
}

#[test]
fn analyze_directory_counts_each_file_once() {
    let entries = vec![file("/p", "a.rs"), file("/p", "b.rs"), file("/p", "c.rs")];
    let mut pending = Vec::new();
    let found = analyze_directory(&entries, &filter(false, &[], &[]), &mut pending);
    assert_eq!(
        pairs(&found),
        vec![
            ("/p/a.rs".to_string(), "Rust"),
            ("/p/b.rs".to_string(), "Rust"),
            ("/p/c.rs".to_string(), "Rust"),
        ]
    );
    assert!(pending.is_empty());
}

#[test]
fn analyze_directory_hides_dotfiles_by_default() {
    let entries = vec![
        file("/p", ".eslintrc.js"),
        directory("/p", ".git"),
        file("/p", "a.js"),
        file("/p", ".gitignore"),
    ];
    let mut pending = Vec::new();
    let found = analyze_directory(&entries, &filter(false, &[], &[]), &mut pending);
    assert_eq!(pairs(&found), vec![("/p/a.js".to_string(), "JavaScript")]);
    assert!(pending.is_empty());
}

#[test]
fn analyze_directory_shows_dotfiles_when_asked() {
    let entries = vec![
        file("/p", ".eslintrc.js"),
        directory("/p", ".git"),
        file("/p", "a.js"),
        file("/p", ".gitignore"),
    ];
    let mut pending = Vec::new();
    let found = analyze_directory(&entries, &filter(true, &[], &[]), &mut pending);
    assert_eq!(
        pairs(&found),
        vec![("/p/.eslintrc.js".to_string(), "JavaScript"), ("/p/a.js".to_string(), "JavaScript")]
    );
    assert_eq!(pending, vec!["/p/.git".to_string()]);
}

#[test]
fn analyze_directory_shows_an_included_dotfile_alone() {
    let entries = vec![
        file("/p", ".eslintrc.js"),
        file("/p", ".prettierrc.js"),
        directory("/p", ".git"),
        directory("/p", ".vscode"),
    ];
    let mut pending = Vec::new();
    let found =
        analyze_directory(&entries, &filter(false, &[".eslintrc.js", ".vscode"], &[]), &mut pending);
    assert_eq!(pairs(&found), vec![("/p/.eslintrc.js".to_string(), "JavaScript")]);
    assert_eq!(pending, vec!["/p/.vscode".to_string()]);
}

#[test]
fn analyze_directory_prunes_ignored_directories() {
    let entries = vec![
        directory("/p", "node_modules"),
        directory("/p", "src"),
        directory("/p", "target"),
        directory("/p", "dist"),
        directory("/p", "build"),
        directory("/p", "public"),
        directory("/p", "out"),
    ];
    let mut pending = Vec::new();
    let found = analyze_directory(&entries, &filter(false, &[], &[]), &mut pending);
    assert!(found.is_empty());
    assert_eq!(pending, vec!["/p/src".to_string()]);
}

#[test]
fn analyze_directory_keeps_an_included_ignored_directory() {
    let entries = vec![directory("/p", "node_modules"), directory("/p", "target")];
    let mut pending = Vec::new();
    analyze_directory(&entries, &filter(false, &["node_modules"], &[]), &mut pending);
    assert_eq!(pending, vec!["/p/node_modules".to_string()]);
}

#[test]
fn analyze_directory_leaves_out_excluded_languages() {
    let entries = vec![file("/p", "a.py"), file("/p", "b.rs"), file("/p", "c.py")];
    let mut pending = Vec::new();
    let found = analyze_directory(&entries, &filter(false, &[], &["Python"]), &mut pending);
    assert_eq!(pairs(&found), vec![("/p/b.rs".to_string(), "Rust")]);
}

#[test]
fn analyze_directory_hands_paths_on_unchanged() {
    let entries = vec![
        DirEntry { name: "a.rs".to_string(), path: "somewhere else".to_string(), kind: EntryKind::File },
        DirEntry { name: "src".to_string(), path: "".to_string(), kind: EntryKind::Directory },
    ];
    let mut pending = Vec::new();
    let found = analyze_directory(&entries, &filter(false, &[], &[]), &mut pending);
    assert_eq!(pairs(&found), vec![("somewhere else".to_string(), "Rust")]);
    assert_eq!(pending, vec!["".to_string()]);
}
