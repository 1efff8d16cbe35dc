use splik::language::{extension, language_for_extension, language_for_file};

#[test]
fn every_extension_of_the_table_has_its_language() {
    let table = [
        ("asm", "Assembly"),
        ("bash", "Bash"),
        ("c", "C"),
        ("h", "C"),
        ("cpp", "C++"),
        ("c++", "C++"),
        ("cxx", "C++"),
        ("cc", "C++"),
        ("hpp", "C++"),
        ("hh", "C++"),
        ("h++", "C++"),
        ("hxx", "C++"),
        ("cs", "C#"),
        ("f", "Fortran"),
        ("for", "Fortran"),
        ("f90", "Fortran"),
        ("f95", "Fortran"),
        ("gleam", "Gleam"),
        ("go", "Go"),
        ("lhs", "Haskell"),
        ("hs", "Haskell"),
        ("java", "Java"),
        ("js", "JavaScript"),
        ("mjs", "JavaScript"),
        ("cjs", "JavaScript"),
        ("jsx", "JavaScript React"),
        ("kt", "Kotlin"),
        ("lua", "Lua"),
        ("m", "MATLAB"),
        ("php", "PHP"),
        ("py", "Python"),
        ("r", "R"),
        ("rb", "Ruby"),
        ("rs", "Rust"),
        ("sql", "SQL"),
        ("svelte", "Svelte"),
        ("swift", "Swift"),
        ("ts", "TypeScript"),
        ("tsx", "TypeScript React"),
        ("v", "V"),
        ("vue", "Vue"),
        ("zig", "Zig"),
    ];
    assert_eq!(table.len(), 42);
    for (key, language) in table {
        assert_eq!(language_for_extension(key), Some(language), "extension {}", key);
        let name = format!("file.{}", key);
        assert_eq!(language_for_file(&name), Some(language), "file {}", name);
    }
}

#[test]
fn header_files_are_c() {
    assert_eq!(language_for_extension("h"), Some("C"));
    assert_eq!(language_for_extension("hpp"), Some("C++"));
    assert_eq!(language_for_extension("py"), Some("Python"));
}

#[test]
fn unknown_extensions_have_no_language() {
    assert_eq!(language_for_extension(""), None);
    assert_eq!(language_for_extension("txt"), None);
    assert_eq!(language_for_extension("md"), None);
    assert_eq!(language_for_extension("gitignore"), None);
    assert_eq!(language_for_extension("rss"), None);
    assert_eq!(language_for_extension("p"), None);
    assert_eq!(language_for_extension(" py"), None);
    assert_eq!(language_for_extension("py "), None);
    assert_eq!(language_for_extension(".py"), None);
}

#[test]
fn extensions_are_compared_as_they_stand() {
    assert_eq!(language_for_extension("PY"), None);
    assert_eq!(language_for_extension("Py"), None);
    assert_eq!(language_for_extension("RS"), None);
    assert_eq!(language_for_extension("C"), None);
    assert_eq!(language_for_file("MAIN.RS"), None);
    assert_eq!(language_for_file("Main.Rs"), None);
    assert_eq!(language_for_file("MAIN.rs"), Some("Rust"));
}

#[test]
fn extension_is_what_follows_the_last_dot() {
    assert_eq!(extension("a.py"), Some("py"));
    assert_eq!(extension("archive.tar.gz"), Some("gz"));
    assert_eq!(extension("a.b.c.rs"), Some("rs"));
    assert_eq!(extension("name."), Some(""));
    assert_eq!(extension(".gitignore"), Some("gitignore"));
    assert_eq!(extension(".eslintrc.js"), Some("js"));
    assert_eq!(extension("."), Some(""));
    assert_eq!(extension(".."), Some(""));
    assert_eq!(extension("a..b"), Some("b"));
}

#[test]
fn extension_of_a_name_without_dot_is_none() {
    assert_eq!(extension(""), None);
    assert_eq!(extension("Makefile"), None);
    assert_eq!(extension("README"), None);
    assert_eq!(extension("py"), None);
}

#[test]
fn extension_of_names_beyond_ascii() {
    assert_eq!(extension("größe.rs"), Some("rs"));
    assert_eq!(extension("日本語.py"), Some("py"));
    assert_eq!(extension("a.日本"), Some("日本"));
    assert_eq!(extension("é"), None);
    assert_eq!(language_for_file("größe.rs"), Some("Rust"));
    assert_eq!(language_for_file("a.日本"), None);
}

#[test]
fn language_for_file_goes_by_the_last_extension() {
    assert_eq!(language_for_file("a.py"), Some("Python"));
    assert_eq!(language_for_file("b.rs"), Some("Rust"));
    assert_eq!(language_for_file("foo.js"), Some("JavaScript"));
    assert_eq!(language_for_file("lib.rs.bak"), None);
    assert_eq!(language_for_file("notes.py.txt"), None);
    assert_eq!(language_for_file("x.min.js"), Some("JavaScript"));
    assert_eq!(language_for_file(".eslintrc.js"), Some("JavaScript"));
}

#[test]
fn files_without_known_extension_have_no_language() {
    assert_eq!(language_for_file(""), None);
    assert_eq!(language_for_file("Makefile"), None);
    assert_eq!(language_for_file(".gitignore"), None);
    assert_eq!(language_for_file("rs"), None);
    assert_eq!(language_for_file("name."), None);
    assert_eq!(language_for_file("LICENSE"), None);
}

#[test]
fn same_extension_always_gives_the_same_language() {
    for _ in 0..3 {
        assert_eq!(language_for_extension("c"), Some("C"));
        assert_eq!(language_for_extension("h"), Some("C"));
    }
}
