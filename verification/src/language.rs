use vstd::prelude::*;
use vstd::string::StrSliceExecFns;
use crate::text::same_text;

verus! {

/// The language that a file extension stands for, if it stands for one. The extension is
/// written without its dot and is compared as it stands: `rs` is Rust, `RS` is nothing.
pub open spec fn language_of_extension(extension: Seq<char>) -> Option<Seq<char>> {
    if extension == "asm"@ {
        Some("Assembly"@)
    } else if extension == "bash"@ {
        Some("Bash"@)
    } else if extension == "c"@ {
        Some("C"@)
    } else if extension == "h"@ {
        Some("C"@)
    } else if extension == "cpp"@ {
        Some("C++"@)
    } else if extension == "c++"@ {
        Some("C++"@)
    } else if extension == "cxx"@ {
        Some("C++"@)
    } else if extension == "cc"@ {
        Some("C++"@)
    } else if extension == "hpp"@ {
        Some("C++"@)
    } else if extension == "hh"@ {
        Some("C++"@)
    } else if extension == "h++"@ {
        Some("C++"@)
    } else if extension == "hxx"@ {
        Some("C++"@)
    } else if extension == "cs"@ {
        Some("C#"@)
    } else if extension == "f"@ {
        Some("Fortran"@)
    } else if extension == "for"@ {
        Some("Fortran"@)
    } else if extension == "f90"@ {
        Some("Fortran"@)
    } else if extension == "f95"@ {
        Some("Fortran"@)
    } else if extension == "gleam"@ {
        Some("Gleam"@)
    } else if extension == "go"@ {
        Some("Go"@)
    } else if extension == "lhs"@ {
        Some("Haskell"@)
    } else if extension == "hs"@ {
        Some("Haskell"@)
    } else if extension == "java"@ {
        Some("Java"@)
    } else if extension == "js"@ {
        Some("JavaScript"@)
    } else if extension == "mjs"@ {
        Some("JavaScript"@)
    } else if extension == "cjs"@ {
        Some("JavaScript"@)
    } else if extension == "jsx"@ {
        Some("JavaScript React"@)
    } else if extension == "kt"@ {
        Some("Kotlin"@)
    } else if extension == "lua"@ {
        Some("Lua"@)
    } else if extension == "m"@ {
        Some("MATLAB"@)
    } else if extension == "php"@ {
        Some("PHP"@)
    } else if extension == "py"@ {
        Some("Python"@)
    } else if extension == "r"@ {
        Some("R"@)
    } else if extension == "rb"@ {
        Some("Ruby"@)
    } else if extension == "rs"@ {
        Some("Rust"@)
    } else if extension == "sql"@ {
        Some("SQL"@)
    } else if extension == "svelte"@ {
        Some("Svelte"@)
    } else if extension == "swift"@ {
        Some("Swift"@)
    } else if extension == "ts"@ {
        Some("TypeScript"@)
    } else if extension == "tsx"@ {
        Some("TypeScript React"@)
    } else if extension == "v"@ {
        Some("V"@)
    } else if extension == "vue"@ {
        Some("Vue"@)
    } else if extension == "zig"@ {
        Some("Zig"@)
    } else {
        None
    }
}

/// The extension of a file name: what follows its last dot. A name without a dot has none.
pub open spec fn extension_of(name: Seq<char>) -> Option<Seq<char>> {
    match name.index_of_last('.') {
        Some(dot) => Some(name.skip(dot + 1)),
        None => None,
    }
}

/// The language of a file, told by the extension of its name.
pub open spec fn language_of_file(name: Seq<char>) -> Option<Seq<char>> {
    match extension_of(name) {
        Some(extension) => language_of_extension(extension),
        None => None,
    }
}

/// Looks an extension up in the table of languages.
pub fn language_for_extension(extension: &str) -> (language: Option<&'static str>)
    ensures
        match language {
            Some(name) => language_of_extension(extension@) == Some(name@),
            None => language_of_extension(extension@).is_none(),
        },
{
    if same_text(extension, "asm") {
        Some("Assembly")
    } else if same_text(extension, "bash") {
        Some("Bash")
    } else if same_text(extension, "c") {
        Some("C")
    } else if same_text(extension, "h") {
        Some("C")
    } else if same_text(extension, "cpp") {
        Some("C++")
    } else if same_text(extension, "c++") {
        Some("C++")
    } else if same_text(extension, "cxx") {
        Some("C++")
    } else if same_text(extension, "cc") {
        Some("C++")
    } else if same_text(extension, "hpp") {
        Some("C++")
    } else if same_text(extension, "hh") {
        Some("C++")
    } else if same_text(extension, "h++") {
        Some("C++")
    } else if same_text(extension, "hxx") {
        Some("C++")
    } else if same_text(extension, "cs") {
        Some("C#")
    } else if same_text(extension, "f") {
        Some("Fortran")
    } else if same_text(extension, "for") {
        Some("Fortran")
    } else if same_text(extension, "f90") {
        Some("Fortran")
    } else if same_text(extension, "f95") {
        Some("Fortran")
    } else if same_text(extension, "gleam") {
        Some("Gleam")
    } else if same_text(extension, "go") {
        Some("Go")
    } else if same_text(extension, "lhs") {
        Some("Haskell")
    } else if same_text(extension, "hs") {
        Some("Haskell")
    } else if same_text(extension, "java") {
        Some("Java")
    } else if same_text(extension, "js") {
        Some("JavaScript")
    } else if same_text(extension, "mjs") {
        Some("JavaScript")
    } else if same_text(extension, "cjs") {
        Some("JavaScript")
    } else if same_text(extension, "jsx") {
        Some("JavaScript React")
    } else if same_text(extension, "kt") {
        Some("Kotlin")
    } else if same_text(extension, "lua") {
        Some("Lua")
    } else if same_text(extension, "m") {
        Some("MATLAB")
    } else if same_text(extension, "php") {
        Some("PHP")
    } else if same_text(extension, "py") {
        Some("Python")
    } else if same_text(extension, "r") {
        Some("R")
    } else if same_text(extension, "rb") {
        Some("Ruby")
    } else if same_text(extension, "rs") {
        Some("Rust")
    } else if same_text(extension, "sql") {
        Some("SQL")
    } else if same_text(extension, "svelte") {
        Some("Svelte")
    } else if same_text(extension, "swift") {
        Some("Swift")
    } else if same_text(extension, "ts") {
        Some("TypeScript")
    } else if same_text(extension, "tsx") {
        Some("TypeScript React")
    } else if same_text(extension, "v") {
        Some("V")
    } else if same_text(extension, "vue") {
        Some("Vue")
    } else if same_text(extension, "zig") {
        Some("Zig")
    } else {
        None
    }
}

/// Cuts the extension off a file name.
pub fn extension(name: &str) -> (found: Option<&str>)
    ensures
        match found {
            Some(text) => extension_of(name@) == Some(text@),
            None => extension_of(name@).is_none(),
        },
{
    let length = name.unicode_len();
    let mut last: Option<usize> = None;
    let mut at: usize = 0;
    for letter in letters: name.chars()
        invariant
            at == letters.index(),
            letters.seq() == name@,
            length == name@.len(),
            match last {
                Some(dot) => dot < at && name@[dot as int] == '.' && forall|j: int|
                    dot < j < at ==> name@[j] != '.',
                None => forall|j: int| 0 <= j < at ==> name@[j] != '.',
            },
    {
        if letter == '.' {
            last = Some(at);
        }
        at += 1;
    }
    proof {
        name@.index_of_last_ensures('.');
    }
    match last {
        Some(dot) => {
            assert(name@.index_of_last('.') == Some(dot as int));
            Some(name.substring_char(dot + 1, length))
        },
        None => None,
    }
}

/// Tells the language of a file by the extension of its name.
pub fn language_for_file(name: &str) -> (language: Option<&'static str>)
    ensures
        match language {
            Some(found) => language_of_file(name@) == Some(found@),
            None => language_of_file(name@).is_none(),
        },
{
    match extension(name) {
        Some(text) => language_for_extension(text),
        None => None,
    }
}

} // verus!
