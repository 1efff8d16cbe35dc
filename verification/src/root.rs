use vstd::prelude::*;
use crate::filter::Filter;

verus! {

/// The number of root indicators.
pub const ROOT_INDICATOR_COUNT: usize = 15;

/// The names whose presence in a directory marks it as the root of a project, in the order
/// in which they are looked for.
pub open spec fn root_indicator(k: int) -> &'static str {
    if k == 0 {
        ".git"
    } else if k == 1 {
        ".gitignore"
    } else if k == 2 {
        "node_modules"
    } else if k == 3 {
        "Cargo.toml"
    } else if k == 4 {
        "build.zig"
    } else if k == 5 {
        "pyproject.toml"
    } else if k == 6 {
        ".luarc.json"
    } else if k == 7 {
        "tsconfig.json"
    } else if k == 8 {
        ".prettierrc"
    } else if k == 9 {
        ".prettierrc.json"
    } else if k == 10 {
        ".prettierrc.toml"
    } else if k == 11 {
        "README.md"
    } else if k == 12 {
        "README"
    } else if k == 13 {
        "LICENSE"
    } else {
        "index.html"
    }
}

/// The name of the root indicator at a place of the list.
pub fn root_indicator_at(k: usize) -> (name: &'static str)
    requires
        k < ROOT_INDICATOR_COUNT,
    ensures
        name == root_indicator(k as int),
{
    if k == 0 {
        ".git"
    } else if k == 1 {
        ".gitignore"
    } else if k == 2 {
        "node_modules"
    } else if k == 3 {
        "Cargo.toml"
    } else if k == 4 {
        "build.zig"
    } else if k == 5 {
        "pyproject.toml"
    } else if k == 6 {
        ".luarc.json"
    } else if k == 7 {
        "tsconfig.json"
    } else if k == 8 {
        ".prettierrc"
    } else if k == 9 {
        ".prettierrc.json"
    } else if k == 10 {
        ".prettierrc.toml"
    } else if k == 11 {
        "README.md"
    } else if k == 12 {
        "README"
    } else if k == 13 {
        "LICENSE"
    } else {
        "index.html"
    }
}

/// Whether the probe has found a root indicator in the directory.
pub open spec fn marked<F: Fn(&String, &str) -> bool>(probe: F, directory: String) -> bool {
    exists|k: int|
        0 <= k < ROOT_INDICATOR_COUNT && call_ensures(probe, (&directory, #[trigger] root_indicator(k)), true)
}

/// Whether the probe has found none of the root indicators in the directory.
pub open spec fn unmarked<F: Fn(&String, &str) -> bool>(probe: F, directory: String) -> bool {
    forall|k: int|
        0 <= k < ROOT_INDICATOR_COUNT ==> call_ensures(
            probe,
            (&directory, #[trigger] root_indicator(k)),
            false,
        )
}

/// Whether `root` is the outcome of the search: the first of the directories in which the
/// probe has found a root indicator, having found none in those before it; or nothing,
/// the probe having found none in any of them.
pub open spec fn is_root_among<F: Fn(&String, &str) -> bool>(
    probe: F,
    directories: Seq<String>,
    root: Option<String>,
) -> bool {
    match root {
        Some(found) => exists|i: int|
            0 <= i < directories.len() && found == #[trigger] directories[i] && marked(
                probe,
                directories[i],
            ) && forall|j: int| 0 <= j < i ==> unmarked(probe, #[trigger] directories[j]),
        None => forall|j: int|
            0 <= j < directories.len() ==> unmarked(probe, #[trigger] directories[j]),
    }
}

/// Whether a directory holds a root indicator, by a relation that says what each directory
/// holds.
pub open spec fn holds_indicator(holds: spec_fn(String, &'static str) -> bool, directory: String) -> bool {
    exists|k: int| 0 <= k < ROOT_INDICATOR_COUNT && holds(directory, #[trigger] root_indicator(k))
}

/// Root discovery. Where the probe answers by what the directories hold, the outcome of
/// the search is the nearest directory that holds a root indicator, however far up it
/// lies; and where none of the directories holds one, the outcome is nothing.
pub proof fn lemma_root_is_nearest<F: Fn(&String, &str) -> bool>(
    probe: F,
    holds: spec_fn(String, &'static str) -> bool,
    directories: Seq<String>,
    root: Option<String>,
)
    requires
        is_root_among(probe, directories, root),
        forall|directory: String, name: &'static str, answer: bool|
            call_ensures(probe, (&directory, name), answer) ==> answer == holds(directory, name),
    ensures
        match root {
            Some(found) => exists|i: int|
                0 <= i < directories.len() && found == #[trigger] directories[i]
                    && holds_indicator(holds, directories[i]) && forall|j: int|
                    0 <= j < i ==> !holds_indicator(holds, #[trigger] directories[j]),
            None => forall|j: int|
                0 <= j < directories.len() ==> !holds_indicator(holds, #[trigger] directories[j]),
        },
{
    assert forall|directory: String| unmarked(probe, directory) implies !holds_indicator(
        holds,
        directory,
    ) by {
        if holds_indicator(holds, directory) {
            let k = choose|k: int|
                0 <= k < ROOT_INDICATOR_COUNT && holds(directory, #[trigger] root_indicator(k));
            assert(call_ensures(probe, (&directory, root_indicator(k)), false));
        }
    }
    assert forall|directory: String| marked(probe, directory) implies holds_indicator(
        holds,
        directory,
    ) by {
        let k = choose|k: int|
            0 <= k < ROOT_INDICATOR_COUNT && call_ensures(
                probe,
                (&directory, #[trigger] root_indicator(k)),
                true,
            );
        assert(holds(directory, root_indicator(k)));
    }
    match root {
        Some(found) => {
            let i = choose|i: int|
                0 <= i < directories.len() && found == #[trigger] directories[i] && marked(
                    probe,
                    directories[i],
                ) && forall|j: int| 0 <= j < i ==> unmarked(probe, #[trigger] directories[j]);
            assert(holds_indicator(holds, directories[i]));
        },
        None => {},
    }
}

/// Finds the root of the project that a directory lies in.
///
/// `directories` holds the directory and its ancestors, nearest first. `contains` tells
/// whether a directory holds an entry of a given name; it is asked about each root
/// indicator in turn, directory by directory, until it says yes. That directory is the
/// root. When it has said no to everything, there is no root.
pub fn get_root_dir<F: Fn(&String, &str) -> bool>(directories: &Vec<String>, contains: F) -> (root:
    Option<String>)
    requires
        forall|directory: &String, name: &str| call_requires(contains, (directory, name)),
    ensures
        is_root_among(contains, directories@, root),
{
    let mut i: usize = 0;
    while i < directories.len()
        invariant
            i <= directories.len(),
            forall|directory: &String, name: &str| call_requires(contains, (directory, name)),
            forall|j: int| 0 <= j < i ==> unmarked(contains, #[trigger] directories@[j]),
        decreases directories.len() - i,
    {
        let directory = &directories[i];
        let mut k: usize = 0;
        while k < ROOT_INDICATOR_COUNT
            invariant
                k <= ROOT_INDICATOR_COUNT,
                i < directories.len(),
                directory == directories@[i as int],
                forall|directory: &String, name: &str| call_requires(contains, (directory, name)),
                forall|j: int| 0 <= j < i ==> unmarked(contains, #[trigger] directories@[j]),
                forall|m: int|
                    0 <= m < k ==> call_ensures(
                        contains,
                        (directory, #[trigger] root_indicator(m)),
                        false,
                    ),
            decreases ROOT_INDICATOR_COUNT - k,
        {
            if contains(directory, root_indicator_at(k)) {
                let root = directory.clone();
                assert(marked(contains, directories@[i as int])) by {
                    assert(call_ensures(contains, (directory, root_indicator(k as int)), true));
                }
                assert(root == directories@[i as int]);
                return Some(root);
            }
            k += 1;
        }
        i += 1;
    }
    None
}

/// Searches for the root of the project, unless the search is switched off: then there is
/// no root to report, and nothing is asked of `contains`.
pub fn discover_root<F: Fn(&String, &str) -> bool>(
    filter: &Filter,
    directories: &Vec<String>,
    contains: F,
) -> (root: Option<String>)
    requires
        forall|directory: &String, name: &str| call_requires(contains, (directory, name)),
    ensures
        filter.here ==> root.is_none(),
        !filter.here ==> is_root_among(contains, directories@, root),
{
    if filter.here {
        None
    } else {
        get_root_dir(directories, contains)
    }
}

} // verus!
