use vstd::prelude::*;
use crate::filter::{ignored_directories, is_dotfile, Filter, FilterData};
use crate::language::{language_for_file, language_of_file};

verus! {

/// What a directory entry is, links followed.
#[derive(Debug, Clone, Copy, PartialEq, Eq, Structural)]
pub enum EntryKind {
    File,
    Directory,
    /// Neither a file nor a directory, such as a link that leads nowhere.
    Other,
}

/// What a scan does with an entry, as mathematical values.
pub enum Course {
    /// Pass over the entry.
    Skip,
    /// Scan the directory in its turn.
    Descend,
    /// Count the file towards the language of this name.
    Count(Seq<char>),
}

/// What a scan does with an entry of the given name and kind.
///
/// An entry that the filter hides is passed over, whatever it is. A directory is descended
/// into unless the filter prunes it. A file is counted towards the language of its
/// extension, unless it has none or the filter excludes that language. Anything else is
/// passed over.
pub open spec fn course_of(filter: FilterData, name: Seq<char>, kind: EntryKind) -> Course {
    if filter.hides(name) {
        Course::Skip
    } else {
        match kind {
            EntryKind::Directory => if filter.prunes(name) {
                Course::Skip
            } else {
                Course::Descend
            },
            EntryKind::File => match language_of_file(name) {
                Some(language) => if filter.excludes(language) {
                    Course::Skip
                } else {
                    Course::Count(language)
                },
                None => Course::Skip,
            },
            EntryKind::Other => Course::Skip,
        }
    }
}

/// What a scan does with an entry.
#[derive(Debug, Clone, Copy, PartialEq, Eq)]
pub enum Action {
    /// Pass over the entry.
    Skip,
    /// Scan the directory in its turn.
    Descend,
    /// Count the file towards this language.
    Count(&'static str),
}

impl View for Action {
    type V = Course;

    open spec fn view(&self) -> Course {
        match self {
            Action::Skip => Course::Skip,
            Action::Descend => Course::Descend,
            Action::Count(language) => Course::Count(language@),
        }
    }
}

impl Filter {
    /// Decides what a scan does with an entry of the given name and kind.
    pub fn action(&self, name: &str, kind: EntryKind) -> (action: Action)
        ensures
            action@ == course_of(self@, name@, kind),
    {
        if self.hides(name) {
            return Action::Skip;
        }
        match kind {
            EntryKind::Directory => if self.prunes(name) {
                Action::Skip
            } else {
                Action::Descend
            },
            EntryKind::File => match language_for_file(name) {
                Some(language) => if self.excludes(language) {
                    Action::Skip
                } else {
                    Action::Count(language)
                },
                None => Action::Skip,
            },
            EntryKind::Other => Action::Skip,
        }
    }
}

/// An entry of a directory, as mathematical values.
pub struct EntryData {
    pub name: Seq<char>,
    pub path: Seq<char>,
    pub kind: EntryKind,
}

/// An entry of a directory that has been read.
#[derive(Debug, Clone)]
pub struct DirEntry {
    /// The name of the entry within its directory.
    pub name: String,
    /// The path that leads to the entry.
    pub path: String,
    pub kind: EntryKind,
}

impl View for DirEntry {
    type V = EntryData;

    open spec fn view(&self) -> EntryData {
        EntryData { name: self.name@, path: self.path@, kind: self.kind }
    }
}

impl DeepView for DirEntry {
    type V = EntryData;

    open spec fn deep_view(&self) -> EntryData {
        self@
    }
}

/// A file to count, as mathematical values.
pub struct SourceData {
    pub path: Seq<char>,
    pub language: Seq<char>,
}

/// A file that a scan has to measure and count towards a language.
#[derive(Debug, Clone)]
pub struct SourceFile {
    /// The path that leads to the file.
    pub path: String,
    /// The canonical name of the file's language.
    pub language: &'static str,
}

impl View for SourceFile {
    type V = SourceData;

    open spec fn view(&self) -> SourceData {
        SourceData { path: self.path@, language: self.language@ }
    }
}

impl DeepView for SourceFile {
    type V = SourceData;

    open spec fn deep_view(&self) -> SourceData {
        self@
    }
}

/// The path of an entry, if it is a directory that the scan descends into.
pub open spec fn descent(filter: FilterData) -> spec_fn(EntryData) -> Option<Seq<char>> {
    |entry: EntryData|
        match course_of(filter, entry.name, entry.kind) {
            Course::Descend => Some(entry.path),
            _ => None,
        }
}

/// An entry as a file to count, if it is one.
pub open spec fn source(filter: FilterData) -> spec_fn(EntryData) -> Option<SourceData> {
    |entry: EntryData|
        match course_of(filter, entry.name, entry.kind) {
            Course::Count(language) => Some(SourceData { path: entry.path, language }),
            _ => None,
        }
}

/// The paths of the directories, among the entries, that the scan descends into, in the
/// order of the entries.
pub open spec fn descents(filter: FilterData, entries: Seq<EntryData>) -> Seq<Seq<char>> {
    entries.filter_map(descent(filter))
}

/// The files, among the entries, that the scan counts, each with its language, in the order
/// of the entries.
pub open spec fn sources(filter: FilterData, entries: Seq<EntryData>) -> Seq<SourceData> {
    entries.filter_map(source(filter))
}

/// Dotfile filtering. An entry whose name begins with a dot is passed over as long as
/// dotfiles are not asked for and its own name is not asked for either. Once one of the
/// two is, the dot no longer counts: a file of a language that is not excluded is
/// counted, and a directory that is not pruned is descended into.
pub proof fn lemma_dotfile_filtering(filter: FilterData, name: Seq<char>, kind: EntryKind)
    requires
        is_dotfile(name),
    ensures
        !filter.include_dotfiles && !filter.included.contains(name) ==> course_of(
            filter,
            name,
            kind,
        ) == Course::Skip,
        filter.include_dotfiles || filter.included.contains(name) ==> (kind == EntryKind::Directory
            && !filter.prunes(name) ==> course_of(filter, name, kind) == Course::Descend),
        filter.include_dotfiles || filter.included.contains(name) ==> forall|language: Seq<char>|
            kind == EntryKind::File && language_of_file(name) == Some(language) && !filter.excludes(
                language,
            ) ==> course_of(filter, name, kind) == Course::Count(language),
{
}

/// Filtering of ignored directories. A directory that bears one of the ignored names is
/// passed over, and so nothing below it is ever reached, unless its name is asked for:
/// then it is descended into.
pub proof fn lemma_ignored_directory_filtering(filter: FilterData, name: Seq<char>)
    requires
        ignored_directories().contains(name),
    ensures
        !filter.included.contains(name) ==> course_of(filter, name, EntryKind::Directory)
            == Course::Skip,
        filter.included.contains(name) ==> course_of(filter, name, EntryKind::Directory)
            == Course::Descend,
{
}

/// Exclusion. No entry is ever counted towards an excluded language, whatever its name
/// and kind.
pub proof fn lemma_excluded_language_never_counted(
    filter: FilterData,
    name: Seq<char>,
    kind: EntryKind,
    language: Seq<char>,
)
    requires
        filter.excludes(language),
    ensures
        course_of(filter, name, kind) != Course::Count(language),
{
}

/// Exclusion, for a whole directory. None of the files that a scan finds to count is of
/// an excluded language, and each is of the language of its own name.
pub proof fn lemma_sources_not_excluded(filter: FilterData, entries: Seq<EntryData>, i: int)
    requires
        0 <= i < sources(filter, entries).len(),
    ensures
        !filter.excludes(sources(filter, entries)[i].language),
        exists|j: int|
            0 <= j < entries.len() && (#[trigger] entries[j]).kind == EntryKind::File
                && entries[j].path == sources(filter, entries)[i].path && language_of_file(
                entries[j].name,
            ) == Some(sources(filter, entries)[i].language),
{
    let found = sources(filter, entries);
    assert(found.contains(found[i]));
    entries.lemma_filter_map_contains(source(filter), found[i]);
    let entry = choose|entry: EntryData| #[trigger]
        entries.contains(entry) && source(filter)(entry) == Some(found[i]);
    let j = choose|j: int| 0 <= j < entries.len() && entries[j] == entry;
    assert(entries[j].kind == EntryKind::File);
}

/// Goes through the entries of one directory. The directories to descend into are added to
/// those that wait to be scanned; the files to count are returned, each with its language.
/// Everything else is passed over.
pub fn analyze_directory(entries: &Vec<DirEntry>, filter: &Filter, pending: &mut Vec<String>) -> (found:
    Vec<SourceFile>)
    ensures
        final(pending).deep_view() == old(pending).deep_view() + descents(
            filter@,
            entries.deep_view(),
        ),
        found.deep_view() == sources(filter@, entries.deep_view()),
{
    let ghost listing = entries.deep_view();
    let ghost waiting = pending.deep_view();
    let mut found: Vec<SourceFile> = Vec::new();
    let mut i: usize = 0;
    assert(pending.deep_view() =~= waiting + descents(filter@, listing.take(0)));
    assert(found.deep_view() =~= sources(filter@, listing.take(0)));
    while i < entries.len()
        invariant
            i <= entries.len(),
            listing == entries.deep_view(),
            pending.deep_view() == waiting + descents(filter@, listing.take(i as int)),
            found.deep_view() == sources(filter@, listing.take(i as int)),
        decreases entries.len() - i,
    {
        let entry = &entries[i];
        proof {
            listing.lemma_filter_map_take_succ(descent(filter@), i as int);
            listing.lemma_filter_map_take_succ(source(filter@), i as int);
            assert(listing[i as int] == entry@);
        }
        let ghost waited = pending.deep_view();
        let ghost sought = found.deep_view();
        match filter.action(entry.name.as_str(), entry.kind) {
            Action::Skip => {},
            Action::Descend => {
                pending.push(entry.path.clone());
                assert(pending.deep_view() =~= waited + seq![entry.path@]);
            },
            Action::Count(language) => {
                found.push(SourceFile { path: entry.path.clone(), language });
                assert(found.deep_view() =~= sought + seq![
                    SourceData { path: entry.path@, language: language@ },
                ]);
            },
        }
        i += 1;
    }
    assert(listing.take(i as int) =~= listing);
    found
}

} // verus!
