use vstd::prelude::*;
use crate::text::{first_equal, lowercase, same_text, to_lowercase};

verus! {

/// A language record as mathematical values: what [`LanguageInfo`] stands for.
pub struct LanguageData {
    pub name: Seq<char>,
    pub files: Seq<Seq<char>>,
    pub lines: nat,
    pub bytes: nat,
}

/// One file that has been classified and measured.
pub struct FileCount {
    pub language: Seq<char>,
    pub path: Seq<char>,
    pub lines: nat,
    pub bytes: nat,
}

impl LanguageData {
    /// The record of a language of which no file has been seen.
    pub open spec fn empty(name: Seq<char>) -> LanguageData {
        LanguageData { name, files: Seq::empty(), lines: 0, bytes: 0 }
    }

    /// The record after one more file of its language.
    pub open spec fn with_file(self, file: FileCount) -> LanguageData {
        LanguageData {
            name: self.name,
            files: self.files.push(file.path),
            lines: self.lines + file.lines,
            bytes: self.bytes + file.bytes,
        }
    }
}

/// Information about a programming language within some directory context.
#[derive(Debug, Clone, PartialEq, Eq)]
pub struct LanguageInfo {
    /// The canonical name of the language.
    pub name: &'static str,
    /// The absolute paths of the files of this language, in the order they were recorded.
    pub files: Vec<String>,
    /// The number of lines of this language.
    pub lines: u32,
    /// The number of bytes of this language.
    pub bytes: u64,
}

impl View for LanguageInfo {
    type V = LanguageData;

    open spec fn view(&self) -> LanguageData {
        LanguageData {
            name: self.name@,
            files: self.files.deep_view(),
            lines: self.lines as nat,
            bytes: self.bytes as nat,
        }
    }
}

impl DeepView for LanguageInfo {
    type V = LanguageData;

    open spec fn deep_view(&self) -> LanguageData {
        self@
    }
}

impl LanguageInfo {
    /// Creates the record of a language with no file counted yet.
    pub fn new(name: &'static str) -> (info: LanguageInfo)
        ensures
            info@ == LanguageData::empty(name@),
    {
        let info = LanguageInfo { name, files: Vec::new(), lines: 0, bytes: 0 };
        assert(info.files.deep_view() =~= Seq::<Seq<char>>::empty());
        info
    }
}

/// The names of the records, in order.
pub open spec fn names(list: Seq<LanguageData>) -> Seq<Seq<char>> {
    list.map_values(|record: LanguageData| record.name)
}

/// The list after one more file has been counted: the first record of the file's language
/// grows by it; where there is none, a record of that language is added at the end.
pub open spec fn record_file(list: Seq<LanguageData>, file: FileCount) -> Seq<LanguageData> {
    match names(list).index_of_first(file.language) {
        Some(i) => list.update(i, list[i].with_file(file)),
        None => list.push(LanguageData::empty(file.language).with_file(file)),
    }
}

/// The count that has no room for one more file.
#[derive(Debug, Clone, Copy, PartialEq, Eq)]
pub enum Overflow {
    /// The language's line count would pass `u32::MAX`.
    Lines,
    /// The language's byte count would pass `u64::MAX`.
    Bytes,
}

/// Which count of the list, if any, has no room for the file.
pub open spec fn overflow_of(list: Seq<LanguageData>, file: FileCount) -> Option<Overflow> {
    match names(list).index_of_first(file.language) {
        Some(i) => if list[i].lines + file.lines > u32::MAX {
            Some(Overflow::Lines)
        } else if list[i].bytes + file.bytes > u64::MAX {
            Some(Overflow::Bytes)
        } else {
            None
        },
        None => None,
    }
}

/// Counting a file leaves the names of the records distinct.
pub proof fn lemma_record_file_keeps_names_distinct(list: Seq<LanguageData>, file: FileCount)
    requires
        names(list).no_duplicates(),
    ensures
        names(record_file(list, file)).no_duplicates(),
{
    names(list).index_of_first_ensures(file.language);
    match names(list).index_of_first(file.language) {
        Some(i) => {
            assert(names(record_file(list, file)) =~= names(list));
        },
        None => {
            assert(names(record_file(list, file)) =~= names(list).push(file.language));
        },
    }
}

/// The list that counting the files one after the other gives, starting from none.
pub open spec fn aggregate(files: Seq<FileCount>) -> Seq<LanguageData>
    decreases files.len(),
{
    if files.len() == 0 {
        Seq::empty()
    } else {
        record_file(aggregate(files.drop_last()), files.last())
    }
}

/// Whether a file is of the given language.
pub open spec fn of_language(language: Seq<char>) -> spec_fn(FileCount) -> bool {
    |file: FileCount| file.language == language
}

/// The record that files of one language amount to: their paths in order, and the sums of
/// their lines and of their bytes.
pub open spec fn summary(language: Seq<char>, files: Seq<FileCount>) -> LanguageData
    decreases files.len(),
{
    if files.len() == 0 {
        LanguageData::empty(language)
    } else {
        summary(language, files.drop_last()).with_file(files.last())
    }
}

/// Completeness of the count. However the files of several languages follow one another,
/// the list holds one record for each language that has a file, and none for any other;
/// no two records share a name; and the record of a language holds the paths of exactly
/// the files of that language, in their order, and the sums of their lines and bytes:
/// each file is counted once, towards its own language.
pub proof fn lemma_aggregate_complete(files: Seq<FileCount>, language: Seq<char>)
    ensures
        names(aggregate(files)).no_duplicates(),
        files.filter(of_language(language)).len() == 0 ==> !names(aggregate(files)).contains(
            language,
        ),
        files.filter(of_language(language)).len() > 0 ==> aggregate(files).contains(
            summary(language, files.filter(of_language(language))),
        ),
    decreases files.len(),
{
    let list = aggregate(files);
    let part = files.filter(of_language(language));
    if files.len() == 0 {
        files.lemma_filter_len(of_language(language));
    } else {
        let file = files.last();
        let rest = files.drop_last();
        let before = aggregate(rest);
        let part_before = rest.filter(of_language(language));
        assert(files =~= rest.push(file));
        rest.lemma_filter_push(file, of_language(language));
        lemma_aggregate_complete(rest, language);
        lemma_aggregate_complete(rest, file.language);
        lemma_summary_name(language, part_before);
        names(before).index_of_first_ensures(file.language);
        match names(before).index_of_first(file.language) {
            Some(i) => {
                assert(names(list) =~= names(before));
                if language == file.language {
                    assert(names(before)[i] == language);
                    assert(part_before.len() > 0);
                    let j = choose|j: int|
                        0 <= j < before.len() && before[j] == summary(language, part_before);
                    assert(names(before)[j] == language);
                    assert(j == i);
                    assert(part.drop_last() =~= part_before);
                    assert(list[i] == summary(language, part));
                } else if part.len() > 0 {
                    let j = choose|j: int|
                        0 <= j < before.len() && before[j] == summary(language, part_before);
                    assert(names(before)[j] == language);
                    assert(list[j] == summary(language, part));
                }
            },
            None => {
                assert(names(list) =~= names(before).push(file.language));
                if language == file.language {
                    if part_before.len() > 0 {
                        let j = choose|j: int|
                            0 <= j < before.len() && before[j] == summary(language, part_before);
                        assert(names(before)[j] == language);
                    }
                    assert(part_before =~= Seq::<FileCount>::empty());
                    assert(part.drop_last() =~= part_before);
                    assert(list[before.len() as int] == summary(language, part));
                } else if part.len() > 0 {
                    let j = choose|j: int|
                        0 <= j < before.len() && before[j] == summary(language, part_before);
                    assert(list[j] == summary(language, part));
                }
            },
        }
    }
}

/// The name that a summary bears.
proof fn lemma_summary_name(language: Seq<char>, files: Seq<FileCount>)
    ensures
        summary(language, files).name == language,
    decreases files.len(),
{
    if files.len() > 0 {
        lemma_summary_name(language, files.drop_last());
    }
}

/// The lowercase forms of the names of the records, in order.
pub open spec fn lowercase_names(list: Seq<LanguageData>) -> Seq<Seq<char>> {
    list.map_values(|record: LanguageData| lowercase(record.name))
}

/// The files of the record that stands where `key` first stands among `keys`; no files
/// where `key` is not among them.
pub open spec fn files_at_key(list: Seq<LanguageData>, keys: Seq<Seq<char>>, key: Seq<char>) -> Seq<
    Seq<char>,
> {
    match keys.index_of_first(key) {
        Some(i) => if i < list.len() {
            list[i].files
        } else {
            Seq::empty()
        },
        None => Seq::empty(),
    }
}

/// The files of the language that a query names, letter case set aside: those of the first
/// record whose name has the same lowercase form as the query.
pub open spec fn files_of(list: Seq<LanguageData>, query: Seq<char>) -> Seq<Seq<char>> {
    files_at_key(list, lowercase_names(list), lowercase(query))
}

/// Exactness of the search, for a language of the list. Where a record's name and the query
/// have the same lowercase form, and no earlier record's name has it, the search finds
/// exactly the files of that record.
pub proof fn lemma_find_known(list: Seq<LanguageData>, query: Seq<char>, i: int)
    requires
        0 <= i < list.len(),
        lowercase(list[i].name) == lowercase(query),
        forall|j: int| 0 <= j < i ==> lowercase(list[j].name) != lowercase(query),
    ensures
        files_of(list, query) == list[i].files,
{
    let keys = lowercase_names(list);
    keys.index_of_first_ensures(lowercase(query));
    assert(keys[i] == lowercase(query));
    let first = keys.index_of_first(lowercase(query)).unwrap();
    if first < i {
        assert(keys[first] == lowercase(list[first].name));
    }
}

/// Exactness of the search, for a language that the list does not hold. Where no record's
/// name has the lowercase form of the query, the search finds no files.
pub proof fn lemma_find_unknown(list: Seq<LanguageData>, query: Seq<char>)
    requires
        forall|j: int| 0 <= j < list.len() ==> lowercase(#[trigger] list[j].name) != lowercase(query),
    ensures
        files_of(list, query) == Seq::<Seq<char>>::empty(),
{
    let keys = lowercase_names(list);
    keys.index_of_first_ensures(lowercase(query));
    if keys.contains(lowercase(query)) {
        let j = choose|j: int| 0 <= j < keys.len() && keys[j] == lowercase(query);
        assert(keys[j] == lowercase(list[j].name));
    }
}

/// Whether no record holds more bytes than one that stands before it.
pub open spec fn by_descending_bytes(list: Seq<LanguageData>) -> bool {
    forall|i: int, j: int| 0 <= i <= j < list.len() ==> list[i].bytes >= list[j].bytes
}

/// Whether a record holds exactly the given number of bytes.
pub open spec fn holds_bytes(bytes: nat) -> spec_fn(LanguageData) -> bool {
    |record: LanguageData| record.bytes == bytes
}

/// The records that hold exactly the given number of bytes, in the order of the list.
pub open spec fn of_size(list: Seq<LanguageData>, bytes: nat) -> Seq<LanguageData> {
    list.filter(holds_bytes(bytes))
}

/// The order that sorting gives is the only one of its kind: two lists in order of
/// descending bytes, in which the records of each size are the same and stand in the same
/// order, are one and the same list.
pub proof fn lemma_sorted_order_is_unique(a: Seq<LanguageData>, b: Seq<LanguageData>)
    requires
        by_descending_bytes(a),
        by_descending_bytes(b),
        forall|bytes: nat| #[trigger] of_size(a, bytes) == of_size(b, bytes),
    ensures
        a == b,
    decreases a.len(),
{
    if a.len() == 0 || b.len() == 0 {
        if a.len() > 0 {
            a.lemma_filter_contains(holds_bytes(a[0].bytes), 0);
            b.lemma_filter_len(holds_bytes(a[0].bytes));
            assert(of_size(a, a[0].bytes) == of_size(b, a[0].bytes));
        }
        if b.len() > 0 {
            b.lemma_filter_contains(holds_bytes(b[0].bytes), 0);
            a.lemma_filter_len(holds_bytes(b[0].bytes));
            assert(of_size(a, b[0].bytes) == of_size(b, b[0].bytes));
        }
        assert(a =~= b);
    } else {
        let x = a.last();
        let y = b.last();
        let front = a.drop_last();
        let back = b.drop_last();
        assert(a =~= front.push(x));
        assert(b =~= back.push(y));
        assert(x.bytes >= y.bytes) by {
            a.lemma_filter_contains(holds_bytes(x.bytes), a.len() - 1);
            assert(of_size(a, x.bytes) == of_size(b, x.bytes));
            b.lemma_filter_contains_rev(holds_bytes(x.bytes), x);
            let j = choose|j: int| 0 <= j < b.len() && b[j] == x;
            assert(b[j].bytes >= b[b.len() - 1].bytes);
        }
        assert(y.bytes >= x.bytes) by {
            b.lemma_filter_contains(holds_bytes(y.bytes), b.len() - 1);
            assert(of_size(a, y.bytes) == of_size(b, y.bytes));
            a.lemma_filter_contains_rev(holds_bytes(y.bytes), y);
            let j = choose|j: int| 0 <= j < a.len() && a[j] == y;
            assert(a[j].bytes >= a[a.len() - 1].bytes);
        }
        assert forall|bytes: nat| #[trigger] of_size(front, bytes) == of_size(back, bytes) by {
            front.lemma_filter_push(x, holds_bytes(bytes));
            back.lemma_filter_push(y, holds_bytes(bytes));
            assert(of_size(a, bytes) == of_size(b, bytes));
            if bytes == x.bytes {
                assert(of_size(front, bytes).push(x).drop_last() =~= of_size(front, bytes));
                assert(of_size(back, bytes).push(y).drop_last() =~= of_size(back, bytes));
            }
        }
        assert(x == y) by {
            front.lemma_filter_push(x, holds_bytes(x.bytes));
            back.lemma_filter_push(y, holds_bytes(x.bytes));
            assert(of_size(a, x.bytes) == of_size(b, x.bytes));
            assert(of_size(front, x.bytes).push(x).last() == x);
            assert(of_size(back, x.bytes).push(y).last() == y);
        }
        assert(by_descending_bytes(front)) by {
            assert forall|i: int, j: int| 0 <= i <= j < front.len() implies front[i].bytes
                >= front[j].bytes by {
                assert(front[i] == a[i] && front[j] == a[j]);
            }
        }
        assert(by_descending_bytes(back)) by {
            assert forall|i: int, j: int| 0 <= i <= j < back.len() implies back[i].bytes
                >= back[j].bytes by {
                assert(back[i] == b[i] && back[j] == b[j]);
            }
        }
        lemma_sorted_order_is_unique(front, back);
    }
}

/// Moving an element towards the front, past elements that a predicate rejects or while
/// it is itself rejected, leaves the elements that the predicate accepts in their order.
proof fn lemma_move_keeps_filter<T>(s: Seq<T>, from: int, to: int, pred: spec_fn(T) -> bool)
    requires
        0 <= to <= from < s.len(),
        pred(s[from]) ==> forall|j: int| to <= j < from ==> !pred(s[j]),
    ensures
        s.remove(from).insert(to, s[from]).filter(pred) == s.filter(pred),
{
    let head = s.subrange(0, to);
    let passed = s.subrange(to, from);
    let moved = seq![s[from]];
    let tail = s.subrange(from + 1, s.len() as int);
    assert(s =~= head + passed + moved + tail);
    assert(s.remove(from).insert(to, s[from]) =~= head + moved + passed + tail);
    Seq::filter_distributes_over_add(head + passed + moved, tail, pred);
    Seq::filter_distributes_over_add(head + passed, moved, pred);
    Seq::filter_distributes_over_add(head, passed, pred);
    Seq::filter_distributes_over_add(head + moved + passed, tail, pred);
    Seq::filter_distributes_over_add(head + moved, passed, pred);
    Seq::filter_distributes_over_add(head, moved, pred);
    if pred(s[from]) {
        assert(passed.all(|x: T| !pred(x)));
        passed.lemma_all_neg_filter_empty(pred);
        assert(passed.filter(pred) =~= Seq::<T>::empty());
        assert(head.filter(pred) + moved.filter(pred) + passed.filter(pred) =~= head.filter(pred)
            + passed.filter(pred) + moved.filter(pred));
    } else {
        assert(moved.all(|x: T| !pred(x)));
        moved.lemma_all_neg_filter_empty(pred);
        assert(moved.filter(pred) =~= Seq::<T>::empty());
        assert(head.filter(pred) + moved.filter(pred) + passed.filter(pred) =~= head.filter(pred)
            + passed.filter(pred) + moved.filter(pred));
    }
}

/// Moving a record to another place leaves the names of the records distinct.
proof fn lemma_move_keeps_names_distinct(list: Seq<LanguageData>, from: int, to: int)
    requires
        0 <= to <= from < list.len(),
        names(list).no_duplicates(),
    ensures
        names(list.remove(from).insert(to, list[from])).no_duplicates(),
{
    let moved = list.remove(from).insert(to, list[from]);
    let origin = |a: int|
        if a < to {
            a
        } else if a == to {
            from
        } else if a <= from {
            a - 1
        } else {
            a
        };
    assert forall|a: int, b: int| 0 <= a < moved.len() && 0 <= b < moved.len() && a != b implies names(
        moved,
    )[a] != names(moved)[b] by {
        assert(moved[a] == list[origin(a)]);
        assert(moved[b] == list[origin(b)]);
        assert(names(list)[origin(a)] != names(list)[origin(b)]);
    }
}

/// The languages found by one scan, each with its totals.
#[derive(Debug, Clone)]
pub struct LanguageList {
    languages: Vec<LanguageInfo>,
}

impl View for LanguageList {
    type V = Seq<LanguageData>;

    closed spec fn view(&self) -> Seq<LanguageData> {
        self.languages.deep_view()
    }
}

impl Default for LanguageList {
    /// The list that holds no language.
    fn default() -> (list: LanguageList)
        ensures
            list@ == Seq::<LanguageData>::empty(),
            list.wf(),
    {
        LanguageList::new()
    }
}

impl LanguageList {
    /// Whether the list is well formed: no two of its records share a name.
    pub open spec fn wf(&self) -> bool {
        names(self@).no_duplicates()
    }

    /// Creates a list that holds no language.
    pub fn new() -> (list: LanguageList)
        ensures
            list@ == Seq::<LanguageData>::empty(),
            list.wf(),
    {
        let list = LanguageList { languages: Vec::new() };
        assert(list@ =~= Seq::<LanguageData>::empty());
        list
    }

    /// The place of the first record of a language.
    fn position(&self, language: &str) -> (found: Option<usize>)
        ensures
            match found {
                Some(i) => names(self@).index_of_first(language@) == Some(i as int) && i
                    < self@.len(),
                None => names(self@).index_of_first(language@).is_none(),
            },
    {
        let ghost all = names(self@);
        let mut i: usize = 0;
        while i < self.languages.len()
            invariant
                i <= self.languages.len(),
                all == names(self@),
                forall|j: int| 0 <= j < i ==> all[j] != language@,
            decreases self.languages.len() - i,
        {
            if same_text(self.languages[i].name, language) {
                proof {
                    assert(all[i as int] == language@);
                    all.index_of_first_ensures(language@);
                }
                return Some(i);
            }
            i += 1;
        }
        proof {
            all.index_of_first_ensures(language@);
        }
        None
    }

    /// Counts one file towards its language: the language's lines and bytes grow by the
    /// file's, and the path joins its files. A language seen for the first time gets a new
    /// record at the end of the list. Where a count has no room left, nothing changes.
    pub fn add_file(&mut self, language: &'static str, lines: u32, bytes: u64, path: String) -> (added:
        Result<(), Overflow>)
        ensures
            ({
                let file = FileCount {
                    language: language@,
                    path: path@,
                    lines: lines as nat,
                    bytes: bytes as nat,
                };
                match added {
                    Ok(_) => overflow_of(old(self)@, file).is_none() && final(self)@
                        == record_file(old(self)@, file),
                    Err(count) => overflow_of(old(self)@, file) == Some(count) && final(self)@
                        == old(self)@,
                }
            }),
            old(self).wf() ==> final(self).wf(),
    {
        let ghost file = FileCount {
            language: language@,
            path: path@,
            lines: lines as nat,
            bytes: bytes as nat,
        };
        proof {
            if old(self).wf() {
                lemma_record_file_keeps_names_distinct(old(self)@, file);
            }
        }
        match self.position(language) {
            Some(i) => {
                let info = &mut self.languages[i];
                if lines > u32::MAX - info.lines {
                    assert(self@ =~= old(self)@);
                    return Err(Overflow::Lines);
                }
                if bytes > u64::MAX - info.bytes {
                    assert(self@ =~= old(self)@);
                    return Err(Overflow::Bytes);
                }
                info.lines = info.lines + lines;
                info.bytes = info.bytes + bytes;
                info.files.push(path);
                proof {
                    let before = old(self).languages@[i as int];
                    let after = self.languages@[i as int];
                    assert(after.files.deep_view() =~= before.files.deep_view().push(path@));
                    assert(after@ == before@.with_file(file));
                    assert(self@ =~= old(self)@.update(i as int, after@));
                }
            },
            None => {
                let mut info = LanguageInfo::new(language);
                info.lines = lines;
                info.bytes = bytes;
                info.files.push(path);
                proof {
                    assert(info.files.deep_view() =~= seq![path@]);
                    assert(info@ == LanguageData::empty(language@).with_file(file));
                }
                self.languages.push(info);
                assert(self@ =~= old(self)@.push(info@));
            },
        }
        Ok(())
    }

    /// Orders the records by descending byte count. Records of equal byte count keep the
    /// order in which they stood.
    pub fn sort(&mut self)
        ensures
            by_descending_bytes(final(self)@),
            forall|bytes: nat| #[trigger]
                of_size(final(self)@, bytes) == of_size(old(self)@, bytes),
            final(self)@.to_multiset() == old(self)@.to_multiset(),
            final(self)@.len() == old(self)@.len(),
            old(self).wf() ==> final(self).wf(),
    {
        let n = self.languages.len();
        let mut i: usize = 0;
        while i < n
            invariant
                self.languages.len() == n,
                i <= n,
                by_descending_bytes(self@.take(i as int)),
                forall|bytes: nat| #[trigger] of_size(self@, bytes) == of_size(old(self)@, bytes),
                self@.to_multiset() == old(self)@.to_multiset(),
                old(self).wf() ==> self.wf(),
            decreases n - i,
        {
            let ghost before = self@;
            let record = self.languages.remove(i);
            let ghost rest = self@;
            assert(rest =~= before.remove(i as int));
            let mut to: usize = 0;
            while to < i && self.languages[to].bytes >= record.bytes
                invariant
                    to <= i < n,
                    self.languages.len() == n - 1,
                    self@ == rest,
                    forall|j: int| 0 <= j < to ==> rest[j].bytes >= record.bytes,
                decreases i - to,
            {
                to += 1;
            }
            self.languages.insert(to, record);
            proof {
                let after = self@;
                assert(after =~= rest.insert(to as int, record@));
                assert(record@ == before[i as int]);
                assert forall|bytes: nat| #[trigger]
                    of_size(after, bytes) == of_size(old(self)@, bytes) by {
                    assert forall|j: int| to <= j < i implies before[j].bytes < record.bytes by {
                        assert(before.take(i as int)[to as int] == before[to as int]);
                        assert(before.take(i as int)[j] == before[j]);
                        assert(rest[to as int] == before[to as int]);
                    }
                    lemma_move_keeps_filter(before, i as int, to as int, holds_bytes(bytes));
                    assert(of_size(before, bytes) == of_size(old(self)@, bytes));
                }
                assert(by_descending_bytes(after.take(i + 1))) by {
                    let sorted = after.take(i + 1);
                    let prefix = before.take(i as int);
                    assert forall|a: int, b: int| 0 <= a <= b < sorted.len() implies sorted[a].bytes
                        >= sorted[b].bytes by {
                        if b < to {
                            assert(sorted[a] == prefix[a] && sorted[b] == prefix[b]);
                        } else if b == to {
                            if a < to {
                                assert(sorted[a] == rest[a]);
                            }
                        } else {
                            assert(sorted[b] == prefix[b - 1]);
                            assert(rest[to as int] == prefix[to as int]);
                            if a < to {
                                assert(sorted[a] == prefix[a]);
                            } else if a == to {
                                assert(prefix[to as int].bytes >= prefix[b - 1].bytes);
                            } else {
                                assert(sorted[a] == prefix[a - 1]);
                            }
                        }
                    }
                }
                if old(self).wf() {
                    lemma_move_keeps_names_distinct(before, i as int, to as int);
                }
                assert(after.to_multiset() =~= before.to_multiset()) by {
                    broadcast use vstd::multiset::group_multiset_axioms;

                    vstd::seq_lib::to_multiset_remove(before, i as int);
                    vstd::seq_lib::to_multiset_insert(rest, to as int, record@);
                    vstd::seq_lib::to_multiset_contains(before, record@);
                    assert(before.contains(record@));
                }
            }
            i += 1;
        }
        assert(self@.take(n as int) =~= self@);
        proof {
            vstd::seq_lib::to_multiset_len(self@);
            vstd::seq_lib::to_multiset_len(old(self)@);
        }
    }

    /// The files of the record that stands where `key` first stands among `keys`, in the
    /// order in which they were recorded; no files where `key` is not among them.
    pub fn find_by_key(&self, keys: &Vec<String>, key: &str) -> (files: Vec<String>)
        ensures
            files.deep_view() == files_at_key(self@, keys.deep_view(), key@),
    {
        proof {
            keys.deep_view().index_of_first_ensures(key@);
        }
        match first_equal(keys, key) {
            Some(i) => if i < self.languages.len() {
                let files = self.languages[i].files.clone();
                assert(files.deep_view() =~= self.languages[i as int].files.deep_view());
                files
            } else {
                let files: Vec<String> = Vec::new();
                assert(files.deep_view() =~= Seq::<Seq<char>>::empty());
                files
            },
            None => {
                let files: Vec<String> = Vec::new();
                assert(files.deep_view() =~= Seq::<Seq<char>>::empty());
                files
            },
        }
    }

    /// The files of the language that a query names, whatever the case of its letters, in
    /// the order in which they were recorded. A query that names no language of the list
    /// finds no files.
    pub fn find(&self, language_name: &str) -> (files: Vec<String>)
        ensures
            files.deep_view() == files_of(self@, language_name@),
    {
        let key = to_lowercase(language_name);
        let mut keys: Vec<String> = Vec::new();
        let mut i: usize = 0;
        while i < self.languages.len()
            invariant
                i <= self.languages.len(),
                keys.deep_view() == lowercase_names(self@.take(i as int)),
            decreases self.languages.len() - i,
        {
            let ghost lowered = keys.deep_view();
            keys.push(to_lowercase(self.languages[i].name));
            proof {
                let name = self@[i as int].name;
                assert(name == self.languages[i as int].name@);
                assert(keys.deep_view() =~= lowered.push(lowercase(name)));
                assert(self@.take(i + 1) =~= self@.take(i as int).push(self@[i as int]));
                assert(lowercase_names(self@.take(i + 1)) =~= lowered.push(lowercase(name)));
            }
            i += 1;
        }
        assert(self@.take(i as int) =~= self@);
        self.find_by_key(&keys, key.as_str())
    }

    /// The records, in the order the list holds them.
    pub fn languages(&self) -> (records: &Vec<LanguageInfo>)
        ensures
            records.deep_view() == self@,
    {
        &self.languages
    }
}

} // verus!
