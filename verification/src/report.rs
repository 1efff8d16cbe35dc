use vstd::prelude::*;
use vstd::string::StringExecFns;
use crate::list::{
    aggregate, lemma_aggregate_complete, names, of_language, FileCount, LanguageData, LanguageList,
};
use crate::text::{decimal, decimal_string};

verus! {

/// Numbers of files, lines and bytes, as mathematical values.
pub struct Counts {
    pub files: nat,
    pub lines: nat,
    pub bytes: nat,
}

impl Counts {
    /// No files, lines or bytes.
    pub open spec fn zero() -> Counts {
        Counts { files: 0, lines: 0, bytes: 0 }
    }

    /// The sums of two counts.
    pub open spec fn plus(self, other: Counts) -> Counts {
        Counts {
            files: self.files + other.files,
            lines: self.lines + other.lines,
            bytes: self.bytes + other.bytes,
        }
    }

    /// What one record counts.
    pub open spec fn of(record: LanguageData) -> Counts {
        Counts { files: record.files.len(), lines: record.lines, bytes: record.bytes }
    }
}

/// The sums of files, lines and bytes over all records of a list.
pub open spec fn totals(list: Seq<LanguageData>) -> Counts
    decreases list.len(),
{
    if list.len() == 0 {
        Counts::zero()
    } else {
        totals(list.drop_last()).plus(Counts::of(list.last()))
    }
}

/// `100 * value / total`, rounded down; zero where the total is zero.
pub open spec fn percent(value: nat, total: nat) -> nat {
    if total == 0 {
        0
    } else {
        100 * value / total
    }
}

/// Whether a record holds at least one percent of all bytes, and so gets a line of its own.
pub open spec fn is_major(record: LanguageData, total_bytes: nat) -> bool {
    total_bytes > 0 && 100 * record.bytes >= total_bytes
}

/// Whether a record gets a line of its own, given the total of bytes.
pub open spec fn major_with(total_bytes: nat) -> spec_fn(LanguageData) -> bool {
    |record: LanguageData| is_major(record, total_bytes)
}

/// Whether a record is folded into the "Other" bucket, given the total of bytes.
pub open spec fn minor_with(total_bytes: nat) -> spec_fn(LanguageData) -> bool {
    |record: LanguageData| !is_major(record, total_bytes)
}

/// The records that get a line of their own, in the order of the list.
pub open spec fn major(list: Seq<LanguageData>, total_bytes: nat) -> Seq<LanguageData> {
    list.filter(major_with(total_bytes))
}

/// The records that are folded into the "Other" bucket.
pub open spec fn minor(list: Seq<LanguageData>, total_bytes: nat) -> Seq<LanguageData> {
    list.filter(minor_with(total_bytes))
}

/// One line of the report, as mathematical values.
pub struct LineData {
    pub name: Seq<char>,
    pub bytes: nat,
    pub byte_percent: nat,
    pub lines: nat,
    pub line_percent: nat,
    pub files: nat,
    pub file_percent: nat,
}

/// The line that the report shows for a record, given the totals of the list.
pub open spec fn line_of(record: LanguageData, total: Counts) -> LineData {
    LineData {
        name: record.name,
        bytes: record.bytes,
        byte_percent: percent(record.bytes, total.bytes),
        lines: record.lines,
        line_percent: percent(record.lines, total.lines),
        files: record.files.len(),
        file_percent: percent(record.files.len(), total.files),
    }
}

/// The line that the report shows for a record, given the totals of the list.
pub open spec fn line_with(total: Counts) -> spec_fn(LanguageData) -> LineData {
    |record: LanguageData| line_of(record, total)
}

/// The report of a list, as mathematical values.
pub struct ReportData {
    pub lines: Seq<LineData>,
    pub other: Counts,
    pub total: Counts,
}

/// What the report of a list shows: a line for each major record, in the order of the list,
/// the sums over the minor records, and the grand totals.
pub open spec fn report_of(list: Seq<LanguageData>) -> ReportData {
    let total = totals(list);
    ReportData {
        lines: major(list, total.bytes).map_values(line_with(total)),
        other: totals(minor(list, total.bytes)),
        total,
    }
}

/// Numbers of files, lines and bytes.
#[derive(Debug, Clone, Copy, PartialEq, Eq)]
pub struct Tally {
    pub files: u128,
    pub lines: u128,
    pub bytes: u128,
}

impl View for Tally {
    type V = Counts;

    open spec fn view(&self) -> Counts {
        Counts { files: self.files as nat, lines: self.lines as nat, bytes: self.bytes as nat }
    }
}

/// One language's line of the report: its counts, and each as a share of the total.
#[derive(Debug, Clone, PartialEq, Eq)]
pub struct ReportLine {
    pub name: &'static str,
    pub bytes: u64,
    pub byte_percent: u8,
    pub lines: u32,
    pub line_percent: u8,
    pub files: usize,
    pub file_percent: u8,
}

impl View for ReportLine {
    type V = LineData;

    open spec fn view(&self) -> LineData {
        LineData {
            name: self.name@,
            bytes: self.bytes as nat,
            byte_percent: self.byte_percent as nat,
            lines: self.lines as nat,
            line_percent: self.line_percent as nat,
            files: self.files as nat,
            file_percent: self.file_percent as nat,
        }
    }
}

impl DeepView for ReportLine {
    type V = LineData;

    open spec fn deep_view(&self) -> LineData {
        self@
    }
}

/// The human-readable report of a list.
#[derive(Debug, Clone)]
pub struct Report {
    /// One line for each language that holds at least one percent of all bytes.
    pub lines: Vec<ReportLine>,
    /// The sums over all other languages.
    pub other: Tally,
    /// The sums over all languages.
    pub total: Tally,
}

impl View for Report {
    type V = ReportData;

    open spec fn view(&self) -> ReportData {
        ReportData { lines: self.lines.deep_view(), other: self.other@, total: self.total@ }
    }
}

/// The text of one line of the report: a label, then each count with its share of the
/// total, the shares as they are handed in.
pub open spec fn line_text(
    label: Seq<char>,
    counts: Counts,
    byte_share: Seq<char>,
    line_share: Seq<char>,
    file_share: Seq<char>,
) -> Seq<char> {
    label + ": "@ + decimal(counts.bytes) + " bytes ("@ + byte_share + "%), "@ + decimal(
        counts.lines,
    ) + " lines ("@ + line_share + "%), "@ + decimal(counts.files) + " files ("@ + file_share
        + "%)"@
}

/// Writes one line of the report.
pub fn render_line(
    label: &str,
    counts: &Tally,
    byte_share: &str,
    line_share: &str,
    file_share: &str,
) -> (text: String)
    ensures
        text@ == line_text(label@, counts@, byte_share@, line_share@, file_share@),
{
    let mut text = String::from_str(label);
    text.append(": ");
    text.append(decimal_string(counts.bytes).as_str());
    text.append(" bytes (");
    text.append(byte_share);
    text.append("%), ");
    text.append(decimal_string(counts.lines).as_str());
    text.append(" lines (");
    text.append(line_share);
    text.append("%), ");
    text.append(decimal_string(counts.files).as_str());
    text.append(" files (");
    text.append(file_share);
    text.append("%)");
    text
}

impl LineData {
    /// What the line counts.
    pub open spec fn counts(self) -> Counts {
        Counts { files: self.files, lines: self.lines, bytes: self.bytes }
    }

    /// The text of the line: each share is written as a whole number.
    pub open spec fn text(self) -> Seq<char> {
        line_text(
            self.name,
            self.counts(),
            decimal(self.byte_percent),
            decimal(self.line_percent),
            decimal(self.file_percent),
        )
    }
}

impl ReportLine {
    /// Writes the line as the report shows it.
    pub fn render(&self) -> (text: String)
        ensures
            text@ == self@.text(),
    {
        let counts = Tally {
            files: self.files as u128,
            lines: self.lines as u128,
            bytes: self.bytes as u128,
        };
        render_line(
            self.name,
            &counts,
            decimal_string(self.byte_percent as u128).as_str(),
            decimal_string(self.line_percent as u128).as_str(),
            decimal_string(self.file_percent as u128).as_str(),
        )
    }
}

impl Report {
    /// Whether the report shows a line for the other languages: it does when they hold
    /// anything at all, be it files, lines or bytes.
    pub fn has_other(&self) -> (shown: bool)
        ensures
            shown == (self@.other != Counts::zero()),
    {
        self.other.files != 0 || self.other.lines != 0 || self.other.bytes != 0
    }
}

/// The sums of files, lines and bytes over the lines of a report.
pub open spec fn line_totals(lines: Seq<LineData>) -> Counts
    decreases lines.len(),
{
    if lines.len() == 0 {
        Counts::zero()
    } else {
        line_totals(lines.drop_last()).plus(lines.last().counts())
    }
}

/// What files amount to before they are told apart by language: their number, and the sums
/// of their lines and bytes.
pub open spec fn file_totals(files: Seq<FileCount>) -> Counts
    decreases files.len(),
{
    if files.len() == 0 {
        Counts::zero()
    } else {
        file_totals(files.drop_last()).plus(
            Counts { files: 1, lines: files.last().lines, bytes: files.last().bytes },
        )
    }
}

/// Adding a record to a list adds its counts to the totals.
pub proof fn lemma_totals_push(list: Seq<LanguageData>, record: LanguageData)
    ensures
        totals(list.push(record)) == totals(list).plus(Counts::of(record)),
{
    assert(list.push(record).drop_last() =~= list);
}

/// Putting another record in a place of a list changes the totals by the difference of
/// the two.
pub proof fn lemma_totals_update(list: Seq<LanguageData>, i: int, record: LanguageData)
    requires
        0 <= i < list.len(),
    ensures
        totals(list.update(i, record)).plus(Counts::of(list[i])) == totals(list).plus(
            Counts::of(record),
        ),
    decreases list.len(),
{
    let changed = list.update(i, record);
    if i == list.len() - 1 {
        assert(changed.drop_last() =~= list.drop_last());
    } else {
        assert(changed.drop_last() =~= list.drop_last().update(i, record));
        lemma_totals_update(list.drop_last(), i, record);
    }
}

/// Whatever share of the bytes decides, the records with a line of their own and the
/// others together count what the list counts.
pub proof fn lemma_split_conserves(list: Seq<LanguageData>, total_bytes: nat)
    ensures
        totals(major(list, total_bytes)).plus(totals(minor(list, total_bytes))) == totals(list),
    decreases list.len(),
{
    if list.len() == 0 {
        list.lemma_filter_len(major_with(total_bytes));
        list.lemma_filter_len(minor_with(total_bytes));
    } else {
        let rest = list.drop_last();
        let last = list.last();
        assert(list =~= rest.push(last));
        rest.lemma_filter_push(last, major_with(total_bytes));
        rest.lemma_filter_push(last, minor_with(total_bytes));
        lemma_split_conserves(rest, total_bytes);
        lemma_totals_push(major(rest, total_bytes), last);
        lemma_totals_push(minor(rest, total_bytes), last);
    }
}

/// The lines of a report count what their records count.
pub proof fn lemma_lines_count_records(list: Seq<LanguageData>, total: Counts)
    ensures
        line_totals(list.map_values(line_with(total))) == totals(list),
    decreases list.len(),
{
    if list.len() > 0 {
        assert(list.map_values(line_with(total)).drop_last() =~= list.drop_last().map_values(
            line_with(total),
        ));
        lemma_lines_count_records(list.drop_last(), total);
    }
}

/// Where every record holds at least one percent of all bytes, nothing is folded away:
/// the bucket of the other languages is empty, and the report shows no line for it.
pub proof fn lemma_no_other_without_minor(list: Seq<LanguageData>)
    requires
        forall|i: int| 0 <= i < list.len() ==> is_major(#[trigger] list[i], totals(list).bytes),
    ensures
        report_of(list).other == Counts::zero(),
{
    let folds = minor_with(totals(list).bytes);
    assert(list.all(|record: LanguageData| !folds(record)));
    list.lemma_all_neg_filter_empty(folds);
    assert(minor(list, totals(list).bytes) =~= Seq::<LanguageData>::empty());
}

/// Conservation in the report. The lines of the report and the bucket of the other
/// languages together count exactly the grand totals, which are the sums over all records
/// of the list: files, lines and bytes alike.
pub proof fn lemma_report_conserves(list: Seq<LanguageData>)
    ensures
        line_totals(report_of(list).lines).plus(report_of(list).other) == report_of(list).total,
        report_of(list).total == totals(list),
{
    let total = totals(list);
    lemma_split_conserves(list, total.bytes);
    lemma_lines_count_records(major(list, total.bytes), total);
}

/// Taking a record out of a list takes its counts out of the totals.
pub proof fn lemma_totals_remove(list: Seq<LanguageData>, i: int)
    requires
        0 <= i < list.len(),
    ensures
        totals(list) == totals(list.remove(i)).plus(Counts::of(list[i])),
    decreases list.len(),
{
    if i == list.len() - 1 {
        assert(list.remove(i) =~= list.drop_last());
    } else {
        assert(list.remove(i).drop_last() =~= list.drop_last().remove(i));
        assert(list.remove(i).last() == list.last());
        lemma_totals_remove(list.drop_last(), i);
    }
}

/// The totals do not depend on the order of the records: two lists that hold the same
/// records, each as often in one as in the other, have the same totals. Sorting a list
/// therefore leaves its totals as they were.
pub proof fn lemma_totals_of_rearranged(a: Seq<LanguageData>, b: Seq<LanguageData>)
    requires
        a.to_multiset() == b.to_multiset(),
    ensures
        totals(a) == totals(b),
    decreases a.len(),
{
    broadcast use vstd::multiset::group_multiset_axioms;

    vstd::seq_lib::to_multiset_len(a);
    vstd::seq_lib::to_multiset_len(b);
    if a.len() > 0 {
        let last = a.last();
        let i = a.len() - 1;
        vstd::seq_lib::to_multiset_contains(a, last);
        vstd::seq_lib::to_multiset_contains(b, last);
        assert(a.contains(last));
        let j = choose|j: int| 0 <= j < b.len() && b[j] == last;
        vstd::seq_lib::to_multiset_remove(a, i);
        vstd::seq_lib::to_multiset_remove(b, j);
        assert(a.remove(i) =~= a.drop_last());
        lemma_totals_of_rearranged(a.drop_last(), b.remove(j));
        lemma_totals_remove(b, j);
    }
}

/// Conservation in the count. The grand totals of the list that counting files gives are
/// the number of those files and the sums of their lines and bytes.
pub proof fn lemma_aggregate_conserves(files: Seq<FileCount>)
    ensures
        totals(aggregate(files)) == file_totals(files),
    decreases files.len(),
{
    if files.len() > 0 {
        let file = files.last();
        let before = aggregate(files.drop_last());
        lemma_aggregate_conserves(files.drop_last());
        names(before).index_of_first_ensures(file.language);
        match names(before).index_of_first(file.language) {
            Some(i) => {
                lemma_totals_update(before, i, before[i].with_file(file));
            },
            None => {
                lemma_totals_push(before, LanguageData::empty(file.language).with_file(file));
            },
        }
    }
}

/// A language of which no file is counted has no line in the report, and nothing of the
/// report's totals and of its bucket of other languages comes from elsewhere than the
/// counted files.
pub proof fn lemma_uncounted_language_absent(files: Seq<FileCount>, language: Seq<char>)
    requires
        forall|i: int| 0 <= i < files.len() ==> (#[trigger] files[i]).language != language,
    ensures
        !names(aggregate(files)).contains(language),
        forall|i: int|
            0 <= i < report_of(aggregate(files)).lines.len() ==> (#[trigger] report_of(
                aggregate(files),
            ).lines[i]).name != language,
        line_totals(report_of(aggregate(files)).lines).plus(report_of(aggregate(files)).other)
            == file_totals(files),
{
    let list = aggregate(files);
    let total = totals(list);
    assert(files.all(|file: FileCount| !of_language(language)(file)));
    files.lemma_all_neg_filter_empty(of_language(language));
    lemma_aggregate_complete(files, language);
    lemma_report_conserves(list);
    lemma_aggregate_conserves(files);
    let shown = major(list, total.bytes);
    assert forall|i: int| 0 <= i < report_of(list).lines.len() implies (#[trigger] report_of(
        list,
    ).lines[i]).name != language by {
        assert(shown.contains(shown[i]));
        list.lemma_filter_contains_rev(major_with(total.bytes), shown[i]);
        let j = choose|j: int| 0 <= j < list.len() && list[j] == shown[i];
        assert(names(list)[j] == shown[i].name);
    }
}

/// No record counts more than the whole list does.
pub proof fn lemma_record_within_totals(list: Seq<LanguageData>, i: int)
    requires
        0 <= i < list.len(),
    ensures
        list[i].files.len() <= totals(list).files,
        list[i].lines <= totals(list).lines,
        list[i].bytes <= totals(list).bytes,
    decreases list.len(),
{
    if i < list.len() - 1 {
        lemma_record_within_totals(list.drop_last(), i);
    }
}

proof fn lemma_percent_at_most_100(value: nat, total: nat)
    requires
        value <= total,
    ensures
        percent(value, total) <= 100,
{
    if total > 0 {
        assert(100 * value / total <= 100) by (nonlinear_arith)
            requires
                value <= total,
                total > 0,
        ;
    }
}

fn percent_of(value: u64, total: u128) -> (share: u8)
    requires
        value <= total,
    ensures
        share == percent(value as nat, total as nat),
{
    proof {
        lemma_percent_at_most_100(value as nat, total as nat);
    }
    if total == 0 {
        0
    } else {
        let share: u128 = 100 * (value as u128) / total;
        share as u8
    }
}

impl LanguageList {
    /// The grand totals of the list.
    pub fn totals(&self) -> (total: Tally)
        ensures
            total@ == totals(self@),
    {
        let records = self.languages();
        let ghost list = self@;
        let mut total = Tally { files: 0, lines: 0, bytes: 0 };
        let mut i: usize = 0;
        while i < records.len()
            invariant
                records.deep_view() == list,
                i <= records.len(),
                total@ == totals(list.take(i as int)),
                total.files <= i * 0xffff_ffff_ffff_ffff,
                total.lines <= i * 0xffff_ffff,
                total.bytes <= i * 0xffff_ffff_ffff_ffff,
            decreases records.len() - i,
        {
            let record = &records[i];
            proof {
                assert(list.take(i + 1).drop_last() =~= list.take(i as int));
                assert(list.take(i + 1).last() == record@);
            }
            total.files = total.files + record.files.len() as u128;
            total.lines = total.lines + record.lines as u128;
            total.bytes = total.bytes + record.bytes as u128;
            i += 1;
        }
        assert(list.take(i as int) =~= list);
        total
    }

    /// Works out the human-readable report: the grand totals, a line for each language that
    /// holds at least one percent of all bytes, and the sums over the others.
    pub fn display(&self) -> (report: Report)
        ensures
            report@ == report_of(self@),
    {
        let total = self.totals();
        let records = self.languages();
        let ghost list = self@;
        let mut lines: Vec<ReportLine> = Vec::new();
        let mut other = Tally { files: 0, lines: 0, bytes: 0 };
        let mut i: usize = 0;
        assert(lines.deep_view() =~= major(list.take(0), total@.bytes).map_values(line_with(total@))) by {
            reveal(Seq::filter);
        }
        assert(other@ == totals(minor(list.take(0), total@.bytes))) by {
            reveal(Seq::filter);
        }
        while i < records.len()
            invariant
                records.deep_view() == list,
                total@ == totals(list),
                i <= records.len(),
                lines.deep_view() == major(list.take(i as int), total@.bytes).map_values(
                    line_with(total@),
                ),
                other@ == totals(minor(list.take(i as int), total@.bytes)),
                other.files <= i * 0xffff_ffff_ffff_ffff,
                other.lines <= i * 0xffff_ffff,
                other.bytes <= i * 0xffff_ffff_ffff_ffff,
            decreases records.len() - i,
        {
            let record = &records[i];
            let ghost seen = list.take(i as int);
            proof {
                assert(list.take(i + 1) =~= seen.push(record@));
                seen.lemma_filter_push(record@, major_with(total@.bytes));
                seen.lemma_filter_push(record@, minor_with(total@.bytes));
                lemma_record_within_totals(list, i as int);
            }
            if total.bytes > 0 && 100 * (record.bytes as u128) >= total.bytes {
                let line = ReportLine {
                    name: record.name,
                    bytes: record.bytes,
                    byte_percent: percent_of(record.bytes, total.bytes),
                    lines: record.lines,
                    line_percent: percent_of(record.lines as u64, total.lines),
                    files: record.files.len(),
                    file_percent: percent_of(record.files.len() as u64, total.files),
                };
                assert(line@ == line_of(record@, total@));
                lines.push(line);
                proof {
                    let shown = major(seen, total@.bytes);
                    assert(shown.push(record@).map_values(line_with(total@)) =~= shown.map_values(
                        line_with(total@),
                    ).push(line@));
                    assert(lines.deep_view() =~= shown.map_values(line_with(total@)).push(line@));
                }
            } else {
                proof {
                    let folded = minor(seen, total@.bytes);
                    assert(folded.push(record@).drop_last() =~= folded);
                }
                other.files = other.files + record.files.len() as u128;
                other.lines = other.lines + record.lines as u128;
                other.bytes = other.bytes + record.bytes as u128;
                assert(lines.deep_view() =~= major(seen, total@.bytes).map_values(line_with(total@)));
            }
            i += 1;
        }
        assert(list.take(i as int) =~= list);
        Report { lines, other, total }
    }
}

} // verus!
