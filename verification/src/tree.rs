use vstd::prelude::*;
use vstd::multiset::Multiset;
use crate::filter::FilterData;
use crate::walker::{
    course_of, descent, descents, source, sources, Course, EntryData, EntryKind, SourceData,
};

verus! {

/// A directory tree as a scan meets it. A directory that cannot be read is one without
/// entries.
pub enum Tree {
    File { name: Seq<char>, path: Seq<char> },
    Directory { name: Seq<char>, path: Seq<char>, entries: Seq<Tree> },
    /// Neither a file nor a directory.
    Other { name: Seq<char>, path: Seq<char> },
}

impl Tree {
    /// The tree as an entry of the directory that holds it.
    pub open spec fn entry(self) -> EntryData {
        match self {
            Tree::File { name, path } => EntryData { name, path, kind: EntryKind::File },
            Tree::Directory { name, path, .. } => EntryData {
                name,
                path,
                kind: EntryKind::Directory,
            },
            Tree::Other { name, path } => EntryData { name, path, kind: EntryKind::Other },
        }
    }

    /// The trees that a directory holds; none for anything else.
    pub open spec fn children(self) -> Seq<Tree> {
        match self {
            Tree::Directory { entries, .. } => entries,
            _ => Seq::empty(),
        }
    }

    /// What reading the directory gives: its entries in order.
    pub open spec fn listing(self) -> Seq<EntryData> {
        entries_of(self.children())
    }
}

/// The trees as entries of a directory, in order.
pub open spec fn entries_of(trees: Seq<Tree>) -> Seq<EntryData> {
    trees.map_values(|tree: Tree| tree.entry())
}

/// Whether a scan descends into a tree.
pub open spec fn descended(filter: FilterData) -> spec_fn(Tree) -> bool {
    |tree: Tree| course_of(filter, tree.entry().name, tree.entry().kind) == Course::Descend
}

/// The directories, among the trees, that a scan descends into, in order.
pub open spec fn kept(filter: FilterData, trees: Seq<Tree>) -> Seq<Tree> {
    trees.filter(descended(filter))
}

/// The files to count among the trees and below them, each as often as it is met. A file
/// is met where it stands as an entry, and below a directory where the scan descends into
/// that directory; nothing is met below an entry that the scan passes over.
pub open spec fn counted_in(filter: FilterData, trees: Seq<Tree>) -> Multiset<SourceData>
    decreases trees,
{
    if trees.len() == 0 {
        Multiset::empty()
    } else {
        let before = counted_in(filter, trees.drop_last());
        match trees.last() {
            Tree::File { name, path } => match course_of(filter, name, EntryKind::File) {
                Course::Count(language) => before.insert(SourceData { path, language }),
                _ => before,
            },
            Tree::Directory { name, path, entries } => if course_of(
                filter,
                name,
                EntryKind::Directory,
            ) == Course::Descend {
                before.add(counted_in(filter, entries))
            } else {
                before
            },
            Tree::Other { .. } => before,
        }
    }
}

/// The files to count below the given directories, each as often as it is met.
pub open spec fn counted_below(filter: FilterData, directories: Seq<Tree>) -> Multiset<SourceData>
    decreases directories.len(),
{
    if directories.len() == 0 {
        Multiset::empty()
    } else {
        counted_below(filter, directories.drop_last()).add(
            counted_in(filter, directories.last().children()),
        )
    }
}

/// The number of trees among the given ones and below them.
pub open spec fn weight(trees: Seq<Tree>) -> nat
    decreases trees,
{
    if trees.len() == 0 {
        0
    } else {
        weight(trees.drop_last()) + 1 + match trees.last() {
            Tree::Directory { entries, .. } => weight(entries),
            _ => 0,
        }
    }
}

/// The files that a scan finds when it keeps the directories still to read in a list,
/// reads the one added last, counts its files, and adds those of its directories that it
/// descends into, until none is left.
pub open spec fn walk(filter: FilterData, pending: Seq<Tree>) -> Seq<SourceData>
    decreases weight(pending),
    via walk_decreases
{
    if pending.len() == 0 {
        Seq::empty()
    } else {
        sources(filter, pending.last().listing()) + walk(
            filter,
            pending.drop_last() + kept(filter, pending.last().children()),
        )
    }
}

#[via_fn]
proof fn walk_decreases(filter: FilterData, pending: Seq<Tree>) {
    if pending.len() > 0 {
        lemma_weight_of_step(filter, pending);
    }
}

proof fn lemma_weight_add(a: Seq<Tree>, b: Seq<Tree>)
    ensures
        weight(a + b) == weight(a) + weight(b),
    decreases b.len(),
{
    if b.len() == 0 {
        assert(a + b =~= a);
    } else {
        assert((a + b).drop_last() =~= a + b.drop_last());
        assert((a + b).last() == b.last());
        lemma_weight_add(a, b.drop_last());
    }
}

proof fn lemma_weight_filter(trees: Seq<Tree>, pred: spec_fn(Tree) -> bool)
    ensures
        weight(trees.filter(pred)) <= weight(trees),
    decreases trees.len(),
{
    reveal(Seq::filter);
    if trees.len() > 0 {
        lemma_weight_filter(trees.drop_last(), pred);
        if pred(trees.last()) {
            let kept = trees.drop_last().filter(pred);
            assert(kept.push(trees.last()).drop_last() =~= kept);
        }
    }
}

/// One step of the scan leaves fewer trees to go through.
proof fn lemma_weight_of_step(filter: FilterData, pending: Seq<Tree>)
    requires
        pending.len() > 0,
    ensures
        weight(pending.drop_last() + kept(filter, pending.last().children())) < weight(pending),
{
    lemma_weight_add(pending.drop_last(), kept(filter, pending.last().children()));
    lemma_weight_filter(pending.last().children(), descended(filter));
    assert(weight(Seq::<Tree>::empty()) == 0);
}

proof fn lemma_counted_below_add(filter: FilterData, a: Seq<Tree>, b: Seq<Tree>)
    ensures
        counted_below(filter, a + b) == counted_below(filter, a).add(counted_below(filter, b)),
    decreases b.len(),
{
    if b.len() == 0 {
        assert(a + b =~= a);
        assert(counted_below(filter, a).add(counted_below(filter, b)) =~= counted_below(filter, a));
    } else {
        assert((a + b).drop_last() =~= a + b.drop_last());
        assert((a + b).last() == b.last());
        lemma_counted_below_add(filter, a, b.drop_last());
        assert(counted_below(filter, a + b) =~= counted_below(filter, a).add(
            counted_below(filter, b),
        ));
    }
}

/// A sequence without elements holds nothing as a multiset either.
proof fn lemma_nothing_found()
    ensures
        Seq::<SourceData>::empty().to_multiset() == Multiset::<SourceData>::empty(),
{
    broadcast use vstd::multiset::group_multiset_axioms;

    let none = Seq::<SourceData>::empty();
    vstd::seq_lib::to_multiset_len(none);
    vstd::multiset::lemma_multiset_empty_len(none.to_multiset());
    assert(none.to_multiset() =~= Multiset::<SourceData>::empty());
}

/// What a scan finds in a directory, and what it finds below the directories that it
/// descends into from there, is together what is to be counted in and below the entries
/// of the directory.
proof fn lemma_counted_in_directory(filter: FilterData, trees: Seq<Tree>)
    ensures
        sources(filter, entries_of(trees)).to_multiset().add(
            counted_below(filter, kept(filter, trees)),
        ) == counted_in(filter, trees),
    decreases trees.len(),
{
    broadcast use vstd::multiset::group_multiset_axioms;

    if trees.len() == 0 {
        reveal(Seq::filter);
        lemma_nothing_found();
        assert(entries_of(trees) =~= Seq::<EntryData>::empty());
        assert(sources(filter, entries_of(trees)) =~= Seq::<SourceData>::empty());
        assert(sources(filter, entries_of(trees)).to_multiset().add(
            counted_below(filter, kept(filter, trees)),
        ) =~= counted_in(filter, trees));
    } else {
        let rest = trees.drop_last();
        let last = trees.last();
        let found = sources(filter, entries_of(rest));
        assert(trees =~= rest.push(last));
        lemma_counted_in_directory(filter, rest);
        rest.lemma_filter_push(last, descended(filter));
        assert(entries_of(trees).drop_last() =~= entries_of(rest));
        assert(entries_of(trees).last() == last.entry());
        let below = counted_below(filter, kept(filter, rest));
        assert(found.to_multiset().add(below) == counted_in(filter, rest));
        match last {
            Tree::File { name, path } => {
                assert(!descended(filter)(last));
                match course_of(filter, name, EntryKind::File) {
                    Course::Count(language) => {
                        let file = SourceData { path, language };
                        assert(source(filter)(last.entry()) == Some(file));
                        assert(sources(filter, entries_of(trees)) =~= found.push(file));
                        vstd::seq_lib::to_multiset_build(found, file);
                        assert(found.to_multiset().insert(file).add(below) =~= found.to_multiset().add(
                            below,
                        ).insert(file));
                    },
                    _ => {
                        assert(source(filter)(last.entry()).is_none());
                        assert(sources(filter, entries_of(trees)) =~= found);
                    },
                }
            },
            Tree::Directory { name, path, entries } => {
                assert(source(filter)(last.entry()).is_none());
                assert(sources(filter, entries_of(trees)) =~= found);
                if descended(filter)(last) {
                    let deeper = kept(filter, rest);
                    assert(deeper.push(last).drop_last() =~= deeper);
                    assert(counted_below(filter, kept(filter, trees)) == below.add(
                        counted_in(filter, entries),
                    ));
                    assert(found.to_multiset().add(below.add(counted_in(filter, entries)))
                        =~= found.to_multiset().add(below).add(counted_in(filter, entries)));
                }
            },
            Tree::Other { .. } => {
                assert(!descended(filter)(last));
                assert(source(filter)(last.entry()).is_none());
                assert(sources(filter, entries_of(trees)) =~= found);
            },
        }
    }
}

/// Completeness of the scan. Whatever the tree, the scan that reads one directory after
/// another finds exactly the files that are to be counted below the directories it starts
/// from: each file that has a language which is not excluded, and that no hidden or
/// pruned entry stands above, is found once, with its language; nothing else is found.
pub proof fn lemma_walk_complete(filter: FilterData, pending: Seq<Tree>)
    ensures
        walk(filter, pending).to_multiset() == counted_below(filter, pending),
    decreases weight(pending),
{
    broadcast use vstd::multiset::group_multiset_axioms;

    if pending.len() == 0 {
        lemma_nothing_found();
        assert(walk(filter, pending).to_multiset() =~= counted_below(filter, pending));
    } else {
        let directory = pending.last();
        let rest = pending.drop_last();
        let deeper = kept(filter, directory.children());
        let here = sources(filter, directory.listing());
        lemma_weight_of_step(filter, pending);
        lemma_walk_complete(filter, rest + deeper);
        lemma_counted_below_add(filter, rest, deeper);
        lemma_counted_in_directory(filter, directory.children());
        let later = walk(filter, rest + deeper);
        vstd::seq_lib::lemma_multiset_commutative(here, later);
        assert(walk(filter, pending) == here + later);
        assert(here.to_multiset().add(counted_below(filter, deeper)) == counted_in(
            filter,
            directory.children(),
        ));
        assert(here.to_multiset().add(
            counted_below(filter, rest).add(counted_below(filter, deeper)),
        ) =~= counted_below(filter, rest).add(
            here.to_multiset().add(counted_below(filter, deeper)),
        ));
    }
}

/// The directories that a scan adds to those still to read, when it has read a directory,
/// are the paths of the directories that it descends into from there.
pub proof fn lemma_descents_are_kept(filter: FilterData, trees: Seq<Tree>)
    ensures
        descents(filter, entries_of(trees)) == kept(filter, trees).map_values(
            |tree: Tree| tree.entry().path,
        ),
    decreases trees.len(),
{
    let path = |tree: Tree| tree.entry().path;
    if trees.len() == 0 {
        reveal(Seq::filter);
        assert(entries_of(trees) =~= Seq::<EntryData>::empty());
        assert(descents(filter, entries_of(trees)) =~= kept(filter, trees).map_values(path));
    } else {
        let rest = trees.drop_last();
        let last = trees.last();
        assert(trees =~= rest.push(last));
        lemma_descents_are_kept(filter, rest);
        rest.lemma_filter_push(last, descended(filter));
        assert(entries_of(trees).drop_last() =~= entries_of(rest));
        assert(entries_of(trees).last() == last.entry());
        if descended(filter)(last) {
            assert(descent(filter)(last.entry()) == Some(last.entry().path));
            assert(kept(filter, rest).push(last).map_values(path) =~= kept(filter, rest).map_values(
                path,
            ).push(last.entry().path));
        } else {
            assert(descent(filter)(last.entry()).is_none());
        }
        assert(descents(filter, entries_of(trees)) =~= kept(filter, trees).map_values(path));
    }
}

/// An entry that a scan passes over adds nothing to what is counted, whatever lies below
/// it: nothing below a hidden or a pruned directory is ever met.
pub proof fn lemma_nothing_counted_below_skipped(filter: FilterData, trees: Seq<Tree>, tree: Tree)
    requires
        course_of(filter, tree.entry().name, tree.entry().kind) == Course::Skip,
    ensures
        counted_in(filter, trees.push(tree)) == counted_in(filter, trees),
{
    assert(trees.push(tree).drop_last() =~= trees);
}

/// No file that is counted anywhere in the trees is of an excluded language.
pub proof fn lemma_counted_not_excluded(filter: FilterData, trees: Seq<Tree>, file: SourceData)
    requires
        counted_in(filter, trees).count(file) > 0,
    ensures
        !filter.excludes(file.language),
    decreases trees,
{
    broadcast use vstd::multiset::group_multiset_axioms;

    if trees.len() > 0 {
        let before = counted_in(filter, trees.drop_last());
        if before.count(file) > 0 {
            lemma_counted_not_excluded(filter, trees.drop_last(), file);
        } else {
            match trees.last() {
                Tree::Directory { name, path, entries } => {
                    lemma_counted_not_excluded(filter, entries, file);
                },
                _ => {},
            }
        }
    }
}

/// Completeness of the scan of one directory tree: the scan that starts from the root
/// finds exactly the files that are to be counted below it.
pub proof fn lemma_scan_complete(filter: FilterData, root: Tree)
    ensures
        walk(filter, seq![root]).to_multiset() == counted_in(filter, root.children()),
{
    broadcast use vstd::multiset::group_multiset_axioms;

    lemma_walk_complete(filter, seq![root]);
    assert(seq![root].drop_last() =~= Seq::<Tree>::empty());
    assert(counted_below(filter, Seq::<Tree>::empty()) =~= Multiset::<SourceData>::empty());
    assert(counted_below(filter, seq![root]) =~= counted_in(filter, root.children()));
}

} // verus!
