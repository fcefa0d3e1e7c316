//! The walk as a whole: what it finds in a tree, and that the walker finds
//! just that when it is told what the tree holds.

use crate::data::{FileView, FolderView, Format};
use crate::error::{io_failure, ErrorView};
use crate::walker::{
    advance, joined, with_top, AnswerView, EntryView, LevelView, RequestView, WalkerView,
};
use vstd::prelude::*;

verus! {

/// What lies in a directory under one name.
pub ghost enum Tree {
    /// An entry that cannot be read, or whose kind cannot be told.
    Unreadable,
    /// Neither a directory nor a regular file.
    Other,
    /// A regular file, with the record that its tag gives if it is read in
    /// the format of its name, if it gives one.
    Regular { name: Seq<u8>, record: Option<FileView> },
    /// A directory with what it holds, or without a listing if it cannot be
    /// listed.
    Directory { name: Seq<u8>, listing: Option<Seq<Tree>> },
}

/// What a walk finds.
pub ghost struct Found {
    pub folders: Seq<FolderView>,
    pub errors: Seq<ErrorView>,
}

impl Found {
    /// Nothing.
    pub open spec fn nothing() -> Found {
        Found { folders: Seq::empty(), errors: Seq::empty() }
    }

    /// This, and then that.
    pub open spec fn followed_by(self, next: Found) -> Found {
        Found { folders: self.folders + next.folders, errors: self.errors + next.errors }
    }
}

/// What the walk finds in the directory at `path`. A directory without a
/// listing gives one error and no folder.
pub open spec fn walked(path: Seq<u8>, listing: Option<Seq<Tree>>) -> Found
    decreases listing,
{
    match listing {
        None => Found { folders: Seq::empty(), errors: seq![io_failure()] },
        Some(nodes) => walked_entries(path, nodes, Seq::empty()),
    }
}

/// What the walk finds in the directory at `path` from the entries `nodes`
/// on, with the records `files` made of the entries before them. An
/// unreadable entry gives one error. A directory gives what the walk finds
/// in it. A regular file whose extension names a format and whose tag gives
/// a record adds the record. After the last entry the directory gives its
/// folder, if it has a record.
pub open spec fn walked_entries(path: Seq<u8>, nodes: Seq<Tree>, files: Seq<FileView>) -> Found
    decreases nodes,
{
    if nodes.len() == 0 {
        if files.len() > 0 {
            Found { folders: seq![FolderView { path, files }], errors: Seq::empty() }
        } else {
            Found::nothing()
        }
    } else {
        let rest = nodes.drop_first();
        match nodes.first() {
            Tree::Unreadable => Found { folders: Seq::empty(), errors: seq![io_failure()] }.followed_by(
                walked_entries(path, rest, files),
            ),
            Tree::Other => walked_entries(path, rest, files),
            Tree::Regular { name, record } => if Format::of_name(name) is Some && record is Some {
                walked_entries(path, rest, files.push(record->0))
            } else {
                walked_entries(path, rest, files)
            },
            Tree::Directory { name, listing } => walked(joined(path, name), listing).followed_by(
                walked_entries(path, rest, files),
            ),
        }
    }
}

impl Tree {
    /// What a listing says of the entry.
    pub open spec fn entry(self) -> EntryView {
        match self {
            Tree::Unreadable => EntryView::Unreadable,
            Tree::Other => EntryView::Other,
            Tree::Regular { name, record } => EntryView::Regular(name),
            Tree::Directory { name, listing } => EntryView::Directory(name),
        }
    }
}

/// What a listing says of the entries.
pub open spec fn entries_of(nodes: Seq<Tree>) -> Seq<EntryView> {
    Seq::new(nodes.len(), |i: int| nodes[i].entry())
}

/// A request and the answer to it.
pub ghost struct Exchange {
    pub request: RequestView,
    pub answer: AnswerView,
}

/// The requests that the directory at `path` calls for, each with the
/// answer that the tree gives, in the order of the walk: first the listing
/// of the directory, then what its entries call for.
pub open spec fn exchanges(path: Seq<u8>, listing: Option<Seq<Tree>>) -> Seq<Exchange>
    decreases listing,
{
    match listing {
        None => seq![Exchange { request: RequestView::List(path), answer: AnswerView::Unlisted }],
        Some(nodes) => seq![
            Exchange {
                request: RequestView::List(path),
                answer: AnswerView::Listed(entries_of(nodes)),
            },
        ] + exchanges_of_entries(path, nodes),
    }
}

/// The requests that the entries `nodes` of the directory at `path` call
/// for, each with the answer that the tree gives: for a directory those of
/// the directory, for a regular file whose extension names a format the
/// reading of its tag, for any other entry none.
pub open spec fn exchanges_of_entries(path: Seq<u8>, nodes: Seq<Tree>) -> Seq<Exchange>
    decreases nodes,
{
    if nodes.len() == 0 {
        Seq::empty()
    } else {
        let rest = nodes.drop_first();
        match nodes.first() {
            Tree::Unreadable => exchanges_of_entries(path, rest),
            Tree::Other => exchanges_of_entries(path, rest),
            Tree::Regular { name, record } => match Format::of_name(name) {
                Some(format) => seq![
                    Exchange {
                        request: RequestView::Read { path: joined(path, name), name, format },
                        answer: AnswerView::Tagged { format, record },
                    },
                ] + exchanges_of_entries(path, rest),
                None => exchanges_of_entries(path, rest),
            },
            Tree::Directory { name, listing } => exchanges(joined(path, name), listing)
                + exchanges_of_entries(path, rest),
        }
    }
}

/// The state of the walk after the exchanges, if each request in them is
/// the one that the walk makes at that point.
pub open spec fn run(s: WalkerView, exchanges: Seq<Exchange>) -> Option<WalkerView>
    decreases exchanges.len(),
{
    if exchanges.len() == 0 {
        Some(s)
    } else if s.request == exchanges.first().request && s.accepts(exchanges.first().answer) {
        run(s.step(exchanges.first().answer), exchanges.drop_first())
    } else {
        None
    }
}

/// The walk that has found this, asks for nothing more and is in no
/// directory.
pub open spec fn ended(found: Found) -> WalkerView {
    WalkerView {
        levels: Seq::empty(),
        request: RequestView::Done,
        folders: found.folders,
        errors: found.errors,
    }
}

/// Running through one exchange and then others is making the step and
/// running through the others.
proof fn lemma_run_first(s: WalkerView, first: Exchange, others: Seq<Exchange>)
    requires
        s.request == first.request,
        s.accepts(first.answer),
    ensures
        run(s, seq![first] + others) == run(s.step(first.answer), others),
{
    assert((seq![first] + others).drop_first() =~= others);
}

/// The walk that asks for the listing of a directory and is told what the
/// tree holds comes, after the exchanges of that directory, to where it
/// would have come by going on with what the directory gives already found.
proof fn lemma_directory(
    levels: Seq<LevelView>,
    found: Found,
    path: Seq<u8>,
    listing: Option<Seq<Tree>>,
    others: Seq<Exchange>,
)
    ensures
        run(
            WalkerView {
                levels,
                request: RequestView::List(path),
                folders: found.folders,
                errors: found.errors,
            },
            exchanges(path, listing) + others,
        ) == run(
            advance(
                levels,
                found.followed_by(walked(path, listing)).folders,
                found.followed_by(walked(path, listing)).errors,
            ),
            others,
        ),
    decreases listing, 1nat,
{
    let s = WalkerView {
        levels,
        request: RequestView::List(path),
        folders: found.folders,
        errors: found.errors,
    };
    match listing {
        None => {
            let first = Exchange { request: RequestView::List(path), answer: AnswerView::Unlisted };
            assert(exchanges(path, listing) + others =~= seq![first] + others);
            lemma_run_first(s, first, others);
            assert(found.errors + seq![io_failure()] =~= found.errors.push(io_failure()));
            assert(found.folders + Seq::<FolderView>::empty() =~= found.folders);
        },
        Some(nodes) => {
            let first = Exchange {
                request: RequestView::List(path),
                answer: AnswerView::Listed(entries_of(nodes)),
            };
            let inner = exchanges_of_entries(path, nodes);
            assert(exchanges(path, listing) + others =~= seq![first] + (inner + others));
            lemma_run_first(s, first, inner + others);
            lemma_entries(
                levels,
                LevelView::entered(path, entries_of(nodes)),
                nodes,
                found,
                others,
            );
        },
    }
}

/// The walk that is in a directory and is told what the tree holds comes,
/// after the exchanges of the entries that it has yet to visit, to where it
/// would have come by leaving the directory with what these entries and the
/// directory give already found.
proof fn lemma_entries(
    levels: Seq<LevelView>,
    top: LevelView,
    nodes: Seq<Tree>,
    found: Found,
    others: Seq<Exchange>,
)
    requires
        top.rest == entries_of(nodes),
    ensures
        run(
            advance(levels.push(top), found.folders, found.errors),
            exchanges_of_entries(top.path, nodes) + others,
        ) == run(
            advance(
                levels,
                found.followed_by(walked_entries(top.path, nodes, top.files)).folders,
                found.followed_by(walked_entries(top.path, nodes, top.files)).errors,
            ),
            others,
        ),
    decreases nodes, 0nat,
{
    let within = levels.push(top);
    assert(within.drop_last() =~= levels);
    assert(within.last() == top);
    let gives = walked_entries(top.path, nodes, top.files);
    if nodes.len() == 0 {
        assert(exchanges_of_entries(top.path, nodes) + others =~= others);
        if top.files.len() > 0 {
            assert(found.folders + gives.folders =~= found.folders.push(top.folder()));
        } else {
            assert(found.folders + gives.folders =~= found.folders);
        }
        assert(found.errors + gives.errors =~= found.errors);
    } else {
        let rest = nodes.drop_first();
        let onward = top.past_first();
        assert(onward.rest =~= entries_of(rest));
        assert(with_top(within, onward) =~= levels.push(onward));
        assert(top.rest.first() == nodes.first().entry());
        match nodes.first() {
            Tree::Unreadable => {
                let counted = Found {
                    folders: found.folders,
                    errors: found.errors.push(io_failure()),
                };
                lemma_entries(levels, onward, rest, counted, others);
                let after = walked_entries(top.path, rest, top.files);
                assert(found.errors + gives.errors =~= counted.errors + after.errors);
                assert(found.folders + gives.folders =~= counted.folders + after.folders);
            },
            Tree::Other => {
                lemma_entries(levels, onward, rest, found, others);
            },
            Tree::Regular { name, record } => {
                match Format::of_name(name) {
                    None => {
                        lemma_entries(levels, onward, rest, found, others);
                    },
                    Some(format) => {
                        let first = Exchange {
                            request: RequestView::Read { path: joined(top.path, name), name, format },
                            answer: AnswerView::Tagged { format, record },
                        };
                        let later = exchanges_of_entries(top.path, rest);
                        assert(exchanges_of_entries(top.path, nodes) + others =~= seq![first] + (
                        later + others));
                        let asking = advance(within, found.folders, found.errors);
                        lemma_run_first(asking, first, later + others);
                        let kept = levels.push(onward);
                        assert(kept.last() == onward);
                        assert(kept.drop_last() =~= levels);
                        match record {
                            Some(file) => {
                                assert(with_top(kept, onward.with_file(file)) =~= levels.push(
                                    onward.with_file(file),
                                ));
                                lemma_entries(levels, onward.with_file(file), rest, found, others);
                            },
                            None => {
                                lemma_entries(levels, onward, rest, found, others);
                            },
                        }
                    },
                }
            },
            Tree::Directory { name, listing } => {
                let inner = exchanges(joined(top.path, name), listing);
                let later = exchanges_of_entries(top.path, rest);
                assert(exchanges_of_entries(top.path, nodes) + others =~= inner + (later + others));
                lemma_directory(
                    levels.push(onward),
                    found,
                    joined(top.path, name),
                    listing,
                    later + others,
                );
                let below = walked(joined(top.path, name), listing);
                lemma_entries(levels, onward, rest, found.followed_by(below), others);
                let after = walked_entries(top.path, rest, top.files);
                assert(found.folders + gives.folders =~= found.followed_by(below).folders
                    + after.folders);
                assert(found.errors + gives.errors =~= found.followed_by(below).errors
                    + after.errors);
            },
        }
    }
}

/// The walker finds in a tree what the walk finds in it. Told, request by
/// request, what the tree under the root holds, it makes just the requests
/// that the tree calls for, in their order, and ends with the folders and
/// the errors of `walked`, in their order.
pub proof fn lemma_walker_finds_what_is_walked(root: Option<Seq<Tree>>)
    ensures
        run(WalkerView::start(), exchanges(Seq::empty(), root)) == Some(
            ended(walked(Seq::empty(), root)),
        ),
{
    let path = Seq::<u8>::empty();
    let none = Seq::<Exchange>::empty();
    lemma_directory(Seq::empty(), Found::nothing(), path, root, none);
    assert(exchanges(path, root) + none =~= exchanges(path, root));
    let found = Found::nothing().followed_by(walked(path, root));
    assert(found.folders =~= walked(path, root).folders);
    assert(found.errors =~= walked(path, root).errors);
}

/// Whether each of the folders has at least one record.
pub open spec fn all_have_records(folders: Seq<FolderView>) -> bool {
    forall|i: int| 0 <= i < folders.len() ==> (#[trigger] folders[i]).files.len() >= 1
}

/// Every folder that the walk finds has at least one record, whatever the
/// tree.
pub proof fn lemma_no_folder_is_empty(path: Seq<u8>, listing: Option<Seq<Tree>>)
    ensures
        all_have_records(walked(path, listing).folders),
    decreases listing, 1nat,
{
    match listing {
        None => {},
        Some(nodes) => lemma_no_folder_of_entries_is_empty(path, nodes, Seq::empty()),
    }
}

/// Every folder that the walk finds from some entries of a directory on has
/// at least one record.
pub proof fn lemma_no_folder_of_entries_is_empty(
    path: Seq<u8>,
    nodes: Seq<Tree>,
    files: Seq<FileView>,
)
    ensures
        all_have_records(walked_entries(path, nodes, files).folders),
    decreases nodes, 0nat,
{
    if nodes.len() > 0 {
        let rest = nodes.drop_first();
        match nodes.first() {
            Tree::Unreadable => {
                lemma_no_folder_of_entries_is_empty(path, rest, files);
                assert(walked_entries(path, nodes, files).folders =~= walked_entries(
                    path,
                    rest,
                    files,
                ).folders);
            },
            Tree::Other => lemma_no_folder_of_entries_is_empty(path, rest, files),
            Tree::Regular { name, record } => {
                if Format::of_name(name) is Some && record is Some {
                    lemma_no_folder_of_entries_is_empty(path, rest, files.push(record->0));
                } else {
                    lemma_no_folder_of_entries_is_empty(path, rest, files);
                }
            },
            Tree::Directory { name, listing } => {
                lemma_no_folder_is_empty(joined(path, name), listing);
                lemma_no_folder_of_entries_is_empty(path, rest, files);
                let below = walked(joined(path, name), listing).folders;
                let after = walked_entries(path, rest, files).folders;
                assert forall|i: int| 0 <= i < (below + after).len() implies (#[trigger] (below
                    + after)[i]).files.len() >= 1 by {
                    if i < below.len() {
                        assert((below + after)[i] == below[i]);
                    } else {
                        assert((below + after)[i] == after[i - below.len()]);
                    }
                }
            },
        }
    }
}

/// How many failures of the file system a walk meets in a directory: one if
/// the directory cannot be listed, else those that it meets in its entries.
pub open spec fn failures(listing: Option<Seq<Tree>>) -> nat
    decreases listing,
{
    match listing {
        None => 1,
        Some(nodes) => failures_in(nodes),
    }
}

/// How many failures of the file system a walk meets in the entries: one
/// for each unreadable entry, and those that it meets in each directory.
pub open spec fn failures_in(nodes: Seq<Tree>) -> nat
    decreases nodes,
{
    if nodes.len() == 0 {
        0
    } else {
        let later = failures_in(nodes.drop_first());
        match nodes.first() {
            Tree::Unreadable => 1 + later,
            Tree::Directory { name, listing } => failures(listing) + later,
            _ => later,
        }
    }
}

/// The errors of a walk are the failures of the file system that it meets,
/// one error each: a file without a record is not among them.
pub proof fn lemma_errors_are_failures(path: Seq<u8>, listing: Option<Seq<Tree>>)
    ensures
        walked(path, listing).errors.len() == failures(listing),
        forall|i: int|
            0 <= i < walked(path, listing).errors.len() ==> #[trigger] walked(
                path,
                listing,
            ).errors[i] == io_failure(),
    decreases listing, 1nat,
{
    match listing {
        None => {},
        Some(nodes) => lemma_errors_of_entries_are_failures(path, nodes, Seq::empty()),
    }
}

/// The errors of a walk from some entries of a directory on are the
/// failures of the file system that it meets there, one error each.
pub proof fn lemma_errors_of_entries_are_failures(
    path: Seq<u8>,
    nodes: Seq<Tree>,
    files: Seq<FileView>,
)
    ensures
        walked_entries(path, nodes, files).errors.len() == failures_in(nodes),
        forall|i: int|
            0 <= i < walked_entries(path, nodes, files).errors.len() ==> #[trigger] walked_entries(
                path,
                nodes,
                files,
            ).errors[i] == io_failure(),
    decreases nodes, 0nat,
{
    if nodes.len() > 0 {
        let rest = nodes.drop_first();
        match nodes.first() {
            Tree::Unreadable => lemma_errors_of_entries_are_failures(path, rest, files),
            Tree::Other => lemma_errors_of_entries_are_failures(path, rest, files),
            Tree::Regular { name, record } => {
                if Format::of_name(name) is Some && record is Some {
                    lemma_errors_of_entries_are_failures(path, rest, files.push(record->0));
                } else {
                    lemma_errors_of_entries_are_failures(path, rest, files);
                }
            },
            Tree::Directory { name, listing } => {
                lemma_errors_are_failures(joined(path, name), listing);
                lemma_errors_of_entries_are_failures(path, rest, files);
            },
        }
    }
}

impl Tree {
    /// Whether this is a regular file that gives no record: its extension
    /// names no format, or its tag gives none.
    pub open spec fn gives_no_record(self) -> bool {
        self matches Tree::Regular { name, record } && (Format::of_name(name) is None || record
            is None)
    }
}

/// The directory without the regular files that give no record, at any
/// depth.
pub open spec fn pruned(listing: Option<Seq<Tree>>) -> Option<Seq<Tree>>
    decreases listing,
{
    match listing {
        None => None,
        Some(nodes) => Some(pruned_entries(nodes)),
    }
}

/// The entries without the regular files that give no record, at any depth.
pub open spec fn pruned_entries(nodes: Seq<Tree>) -> Seq<Tree>
    decreases nodes,
{
    if nodes.len() == 0 {
        Seq::empty()
    } else {
        let later = pruned_entries(nodes.drop_first());
        match nodes.first() {
            Tree::Directory { name, listing } => seq![
                Tree::Directory { name, listing: pruned(listing) },
            ] + later,
            first => if first.gives_no_record() {
                later
            } else {
                seq![first] + later
            },
        }
    }
}

/// A file that gives no record leaves no trace. The walk finds the same
/// folders with the same records, and the same errors, whether the files
/// without a record are in the tree or not: a tag that cannot be read, a
/// tag without what a record needs, and an extension that names no format
/// add nothing to any folder and nothing to the errors.
pub proof fn lemma_files_without_record_leave_no_trace(path: Seq<u8>, listing: Option<Seq<Tree>>)
    ensures
        walked(path, pruned(listing)) == walked(path, listing),
    decreases listing, 1nat,
{
    match listing {
        None => {},
        Some(nodes) => lemma_entries_without_record_leave_no_trace(path, nodes, Seq::empty()),
    }
}

/// The walk finds the same from some entries of a directory on, whether the
/// files without a record are among them or not.
pub proof fn lemma_entries_without_record_leave_no_trace(
    path: Seq<u8>,
    nodes: Seq<Tree>,
    files: Seq<FileView>,
)
    ensures
        walked_entries(path, pruned_entries(nodes), files) == walked_entries(path, nodes, files),
    decreases nodes, 0nat,
{
    if nodes.len() > 0 {
        let rest = nodes.drop_first();
        let later = pruned_entries(rest);
        match nodes.first() {
            Tree::Directory { name, listing } => {
                let kept = Tree::Directory { name, listing: pruned(listing) };
                assert((seq![kept] + later).first() == kept);
                assert((seq![kept] + later).drop_first() =~= later);
                lemma_files_without_record_leave_no_trace(joined(path, name), listing);
                lemma_entries_without_record_leave_no_trace(path, rest, files);
            },
            first => {
                if first.gives_no_record() {
                    lemma_entries_without_record_leave_no_trace(path, rest, files);
                } else {
                    assert((seq![first] + later).first() == first);
                    assert((seq![first] + later).drop_first() =~= later);
                    match first {
                        Tree::Regular { name, record } => {
                            lemma_entries_without_record_leave_no_trace(
                                path,
                                rest,
                                files.push(record->0),
                            );
                        },
                        _ => lemma_entries_without_record_leave_no_trace(path, rest, files),
                    }
                }
            },
        }
    }
}

} // verus!
