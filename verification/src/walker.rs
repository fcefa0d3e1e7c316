//! The walk through a directory tree. The walker reads nothing itself: it
//! says what it needs next, a directory's entries or a file's tag, and is
//! told what came of it.

use crate::data::{views, FileView, Folder, FolderView, Format};
use crate::error::{io_failure, Error, ErrorView};
use crate::extract::{extracted, read_file, TagRead};
use vstd::prelude::*;

verus! {

/// One entry of a directory, as its listing gave it.
pub enum Entry {
    /// The entry, or what kind of entry it is, could not be read.
    Unreadable(std::io::Error),
    /// A directory of this name.
    Directory(Vec<u8>),
    /// A regular file of this name.
    Regular(Vec<u8>),
    /// Anything else.
    Other,
}

/// An `Entry` as a mathematical value.
pub ghost enum EntryView {
    Unreadable,
    Directory(Seq<u8>),
    Regular(Seq<u8>),
    Other,
}

impl View for Entry {
    type V = EntryView;

    open spec fn view(&self) -> EntryView {
        match self {
            Entry::Unreadable(_) => EntryView::Unreadable,
            Entry::Directory(name) => EntryView::Directory(name@),
            Entry::Regular(name) => EntryView::Regular(name@),
            Entry::Other => EntryView::Other,
        }
    }
}

/// What the walker needs next. Paths are relative to the root of the walk;
/// the root itself is the empty path.
pub enum Request {
    /// The entries of the directory at this path.
    List(Vec<u8>),
    /// The tag of the file `name` at `path`, read as `format`.
    Read { path: Vec<u8>, name: Vec<u8>, format: Format },
    /// Nothing: the walk is over.
    Done,
}

/// A `Request` as a mathematical value.
pub ghost enum RequestView {
    List(Seq<u8>),
    Read { path: Seq<u8>, name: Seq<u8>, format: Format },
    Done,
}

impl View for Request {
    type V = RequestView;

    open spec fn view(&self) -> RequestView {
        match self {
            Request::List(path) => RequestView::List(path@),
            Request::Read { path, name, format } => RequestView::Read {
                path: path@,
                name: name@,
                format: *format,
            },
            Request::Done => RequestView::Done,
        }
    }
}

/// What came of a request.
pub enum Answer {
    /// The entries of the directory, in the order of the listing, or why
    /// there is no listing.
    Listing(Result<Vec<Entry>, std::io::Error>),
    /// What reading the tag gave.
    Tag(TagRead),
}

/// What an answer says to the walk: that a directory has no listing, or
/// which entries it has, or in which format a tag was read and which record
/// it gives, if it gives one.
pub ghost enum AnswerView {
    Unlisted,
    Listed(Seq<EntryView>),
    Tagged { format: Format, record: Option<FileView> },
}

/// A directory that the walk is in: its path, the records of its files so
/// far, and the entries that it has yet to visit.
pub ghost struct LevelView {
    pub path: Seq<u8>,
    pub files: Seq<FileView>,
    pub rest: Seq<EntryView>,
}

impl LevelView {
    /// The directory at `path`, with these entries and none visited yet.
    pub open spec fn entered(path: Seq<u8>, entries: Seq<EntryView>) -> LevelView {
        LevelView { path, files: Seq::empty(), rest: entries }
    }

    /// The level past its next entry.
    pub open spec fn past_first(self) -> LevelView {
        LevelView { rest: self.rest.drop_first(), ..self }
    }

    /// The level with one more record.
    pub open spec fn with_file(self, file: FileView) -> LevelView {
        LevelView { files: self.files.push(file), ..self }
    }

    /// The folder that the level has made.
    pub open spec fn folder(self) -> FolderView {
        FolderView { path: self.path, files: self.files }
    }
}

/// The state of a walk: the directories that it is in, the innermost last;
/// what it has asked for; and what it has found.
pub ghost struct WalkerView {
    pub levels: Seq<LevelView>,
    pub request: RequestView,
    pub folders: Seq<FolderView>,
    pub errors: Seq<ErrorView>,
}

/// The path of `name` in the directory `parent`.
pub open spec fn joined(parent: Seq<u8>, name: Seq<u8>) -> Seq<u8> {
    if parent.len() == 0 {
        name
    } else {
        parent.push(0x2f) + name
    }
}

/// How many entries the innermost level has yet to visit.
pub open spec fn entries_ahead(levels: Seq<LevelView>) -> nat {
    if levels.len() == 0 {
        0
    } else {
        levels.last().rest.len()
    }
}

/// The levels with the innermost replaced.
pub open spec fn with_top(levels: Seq<LevelView>, top: LevelView) -> Seq<LevelView> {
    levels.drop_last().push(top)
}

/// Goes through the entries of the innermost level until one calls for a
/// request, and leaves each level that has none left. An unreadable entry
/// counts one error. A directory is to be listed. A regular file is to be
/// read if its extension names a format; any other entry is passed over. A
/// level that is left yields its folder if it has at least one record.
pub open spec fn advance(
    levels: Seq<LevelView>,
    folders: Seq<FolderView>,
    errors: Seq<ErrorView>,
) -> WalkerView
    decreases levels.len(), entries_ahead(levels),
{
    if levels.len() == 0 {
        WalkerView { levels, request: RequestView::Done, folders, errors }
    } else {
        let top = levels.last();
        if top.rest.len() == 0 {
            if top.files.len() > 0 {
                advance(levels.drop_last(), folders.push(top.folder()), errors)
            } else {
                advance(levels.drop_last(), folders, errors)
            }
        } else {
            let onward = with_top(levels, top.past_first());
            match top.rest.first() {
                EntryView::Unreadable => advance(onward, folders, errors.push(io_failure())),
                EntryView::Other => advance(onward, folders, errors),
                EntryView::Directory(name) => WalkerView {
                    levels: onward,
                    request: RequestView::List(joined(top.path, name)),
                    folders,
                    errors,
                },
                EntryView::Regular(name) => match Format::of_name(name) {
                    Some(format) => WalkerView {
                        levels: onward,
                        request: RequestView::Read { path: joined(top.path, name), name, format },
                        folders,
                        errors,
                    },
                    None => advance(onward, folders, errors),
                },
            }
        }
    }
}

impl WalkerView {
    /// The walk at its start: it asks for the entries of the root.
    pub open spec fn start() -> WalkerView {
        WalkerView {
            levels: Seq::empty(),
            request: RequestView::List(Seq::empty()),
            folders: Seq::empty(),
            errors: Seq::empty(),
        }
    }

    /// What holds of every state of a walk: each folder found has a record,
    /// and a file that is being read lies in a directory.
    pub open spec fn wf(self) -> bool {
        &&& forall|i: int| 0 <= i < self.folders.len() ==> (#[trigger] self.folders[i]).files.len() > 0
        &&& self.request is Read ==> self.levels.len() > 0
    }

    /// What an answer says to the walk in this state. The record of a tag is
    /// the one that it gives for the file that the walk asked about.
    pub open spec fn heard(self, answer: Answer) -> AnswerView {
        match answer {
            Answer::Listing(Err(_)) => AnswerView::Unlisted,
            Answer::Listing(Ok(entries)) => AnswerView::Listed(views(entries@)),
            Answer::Tag(read) => AnswerView::Tagged {
                format: read.format(),
                record: match self.request {
                    RequestView::Read { path, name, format } => match extracted(path, name, read) {
                        Ok(file) => Some(file),
                        Err(_) => None,
                    },
                    _ => None,
                },
            },
        }
    }

    /// Whether the answer is one to the request.
    pub open spec fn accepts(self, answer: AnswerView) -> bool {
        match (self.request, answer) {
            (RequestView::List(_), AnswerView::Unlisted) => true,
            (RequestView::List(_), AnswerView::Listed(_)) => true,
            (RequestView::Read { path, name, format }, AnswerView::Tagged { format: read, record }) =>
                read == format,
            _ => false,
        }
    }

    /// The state after an answer that is accepted. A directory without a
    /// listing counts one error and yields nothing else. One with a listing
    /// becomes the innermost level. A tag that gives a record adds it to the
    /// innermost level; one that gives none changes nothing. Then the walk
    /// goes on to its next request.
    pub open spec fn step(self, answer: AnswerView) -> WalkerView {
        match (self.request, answer) {
            (RequestView::List(path), AnswerView::Unlisted) => advance(
                self.levels,
                self.folders,
                self.errors.push(io_failure()),
            ),
            (RequestView::List(path), AnswerView::Listed(entries)) => advance(
                self.levels.push(LevelView::entered(path, entries)),
                self.folders,
                self.errors,
            ),
            (RequestView::Read { path, name, format }, AnswerView::Tagged { format: read, record }) =>
                match record {
                    Some(file) => advance(
                        with_top(self.levels, self.levels.last().with_file(file)),
                        self.folders,
                        self.errors,
                    ),
                    None => advance(self.levels, self.folders, self.errors),
                },
            _ => self,
        }
    }
}

/// A directory that the walk is in. The entries that it has yet to visit
/// are kept in reverse, so that the next one is the last.
struct Level {
    folder: Folder,
    pending: Vec<Entry>,
}

/// The entries in the order in which they will be visited.
spec fn visiting_order(pending: Seq<Entry>) -> Seq<EntryView> {
    Seq::new(pending.len(), |i: int| pending[pending.len() - 1 - i]@)
}

impl View for Level {
    type V = LevelView;

    closed spec fn view(&self) -> LevelView {
        LevelView {
            path: self.folder.path@,
            files: views(self.folder.files@),
            rest: visiting_order(self.pending@),
        }
    }
}

/// The entries in reverse.
fn reversed(entries: Vec<Entry>) -> (pending: Vec<Entry>)
    ensures
        visiting_order(pending@) == views(entries@),
{
    let mut entries = entries;
    let ghost all = entries@;
    let mut pending: Vec<Entry> = Vec::new();
    while entries.len() > 0
        invariant
            entries@.len() + pending@.len() == all.len(),
            entries@ == all.take(entries@.len() as int),
            forall|i: int| 0 <= i < pending@.len() ==> pending@[i] == all[all.len() - 1 - i],
        decreases entries.len(),
    {
        match entries.pop() {
            Some(entry) => pending.push(entry),
            None => {},
        }
    }
    assert(visiting_order(pending@) =~= views(all));
    pending
}

/// The path of `name` in the directory `parent`.
pub fn join(parent: &[u8], name: &[u8]) -> (path: Vec<u8>)
    ensures
        path@ == joined(parent@, name@),
{
    let mut path = vstd::slice::slice_to_vec(parent);
    if path.len() > 0 {
        path.push(0x2f);
    }
    path.extend_from_slice(name);
    assert(path@ =~= joined(parent@, name@));
    path
}

/// Goes on to the next request, as `advance` says.
fn go_on(levels: &mut Vec<Level>, folders: &mut Vec<Folder>, errors: &mut Vec<Error>) -> (request:
    Request)
    ensures
        (WalkerView {
            levels: views(final(levels)@),
            request: request@,
            folders: views(final(folders)@),
            errors: views(final(errors)@),
        }) == advance(views(old(levels)@), views(old(folders)@), views(old(errors)@)),
{
    let ghost goal = advance(views(levels@), views(folders@), views(errors@));
    loop
        invariant
            goal == advance(views(old(levels)@), views(old(folders)@), views(old(errors)@)),
            advance(views(levels@), views(folders@), views(errors@)) == goal,
        decreases levels@.len(), entries_ahead(views(levels@)),
    {
        let ghost before = views(levels@);
        let ghost found = views(folders@);
        let ghost failed = views(errors@);
        let mut top = match levels.pop() {
            Some(level) => level,
            None => {
                assert(views(levels@) =~= Seq::<LevelView>::empty());
                return Request::Done;
            },
        };
        assert(views(levels@) =~= before.drop_last());
        assert(top@ == before.last());
        let ghost ahead = top@.rest;
        match top.pending.pop() {
            None => {
                if top.folder.files.len() > 0 {
                    let ghost made = top.folder@;
                    folders.push(top.folder);
                    assert(views(folders@) =~= found.push(made));
                }
            },
            Some(entry) => {
                assert(entry@ == ahead.first());
                assert(top@.rest =~= ahead.drop_first());
                assert(top@ == before.last().past_first());
                let request = match entry {
                    Entry::Unreadable(cause) => {
                        let e = Error::from(cause);
                        errors.push(e);
                        assert(views(errors@) =~= failed.push(io_failure()));
                        None
                    },
                    Entry::Other => None,
                    Entry::Directory(name) => Some(
                        Request::List(join(top.folder.path.as_slice(), name.as_slice())),
                    ),
                    Entry::Regular(name) => match Format::from_name(name.as_slice()) {
                        Some(format) => Some(
                            Request::Read {
                                path: join(top.folder.path.as_slice(), name.as_slice()),
                                name,
                                format,
                            },
                        ),
                        None => None,
                    },
                };
                let ghost onward = top@;
                levels.push(top);
                assert(views(levels@) =~= with_top(before, onward));
                if let Some(request) = request {
                    return request;
                }
            },
        }
    }
}

/// A walk through a directory tree.
pub struct Walker {
    levels: Vec<Level>,
    request: Request,
    folders: Vec<Folder>,
    errors: Vec<Error>,
}

impl View for Walker {
    type V = WalkerView;

    closed spec fn view(&self) -> WalkerView {
        WalkerView {
            levels: views(self.levels@),
            request: self.request@,
            folders: views(self.folders@),
            errors: views(self.errors@),
        }
    }
}

/// Going on keeps the folders found so far, each with a record, and adds
/// only folders with a record. It stops at a file only inside a directory.
pub proof fn lemma_advance_wf(
    levels: Seq<LevelView>,
    folders: Seq<FolderView>,
    errors: Seq<ErrorView>,
)
    requires
        forall|i: int| 0 <= i < folders.len() ==> (#[trigger] folders[i]).files.len() > 0,
    ensures
        advance(levels, folders, errors).wf(),
    decreases levels.len(), entries_ahead(levels),
{
    if levels.len() > 0 {
        let top = levels.last();
        if top.rest.len() == 0 {
            if top.files.len() > 0 {
                lemma_advance_wf(levels.drop_last(), folders.push(top.folder()), errors);
            } else {
                lemma_advance_wf(levels.drop_last(), folders, errors);
            }
        } else {
            let onward = with_top(levels, top.past_first());
            match top.rest.first() {
                EntryView::Unreadable => lemma_advance_wf(
                    onward,
                    folders,
                    errors.push(io_failure()),
                ),
                EntryView::Other => lemma_advance_wf(onward, folders, errors),
                EntryView::Directory(name) => {},
                EntryView::Regular(name) => {
                    if Format::of_name(name) is None {
                        lemma_advance_wf(onward, folders, errors);
                    }
                },
            }
        }
    }
}

/// Every state of a walk is well-formed: the start is, and an accepted
/// answer leads from a well-formed state to a well-formed one. So no folder
/// without a record is ever among those found.
pub proof fn lemma_folders_have_records(s: WalkerView, answer: AnswerView)
    requires
        s.wf(),
        s.accepts(answer),
    ensures
        WalkerView::start().wf(),
        s.step(answer).wf(),
{
    match (s.request, answer) {
        (RequestView::List(path), AnswerView::Unlisted) => {
            lemma_advance_wf(s.levels, s.folders, s.errors.push(io_failure()));
        },
        (RequestView::List(path), AnswerView::Listed(entries)) => {
            lemma_advance_wf(
                s.levels.push(LevelView::entered(path, entries)),
                s.folders,
                s.errors,
            );
        },
        (RequestView::Read { path, name, format }, AnswerView::Tagged { format: read, record }) => {
            match record {
                Some(file) => lemma_advance_wf(
                    with_top(s.levels, s.levels.last().with_file(file)),
                    s.folders,
                    s.errors,
                ),
                None => lemma_advance_wf(s.levels, s.folders, s.errors),
            }
        },
        _ => {},
    }
}

/// How many of the entries are unreadable.
pub open spec fn unreadable(entries: Seq<EntryView>) -> nat
    decreases entries.len(),
{
    if entries.len() == 0 {
        0
    } else if entries.first() is Unreadable {
        1 + unreadable(entries.drop_first())
    } else {
        unreadable(entries.drop_first())
    }
}

/// How many of the entries that the levels have yet to visit are unreadable.
pub open spec fn unreadable_ahead(levels: Seq<LevelView>) -> nat
    decreases levels.len(),
{
    if levels.len() == 0 {
        0
    } else {
        unreadable_ahead(levels.drop_last()) + unreadable(levels.last().rest)
    }
}

/// How many records the folders hold.
pub open spec fn records(folders: Seq<FolderView>) -> nat
    decreases folders.len(),
{
    if folders.len() == 0 {
        0
    } else {
        records(folders.drop_last()) + folders.last().files.len()
    }
}

/// How many records the levels hold.
pub open spec fn records_held(levels: Seq<LevelView>) -> nat
    decreases levels.len(),
{
    if levels.len() == 0 {
        0
    } else {
        records_held(levels.drop_last()) + levels.last().files.len()
    }
}

impl WalkerView {
    /// The errors counted so far, and those that the entries already listed
    /// will yet count.
    pub open spec fn errors_due(self) -> nat {
        self.errors.len() + unreadable_ahead(self.levels)
    }

    /// The records made so far, in the folders found and in the levels.
    pub open spec fn records_made(self) -> nat {
        records(self.folders) + records_held(self.levels)
    }
}

/// Going on counts an error for each unreadable entry that it passes and for
/// nothing else, and neither makes nor loses a record.
pub proof fn lemma_advance_accounts(
    levels: Seq<LevelView>,
    folders: Seq<FolderView>,
    errors: Seq<ErrorView>,
)
    ensures
        advance(levels, folders, errors).errors_due() == errors.len() + unreadable_ahead(levels),
        advance(levels, folders, errors).records_made() == records(folders) + records_held(
            levels,
        ),
    decreases levels.len(), entries_ahead(levels),
{
    if levels.len() > 0 {
        let top = levels.last();
        if top.rest.len() == 0 {
            if top.files.len() > 0 {
                assert(folders.push(top.folder()).drop_last() =~= folders);
                lemma_advance_accounts(levels.drop_last(), folders.push(top.folder()), errors);
            } else {
                lemma_advance_accounts(levels.drop_last(), folders, errors);
            }
        } else {
            let onward = with_top(levels, top.past_first());
            assert(onward.drop_last() =~= levels.drop_last());
            assert(onward.last() == top.past_first());
            match top.rest.first() {
                EntryView::Unreadable => lemma_advance_accounts(
                    onward,
                    folders,
                    errors.push(io_failure()),
                ),
                EntryView::Other => lemma_advance_accounts(onward, folders, errors),
                EntryView::Directory(name) => {},
                EntryView::Regular(name) => {
                    if Format::of_name(name) is None {
                        lemma_advance_accounts(onward, folders, errors);
                    }
                },
            }
        }
    }
}

/// What an accepted answer adds to the account of a walk. A directory
/// without a listing adds one error; a listing adds one for each of its
/// unreadable entries; a tag adds none, whether it gives a record or not.
/// A tag that gives a record adds that one record, and nothing else adds or
/// removes any: a file whose tag gives none is in no folder and in no count.
pub proof fn lemma_step_accounts(s: WalkerView, answer: AnswerView)
    requires
        s.wf(),
        s.accepts(answer),
    ensures
        match answer {
            AnswerView::Unlisted => {
                &&& s.step(answer).errors_due() == s.errors_due() + 1
                &&& s.step(answer).records_made() == s.records_made()
            },
            AnswerView::Listed(entries) => {
                &&& s.step(answer).errors_due() == s.errors_due() + unreadable(entries)
                &&& s.step(answer).records_made() == s.records_made()
            },
            AnswerView::Tagged { format, record: Some(_) } => {
                &&& s.step(answer).errors_due() == s.errors_due()
                &&& s.step(answer).records_made() == s.records_made() + 1
            },
            AnswerView::Tagged { format, record: None } => {
                &&& s.step(answer).errors_due() == s.errors_due()
                &&& s.step(answer).records_made() == s.records_made()
            },
        },
{
    match (s.request, answer) {
        (RequestView::List(path), AnswerView::Unlisted) => {
            lemma_advance_accounts(s.levels, s.folders, s.errors.push(io_failure()));
        },
        (RequestView::List(path), AnswerView::Listed(entries)) => {
            let entered = s.levels.push(LevelView::entered(path, entries));
            assert(entered.drop_last() =~= s.levels);
            lemma_advance_accounts(entered, s.folders, s.errors);
        },
        (RequestView::Read { path, name, format }, AnswerView::Tagged { format: read, record }) => {
            match record {
                Some(file) => {
                    let added = with_top(s.levels, s.levels.last().with_file(file));
                    assert(added.drop_last() =~= s.levels.drop_last());
                    lemma_advance_accounts(added, s.folders, s.errors);
                },
                None => lemma_advance_accounts(s.levels, s.folders, s.errors),
            }
        },
        _ => {},
    }
}

impl Walker {
    #[verifier::type_invariant]
    closed spec fn well_formed(self) -> bool {
        self@.wf()
    }

    /// A walk at its start.
    pub fn new() -> (walker: Walker)
        ensures
            walker@ == WalkerView::start(),
    {
        let walker = Walker {
            levels: Vec::new(),
            request: Request::List(Vec::new()),
            folders: Vec::new(),
            errors: Vec::new(),
        };
        assert(walker@.levels =~= Seq::<LevelView>::empty());
        assert(walker@.folders =~= Seq::<FolderView>::empty());
        assert(walker@.errors =~= Seq::<ErrorView>::empty());
        walker
    }

    /// What the walk needs next.
    pub fn request(&self) -> (request: &Request)
        ensures
            request@ == self@.request,
    {
        &self.request
    }

    /// Takes the answer to the request and goes on to the next request. An
    /// answer of the wrong kind, or a tag in another format than the one
    /// asked for, is refused and changes nothing.
    pub fn supply(&mut self, answer: Answer) -> (accepted: bool)
        ensures
            accepted == old(self)@.accepts(old(self)@.heard(answer)),
            final(self)@ == (if accepted {
                old(self)@.step(old(self)@.heard(answer))
            } else {
                old(self)@
            }),
            final(self)@.wf(),
    {
        proof {
            use_type_invariant(&*self);
        }
        let ghost before = self@;
        let accepted = match (&self.request, &answer) {
            (Request::List(_), Answer::Listing(_)) => true,
            (Request::Read { path, name, format }, Answer::Tag(read)) => read.format() == *format,
            _ => false,
        };
        if !accepted {
            return false;
        }
        let mut request = Request::Done;
        let mut levels: Vec<Level> = Vec::new();
        let mut folders: Vec<Folder> = Vec::new();
        let mut errors: Vec<Error> = Vec::new();
        std::mem::swap(&mut self.request, &mut request);
        std::mem::swap(&mut self.levels, &mut levels);
        std::mem::swap(&mut self.folders, &mut folders);
        std::mem::swap(&mut self.errors, &mut errors);
        match (request, answer) {
            (Request::List(path), Answer::Listing(Err(cause))) => {
                errors.push(Error::from(cause));
                assert(views(errors@) =~= before.errors.push(io_failure()));
            },
            (Request::List(path), Answer::Listing(Ok(entries))) => {
                let ghost listed = views(entries@);
                let level = Level {
                    folder: Folder { path, files: Vec::new() },
                    pending: reversed(entries),
                };
                assert(level@.files =~= Seq::<FileView>::empty());
                levels.push(level);
                assert(views(levels@) =~= before.levels.push(
                    LevelView::entered(path@, listed),
                ));
            },
            (Request::Read { path, name, format }, Answer::Tag(read)) => {
                if let Ok(file) = read_file(path.as_slice(), name.as_slice(), read) {
                    match levels.pop() {
                        Some(level) => {
                            let mut level = level;
                            let ghost top = level@;
                            level.folder.files.push(file);
                            assert(level@.files =~= top.files.push(file@));
                            levels.push(level);
                            assert(views(levels@) =~= with_top(
                                before.levels,
                                before.levels.last().with_file(file@),
                            ));
                        },
                        None => {},
                    }
                }
            },
            _ => {},
        }
        proof {
            lemma_advance_wf(views(levels@), views(folders@), views(errors@));
        }
        let next = go_on(&mut levels, &mut folders, &mut errors);
        *self = Walker { levels, request: next, folders, errors };
        true
    }

    /// What the walk found, once it is over: the folders, each with at least
    /// one record, and the errors.
    pub fn into_result(self) -> (result: Option<(Vec<Folder>, Vec<Error>)>)
        ensures
            result is Some <==> self@.request is Done,
            result matches Some((folders, errors)) ==> {
                &&& views(folders@) == self@.folders
                &&& views(errors@) == self@.errors
                &&& forall|i: int| 0 <= i < folders@.len() ==> (#[trigger] folders@[i]).files@.len() > 0
            },
    {
        proof {
            use_type_invariant(&self);
        }
        match self.request {
            Request::Done => {
                assert forall|i: int| 0 <= i < self.folders@.len() implies (
                #[trigger] self.folders@[i]).files@.len() > 0 by {
                    assert(self@.folders[i].files.len() > 0);
                    assert(self@.folders[i] == self.folders@[i]@);
                }
                Some((self.folders, self.errors))
            },
            _ => None,
        }
    }
}

} // verus!
