//! Walking the pages of a remote listing.
//!
//! A listing is a small state machine. `next` hands out the items of the
//! page at hand; when the page is used up it says which page to fetch, and
//! `page_fetched` takes what the server answered. The caller makes the
//! remote call in between.

use vstd::prelude::*;
use crate::records::{ChangeRecord, DocumentRecord};
use crate::rows::rows_of;
use crate::scopes::{app_scopes, CallBuilderExt};

verus! {

/// Why a listing stopped.
#[derive(Clone, Copy, Debug, PartialEq, Eq, Structural)]
pub enum PageError {
    /// The remote call failed.
    Remote,
    /// The answer holds no list of files.
    NoFiles,
    /// The answer holds no list of changes.
    NoChanges,
    /// The answer holds neither a token for the next page nor a token for
    /// the next synchronization.
    NoTokens,
    /// A page without items came before the last page.
    EmptyPage,
}

/// What a remote list call is made with.
#[derive(Debug, PartialEq, Eq)]
pub struct CallOptions {
    /// The authorization scopes of the call.
    pub scopes: Vec<String>,
    /// The fields that the answer is to hold.
    pub fields: String,
    /// The spaces that are searched.
    pub spaces: Option<String>,
    /// The token of the page that is asked for.
    pub page_token: Option<String>,
    /// Whether the caller can handle items of shared drives.
    pub supports_team_drives: bool,
    /// Whether items of shared drives are listed.
    pub include_team_drive_items: bool,
    /// Whether removals are reported.
    pub include_removed: bool,
    /// Whether removals from the corpus are reported.
    pub include_corpus_removals: bool,
}

/// What call options hold.
pub struct CallData {
    pub scopes: Seq<Seq<char>>,
    pub fields: Seq<char>,
    pub spaces: Option<Seq<char>>,
    pub page_token: Option<Seq<char>>,
    pub supports_team_drives: bool,
    pub include_team_drive_items: bool,
    pub include_removed: bool,
    pub include_corpus_removals: bool,
}

/// A text that may be absent, by its characters.
pub open spec fn text_of(t: Option<String>) -> Option<Seq<char>> {
    match t {
        Some(s) => Some(s@),
        None => None,
    }
}

impl View for CallOptions {
    type V = CallData;

    open spec fn view(&self) -> CallData {
        CallData {
            scopes: rows_of(self.scopes@),
            fields: self.fields@,
            spaces: text_of(self.spaces),
            page_token: text_of(self.page_token),
            supports_team_drives: self.supports_team_drives,
            include_team_drive_items: self.include_team_drive_items,
            include_removed: self.include_removed,
            include_corpus_removals: self.include_corpus_removals,
        }
    }
}

fn copy_text(t: &Option<String>) -> (r: Option<String>)
    ensures
        text_of(r) == text_of(*t),
{
    match t {
        Some(s) => Some(s.clone()),
        None => None,
    }
}

impl Clone for CallOptions {
    fn clone(&self) -> (r: Self)
        ensures
            r@ == self@,
    {
        let mut scopes: Vec<String> = Vec::new();
        let mut i: usize = 0;
        while i < self.scopes.len()
            invariant
                i <= self.scopes@.len(),
                rows_of(scopes@) == rows_of(self.scopes@).subrange(0, i as int),
            decreases self.scopes@.len() - i,
        {
            let ghost before = rows_of(scopes@);
            let s = self.scopes[i].clone();
            scopes.push(s);
            proof {
                assert(rows_of(scopes@) =~= before.push(s@));
                assert(rows_of(scopes@) =~= rows_of(self.scopes@).subrange(0, i + 1));
            }
            i += 1;
        }
        proof {
            assert(rows_of(self.scopes@).subrange(0, self.scopes@.len() as int) =~= rows_of(
                self.scopes@,
            ));
        }
        CallOptions {
            scopes,
            fields: self.fields.clone(),
            spaces: copy_text(&self.spaces),
            page_token: copy_text(&self.page_token),
            supports_team_drives: self.supports_team_drives,
            include_team_drive_items: self.include_team_drive_items,
            include_removed: self.include_removed,
            include_corpus_removals: self.include_corpus_removals,
        }
    }
}

impl CallBuilderExt for CallOptions {
    fn set_scope(self, scope: &str) -> (r: Self)
        ensures
            r@ == (CallData { scopes: self@.scopes.push(scope@), ..self@ }),
    {
        let mut r = self;
        let ghost before = rows_of(r.scopes@);
        r.scopes.push(scope.to_owned());
        proof {
            assert(rows_of(r.scopes@) =~= before.push(scope@));
        }
        r
    }

    fn default_scope(self) -> (r: Self)
        ensures
            r@ == (CallData { scopes: self@.scopes + app_scopes(), ..self@ }),
    {
        let ghost before = self@;
        let r = self.set_scope("https://www.googleapis.com/auth/drive").set_scope(
            "profile",
        ).set_scope("email");
        proof {
            assert(r@.scopes =~= before.scopes + app_scopes());
        }
        r
    }
}

/// The fields of a document that the application asks for.
pub open spec fn file_fields() -> Seq<char> {
    "id,mimeType,modifiedTime,name,parents,size,starred,trashed"@
}

/// The fields of a page of the full listing that the application asks for.
pub open spec fn file_list_fields() -> Seq<char> {
    "files(id,mimeType,modifiedTime,name,parents,size,starred,trashed),nextPageToken"@
}

/// The fields of a page of the change feed that the application asks for.
pub open spec fn change_list_fields() -> Seq<char> {
    "changes(file(id,mimeType,modifiedTime,name,parents,size,starred,trashed),fileId,removed),newStartPageToken,nextPageToken"@
}

/// Call options without scopes, spaces or token, and with every flag off.
pub open spec fn bare_call(fields: Seq<char>) -> CallData {
    CallData {
        scopes: Seq::empty(),
        fields,
        spaces: None,
        page_token: None,
        supports_team_drives: false,
        include_team_drive_items: false,
        include_removed: false,
        include_corpus_removals: false,
    }
}

/// The options with which the root folder of an account is fetched.
pub fn root_file_call() -> (c: CallOptions)
    ensures
        c@ == bare_call(file_fields()),
{
    let c = CallOptions {
        scopes: Vec::new(),
        fields: "id,mimeType,modifiedTime,name,parents,size,starred,trashed".to_owned(),
        spaces: None,
        page_token: None,
        supports_team_drives: false,
        include_team_drive_items: false,
        include_removed: false,
        include_corpus_removals: false,
    };
    proof {
        assert(rows_of(c.scopes@) =~= Seq::<Seq<char>>::empty());
    }
    c
}

/// The options with which the pages of the full listing are fetched: the
/// space `drive` and the fields of the documents.
pub fn import_call() -> (c: CallOptions)
    ensures
        c@ == (CallData { spaces: Some("drive"@), ..bare_call(file_list_fields()) }),
{
    let c = CallOptions {
        scopes: Vec::new(),
        fields: "files(id,mimeType,modifiedTime,name,parents,size,starred,trashed),nextPageToken".to_owned(),
        spaces: Some("drive".to_owned()),
        page_token: None,
        supports_team_drives: false,
        include_team_drive_items: false,
        include_removed: false,
        include_corpus_removals: false,
    };
    proof {
        assert(rows_of(c.scopes@) =~= Seq::<Seq<char>>::empty());
    }
    c
}

/// The options with which the pages of the change feed are fetched: the
/// space `drive`, items of shared drives and removals included.
pub fn sync_call() -> (c: CallOptions)
    ensures
        c@ == (CallData {
            spaces: Some("drive"@),
            supports_team_drives: true,
            include_team_drive_items: true,
            include_removed: true,
            include_corpus_removals: true,
            ..bare_call(change_list_fields())
        }),
{
    let c = CallOptions {
        scopes: Vec::new(),
        fields: "changes(file(id,mimeType,modifiedTime,name,parents,size,starred,trashed),fileId,removed),newStartPageToken,nextPageToken".to_owned(),
        spaces: Some("drive".to_owned()),
        page_token: None,
        supports_team_drives: true,
        include_team_drive_items: true,
        include_removed: true,
        include_corpus_removals: true,
    };
    proof {
        assert(rows_of(c.scopes@) =~= Seq::<Seq<char>>::empty());
    }
    c
}

/// One page of the full listing, as the server answers.
#[derive(Debug, PartialEq, Eq)]
pub struct FilePage {
    /// The token of the next page; absent on the last page.
    pub next_page_token: Option<String>,
    /// The documents of the page.
    pub files: Option<Vec<DocumentRecord>>,
}

/// One page of the change feed, as the server answers.
#[derive(Debug, PartialEq, Eq)]
pub struct ChangePage {
    /// The token of the next page; absent on the last page.
    pub next_page_token: Option<String>,
    /// The token with which the next synchronization starts; present on
    /// the last page.
    pub new_start_page_token: Option<String>,
    /// The entries of the page.
    pub changes: Option<Vec<ChangeRecord>>,
}

/// What a listing does next.
pub enum Step<T> {
    /// It hands out an item.
    Item(T),
    /// It stops with an error.
    Failed(PageError),
    /// It has handed out everything.
    Done,
    /// It needs a page; the call is to be made with these options.
    Fetch(CallOptions),
}

/// A sequence from its last element to its first.
pub open spec fn backwards<T>(s: Seq<T>) -> Seq<T> {
    Seq::new(s.len(), |i: int| s[s.len() - 1 - i])
}

fn reversed<T>(v: Vec<T>) -> (r: Vec<T>)
    ensures
        r@ == backwards(v@),
{
    let ghost orig = v@;
    let mut v = v;
    let mut r: Vec<T> = Vec::new();
    while v.len() > 0
        invariant
            v@.len() + r@.len() == orig.len(),
            v@ == orig.subrange(0, v@.len() as int),
            forall|i: int| 0 <= i < r@.len() ==> r@[i] == orig[orig.len() - 1 - i],
        decreases v@.len(),
    {
        let x = v.pop().unwrap();
        r.push(x);
    }
    proof {
        assert(r@ =~= backwards(orig));
    }
    r
}

/// The state of a walk through a paged listing.
pub struct ListingData<T> {
    /// The options with which every page is asked for.
    pub base: CallData,
    /// The items of the page at hand that have not been handed out.
    pub pending: Seq<T>,
    /// The token of the page to fetch next, if the server gave one.
    pub next_page_token: Option<Seq<char>>,
    /// Whether the walk has ended, with or without an error.
    pub finished: bool,
    /// Whether the page at hand is the last.
    pub final_page: bool,
}

/// The walk through the pages of the full listing.
pub struct FileListing {
    base: CallOptions,
    cur_page: Vec<DocumentRecord>,
    next_page_token: Option<String>,
    finished: bool,
    final_page: bool,
}

/// The options of the call for a page: the base options, the scopes of the
/// application added, and the token of the page.
pub open spec fn page_call(base: CallData, token: Option<Seq<char>>) -> CallData {
    CallData { scopes: base.scopes + app_scopes(), page_token: token, ..base }
}

fn call_for_page(base: &CallOptions, token: Option<String>) -> (c: CallOptions)
    ensures
        c@ == page_call(base@, text_of(token)),
{
    let mut c = base.clone().default_scope();
    c.page_token = token;
    c
}

impl View for FileListing {
    type V = ListingData<DocumentRecord>;

    closed spec fn view(&self) -> ListingData<DocumentRecord> {
        ListingData {
            base: self.base@,
            pending: backwards(self.cur_page@),
            next_page_token: text_of(self.next_page_token),
            finished: self.finished,
            final_page: self.final_page,
        }
    }
}

/// A walk that has not fetched any page.
pub open spec fn fresh_listing<T>(base: CallData, token: Option<Seq<char>>) -> ListingData<T> {
    ListingData {
        base,
        pending: Seq::empty(),
        next_page_token: token,
        finished: false,
        final_page: false,
    }
}

/// A walk that has ended.
pub open spec fn ended<T>(l: ListingData<T>) -> ListingData<T> {
    ListingData { finished: true, ..l }
}

impl FileListing {
    /// The options with which every page is asked for.
    pub open spec fn base(&self) -> CallData {
        self@.base
    }

    /// Starts a walk through the full listing.
    pub fn new(base: CallOptions) -> (l: FileListing)
        ensures
            l@ == fresh_listing::<DocumentRecord>(base@, None),
    {
        let l = FileListing {
            base,
            cur_page: Vec::new(),
            next_page_token: None,
            finished: false,
            final_page: false,
        };
        proof {
            assert(l@.pending =~= Seq::empty());
        }
        l
    }

    /// The next step of the walk.
    ///
    /// A walk that has ended is done. Otherwise the next item of the page
    /// at hand is handed out. When the page is used up, the walk is done if
    /// the page was the last, and else the next page is asked for.
    pub fn next(&mut self) -> (step: Step<DocumentRecord>)
        ensures
            old(self)@.finished ==> step is Done && final(self)@ == old(self)@,
            !old(self)@.finished && old(self)@.pending.len() > 0 ==> step == Step::Item(
                old(self)@.pending[0],
            ) && final(self)@ == (ListingData {
                pending: old(self)@.pending.skip(1),
                ..old(self)@
            }),
            !old(self)@.finished && old(self)@.pending.len() == 0 && old(self)@.final_page
                ==> step is Done && final(self)@ == ended(old(self)@),
            !old(self)@.finished && old(self)@.pending.len() == 0 && !old(self)@.final_page
                ==> (step matches Step::Fetch(c) && c@ == page_call(
                old(self).base(),
                old(self)@.next_page_token,
            ) && final(self)@ == (ListingData { next_page_token: None, ..old(self)@ })),
    {
        if self.finished {
            return Step::Done;
        }
        if self.cur_page.len() > 0 {
            let item = self.cur_page.pop().unwrap();
            proof {
                assert(self@.pending =~= old(self)@.pending.skip(1));
            }
            return Step::Item(item);
        }
        if self.final_page {
            self.finished = true;
            return Step::Done;
        }
        let token: Option<String> = self.next_page_token.take();
        Step::Fetch(call_for_page(&self.base, token))
    }

    /// Takes the answer of the server to the call that `next` asked for;
    /// `None` if the call failed. Gives the step that follows.
    pub fn page_fetched(&mut self, response: Option<FilePage>) -> (step: Step<DocumentRecord>)
        ensures
            final(self)@ == file_page_outcome(old(self)@, response).0,
            step == file_page_outcome(old(self)@, response).1,
    {
        let listing: FilePage = match response {
            Some(l) => l,
            None => {
                self.finished = true;
                return Step::Failed(PageError::Remote);
            },
        };
        match listing.next_page_token {
            Some(token) => {
                self.next_page_token = Some(token);
            },
            None => {
                self.final_page = true;
            },
        }
        let files: Vec<DocumentRecord> = match listing.files {
            Some(f) => f,
            None => {
                self.finished = true;
                return Step::Failed(PageError::NoFiles);
            },
        };
        let mut rest: Vec<DocumentRecord> = reversed(files);
        match rest.pop() {
            Some(first) => {
                self.cur_page = rest;
                proof {
                    assert(self@.pending =~= files@.skip(1));
                }
                Step::Item(first)
            },
            None => {
                self.finished = true;
                if self.final_page {
                    Step::Done
                } else {
                    Step::Failed(PageError::EmptyPage)
                }
            },
        }
    }
}

/// The state of a walk through the full listing after a page has arrived,
/// and the step that follows.
///
/// A failed call ends the walk. The token of the next page is kept; a page
/// without one is the last. A page without a list of files ends the walk
/// with an error. The first document of the page is handed out; a page
/// without documents ends the walk, with an error unless it is the last.
pub open spec fn file_page_outcome(
    l: ListingData<DocumentRecord>,
    response: Option<FilePage>,
) -> (ListingData<DocumentRecord>, Step<DocumentRecord>) {
    match response {
        None => (ended(l), Step::Failed(PageError::Remote)),
        Some(page) => {
            let marked = match page.next_page_token {
                Some(token) => ListingData { next_page_token: Some(token@), ..l },
                None => ListingData { final_page: true, ..l },
            };
            match page.files {
                None => (ended(marked), Step::Failed(PageError::NoFiles)),
                Some(files) => if files@.len() == 0 {
                    (
                        ended(marked),
                        if marked.final_page {
                            Step::Done
                        } else {
                            Step::Failed(PageError::EmptyPage)
                        },
                    )
                } else {
                    (ListingData { pending: files@.skip(1), ..marked }, Step::Item(files@[0]))
                },
            }
        },
    }
}

/// Starts a walk through the full listing of an account.
pub fn list_files(base: CallOptions) -> (l: FileListing)
    ensures
        l@ == fresh_listing::<DocumentRecord>(base@, None),
{
    FileListing::new(base)
}

/// The walk through the pages of the change feed.
pub struct ChangeListing {
    base: CallOptions,
    cur_page: Vec<ChangeRecord>,
    next_page_token: String,
    finished: bool,
    final_page: bool,
}

impl View for ChangeListing {
    type V = ListingData<ChangeRecord>;

    closed spec fn view(&self) -> ListingData<ChangeRecord> {
        ListingData {
            base: self.base@,
            pending: backwards(self.cur_page@),
            next_page_token: Some(self.next_page_token@),
            finished: self.finished,
            final_page: self.final_page,
        }
    }
}

/// The state of a walk through the change feed after a page has arrived,
/// and the step that follows.
///
/// A failed call ends the walk. The token of the next page replaces the
/// token of the walk; where the page has none, the token for the next
/// synchronization does and the page is the last; a page with neither ends
/// the walk with an error. A page without a list of changes ends the walk
/// with an error. The first entry of the page is handed out; a page without
/// entries ends the walk, with an error unless it is the last.
pub open spec fn change_page_outcome(
    l: ListingData<ChangeRecord>,
    response: Option<ChangePage>,
) -> (ListingData<ChangeRecord>, Step<ChangeRecord>) {
    match response {
        None => (ended(l), Step::Failed(PageError::Remote)),
        Some(page) => {
            if page.next_page_token is None && page.new_start_page_token is None {
                (ended(l), Step::Failed(PageError::NoTokens))
            } else {
                let marked = match page.next_page_token {
                    Some(token) => ListingData { next_page_token: Some(token@), ..l },
                    None => ListingData {
                        next_page_token: Some(page.new_start_page_token->0@),
                        final_page: true,
                        ..l
                    },
                };
                match page.changes {
                    None => (ended(marked), Step::Failed(PageError::NoChanges)),
                    Some(changes) => if changes@.len() == 0 {
                        (
                            ended(marked),
                            if marked.final_page {
                                Step::Done
                            } else {
                                Step::Failed(PageError::EmptyPage)
                            },
                        )
                    } else {
                        (
                            ListingData { pending: changes@.skip(1), ..marked },
                            Step::Item(changes@[0]),
                        )
                    },
                }
            }
        },
    }
}

impl ChangeListing {
    /// The options with which every page is asked for.
    pub open spec fn base(&self) -> CallData {
        self@.base
    }

    /// Starts a walk through the change feed at the given token.
    pub fn new(base: CallOptions, page_token: &str) -> (l: ChangeListing)
        ensures
            l@ == fresh_listing::<ChangeRecord>(base@, Some(page_token@)),
    {
        let l = ChangeListing {
            base,
            cur_page: Vec::new(),
            next_page_token: page_token.to_owned(),
            finished: false,
            final_page: false,
        };
        proof {
            assert(l@.pending =~= Seq::empty());
        }
        l
    }

    /// The next step of the walk.
    ///
    /// A walk that has ended is done. Otherwise the next entry of the page
    /// at hand is handed out. When the page is used up, the walk is done if
    /// the page was the last, and else the page at the token of the walk is
    /// asked for.
    pub fn next(&mut self) -> (step: Step<ChangeRecord>)
        ensures
            old(self)@.finished ==> step is Done && final(self)@ == old(self)@,
            !old(self)@.finished && old(self)@.pending.len() > 0 ==> step == Step::Item(
                old(self)@.pending[0],
            ) && final(self)@ == (ListingData {
                pending: old(self)@.pending.skip(1),
                ..old(self)@
            }),
            !old(self)@.finished && old(self)@.pending.len() == 0 && old(self)@.final_page
                ==> step is Done && final(self)@ == ended(old(self)@),
            !old(self)@.finished && old(self)@.pending.len() == 0 && !old(self)@.final_page
                ==> (step matches Step::Fetch(c) && c@ == page_call(
                old(self).base(),
                old(self)@.next_page_token,
            ) && final(self)@ == old(self)@),
    {
        if self.finished {
            return Step::Done;
        }
        if self.cur_page.len() > 0 {
            let item = self.cur_page.pop().unwrap();
            proof {
                assert(self@.pending =~= old(self)@.pending.skip(1));
            }
            return Step::Item(item);
        }
        if self.final_page {
            self.finished = true;
            return Step::Done;
        }
        Step::Fetch(call_for_page(&self.base, Some(self.next_page_token.clone())))
    }

    /// Takes the answer of the server to the call that `next` asked for;
    /// `None` if the call failed. Gives the step that follows.
    pub fn page_fetched(&mut self, response: Option<ChangePage>) -> (step: Step<ChangeRecord>)
        ensures
            final(self)@ == change_page_outcome(old(self)@, response).0,
            step == change_page_outcome(old(self)@, response).1,
    {
        let listing: ChangePage = match response {
            Some(l) => l,
            None => {
                self.finished = true;
                return Step::Failed(PageError::Remote);
            },
        };
        match listing.next_page_token {
            Some(token) => {
                self.next_page_token = token;
            },
            None => match listing.new_start_page_token {
                Some(token) => {
                    self.next_page_token = token;
                    self.final_page = true;
                },
                None => {
                    self.finished = true;
                    return Step::Failed(PageError::NoTokens);
                },
            },
        }
        let changes: Vec<ChangeRecord> = match listing.changes {
            Some(c) => c,
            None => {
                self.finished = true;
                return Step::Failed(PageError::NoChanges);
            },
        };
        let mut rest: Vec<ChangeRecord> = reversed(changes);
        match rest.pop() {
            Some(first) => {
                self.cur_page = rest;
                proof {
                    assert(self@.pending =~= changes@.skip(1));
                }
                Step::Item(first)
            },
            None => {
                self.finished = true;
                if self.final_page {
                    Step::Done
                } else {
                    Step::Failed(PageError::EmptyPage)
                }
            },
        }
    }

    /// The token at which the change feed continues: after the last page,
    /// the token with which the next synchronization starts.
    pub fn into_change_page_token(self) -> (token: String)
        ensures
            Some(token@) == self@.next_page_token,
    {
        self.next_page_token
    }
}

/// Starts a walk through the change feed of an account at the given token.
pub fn list_changes(base: CallOptions, page_token: &str) -> (l: ChangeListing)
    ensures
        l@ == fresh_listing::<ChangeRecord>(base@, Some(page_token@)),
{
    ChangeListing::new(base, page_token)
}

} // verus!
