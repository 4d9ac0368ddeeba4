//! The listing of documents that is shown to the user: what is recorded for
//! later references and what each line holds.

use vstd::prelude::*;
use crate::app::Application;
use crate::colors::{ColorSpec, Colors};
use crate::records::{folder_mime_type, Account, Doc, DocData, Timestamp, CLI_LAST_PRINT_ID};
use crate::rows::rows_of;
use crate::store::{accounts_of, keeps_listing, listing_rows, StoreData};

verus! {

/// The phrase with which `timeago` describes a span of time in English in
/// its default form, such as `1 hour ago`.
pub uninterp spec fn timeago_english(secs: u64, nanos: u32) -> Seq<char>;

/// `timeago::Formatter::new().convert` on the `std::time::Duration` of the
/// given seconds and nanoseconds. The result depends on the span alone.
#[verifier::external_body]
pub(crate) fn ago_text(secs: u64, nanos: u32) -> (text: String)
    requires
        nanos < 1_000_000_000,
    ensures
        text@ == timeago_english(secs, nanos),
{
    timeago::Formatter::new().convert(std::time::Duration::new(secs, nanos))
}

/// What is shown for a time that lies in the future.
pub open spec fn future_text() -> Seq<char> {
    "[future?]"@
}

/// The span from `then` to `now` in whole seconds and nanoseconds, if
/// `then` is not after `now` and the seconds fit into 64 bits.
pub open spec fn age_span(now: Timestamp, then: Timestamp) -> Option<(u64, u32)> {
    let d = now.nanos_since(then);
    if d < 0 || d / 1_000_000_000 > u64::MAX {
        None
    } else {
        Some(((d / 1_000_000_000) as u64, (d % 1_000_000_000) as u32))
    }
}

/// The span from `then` to `now`.
pub fn span_between(now: &Timestamp, then: &Timestamp) -> (r: Option<(u64, u32)>)
    ensures
        r == age_span(*now, *then),
{
    let d: i128 = now.elapsed_nanos(then);
    if d < 0 {
        return None;
    }
    let secs: i128 = d / 1_000_000_000;
    let nanos: i128 = d % 1_000_000_000;
    if secs > 0xffff_ffff_ffff_ffff {
        return None;
    }
    Some((secs as u64, nanos as u32))
}

/// How long ago `then` was at `now`, in words.
pub fn age_of(now: &Timestamp, then: &Timestamp) -> (text: String)
    ensures
        text@ == match age_span(*now, *then) {
            Some((secs, nanos)) => timeago_english(secs, nanos),
            None => future_text(),
        },
{
    match span_between(now, then) {
        Some((secs, nanos)) => ago_text(secs, nanos),
        None => "[future?]".to_owned(),
    }
}

/// The number of digits of `n` in base ten.
pub open spec fn decimal_width(n: nat) -> nat
    decreases n,
{
    if n < 10 {
        1
    } else {
        1 + decimal_width(n / 10)
    }
}

/// The number of digits of `n` in base ten.
pub fn width_of(n: usize) -> (w: usize)
    ensures
        w == decimal_width(n as nat),
{
    let mut w: usize = 1;
    let mut rest: usize = n;
    while rest >= 10
        invariant
            1 <= w,
            w + decimal_width(rest as nat) == 1 + decimal_width(n as nat),
            rest <= n,
        decreases rest,
    {
        proof {
            lemma_width_small(n as nat);
        }
        rest = rest / 10;
        w = w + 1;
    }
    w
}

proof fn lemma_width_small(n: nat)
    ensures
        decimal_width(n) <= n + 1,
        n >= 10 ==> decimal_width(n) + 8 <= n,
    decreases n,
{
    if n >= 10 {
        lemma_width_small(n / 10);
    }
}

/// The longest name among the rows, in characters.
pub open spec fn longest_name(rows: Seq<DocData>) -> nat
    decreases rows.len(),
{
    if rows.len() == 0 {
        0
    } else {
        let before = longest_name(rows.drop_last());
        if rows.last().name.len() > before {
            rows.last().name.len()
        } else {
            before
        }
    }
}

/// One line of a listing.
#[derive(Debug, PartialEq, Eq)]
pub struct ListingLine {
    /// The number by which `%N` refers to the document; the first is 1.
    pub tag: usize,
    /// How the name is shown.
    pub color: ColorSpec,
    /// The name of the document.
    pub name: String,
    /// How long ago the document was modified, in words.
    pub ago: String,
}

/// A listing as it is shown.
#[derive(Debug, PartialEq, Eq)]
pub struct DocListing {
    /// The width of the column of tags.
    pub tag_width: usize,
    /// The width of the column of names.
    pub name_width: usize,
    /// The lines, one for each document.
    pub lines: Vec<ListingLine>,
}

/// Whether a line shows the row as the `i`-th document of a listing.
pub open spec fn line_shows(
    line: ListingLine,
    i: int,
    row: DocData,
    colors: Colors,
    now: Timestamp,
) -> bool {
    &&& line.tag == i + 1
    &&& line.name@ == row.name
    &&& line.color == colors.doc_color(
        row.trashed,
        row.starred,
        row.mime_type == folder_mime_type(),
    )
    &&& line.ago@ == match age_span(now, row.modified_time) {
        Some((secs, nanos)) => timeago_english(secs, nanos),
        None => future_text(),
    }
}

/// The ids of the rows.
pub open spec fn ids_of_rows(rows: Seq<DocData>) -> Seq<Seq<char>> {
    Seq::new(rows.len(), |i: int| rows[i].id)
}

impl Doc {
    /// The accounts through which this document is visible.
    pub fn accounts(&self, app: &Application) -> (r: Vec<Account>)
        requires
            app.wf(),
        ensures
            rows_of(r@) == accounts_of(app.store@.associations, app.store@.accounts, self.id@),
    {
        app.store.accounts_of_document(self.id.as_str())
    }
}

impl Application {
    /// Lays out a list of documents for printing and records it as the
    /// listing shown last, so that `%N` can refer to its N-th document.
    ///
    /// An empty list is not recorded: the listing shown last stays.
    pub fn print_doc_list(&mut self, docs: &Vec<Doc>, colors: &Colors, now: Timestamp) -> (r:
        DocListing)
        requires
            old(self).wf(),
            docs@.len() <= i32::MAX,
        ensures
            final(self).wf(),
            final(self).options == old(self).options,
            docs@.len() == 0 ==> final(self).store@ == old(self).store@,
            docs@.len() > 0 ==> final(self).store@ == (StoreData {
                listitems: old(self).store@.listitems.filter(keeps_listing(CLI_LAST_PRINT_ID))
                    + listing_rows(CLI_LAST_PRINT_ID, ids_of_rows(rows_of(docs@))),
                ..old(self).store@
            }),
            r.lines@.len() == docs@.len(),
            forall|i: int|
                0 <= i < docs@.len() ==> line_shows(
                    #[trigger] r.lines@[i],
                    i,
                    docs@[i]@,
                    *colors,
                    now,
                ),
            r.tag_width == decimal_width(docs@.len()),
            r.name_width == longest_name(rows_of(docs@)),
    {
        let n: usize = docs.len();
        if n == 0 {
            return DocListing { tag_width: 1, name_width: 0, lines: Vec::new() };
        }
        let mut ids: Vec<String> = Vec::new();
        let mut lines: Vec<ListingLine> = Vec::new();
        let mut max_name_len: usize = 0;
        let mut i: usize = 0;
        proof {
            assert(rows_of(docs@).subrange(0, 0).len() == 0);
        }
        while i < n
            invariant
                i <= n,
                n == docs@.len(),
                ids@.len() == i,
                lines@.len() == i,
                forall|k: int| 0 <= k < i ==> (#[trigger] ids@[k])@ == docs@[k]@.id,
                forall|k: int|
                    0 <= k < i ==> line_shows(#[trigger] lines@[k], k, docs@[k]@, *colors, now),
                max_name_len == longest_name(rows_of(docs@).subrange(0, i as int)),
            decreases n - i,
        {
            let doc = &docs[i];
            proof {
                let upto = rows_of(docs@).subrange(0, i + 1);
                assert(upto.drop_last() =~= rows_of(docs@).subrange(0, i as int));
                assert(upto.last() == doc@);
            }
            let len: usize = doc.name.as_str().unicode_len();
            if len > max_name_len {
                max_name_len = len;
            }
            ids.push(doc.id.clone());
            let line = ListingLine {
                tag: i + 1,
                color: *colors.color_for_doc(doc),
                name: doc.name.clone(),
                ago: age_of(&now, &doc.modified_time),
            };
            lines.push(line);
            i += 1;
        }
        proof {
            assert(rows_of(docs@).subrange(0, n as int) =~= rows_of(docs@));
            assert(rows_of(ids@) =~= ids_of_rows(rows_of(docs@)));
        }
        self.store.replace_listing(CLI_LAST_PRINT_ID, &ids);
        DocListing { tag_width: width_of(n), name_width: max_name_len, lines }
    }
}

} // verus!
