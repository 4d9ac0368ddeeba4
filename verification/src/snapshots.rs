//! The two listings that carry over from one command to the next, and what
//! the specifiers `.` and `%N` find in them: always what was written last.

use vstd::prelude::*;
use crate::records::{DocData, ListItemData, CLI_CWD_ID, CLI_LAST_PRINT_ID};
use crate::resolve::{
    decimal_i32, resolve_plain, resolve_reference, spec_kind, ResolveError,
};
use crate::rows::{distinct_by, lemma_filter_distinct, lemma_filter_members};
use crate::store::{
    find_doc, has_doc, has_item, item_index, item_key, keeps_listing, listed_docs, listing_rows,
    store_wf, StoreData,
};

verus! {

/// The items after a listing has been replaced.
pub open spec fn replaced_listing(
    items: Seq<ListItemData>,
    listing_id: i32,
    ids: Seq<Seq<char>>,
) -> Seq<ListItemData> {
    items.filter(keeps_listing(listing_id)) + listing_rows(listing_id, ids)
}

/// The mirror after a listing has been replaced.
pub open spec fn with_listing(s: StoreData, listing_id: i32, ids: Seq<Seq<char>>) -> StoreData {
    StoreData { listitems: replaced_listing(s.listitems, listing_id, ids), ..s }
}

/// Replacing a listing leaves one item at most for each listing and
/// position.
pub proof fn lemma_replaced_distinct(items: Seq<ListItemData>, listing_id: i32, ids: Seq<Seq<char>>)
    requires
        distinct_by(items, item_key()),
        ids.len() <= i32::MAX,
    ensures
        distinct_by(replaced_listing(items, listing_id, ids), item_key()),
{
    let pred = keeps_listing(listing_id);
    let kept = items.filter(pred);
    let fresh = listing_rows(listing_id, ids);
    let out = kept + fresh;
    lemma_filter_distinct(items, pred, item_key());
    lemma_filter_members(items, pred);
    assert forall|a: int, c: int| 0 <= a < c < out.len() implies item_key()(#[trigger] out[a])
        != item_key()(#[trigger] out[c]) by {
        if c < kept.len() {
            assert(item_key()(kept[a]) != item_key()(kept[c]));
        } else if a < kept.len() {
            assert(kept.contains(kept[a]));
            assert(pred(kept[a]));
            assert(out[c] == fresh[c - kept.len()]);
        } else {
            assert(out[a] == fresh[a - kept.len()]);
            assert(out[c] == fresh[c - kept.len()]);
        }
    }
}

proof fn lemma_listed_none(items: Seq<ListItemData>, docs: Seq<DocData>, listing_id: i32)
    requires
        forall|i: int| 0 <= i < items.len() ==> (#[trigger] items[i]).listing_id != listing_id,
    ensures
        listed_docs(items, docs, listing_id).len() == 0,
    decreases items.len(),
{
    if items.len() > 0 {
        let init = items.drop_last();
        assert forall|i: int| 0 <= i < init.len() implies (#[trigger] init[i]).listing_id
            != listing_id by {
            assert(init[i] == items[i]);
        }
        lemma_listed_none(init, docs, listing_id);
        assert(items[items.len() - 1].listing_id != listing_id);
    }
}

proof fn lemma_listed_join(
    a: Seq<ListItemData>,
    b: Seq<ListItemData>,
    docs: Seq<DocData>,
    listing_id: i32,
)
    ensures
        listed_docs(a + b, docs, listing_id) == listed_docs(a, docs, listing_id) + listed_docs(
            b,
            docs,
            listing_id,
        ),
    decreases b.len(),
{
    if b.len() == 0 {
        assert(a + b =~= a);
        assert(listed_docs(a, docs, listing_id) + listed_docs(b, docs, listing_id) =~= listed_docs(
            a,
            docs,
            listing_id,
        ));
    } else {
        lemma_listed_join(a, b.drop_last(), docs, listing_id);
        assert((a + b).drop_last() =~= a + b.drop_last());
        assert((a + b).last() == b.last());
        let before = listed_docs(a, docs, listing_id) + listed_docs(
            b.drop_last(),
            docs,
            listing_id,
        );
        assert(listed_docs(a + b, docs, listing_id) =~= listed_docs(a, docs, listing_id)
            + listed_docs(b, docs, listing_id));
    }
}

/// The virtual current folder is the folder that was set last: after the
/// listing of the current folder has been replaced by one document, `.`
/// names that document as the mirror holds it, and is undefined if the
/// mirror does not hold it. (A document whose id is `.` comes first.)
pub proof fn lemma_cwd_is_set_last(s: StoreData, id: Seq<char>)
    requires
        !has_doc(s.docs, "."@),
    ensures
        resolve_plain(with_listing(s, CLI_CWD_ID, seq![id]), "."@) == match find_doc(s.docs, id) {
            Some(d) => Ok::<Seq<DocData>, ResolveError>(seq![d]),
            None => Err::<Seq<DocData>, ResolveError>(ResolveError::NoCwd),
        },
{
    let pred = keeps_listing(CLI_CWD_ID);
    let kept = s.listitems.filter(pred);
    let fresh = listing_rows(CLI_CWD_ID, seq![id]);
    let t = with_listing(s, CLI_CWD_ID, seq![id]);
    lemma_filter_members(s.listitems, pred);
    assert forall|i: int| 0 <= i < kept.len() implies (#[trigger] kept[i]).listing_id
        != CLI_CWD_ID by {
        assert(kept.contains(kept[i]));
        assert(pred(kept[i]));
    }
    lemma_listed_none(kept, s.docs, CLI_CWD_ID);
    lemma_listed_join(kept, fresh, s.docs, CLI_CWD_ID);
    assert(fresh.len() == 1);
    assert(fresh.drop_last().len() == 0);
    assert(fresh.last() == fresh[0]);
    assert(listed_docs(fresh.drop_last(), s.docs, CLI_CWD_ID).len() == 0);
    let found = listed_docs(t.listitems, t.docs, CLI_CWD_ID);
    assert(found =~= listed_docs(fresh, s.docs, CLI_CWD_ID));
    if has_doc(s.docs, id) {
        assert(found =~= seq![find_doc(s.docs, id)->0]);
    } else {
        assert(found.len() == 0);
    }
    assert(spec_kind(t, "."@) is Cwd);
}

/// A reference `%N` names the N-th document of the listing that was shown
/// last: after the listing has been replaced by the documents `ids`, the
/// text `%` and then the number `n`, from 1 to the length of the listing,
/// names the document `ids[n - 1]` as the mirror holds it. (A document
/// whose id is that very text comes first.)
pub proof fn lemma_reference_is_listed_last(
    s: StoreData,
    ids: Seq<Seq<char>>,
    number: Seq<char>,
    n: int,
)
    requires
        store_wf(s),
        ids.len() <= i32::MAX,
        1 <= n <= ids.len(),
        decimal_i32(number) == Some(n as i32),
        !has_doc(s.docs, seq!['%'] + number),
        seq!['%'] + number != "."@,
        seq!['%'] + number != ".."@,
    ensures
        resolve_plain(with_listing(s, CLI_LAST_PRINT_ID, ids), seq!['%'] + number) == match find_doc(
            s.docs,
            ids[n - 1],
        ) {
            Some(d) => Ok::<Seq<DocData>, ResolveError>(seq![d]),
            None => Err::<Seq<DocData>, ResolveError>(ResolveError::MissingDocument),
        },
{
    let text = seq!['%'] + number;
    let t = with_listing(s, CLI_LAST_PRINT_ID, ids);
    let kept = s.listitems.filter(keeps_listing(CLI_LAST_PRINT_ID));
    let fresh = listing_rows(CLI_LAST_PRINT_ID, ids);
    let items = t.listitems;
    lemma_replaced_distinct(s.listitems, CLI_LAST_PRINT_ID, ids);
    assert(text[0] == '%');
    assert(text.skip(1) =~= number);
    assert(spec_kind(t, text) is Reference);
    let place = kept.len() + n - 1;
    let position = (n - 1) as i32;
    assert(items[place] == fresh[n - 1]);
    assert(items[place].listing_id == CLI_LAST_PRINT_ID && items[place].position == position);
    assert(has_item(items, CLI_LAST_PRINT_ID, position));
    let chosen = item_index(items, CLI_LAST_PRINT_ID, position);
    if chosen != place {
        if chosen < place {
            assert(item_key()(items[chosen]) != item_key()(items[place]));
        } else {
            assert(item_key()(items[place]) != item_key()(items[chosen]));
        }
    }
    assert(items[chosen].doc_id == ids[n - 1]);
    assert(resolve_plain(t, text) == resolve_reference(t, number));
}

} // verus!
