//! The authorization scopes that the application asks for.

use std::collections::hash_map::DefaultHasher;
use std::hash::{Hash, Hasher};
use vstd::prelude::*;
use vstd::relations::{sorted_by, total_ordering};
use vstd::std_specs::hash::DefaultHasherAdditionalSpecFns;
use crate::rows::rows_of;

verus! {

/// Whether `a` comes before `b` or equals it, where texts are ordered
/// character by character and a text comes after its proper prefixes.
pub open spec fn text_le(a: Seq<char>, b: Seq<char>) -> bool
    decreases a.len(),
{
    if a.len() == 0 {
        true
    } else if b.len() == 0 {
        false
    } else if a[0] != b[0] {
        (a[0] as int) < (b[0] as int)
    } else {
        text_le(a.skip(1), b.skip(1))
    }
}

/// Each text comes before its successors or equals them.
pub open spec fn texts_sorted(v: Seq<Seq<char>>) -> bool {
    forall|i: int, j: int| 0 <= i <= j < v.len() ==> text_le(#[trigger] v[i], #[trigger] v[j])
}

/// `slice::sort` of std on a list of texts: the same texts, ordered as `str`
/// is, by Unicode code points.
#[verifier::external_body]
fn sort_texts<'a>(v: &mut Vec<&'a str>)
    ensures
        texts_sorted(rows_of(final(v)@)),
        rows_of(final(v)@).to_multiset() == rows_of(old(v)@).to_multiset(),
{
    v.sort();
}

/// What hashing a list of texts feeds into a hasher, in this build of the
/// program. Std leaves the bytes open, and they may differ from one
/// platform or one release of std to another; within one build they depend
/// on the texts and their order alone.
pub uninterp spec fn text_writes(texts: Seq<Seq<char>>) -> Seq<Seq<u8>>;

/// `Hash::hash` of std on a list of texts: the hasher is fed what the texts
/// give in this build of the program, after what it was fed before.
#[verifier::external_body]
fn hash_texts_into(v: &Vec<&str>, hasher: &mut DefaultHasher)
    ensures
        final(hasher)@ == old(hasher)@ + text_writes(rows_of(v@)),
{
    v.hash(hasher);
}

/// The hash of a list of texts: what std's `DefaultHasher`, fresh from
/// `new`, gives once the list has been hashed into it. It is the same for
/// the same texts wherever this build of the program runs; another build
/// may give another hash.
pub open spec fn scope_digest(texts: Seq<Seq<char>>) -> u64 {
    DefaultHasher::spec_finish(text_writes(texts))
}

/// The hash of a list of texts.
fn hash_texts(v: &Vec<&str>) -> (h: u64)
    ensures
        h == scope_digest(rows_of(v@)),
{
    let mut hasher = DefaultHasher::new();
    hash_texts_into(v, &mut hasher);
    proof {
        assert(hasher@ =~= text_writes(rows_of(v@)));
    }
    hasher.finish()
}

/// A list of scopes in order, with the hash under which tokens for it are
/// kept.
pub struct ScopeList<'a> {
    pub scopes: Vec<&'a str>,
    pub hash: u64,
}

impl<'a> ScopeList<'a> {
    /// The list of the given scopes, sorted, with the hash of the sorted
    /// list. Within one build of the program the hash depends on the scopes
    /// alone, not on the order in which they are given.
    pub fn new(scopes: &Vec<&'a str>) -> (list: ScopeList<'a>)
        ensures
            texts_sorted(rows_of(list.scopes@)),
            rows_of(list.scopes@).to_multiset() == rows_of(scopes@).to_multiset(),
            list.hash == scope_digest(rows_of(list.scopes@)),
    {
        let mut sv: Vec<&'a str> = Vec::new();
        let mut i: usize = 0;
        while i < scopes.len()
            invariant
                i <= scopes@.len(),
                sv@ == scopes@.subrange(0, i as int),
            decreases scopes@.len() - i,
        {
            sv.push(scopes[i]);
            proof {
                assert(sv@ =~= scopes@.subrange(0, i + 1));
            }
            i += 1;
        }
        proof {
            assert(scopes@.subrange(0, scopes@.len() as int) =~= scopes@);
        }
        sort_texts(&mut sv);
        let hash: u64 = hash_texts(&sv);
        ScopeList { scopes: sv, hash }
    }

    /// The scopes of the list.
    pub fn as_vec(&self) -> (v: &Vec<&'a str>)
        ensures
            v == &self.scopes,
    {
        &self.scopes
    }
}

/// The scopes that the application needs: full access to the drive, and the
/// profile and the email address of the account.
pub open spec fn app_scopes() -> Seq<Seq<char>> {
    seq!["https://www.googleapis.com/auth/drive"@, "profile"@, "email"@]
}

/// The scopes that the application needs.
pub fn scopes() -> (v: Vec<&'static str>)
    ensures
        rows_of(v@) == app_scopes(),
{
    let mut v: Vec<&'static str> = Vec::new();
    v.push("https://www.googleapis.com/auth/drive");
    v.push("profile");
    v.push("email");
    proof {
        assert(rows_of(v@) =~= app_scopes());
    }
    v
}

/// The list of the scopes that the application needs.
pub fn get_scopes() -> (list: ScopeList<'static>)
    ensures
        texts_sorted(rows_of(list.scopes@)),
        rows_of(list.scopes@).to_multiset() == app_scopes().to_multiset(),
        list.hash == scope_digest(rows_of(list.scopes@)),
{
    let all = scopes();
    ScopeList::new(&all)
}

/// The order of texts as a relation.
pub open spec fn text_order() -> spec_fn(Seq<char>, Seq<char>) -> bool {
    |a: Seq<char>, b: Seq<char>| text_le(a, b)
}

proof fn lemma_text_le_self(a: Seq<char>)
    ensures
        text_le(a, a),
    decreases a.len(),
{
    if a.len() > 0 {
        lemma_text_le_self(a.skip(1));
    }
}

proof fn lemma_text_le_both(a: Seq<char>, b: Seq<char>)
    requires
        text_le(a, b),
        text_le(b, a),
    ensures
        a == b,
    decreases a.len(),
{
    if a.len() == 0 {
        assert(a =~= b);
    } else {
        lemma_text_le_both(a.skip(1), b.skip(1));
        assert(a =~= seq![a[0]] + a.skip(1));
        assert(b =~= seq![b[0]] + b.skip(1));
    }
}

proof fn lemma_text_le_chain(a: Seq<char>, b: Seq<char>, c: Seq<char>)
    requires
        text_le(a, b),
        text_le(b, c),
    ensures
        text_le(a, c),
    decreases a.len(),
{
    if a.len() > 0 && a[0] == b[0] && b[0] == c[0] {
        lemma_text_le_chain(a.skip(1), b.skip(1), c.skip(1));
    }
}

proof fn lemma_text_le_either(a: Seq<char>, b: Seq<char>)
    ensures
        text_le(a, b) || text_le(b, a),
    decreases a.len(),
{
    if a.len() == 0 {
        assert(text_le(a, b));
    } else if b.len() == 0 {
        assert(text_le(b, a));
    } else if a[0] == b[0] {
        lemma_text_le_either(a.skip(1), b.skip(1));
        assert(text_le(a, b) == text_le(a.skip(1), b.skip(1)));
        assert(text_le(b, a) == text_le(b.skip(1), a.skip(1)));
    } else {
        assert(text_le(a, b) == ((a[0] as int) < (b[0] as int)));
        assert(text_le(b, a) == ((b[0] as int) < (a[0] as int)));
        assert(a[0] as int != b[0] as int);
    }
}

/// Lists of the same scopes, however they were ordered when given, hold the
/// same scopes at the same places once sorted, and so have the same hash.
pub proof fn lemma_scopes_decide(a: Seq<Seq<char>>, b: Seq<Seq<char>>)
    requires
        texts_sorted(a),
        texts_sorted(b),
        a.to_multiset() == b.to_multiset(),
    ensures
        a == b,
        scope_digest(a) == scope_digest(b),
{
    let leq = text_order();
    assert forall|x: Seq<char>| #[trigger] leq(x, x) by {
        lemma_text_le_self(x);
    }
    assert forall|x: Seq<char>, y: Seq<char>| #[trigger] leq(x, y) && #[trigger] leq(y, x) implies x
        == y by {
        lemma_text_le_both(x, y);
    }
    assert forall|x: Seq<char>, y: Seq<char>, z: Seq<char>| #[trigger]
        leq(x, y) && #[trigger] leq(y, z) implies leq(x, z) by {
        lemma_text_le_chain(x, y, z);
    }
    assert forall|x: Seq<char>, y: Seq<char>| #[trigger] leq(x, y) || #[trigger] leq(y, x) by {
        lemma_text_le_either(x, y);
    }
    assert(total_ordering(leq));
    assert(sorted_by(a, leq));
    assert(sorted_by(b, leq));
    vstd::seq_lib::lemma_sorted_unique(a, b, leq);
}

/// Something on which the scopes of a remote call can be set.
pub trait CallBuilderExt: Sized {
    /// Adds a scope.
    fn set_scope(self, scope: &str) -> Self;

    /// Adds the scopes that the application needs, in the order of
    /// [`app_scopes`]: the result is what `set_scope` gives for `email` on
    /// what it gives for `profile` on what it gives for the scope of the
    /// drive on `self`.
    fn default_scope(self) -> (r: Self)
        ensures
            exists|a: Self, b: Self|
                #![trigger call_ensures(Self::set_scope, (a, "profile"), b)]
                call_ensures(Self::set_scope, (self, "https://www.googleapis.com/auth/drive"), a)
                    && call_ensures(Self::set_scope, (a, "profile"), b) && call_ensures(
                    Self::set_scope,
                    (b, "email"),
                    r,
                ),
    {
        let a = self.set_scope("https://www.googleapis.com/auth/drive");
        let ghost first = a;
        let b = a.set_scope("profile");
        let ghost second = b;
        let r = b.set_scope("email");
        proof {
            assert(call_ensures(Self::set_scope, (first, "profile"), second));
        }
        r
    }
}

} // verus!
