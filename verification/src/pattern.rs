//! Wildcard patterns over names: `%` stands for any run of characters, `_`
//! for any one character, and every other character for itself. Letters
//! match by case.

use vstd::prelude::*;

verus! {

/// Whether the text matches the pattern.
pub open spec fn like_match(p: Seq<char>, t: Seq<char>) -> bool
    decreases p.len() + t.len(),
{
    if p.len() == 0 {
        t.len() == 0
    } else if p[0] == '%' {
        like_match(p.skip(1), t) || (t.len() > 0 && like_match(p, t.skip(1)))
    } else if t.len() == 0 {
        false
    } else if p[0] == '_' || p[0] == t[0] {
        like_match(p.skip(1), t.skip(1))
    } else {
        false
    }
}

/// The pattern that accepts the names that hold `fragment` somewhere.
pub open spec fn containing(fragment: Seq<char>) -> Seq<char> {
    seq!['%'] + fragment + seq!['%']
}

/// The characters of a text.
pub fn chars_of(s: &str) -> (v: Vec<char>)
    ensures
        v@ == s@,
{
    let n: usize = s.unicode_len();
    let mut v: Vec<char> = Vec::new();
    let mut i: usize = 0;
    while i < n
        invariant
            n == s@.len(),
            i <= n,
            v@ == s@.subrange(0, i as int),
        decreases n - i,
    {
        let c: char = s.get_char(i);
        v.push(c);
        proof {
            assert(v@ =~= s@.subrange(0, i + 1));
        }
        i += 1;
    }
    proof {
        assert(s@.subrange(0, n as int) =~= s@);
    }
    v
}

spec fn cell(p: Seq<char>, t: Seq<char>, i: int, j: int) -> bool {
    like_match(p.skip(i), t.skip(j))
}

proof fn lemma_cell_end(p: Seq<char>, t: Seq<char>, j: int)
    requires
        0 <= j <= t.len(),
    ensures
        cell(p, t, p.len() as int, j) == (j == t.len()),
{
    assert(p.skip(p.len() as int).len() == 0);
    assert(t.skip(j).len() == t.len() - j);
}

proof fn lemma_cell_step(p: Seq<char>, t: Seq<char>, i: int, j: int)
    requires
        0 <= i < p.len(),
        0 <= j <= t.len(),
    ensures
        p[i] == '%' ==> cell(p, t, i, j) == (cell(p, t, i + 1, j) || (j < t.len() && cell(
            p,
            t,
            i,
            j + 1,
        ))),
        p[i] != '%' ==> cell(p, t, i, j) == (j < t.len() && (p[i] == '_' || p[i] == t[j]) && cell(
            p,
            t,
            i + 1,
            j + 1,
        )),
{
    let ps = p.skip(i);
    let ts = t.skip(j);
    assert(ps.len() == p.len() - i);
    assert(ts.len() == t.len() - j);
    assert(ps[0] == p[i]);
    assert(ps.skip(1) =~= p.skip(i + 1));
    if j < t.len() {
        assert(ts[0] == t[j]);
        assert(ts.skip(1) =~= t.skip(j + 1));
    }
}

/// Whether the text matches the pattern, both given by their characters.
pub fn like_chars(p: &Vec<char>, t: &Vec<char>) -> (r: bool)
    ensures
        r == like_match(p@, t@),
{
    let plen: usize = p.len();
    let tlen: usize = t.len();
    // `row[j]` and `row_end` hold the answer for the pattern from place `i`
    // on and the text from place `j` on, `row_end` for the empty rest.
    let mut row: Vec<bool> = Vec::new();
    let mut row_end: bool = true;
    let mut k: usize = 0;
    while k < tlen
        invariant
            k <= tlen,
            tlen == t@.len(),
            plen == p@.len(),
            row@.len() == k,
            forall|j: int| 0 <= j < k ==> #[trigger] row@[j] == cell(p@, t@, plen as int, j),
        decreases tlen - k,
    {
        proof {
            lemma_cell_end(p@, t@, k as int);
        }
        row.push(false);
        k += 1;
    }
    proof {
        lemma_cell_end(p@, t@, tlen as int);
    }
    let mut i: usize = plen;
    while i > 0
        invariant
            i <= plen,
            tlen == t@.len(),
            plen == p@.len(),
            row@.len() == tlen,
            row_end == cell(p@, t@, i as int, tlen as int),
            forall|j: int| 0 <= j < tlen ==> #[trigger] row@[j] == cell(p@, t@, i as int, j),
        decreases i,
    {
        i -= 1;
        let c: char = p[i];
        let any_run: bool = c == '%';
        proof {
            lemma_cell_step(p@, t@, i as int, tlen as int);
        }
        let new_end: bool = any_run && row_end;
        let mut next: bool = new_end;
        let mut below: bool = row_end;
        let mut j: usize = tlen;
        // `next` is the new answer at place `j`, `below` the old one.
        while j > 0
            invariant
                j <= tlen,
                i < plen,
                tlen == t@.len(),
                plen == p@.len(),
                row@.len() == tlen,
                c == p@[i as int],
                any_run == (c == '%'),
                next == cell(p@, t@, i as int, j as int),
                below == cell(p@, t@, i + 1, j as int),
                forall|q: int| 0 <= q < j ==> #[trigger] row@[q] == cell(p@, t@, i + 1, q),
                forall|q: int| j <= q < tlen ==> #[trigger] row@[q] == cell(p@, t@, i as int, q),
            decreases j,
        {
            j -= 1;
            let old_here: bool = row[j];
            proof {
                lemma_cell_step(p@, t@, i as int, j as int);
            }
            let here: bool = if any_run {
                old_here || next
            } else {
                (c == '_' || c == t[j]) && below
            };
            row.set(j, here);
            next = here;
            below = old_here;
        }
        row_end = new_end;
    }
    proof {
        assert(p@.skip(0) =~= p@);
        assert(t@.skip(0) =~= t@);
    }
    if tlen == 0 {
        row_end
    } else {
        row[0]
    }
}

/// Whether the text matches the pattern.
pub fn like(pattern: &str, text: &str) -> (r: bool)
    ensures
        r == like_match(pattern@, text@),
{
    let p = chars_of(pattern);
    let t = chars_of(text);
    like_chars(&p, &t)
}

/// The pattern that accepts the names that hold `fragment` somewhere, by its
/// characters.
pub fn containing_chars(fragment: &str) -> (p: Vec<char>)
    ensures
        p@ == containing(fragment@),
{
    let inner = chars_of(fragment);
    let mut p: Vec<char> = Vec::new();
    p.push('%');
    let mut i: usize = 0;
    while i < inner.len()
        invariant
            i <= inner@.len(),
            p@ == seq!['%'] + inner@.subrange(0, i as int),
        decreases inner@.len() - i,
    {
        p.push(inner[i]);
        proof {
            assert(p@ =~= seq!['%'] + inner@.subrange(0, i + 1));
        }
        i += 1;
    }
    p.push('%');
    proof {
        assert(inner@.subrange(0, inner@.len() as int) =~= inner@);
        assert(p@ =~= containing(fragment@));
    }
    p
}


/// Whether no character of the text is a wildcard.
pub open spec fn is_literal(s: Seq<char>) -> bool {
    forall|i: int| 0 <= i < s.len() ==> #[trigger] s[i] != '%' && s[i] != '_'
}

/// Whether the text holds the fragment at place `k`.
pub open spec fn occurs_at(text: Seq<char>, fragment: Seq<char>, k: int) -> bool {
    0 <= k && k + fragment.len() <= text.len() && text.subrange(k, k + fragment.len()) == fragment
}

proof fn lemma_any_run(t: Seq<char>)
    ensures
        like_match(seq!['%'], t),
    decreases t.len(),
{
    let p = seq!['%'];
    assert(p.skip(1).len() == 0);
    if t.len() == 0 {
        assert(like_match(p.skip(1), t));
    } else {
        lemma_any_run(t.skip(1));
    }
}

proof fn lemma_literal_then_any(f: Seq<char>, t: Seq<char>)
    requires
        is_literal(f),
    ensures
        like_match(f + seq!['%'], t) <==> occurs_at(t, f, 0),
    decreases f.len(),
{
    let p = f + seq!['%'];
    if f.len() == 0 {
        assert(p =~= seq!['%']);
        lemma_any_run(t);
        assert(t.subrange(0, 0) =~= f);
    } else {
        assert(p[0] == f[0]);
        assert(p.skip(1) =~= f.skip(1) + seq!['%']);
        assert forall|i: int| 0 <= i < f.skip(1).len() implies #[trigger] f.skip(1)[i] != '%'
            && f.skip(1)[i] != '_' by {
            assert(f.skip(1)[i] == f[i + 1]);
        }
        if t.len() > 0 {
            lemma_literal_then_any(f.skip(1), t.skip(1));
            if occurs_at(t, f, 0) {
                assert(t.subrange(0, f.len() as int)[0] == f[0]);
                assert(t.skip(1).subrange(0, f.len() - 1) =~= f.skip(1)) by {
                    assert forall|i: int| 0 <= i < f.len() - 1 implies t.skip(1).subrange(
                        0,
                        f.len() - 1,
                    )[i] == f.skip(1)[i] by {
                        assert(t.subrange(0, f.len() as int)[i + 1] == f[i + 1]);
                    }
                }
            }
            if p[0] == t[0] && occurs_at(t.skip(1), f.skip(1), 0) {
                assert(t.subrange(0, f.len() as int) =~= f) by {
                    assert forall|i: int| 0 <= i < f.len() implies t.subrange(0, f.len() as int)[i]
                        == f[i] by {
                        if i > 0 {
                            assert(t.skip(1).subrange(0, f.len() - 1)[i - 1] == f.skip(1)[i - 1]);
                        }
                    }
                }
            }
        }
    }
}

proof fn lemma_any_then(q: Seq<char>, t: Seq<char>)
    ensures
        like_match(seq!['%'] + q, t) <==> exists|k: int|
            0 <= k <= t.len() && #[trigger] like_match(q, t.skip(k)),
    decreases t.len(),
{
    let p = seq!['%'] + q;
    assert(p[0] == '%');
    assert(p.skip(1) =~= q);
    assert(t.skip(0) =~= t);
    if t.len() > 0 {
        let rest = t.skip(1);
        lemma_any_then(q, rest);
        if like_match(p, t) {
            if !like_match(q, t) {
                let k = choose|k: int| 0 <= k <= rest.len() && #[trigger] like_match(q, rest.skip(k));
                assert(rest.skip(k) =~= t.skip(k + 1));
                assert(like_match(q, t.skip(k + 1)));
            } else {
                assert(like_match(q, t.skip(0)));
            }
        }
        if exists|k: int| 0 <= k <= t.len() && #[trigger] like_match(q, t.skip(k)) {
            let k = choose|k: int| 0 <= k <= t.len() && #[trigger] like_match(q, t.skip(k));
            if k > 0 {
                assert(rest.skip(k - 1) =~= t.skip(k));
                assert(like_match(q, rest.skip(k - 1)));
            }
        }
    } else {
        if exists|k: int| 0 <= k <= t.len() && #[trigger] like_match(q, t.skip(k)) {
            let k = choose|k: int| 0 <= k <= t.len() && #[trigger] like_match(q, t.skip(k));
            assert(t.skip(k) =~= t);
        }
        if like_match(q, t) {
            assert(like_match(q, t.skip(0)));
        }
    }
}

/// A fragment without wildcards is matched by exactly the names that hold
/// it somewhere: the match of a name fragment is a search for a part of
/// the name.
pub proof fn lemma_fragment_is_part(fragment: Seq<char>, name: Seq<char>)
    requires
        is_literal(fragment),
    ensures
        like_match(containing(fragment), name) <==> exists|k: int| #[trigger]
            occurs_at(name, fragment, k),
{
    let q = fragment + seq!['%'];
    assert(containing(fragment) =~= seq!['%'] + q);
    lemma_any_then(q, name);
    if like_match(containing(fragment), name) {
        let k = choose|k: int| 0 <= k <= name.len() && #[trigger] like_match(q, name.skip(k));
        lemma_literal_then_any(fragment, name.skip(k));
        assert(name.skip(k).subrange(0, fragment.len() as int) =~= name.subrange(
            k,
            k + fragment.len(),
        ));
        assert(occurs_at(name, fragment, k));
    }
    if exists|k: int| #[trigger] occurs_at(name, fragment, k) {
        let k = choose|k: int| #[trigger] occurs_at(name, fragment, k);
        assert(name.skip(k).subrange(0, fragment.len() as int) =~= name.subrange(
            k,
            k + fragment.len(),
        ));
        lemma_literal_then_any(fragment, name.skip(k));
        assert(like_match(q, name.skip(k)));
    }
}

} // verus!
