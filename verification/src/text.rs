//! Character-sequence orderings and sorted string collections shared by the
//! classifier and the locator: a lexicographic order on `Seq<char>`, its order
//! lemmas, and insertion into a strictly sorted `Vec<String>`.

use vstd::prelude::*;

verus! {

/// Lexicographic "less than or equal" on character sequences, by code point.
pub open spec fn lex_le(a: Seq<char>, b: Seq<char>) -> bool
    decreases a.len(),
{
    if a.len() == 0 {
        true
    } else if b.len() == 0 {
        false
    } else if a[0] == b[0] {
        lex_le(a.skip(1), b.skip(1))
    } else {
        (a[0] as u32) < (b[0] as u32)
    }
}

/// Strict lexicographic order on character sequences.
pub open spec fn lex_lt(a: Seq<char>, b: Seq<char>) -> bool {
    lex_le(a, b) && a != b
}

pub proof fn lemma_lex_le_total(a: Seq<char>, b: Seq<char>)
    ensures
        lex_le(a, b) || lex_le(b, a),
    decreases a.len(),
{
    if a.len() == 0 || b.len() == 0 {
    } else if a[0] == b[0] {
        lemma_lex_le_total(a.skip(1), b.skip(1));
    } else {
        vstd::utf8::char_u32_cast(a[0], a[0] as u32);
        vstd::utf8::char_u32_cast(b[0], b[0] as u32);
        assert(a[0] as u32 != b[0] as u32);
    }
}

pub proof fn lemma_lex_le_antisymmetric(a: Seq<char>, b: Seq<char>)
    requires
        lex_le(a, b),
        lex_le(b, a),
    ensures
        a == b,
    decreases a.len(),
{
    if a.len() == 0 {
        assert(b.len() == 0);
        assert(a =~= b);
    } else {
        assert(b.len() > 0);
        assert(a[0] == b[0]);
        lemma_lex_le_antisymmetric(a.skip(1), b.skip(1));
        assert(a =~= seq![a[0]] + a.skip(1));
        assert(b =~= seq![b[0]] + b.skip(1));
    }
}

pub proof fn lemma_lex_le_transitive(a: Seq<char>, b: Seq<char>, c: Seq<char>)
    requires
        lex_le(a, b),
        lex_le(b, c),
    ensures
        lex_le(a, c),
    decreases a.len(),
{
    if a.len() == 0 || b.len() == 0 || c.len() == 0 {
    } else if a[0] == b[0] && b[0] == c[0] {
        lemma_lex_le_transitive(a.skip(1), b.skip(1), c.skip(1));
    }
}

/// The strict order is transitive as well.
pub proof fn lemma_lex_lt_transitive(a: Seq<char>, b: Seq<char>, c: Seq<char>)
    requires
        lex_lt(a, b),
        lex_lt(b, c),
    ensures
        lex_lt(a, c),
{
    lemma_lex_le_transitive(a, b, c);
    if a == c {
        lemma_lex_le_antisymmetric(a, b);
    }
}

/// Decides `lex_le` on two string slices.
pub fn str_le(a: &str, b: &str) -> (r: bool)
    ensures
        r == lex_le(a@, b@),
{
    let a_len: usize = a.unicode_len();
    let b_len: usize = b.unicode_len();
    let mut i: usize = 0;
    proof {
        assert(a@.skip(0) =~= a@);
        assert(b@.skip(0) =~= b@);
    }
    loop
        invariant
            i <= a_len,
            i <= b_len,
            a_len == a@.len(),
            b_len == b@.len(),
            lex_le(a@, b@) == lex_le(a@.skip(i as int), b@.skip(i as int)),
        decreases a_len - i,
    {
        if i == a_len {
            assert(a@.skip(i as int).len() == 0);
            return true;
        }
        if i == b_len {
            assert(b@.skip(i as int).len() == 0);
            assert(a@.skip(i as int).len() > 0);
            return false;
        }
        let ca = a.get_char(i);
        let cb = b.get_char(i);
        assert(a@.skip(i as int)[0] == a@[i as int]);
        assert(b@.skip(i as int)[0] == b@[i as int]);
        if ca as u32 != cb as u32 {
            return (ca as u32) < (cb as u32);
        }
        assert(ca == cb) by {
            vstd::utf8::char_u32_cast(ca, ca as u32);
            vstd::utf8::char_u32_cast(cb, cb as u32);
        }
        proof {
            assert(a@.skip(i as int).skip(1) =~= a@.skip(i + 1));
            assert(b@.skip(i as int).skip(1) =~= b@.skip(i + 1));
        }
        i = i + 1;
    }
}

pub proof fn lemma_lex_le_reflexive(a: Seq<char>)
    ensures
        lex_le(a, a),
    decreases a.len(),
{
    if a.len() > 0 {
        lemma_lex_le_reflexive(a.skip(1));
    }
}

/// Decides `lex_lt` on two string slices.
pub fn str_lt(a: &str, b: &str) -> (r: bool)
    ensures
        r == lex_lt(a@, b@),
{
    let le = str_le(a, b);
    if !le {
        proof {
            if a@ == b@ {
                assert(lex_le(a@, b@)) by {
                    lemma_lex_le_total(a@, b@);
                    lemma_lex_le_antisymmetric(a@, b@);
                }
            }
        }
        return false;
    }
    let eq = str_eq(a, b);
    !eq
}

/// Decides view equality of two string slices.
pub fn str_eq(a: &str, b: &str) -> (r: bool)
    ensures
        r == (a@ == b@),
{
    let le1 = str_le(a, b);
    let le2 = str_le(b, a);
    proof {
        if le1 && le2 {
            lemma_lex_le_antisymmetric(a@, b@);
        }
        if a@ == b@ {
            lemma_lex_le_reflexive(a@);
        }
    }
    le1 && le2
}

/// A strictly ascending sequence of character sequences: sorted and free of
/// duplicates.
pub open spec fn strictly_sorted(v: Seq<Seq<char>>) -> bool {
    forall|i: int, j: int| 0 <= i < j < v.len() ==> lex_lt(v[i], v[j])
}

/// Insertion of `x` into an ascending sequence, keeping order and dropping a
/// duplicate.
pub open spec fn insert_sorted(v: Seq<Seq<char>>, x: Seq<char>) -> Seq<Seq<char>>
    decreases v.len(),
{
    if v.len() == 0 {
        seq![x]
    } else if x == v[0] {
        v
    } else if lex_lt(x, v[0]) {
        seq![x] + v
    } else {
        seq![v[0]] + insert_sorted(v.drop_first(), x)
    }
}

proof fn lemma_cons_contains(a: Seq<char>, s: Seq<Seq<char>>, y: Seq<char>)
    ensures
        (seq![a] + s).contains(y) <==> (y == a || s.contains(y)),
{
    if s.contains(y) {
        let i = choose|i: int| 0 <= i < s.len() && s[i] == y;
        assert((seq![a] + s)[i + 1] == y);
    }
    if y == a {
        assert((seq![a] + s)[0] == y);
    }
    if (seq![a] + s).contains(y) {
        let i = choose|i: int| 0 <= i < (seq![a] + s).len() && (seq![a] + s)[i] == y;
        if i > 0 {
            assert(s[i - 1] == y);
        }
    }
}

/// Inserting into a strictly sorted sequence keeps it strictly sorted, and the
/// elements afterwards are exactly the old elements together with `x`.
pub proof fn lemma_insert_sorted_props(v: Seq<Seq<char>>, x: Seq<char>)
    requires
        strictly_sorted(v),
    ensures
        strictly_sorted(insert_sorted(v, x)),
        forall|y: Seq<char>|
            #[trigger] insert_sorted(v, x).contains(y) <==> (v.contains(y) || y == x),
    decreases v.len(),
{
    let res = insert_sorted(v, x);
    if v.len() == 0 {
        assert forall|y: Seq<char>| #[trigger] res.contains(y) implies (v.contains(y) || y == x) by {
            let i = choose|i: int| 0 <= i < res.len() && res[i] == y;
            assert(res[0] == x);
        }
        assert(res[0] == x);
    } else if x == v[0] {
        assert forall|y: Seq<char>| v.contains(y) || y == x implies #[trigger] res.contains(y) by {
            if y == x {
                assert(v[0] == y);
            }
        }
    } else if lex_lt(x, v[0]) {
        assert forall|k: int| 0 <= k < v.len() implies lex_lt(x, v[k]) by {
            if k > 0 {
                lemma_lex_lt_transitive(x, v[0], v[k]);
            }
        }
        assert forall|i: int, j: int| 0 <= i < j < res.len() implies lex_lt(res[i], res[j]) by {
            if i == 0 {
                assert(res[j] == v[j - 1]);
            } else {
                assert(res[i] == v[i - 1] && res[j] == v[j - 1]);
            }
        }
        assert forall|y: Seq<char>| #[trigger] res.contains(y) <==> (v.contains(y) || y == x) by {
            lemma_cons_contains(x, v, y);
        }
    } else {
        let t = v.drop_first();
        assert(lex_lt(v[0], x)) by {
            lemma_lex_le_total(x, v[0]);
        }
        assert(strictly_sorted(t)) by {
            assert forall|i: int, j: int| 0 <= i < j < t.len() implies lex_lt(t[i], t[j]) by {
                assert(t[i] == v[i + 1] && t[j] == v[j + 1]);
            }
        }
        lemma_insert_sorted_props(t, x);
        let rt = insert_sorted(t, x);
        assert(res == seq![v[0]] + rt);
        assert forall|k: int| 0 <= k < rt.len() implies lex_lt(v[0], rt[k]) by {
            assert(rt.contains(rt[k]));
            if rt[k] == x {
            } else {
                let i = choose|i: int| 0 <= i < t.len() && t[i] == rt[k];
                assert(t[i] == v[i + 1]);
                assert(lex_lt(v[0], v[i + 1]));
            }
        }
        assert forall|i: int, j: int| 0 <= i < j < res.len() implies lex_lt(res[i], res[j]) by {
            if i == 0 {
                assert(res[j] == rt[j - 1]);
            } else {
                assert(res[i] == rt[i - 1] && res[j] == rt[j - 1]);
            }
        }
        assert forall|y: Seq<char>| #[trigger] res.contains(y) <==> (v.contains(y) || y == x) by {
            lemma_cons_contains(v[0], rt, y);
            lemma_cons_contains(v[0], t, y);
            assert(v =~= seq![v[0]] + t);
        }
    }
}

/// Two strictly sorted sequences with the same elements are the same
/// sequence: the ascending duplicate-free representation of a set of strings
/// is unique.
pub proof fn lemma_sorted_unique_representation(u: Seq<Seq<char>>, w: Seq<Seq<char>>)
    requires
        strictly_sorted(u),
        strictly_sorted(w),
        forall|y: Seq<char>| #[trigger] u.contains(y) <==> #[trigger] w.contains(y),
    ensures
        u == w,
    decreases u.len(),
{
    if u.len() == 0 {
        assert(w.len() == 0) by {
            if w.len() > 0 {
                assert(w.contains(w[0]));
                assert(u.contains(w[0]));
                let i = choose|i: int| 0 <= i < u.len() && u[i] == w[0];
                assert(false);
            }
        }
        assert(u =~= w);
    } else {
        assert(u.contains(u[0]));
        assert(w.contains(u[0]));
        assert(w.len() > 0);
        let j = choose|j: int| 0 <= j < w.len() && w[j] == u[0];
        assert(w.contains(w[0]));
        assert(u.contains(w[0]));
        let i = choose|i: int| 0 <= i < u.len() && u[i] == w[0];
        assert(u[0] == w[0]) by {
            if i > 0 && j > 0 {
                assert(lex_lt(u[0], u[i]));
                assert(lex_lt(w[0], w[j]));
                lemma_lex_le_antisymmetric(u[0], w[0]);
            } else if i == 0 {
            } else {
                assert(lex_lt(u[0], u[i]));
            }
        }
        let ut = u.drop_first();
        let wt = w.drop_first();
        assert(strictly_sorted(ut)) by {
            assert forall|a: int, b: int| 0 <= a < b < ut.len() implies lex_lt(ut[a], ut[b]) by {
                assert(ut[a] == u[a + 1] && ut[b] == u[b + 1]);
            }
        }
        assert(strictly_sorted(wt)) by {
            assert forall|a: int, b: int| 0 <= a < b < wt.len() implies lex_lt(wt[a], wt[b]) by {
                assert(wt[a] == w[a + 1] && wt[b] == w[b + 1]);
            }
        }
        assert forall|y: Seq<char>| #[trigger] ut.contains(y) implies #[trigger] wt.contains(y) by {
            let k = choose|k: int| 0 <= k < ut.len() && ut[k] == y;
            assert(u[k + 1] == y);
            assert(u.contains(y));
            assert(w.contains(y));
            let m = choose|m: int| 0 <= m < w.len() && w[m] == y;
            assert(lex_lt(u[0], u[k + 1]));
            assert(m > 0) by {
                if m == 0 {
                    assert(y == w[0]);
                }
            }
            assert(wt[m - 1] == y);
        }
        assert forall|y: Seq<char>| #[trigger] wt.contains(y) implies #[trigger] ut.contains(y) by {
            let k = choose|k: int| 0 <= k < wt.len() && wt[k] == y;
            assert(w[k + 1] == y);
            assert(w.contains(y));
            assert(u.contains(y));
            let m = choose|m: int| 0 <= m < u.len() && u[m] == y;
            assert(lex_lt(w[0], w[k + 1]));
            assert(m > 0) by {
                if m == 0 {
                    assert(y == u[0]);
                }
            }
            assert(ut[m - 1] == y);
        }
        lemma_sorted_unique_representation(ut, wt);
        assert(u =~= seq![u[0]] + ut);
        assert(w =~= seq![w[0]] + wt);
    }
}

/// Inserts `x` into an ascending vector of strings, keeping order and
/// dropping a duplicate.
pub fn insert_sorted_str(v: Vec<String>, x: String) -> (r: Vec<String>)
    requires
        strictly_sorted(v.deep_view()),
    ensures
        r.deep_view() == insert_sorted(v.deep_view(), x@),
{
    let ghost dv = v.deep_view();
    let n = v.len();
    let mut out: Vec<String> = Vec::new();
    let mut i: usize = 0;
    proof {
        assert(dv.skip(0) =~= dv);
        assert(dv.take(0) + insert_sorted(dv.skip(0), x@) =~= insert_sorted(dv, x@));
    }
    while i < n
        invariant
            i <= n,
            n == v.len(),
            dv == v.deep_view(),
            strictly_sorted(dv),
            insert_sorted(dv, x@) == dv.take(i as int) + insert_sorted(dv.skip(i as int), x@),
            out@.len() == i,
            forall|k: int| 0 <= k < i ==> #[trigger] out@[k]@ == dv[k],
            forall|k: int| 0 <= k < i ==> lex_lt(#[trigger] dv[k], x@),
        decreases n - i,
    {
        let ghost rest = dv.skip(i as int);
        proof {
            assert(rest[0] == dv[i as int]);
            assert(v@[i as int]@ == dv[i as int]);
        }
        if str_lt(v[i].as_str(), x.as_str()) {
            proof {
                assert(!(x@ == rest[0]));
                if lex_lt(x@, rest[0]) {
                    lemma_lex_le_antisymmetric(x@, rest[0]);
                }
                assert(insert_sorted(rest, x@) == seq![rest[0]] + insert_sorted(
                    rest.drop_first(),
                    x@,
                ));
                assert(rest.drop_first() =~= dv.skip(i + 1));
                assert(dv.take(i as int) + (seq![rest[0]] + insert_sorted(dv.skip(i + 1), x@))
                    =~= dv.take(i + 1) + insert_sorted(dv.skip(i + 1), x@));
            }
            let elem = v[i].clone();
            out.push(elem);
            i = i + 1;
        } else if str_eq(v[i].as_str(), x.as_str()) {
            // The element is already present: the remainder of `v` is copied
            // unchanged.
            proof {
                assert(insert_sorted(rest, x@) == rest);
            }
            let mut j: usize = i;
            while j < n
                invariant
                    i <= j <= n,
                    n == v.len(),
                    dv == v.deep_view(),
                    out@.len() == j,
                    forall|k: int| 0 <= k < j ==> #[trigger] out@[k]@ == dv[k],
                decreases n - j,
            {
                proof {
                    assert(v@[j as int]@ == dv[j as int]);
                }
                let elem = v[j].clone();
                out.push(elem);
                j = j + 1;
            }
            proof {
                assert(out.deep_view() =~= dv.take(i as int) + rest);
            }
            return out;
        } else {
            proof {
                assert(lex_lt(x@, rest[0])) by {
                    lemma_lex_le_total(x@, rest[0]);
                }
                assert(insert_sorted(rest, x@) == seq![x@] + rest);
            }
            let ghost xv = x@;
            out.push(x);
            let mut j: usize = i;
            while j < n
                invariant
                    i <= j <= n,
                    n == v.len(),
                    dv == v.deep_view(),
                    out@.len() == j + 1,
                    forall|k: int| 0 <= k < i ==> #[trigger] out@[k]@ == dv[k],
                    out@[i as int]@ == xv,
                    forall|k: int| i < k <= j ==> #[trigger] out@[k]@ == dv[k - 1],
                decreases n - j,
            {
                proof {
                    assert(v@[j as int]@ == dv[j as int]);
                }
                let elem = v[j].clone();
                out.push(elem);
                j = j + 1;
            }
            proof {
                assert(out.deep_view() =~= dv.take(i as int) + (seq![xv] + rest));
            }
            return out;
        }
    }
    proof {
        assert(dv.skip(n as int).len() == 0);
        assert(insert_sorted(dv.skip(n as int), x@) == seq![x@]);
    }
    let ghost xv = x@;
    out.push(x);
    proof {
        assert(out.deep_view() =~= dv.take(n as int) + seq![xv]);
    }
    out
}

} // verus!

