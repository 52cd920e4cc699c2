//! The license classifier: splits a declared license expression on the
//! boundary tokens `OR`, `AND` and `/`, trims whitespace, drops empty tokens,
//! and collects the identifiers into an ascending duplicate-free list.
//!
//! The split is purely syntactic, as the declared expressions in the wild use
//! it: no grouping and no operator precedence is understood, so an expression
//! such as `(MIT AND X) OR Y` loses its parentheses' meaning. That is kept
//! deliberately, since repairing it would change the report for existing
//! manifests.

use vstd::prelude::*;

use crate::model::LicenseClassification;
use crate::text::{insert_sorted, insert_sorted_str, lemma_insert_sorted_props, strictly_sorted};
use itertools::Itertools;

verus! {

/// ASCII whitespace, as trimmed from the ends of each token.
pub open spec fn is_ws(c: char) -> bool {
    c == ' ' || c == '\t' || c == '\n' || c == '\r'
}

/// The literal `AND` stands at position `i`.
pub open spec fn is_and_at(s: Seq<char>, i: int) -> bool {
    i + 3 <= s.len() && s[i] == 'A' && s[i + 1] == 'N' && s[i + 2] == 'D'
}

/// The literal `OR` stands at position `i`.
pub open spec fn is_or_at(s: Seq<char>, i: int) -> bool {
    i + 2 <= s.len() && s[i] == 'O' && s[i + 1] == 'R'
}

/// The raw (untrimmed) tokens of the expression from position `i` on, the
/// current token having started at `start`: scanning left to right, each
/// occurrence of `AND`, `OR` or `/` ends a token. The three separators share
/// no characters, so occurrences never overlap and the scan cuts the string
/// exactly where splitting on each separator in turn would.
pub open spec fn raw_tokens_from(s: Seq<char>, start: int, i: int) -> Seq<Seq<char>>
    recommends
        0 <= start <= i <= s.len(),
    decreases s.len() - i,
{
    if i >= s.len() {
        seq![s.subrange(start, s.len() as int)]
    } else if is_and_at(s, i) {
        seq![s.subrange(start, i)] + raw_tokens_from(s, i + 3, i + 3)
    } else if is_or_at(s, i) {
        seq![s.subrange(start, i)] + raw_tokens_from(s, i + 2, i + 2)
    } else if s[i] == '/' {
        seq![s.subrange(start, i)] + raw_tokens_from(s, i + 1, i + 1)
    } else {
        raw_tokens_from(s, start, i + 1)
    }
}

/// The raw tokens of a whole license expression.
pub open spec fn raw_tokens(s: Seq<char>) -> Seq<Seq<char>> {
    raw_tokens_from(s, 0, 0)
}

/// The sequence with leading whitespace removed.
pub open spec fn trim_front(s: Seq<char>) -> Seq<char>
    decreases s.len(),
{
    if s.len() > 0 && is_ws(s[0]) {
        trim_front(s.drop_first())
    } else {
        s
    }
}

/// The sequence with trailing whitespace removed.
pub open spec fn trim_back(s: Seq<char>) -> Seq<char>
    decreases s.len(),
{
    if s.len() > 0 && is_ws(s.last()) {
        trim_back(s.drop_last())
    } else {
        s
    }
}

/// The sequence with whitespace removed from both ends.
pub open spec fn trimmed(s: Seq<char>) -> Seq<char> {
    trim_back(trim_front(s))
}

/// The identifiers collected from the given raw tokens: each token trimmed,
/// empty tokens dropped, the rest held ascending without duplicates.
pub open spec fn collect_ids(toks: Seq<Seq<char>>) -> Seq<Seq<char>>
    decreases toks.len(),
{
    if toks.len() == 0 {
        Seq::empty()
    } else {
        let rest = collect_ids(toks.drop_last());
        let t = trimmed(toks.last());
        if t.len() == 0 {
            rest
        } else {
            insert_sorted(rest, t)
        }
    }
}

/// The normalized license identifiers of a license expression.
pub open spec fn license_ids(s: Seq<char>) -> Seq<Seq<char>> {
    collect_ids(raw_tokens(s))
}

/// The identifier list of any expression is strictly ascending, so it holds
/// no duplicates, and it contains exactly the nonempty trimmed tokens.
pub proof fn lemma_collect_ids_props(toks: Seq<Seq<char>>)
    ensures
        strictly_sorted(collect_ids(toks)),
        forall|y: Seq<char>|
            #[trigger] collect_ids(toks).contains(y) <==> (y.len() > 0 && exists|k: int|
                0 <= k < toks.len() && trimmed(#[trigger] toks[k]) == y),
    decreases toks.len(),
{
    if toks.len() > 0 {
        let rest = collect_ids(toks.drop_last());
        let t = trimmed(toks.last());
        lemma_collect_ids_props(toks.drop_last());
        if t.len() == 0 {
            assert forall|y: Seq<char>|
                #[trigger] collect_ids(toks).contains(y) implies (y.len() > 0 && exists|k: int|
                0 <= k < toks.len() && trimmed(#[trigger] toks[k]) == y) by {
                let k = choose|k: int|
                    0 <= k < toks.drop_last().len() && trimmed(#[trigger] toks.drop_last()[k])
                        == y;
                assert(toks[k] == toks.drop_last()[k]);
            }
            assert forall|y: Seq<char>|
                (y.len() > 0 && exists|k: int|
                    0 <= k < toks.len() && trimmed(#[trigger] toks[k]) == y) implies #[trigger]
            collect_ids(toks).contains(y) by {
                let k = choose|k: int| 0 <= k < toks.len() && trimmed(toks[k]) == y;
                assert(k < toks.len() - 1);
                assert(toks.drop_last()[k] == toks[k]);
            }
        } else {
            lemma_insert_sorted_props(rest, t);
            assert forall|y: Seq<char>|
                #[trigger] collect_ids(toks).contains(y) implies (y.len() > 0 && exists|k: int|
                0 <= k < toks.len() && trimmed(#[trigger] toks[k]) == y) by {
                if rest.contains(y) {
                    let k = choose|k: int|
                        0 <= k < toks.drop_last().len() && trimmed(
                            #[trigger] toks.drop_last()[k],
                        ) == y;
                    assert(toks[k] == toks.drop_last()[k]);
                } else {
                    assert(y == t);
                    assert(trimmed(toks[toks.len() - 1]) == y);
                }
            }
            assert forall|y: Seq<char>|
                (y.len() > 0 && exists|k: int|
                    0 <= k < toks.len() && trimmed(#[trigger] toks[k]) == y) implies #[trigger]
            collect_ids(toks).contains(y) by {
                let k = choose|k: int| 0 <= k < toks.len() && trimmed(toks[k]) == y;
                if k < toks.len() - 1 {
                    assert(toks.drop_last()[k] == toks[k]);
                    assert(rest.contains(y));
                } else {
                    assert(y == t);
                }
            }
        }
    }
}

/// `y` is what some raw token of the expression trims to.
pub open spec fn token_of(s: Seq<char>, y: Seq<char>) -> bool {
    exists|k: int| 0 <= k < raw_tokens(s).len() && trimmed(#[trigger] raw_tokens(s)[k]) == y
}

/// `license_ids` never invents an identifier and never loses one: its result
/// is ascending, duplicate-free, and holds exactly the nonempty trimmed raw
/// tokens of the expression.
pub proof fn lemma_license_ids_props(s: Seq<char>)
    ensures
        strictly_sorted(license_ids(s)),
        forall|y: Seq<char>|
            #[trigger] license_ids(s).contains(y) <==> (y.len() > 0 && token_of(s, y)),
{
    lemma_collect_ids_props(raw_tokens(s));
}

/// Order- and separator-independence: two license expressions whose raw
/// tokens trim to the same identifiers — however the expressions order them,
/// and whichever of the separators stand between them — normalize to the
/// identical identifier list.
pub proof fn lemma_ids_of_same_tokens(s1: Seq<char>, s2: Seq<char>)
    requires
        forall|y: Seq<char>| #[trigger] token_of(s1, y) <==> #[trigger] token_of(s2, y),
    ensures
        license_ids(s1) == license_ids(s2),
{
    lemma_license_ids_props(s1);
    lemma_license_ids_props(s2);
    crate::text::lemma_sorted_unique_representation(license_ids(s1), license_ids(s2));
}

/// Decides `is_ws`.
fn ws_char(c: char) -> (r: bool)
    ensures
        r == is_ws(c),
{
    c == ' ' || c == '\t' || c == '\n' || c == '\r'
}

/// Decides `is_and_at`.
fn and_at(s: &str, i: usize, len: usize) -> (r: bool)
    requires
        len == s@.len(),
        i < len,
    ensures
        r == is_and_at(s@, i as int),
{
    if len - i >= 3 {
        s.get_char(i) == 'A' && s.get_char(i + 1) == 'N' && s.get_char(i + 2) == 'D'
    } else {
        false
    }
}

/// Decides `is_or_at`.
fn or_at(s: &str, i: usize, len: usize) -> (r: bool)
    requires
        len == s@.len(),
        i < len,
    ensures
        r == is_or_at(s@, i as int),
{
    if len - i >= 2 {
        s.get_char(i) == 'O' && s.get_char(i + 1) == 'R'
    } else {
        false
    }
}

/// Splits a license expression into its raw tokens.
pub fn split_expression(s: &str) -> (toks: Vec<String>)
    ensures
        toks.deep_view() == raw_tokens(s@),
{
    let len = s.unicode_len();
    let mut toks: Vec<String> = Vec::new();
    let ghost mut acc: Seq<Seq<char>> = Seq::empty();
    let mut start: usize = 0;
    let mut i: usize = 0;
    while i < len
        invariant
            start <= i <= len,
            len == s@.len(),
            raw_tokens(s@) == acc + raw_tokens_from(s@, start as int, i as int),
            toks@.len() == acc.len(),
            forall|k: int| 0 <= k < acc.len() ==> #[trigger] toks@[k]@ == acc[k],
        decreases len - i,
    {
        if and_at(s, i, len) {
            let tok = s.substring_char(start, i).to_owned();
            toks.push(tok);
            proof {
                acc = acc.push(s@.subrange(start as int, i as int));
                assert(raw_tokens_from(s@, start as int, i as int) == seq![
                    s@.subrange(start as int, i as int),
                ] + raw_tokens_from(s@, i + 3, i + 3));
                assert(acc.drop_last() + (seq![s@.subrange(start as int, i as int)]
                    + raw_tokens_from(s@, i + 3, i + 3)) =~= acc + raw_tokens_from(
                    s@,
                    i + 3,
                    i + 3,
                ));
            }
            i = i + 3;
            start = i;
        } else if or_at(s, i, len) {
            let tok = s.substring_char(start, i).to_owned();
            toks.push(tok);
            proof {
                acc = acc.push(s@.subrange(start as int, i as int));
                assert(raw_tokens_from(s@, start as int, i as int) == seq![
                    s@.subrange(start as int, i as int),
                ] + raw_tokens_from(s@, i + 2, i + 2));
                assert(acc.drop_last() + (seq![s@.subrange(start as int, i as int)]
                    + raw_tokens_from(s@, i + 2, i + 2)) =~= acc + raw_tokens_from(
                    s@,
                    i + 2,
                    i + 2,
                ));
            }
            i = i + 2;
            start = i;
        } else if s.get_char(i) == '/' {
            let tok = s.substring_char(start, i).to_owned();
            toks.push(tok);
            proof {
                acc = acc.push(s@.subrange(start as int, i as int));
                assert(raw_tokens_from(s@, start as int, i as int) == seq![
                    s@.subrange(start as int, i as int),
                ] + raw_tokens_from(s@, i + 1, i + 1));
                assert(acc.drop_last() + (seq![s@.subrange(start as int, i as int)]
                    + raw_tokens_from(s@, i + 1, i + 1)) =~= acc + raw_tokens_from(
                    s@,
                    i + 1,
                    i + 1,
                ));
            }
            i = i + 1;
            start = i;
        } else {
            proof {
                assert(raw_tokens_from(s@, start as int, i as int) == raw_tokens_from(
                    s@,
                    start as int,
                    i + 1,
                ));
            }
            i = i + 1;
        }
    }
    let tok = s.substring_char(start, len).to_owned();
    toks.push(tok);
    proof {
        acc = acc.push(s@.subrange(start as int, len as int));
        assert(raw_tokens_from(s@, start as int, len as int) == seq![
            s@.subrange(start as int, len as int),
        ]);
        assert(acc.drop_last() + seq![s@.subrange(start as int, len as int)] =~= acc);
        assert(toks.deep_view() =~= acc);
    }
    toks
}

/// Removes ASCII whitespace from both ends of a string.
pub fn trim_str(s: &str) -> (r: String)
    ensures
        r@ == trimmed(s@),
{
    let len = s.unicode_len();
    let mut lo: usize = 0;
    proof {
        assert(s@.skip(0) =~= s@);
    }
    while lo < len && ws_char(s.get_char(lo))
        invariant
            lo <= len,
            len == s@.len(),
            trim_front(s@) == trim_front(s@.skip(lo as int)),
        decreases len - lo,
    {
        proof {
            assert(s@.skip(lo as int)[0] == s@[lo as int]);
            assert(s@.skip(lo as int).drop_first() =~= s@.skip(lo + 1));
        }
        lo = lo + 1;
    }
    let ghost t = trim_front(s@);
    proof {
        if lo == len {
            assert(s@.skip(lo as int).len() == 0);
        }
        assert(t == s@.skip(lo as int));
    }
    let mut hi: usize = len;
    proof {
        assert(s@.subrange(lo as int, len as int) =~= s@.skip(lo as int));
    }
    while hi > lo && ws_char(s.get_char(hi - 1))
        invariant
            lo <= hi <= len,
            len == s@.len(),
            t == trim_front(s@),
            t == s@.skip(lo as int),
            trim_back(t) == trim_back(s@.subrange(lo as int, hi as int)),
        decreases hi,
    {
        proof {
            let cur = s@.subrange(lo as int, hi as int);
            assert(cur.last() == s@[hi - 1]);
            assert(cur.drop_last() =~= s@.subrange(lo as int, hi - 1));
        }
        hi = hi - 1;
    }
    proof {
        let cur = s@.subrange(lo as int, hi as int);
        if hi == lo {
            assert(cur.len() == 0);
            assert(trim_back(cur) == cur);
        } else {
            assert(cur.last() == s@[hi - 1]);
            assert(trim_back(cur) == cur);
        }
    }
    s.substring_char(lo, hi).to_owned()
}

/// Relies on itertools' `Itertools::join`: the items written out in order
/// with the separator between each adjacent pair.
#[verifier::external_body]
fn join_ids(ids: &Vec<String>) -> (r: String)
    ensures
        r@ == crate::render::join_with(ids.deep_view(), ", "@),
{
    ids.iter().join(", ")
}

/// Classifies a package's declared license metadata.
///
/// A present license expression wins over a present license-file path; the
/// file path alone gives `DeclaredFile`; neither gives `Missing`. The
/// classification invents nothing that is not in the arguments.
pub fn package_licenses(license: &Option<String>, license_file: &Option<String>) -> (c:
    LicenseClassification)
    ensures
        license matches Some(s) ==> (c matches LicenseClassification::Identifiers(ids)
            && ids.deep_view() == license_ids(s@)),
        license_file matches Some(f) ==> (license is None ==> (c
            matches LicenseClassification::DeclaredFile(p) && p@ == f@)),
        license is None && license_file is None ==> c is Missing,
{
    match license {
        Some(s) => {
            let toks = split_expression(s.as_str());
            let ghost rt = raw_tokens(s@);
            let mut ids: Vec<String> = Vec::new();
            let mut k: usize = 0;
            let n = toks.len();
            proof {
                assert(rt.take(0) =~= Seq::<Seq<char>>::empty());
            }
            while k < n
                invariant
                    k <= n,
                    n == toks@.len(),
                    toks.deep_view() == rt,
                    ids.deep_view() == collect_ids(rt.take(k as int)),
                    strictly_sorted(ids.deep_view()),
                decreases n - k,
            {
                proof {
                    assert(toks@[k as int]@ == toks.deep_view()[k as int]);
                }
                let t = trim_str(toks[k].as_str());
                proof {
                    assert(rt.take(k + 1).drop_last() =~= rt.take(k as int));
                    assert(rt.take(k + 1).last() == rt[k as int]);
                }
                if t.as_str().unicode_len() > 0 {
                    proof {
                        lemma_collect_ids_props(rt.take(k as int));
                    }
                    ids = insert_sorted_str(ids, t);
                    proof {
                        lemma_collect_ids_props(rt.take(k + 1));
                    }
                }
                k = k + 1;
            }
            proof {
                assert(rt.take(n as int) =~= rt);
            }
            LicenseClassification::Identifiers(ids)
        },
        None => match license_file {
            Some(f) => LicenseClassification::DeclaredFile(f.clone()),
            None => LicenseClassification::Missing,
        },
    }
}

/// The rendered display string of a classification: identifiers joined with
/// `", "`, or one of the two fixed human-readable strings. A pure function of
/// the classification alone.
pub open spec fn display_of(c: LicenseClassification) -> Seq<char> {
    match c {
        LicenseClassification::Identifiers(ids) => crate::render::join_with(
            ids.deep_view(),
            ", "@,
        ),
        LicenseClassification::DeclaredFile(_) => "Specified in license file"@,
        LicenseClassification::Missing => "Missing"@,
    }
}

impl LicenseClassification {
    /// Renders the classification for the summary table.
    pub fn display_string(&self) -> (r: String)
        ensures
            r@ == display_of(*self),
    {
        match self {
            LicenseClassification::Identifiers(ids) => join_ids(ids),
            LicenseClassification::DeclaredFile(_) => "Specified in license file".to_owned(),
            LicenseClassification::Missing => "Missing".to_owned(),
        }
    }
}

} // verus!
