//! The license-file locator: given a package's manifest directory, its
//! declared license-file path, and the names listed in that directory, it
//! collects the paths that plausibly hold license text — the declared file
//! when it exists on disk, plus every directory entry whose name starts with
//! a recognized prefix — deduplicated and in ascending order.
//!
//! The locator itself touches no filesystem: the caller lists the directory
//! and checks the declared path, and hands the plain values in.

use vstd::prelude::*;

use crate::text::{
    insert_sorted, insert_sorted_str, lemma_insert_sorted_props,
    lemma_sorted_unique_representation, strictly_sorted,
};

verus! {

/// `p` is a prefix of `s`.
pub open spec fn starts_with(s: Seq<char>, p: Seq<char>) -> bool {
    p.len() <= s.len() && s.subrange(0, p.len() as int) == p
}

/// A file name that plausibly holds license text: it starts with `LICENSE`,
/// `UNLICENSE` or `COPYRIGHT` (case-sensitive, prefix match, so
/// `LICENSE-MIT` and `LICENSE.txt` both qualify).
pub open spec fn has_license_prefix(name: Seq<char>) -> bool {
    starts_with(name, "LICENSE"@) || starts_with(name, "UNLICENSE"@) || starts_with(
        name,
        "COPYRIGHT"@,
    )
}

/// A path inside `dir`, written with a `/` separator.
pub open spec fn path_join(dir: Seq<char>, name: Seq<char>) -> Seq<char> {
    dir + "/"@ + name
}

/// The ascending duplicate-free paths of the directory entries whose names
/// carry a license prefix.
pub open spec fn scan_entries(dir: Seq<char>, entries: Seq<Seq<char>>) -> Seq<Seq<char>>
    decreases entries.len(),
{
    if entries.len() == 0 {
        Seq::empty()
    } else {
        let rest = scan_entries(dir, entries.drop_last());
        if has_license_prefix(entries.last()) {
            insert_sorted(rest, path_join(dir, entries.last()))
        } else {
            rest
        }
    }
}

/// Every license-file path of one package: the scanned directory entries,
/// plus the declared license file if — and only if — it exists on disk.
pub open spec fn located_files(
    dir: Seq<char>,
    declared: Option<Seq<char>>,
    declared_exists: bool,
    entries: Seq<Seq<char>>,
) -> Seq<Seq<char>> {
    let scanned = scan_entries(dir, entries);
    if declared_exists && declared is Some {
        insert_sorted(scanned, path_join(dir, declared->0))
    } else {
        scanned
    }
}

/// The scanned paths are ascending without duplicates and are exactly the
/// joined paths of the entries that carry a license prefix.
pub proof fn lemma_scan_entries_props(dir: Seq<char>, entries: Seq<Seq<char>>)
    ensures
        strictly_sorted(scan_entries(dir, entries)),
        forall|p: Seq<char>|
            #[trigger] scan_entries(dir, entries).contains(p) <==> exists|k: int|
                0 <= k < entries.len() && has_license_prefix(#[trigger] entries[k]) && p
                    == path_join(dir, entries[k]),
    decreases entries.len(),
{
    if entries.len() > 0 {
        let rest = scan_entries(dir, entries.drop_last());
        let last = entries.last();
        lemma_scan_entries_props(dir, entries.drop_last());
        if has_license_prefix(last) {
            lemma_insert_sorted_props(rest, path_join(dir, last));
        }
        assert forall|p: Seq<char>| #[trigger]
            scan_entries(dir, entries).contains(p) implies exists|k: int|
            0 <= k < entries.len() && has_license_prefix(#[trigger] entries[k]) && p == path_join(
                dir,
                entries[k],
            ) by {
            if rest.contains(p) {
                let k = choose|k: int|
                    0 <= k < entries.drop_last().len() && has_license_prefix(
                        #[trigger] entries.drop_last()[k],
                    ) && p == path_join(dir, entries.drop_last()[k]);
                assert(entries[k] == entries.drop_last()[k]);
            } else {
                assert(has_license_prefix(last) && p == path_join(dir, last));
                assert(entries[entries.len() - 1] == last);
            }
        }
        assert forall|p: Seq<char>|
            (exists|k: int|
                0 <= k < entries.len() && has_license_prefix(#[trigger] entries[k]) && p
                    == path_join(dir, entries[k])) implies #[trigger] scan_entries(
            dir,
            entries,
        ).contains(p) by {
            let k = choose|k: int|
                0 <= k < entries.len() && has_license_prefix(entries[k]) && p == path_join(
                    dir,
                    entries[k],
                );
            if k < entries.len() - 1 {
                assert(entries.drop_last()[k] == entries[k]);
                assert(rest.contains(p));
            } else {
                assert(entries[k] == last);
            }
        }
    }
}

/// The located paths are ascending without duplicates — the result holds no
/// path twice — and are exactly the scanned prefix-matching entries together
/// with the declared file when it exists.
pub proof fn lemma_located_files_props(
    dir: Seq<char>,
    declared: Option<Seq<char>>,
    declared_exists: bool,
    entries: Seq<Seq<char>>,
)
    ensures
        strictly_sorted(located_files(dir, declared, declared_exists, entries)),
        forall|p: Seq<char>|
            #[trigger] located_files(dir, declared, declared_exists, entries).contains(p) <==> ((
            declared_exists && declared is Some && p == path_join(dir, declared->0)) || (exists|
                k: int,
            |
                0 <= k < entries.len() && has_license_prefix(#[trigger] entries[k]) && p
                    == path_join(dir, entries[k]))),
{
    lemma_scan_entries_props(dir, entries);
    if declared_exists && declared is Some {
        lemma_insert_sorted_props(scan_entries(dir, entries), path_join(dir, declared->0));
    }
}

/// A declared license-file path that does not exist on disk is silently
/// dropped: with `declared_exists` false, every located path comes from the
/// directory scan alone, whatever the declared path was.
pub proof fn lemma_missing_declared_dropped(
    dir: Seq<char>,
    declared: Option<Seq<char>>,
    entries: Seq<Seq<char>>,
)
    ensures
        forall|p: Seq<char>|
            #[trigger] located_files(dir, declared, false, entries).contains(p) ==> exists|k: int|
                0 <= k < entries.len() && has_license_prefix(#[trigger] entries[k]) && p
                    == path_join(dir, entries[k]),
{
    lemma_located_files_props(dir, declared, false, entries);
}

/// The locator is stable: two directory listings with the same entries — in
/// whatever order the directory was read — give the very same result
/// sequence.
pub proof fn lemma_located_files_stable(
    dir: Seq<char>,
    declared: Option<Seq<char>>,
    declared_exists: bool,
    entries1: Seq<Seq<char>>,
    entries2: Seq<Seq<char>>,
)
    requires
        forall|e: Seq<char>| #[trigger] entries1.contains(e) <==> #[trigger] entries2.contains(e),
    ensures
        located_files(dir, declared, declared_exists, entries1) == located_files(
            dir,
            declared,
            declared_exists,
            entries2,
        ),
{
    let u = located_files(dir, declared, declared_exists, entries1);
    let w = located_files(dir, declared, declared_exists, entries2);
    lemma_located_files_props(dir, declared, declared_exists, entries1);
    lemma_located_files_props(dir, declared, declared_exists, entries2);
    assert forall|p: Seq<char>| #[trigger] u.contains(p) implies #[trigger] w.contains(p) by {
        if !(declared_exists && declared is Some && p == path_join(dir, declared->0)) {
            let k = choose|k: int|
                0 <= k < entries1.len() && has_license_prefix(#[trigger] entries1[k]) && p
                    == path_join(dir, entries1[k]);
            assert(entries1.contains(entries1[k]));
            assert(entries2.contains(entries1[k]));
            let m = choose|m: int| 0 <= m < entries2.len() && entries2[m] == entries1[k];
            assert(has_license_prefix(entries2[m]) && p == path_join(dir, entries2[m]));
        }
    }
    assert forall|p: Seq<char>| #[trigger] w.contains(p) implies #[trigger] u.contains(p) by {
        if !(declared_exists && declared is Some && p == path_join(dir, declared->0)) {
            let k = choose|k: int|
                0 <= k < entries2.len() && has_license_prefix(#[trigger] entries2[k]) && p
                    == path_join(dir, entries2[k]);
            assert(entries2.contains(entries2[k]));
            assert(entries1.contains(entries2[k]));
            let m = choose|m: int| 0 <= m < entries1.len() && entries1[m] == entries2[k];
            assert(has_license_prefix(entries1[m]) && p == path_join(dir, entries1[m]));
        }
    }
    lemma_sorted_unique_representation(u, w);
}

/// Decides `starts_with`.
pub fn str_starts_with(s: &str, p: &str) -> (r: bool)
    ensures
        r == starts_with(s@, p@),
{
    let sl = s.unicode_len();
    let pl = p.unicode_len();
    if pl > sl {
        return false;
    }
    let mut i: usize = 0;
    while i < pl
        invariant
            i <= pl <= sl,
            sl == s@.len(),
            pl == p@.len(),
            forall|k: int| 0 <= k < i ==> s@[k] == p@[k],
        decreases pl - i,
    {
        if s.get_char(i) != p.get_char(i) {
            proof {
                assert(s@.subrange(0, pl as int)[i as int] == s@[i as int]);
            }
            return false;
        }
        i = i + 1;
    }
    proof {
        assert(s@.subrange(0, pl as int) =~= p@);
    }
    true
}

/// Decides `has_license_prefix`.
fn license_name_match(name: &str) -> (r: bool)
    ensures
        r == has_license_prefix(name@),
{
    str_starts_with(name, "LICENSE") || str_starts_with(name, "UNLICENSE") || str_starts_with(
        name,
        "COPYRIGHT",
    )
}

/// Joins a file name onto a directory path.
pub fn join_path(dir: &str, name: &str) -> (r: String)
    ensures
        r@ == path_join(dir@, name@),
{
    let mut r = dir.to_owned();
    r.append("/");
    r.append(name);
    r
}

/// Collects the license-file paths of one package.
///
/// `entries` are the file names listed in `dir`, in any order;
/// `declared_exists` says whether the declared license file, joined onto
/// `dir`, exists on disk. The result is ascending and duplicate-free, and a
/// pure function of the arguments, so repeated runs over the same filesystem
/// state give the same output order.
pub fn package_license_files(
    dir: &str,
    declared: &Option<String>,
    declared_exists: bool,
    entries: &Vec<String>,
) -> (r: Vec<String>)
    ensures
        r.deep_view() == located_files(dir@, declared.deep_view(), declared_exists,
            entries.deep_view()),
        strictly_sorted(r.deep_view()),
{
    let ghost dentries = entries.deep_view();
    let mut r: Vec<String> = Vec::new();
    let n = entries.len();
    let mut k: usize = 0;
    proof {
        assert(dentries.take(0) =~= Seq::<Seq<char>>::empty());
    }
    while k < n
        invariant
            k <= n,
            n == entries@.len(),
            dentries == entries.deep_view(),
            r.deep_view() == scan_entries(dir@, dentries.take(k as int)),
            strictly_sorted(r.deep_view()),
        decreases n - k,
    {
        proof {
            assert(entries@[k as int]@ == dentries[k as int]);
            assert(dentries.take(k + 1).drop_last() =~= dentries.take(k as int));
            assert(dentries.take(k + 1).last() == dentries[k as int]);
        }
        if license_name_match(entries[k].as_str()) {
            let p = join_path(dir, entries[k].as_str());
            proof {
                lemma_insert_sorted_props(r.deep_view(), p@);
            }
            r = insert_sorted_str(r, p);
        }
        k = k + 1;
    }
    proof {
        assert(dentries.take(n as int) =~= dentries);
    }
    match declared {
        Some(d) => {
            if declared_exists {
                let p = join_path(dir, d.as_str());
                proof {
                    lemma_insert_sorted_props(r.deep_view(), p@);
                }
                r = insert_sorted_str(r, p);
            }
        },
        None => {},
    }
    r
}

} // verus!
