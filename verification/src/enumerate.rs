//! The dependency enumerator: out of the resolved package set it picks the
//! third-party packages the report covers — never a workspace member — either
//! every package of the resolved graph or only the direct normal-kind
//! dependencies of workspace members, each exactly once, ordered ascending by
//! package name and version.

use vstd::prelude::*;

use crate::model::{DepKind, PackageInfo, ReportScope};
use crate::text::{
    lemma_lex_le_antisymmetric, lemma_lex_le_total, lex_le, lex_lt, str_eq, str_lt,
};

verus! {

/// Strict order on packages by name, then by version.
pub open spec fn pkg_lt(pa: PackageInfo, pb: PackageInfo) -> bool {
    lex_lt(pa.name@, pb.name@) || (pa.name@ == pb.name@ && lex_lt(pa.version@, pb.version@))
}

/// Two packages carry the same (name, version) key.
pub open spec fn pkg_key_eq(pa: PackageInfo, pb: PackageInfo) -> bool {
    pa.name@ == pb.name@ && pa.version@ == pb.version@
}

/// No earlier package carries the same name.
pub open spec fn first_with_name(pkgs: Seq<PackageInfo>, i: int) -> bool {
    forall|j: int| 0 <= j < i ==> (#[trigger] pkgs[j]).name@ != pkgs[i].name@
}

/// No earlier package carries the same (name, version) key.
pub open spec fn first_with_key(pkgs: Seq<PackageInfo>, i: int) -> bool {
    forall|j: int| 0 <= j < i ==> !pkg_key_eq(#[trigger] pkgs[j], pkgs[i])
}

/// The package declares a normal-kind dependency on the name `n`.
pub open spec fn has_normal_dep(p: PackageInfo, n: Seq<char>) -> bool {
    exists|e: int|
        0 <= e < p.dependencies@.len() && (#[trigger] p.dependencies@[e]).kind == DepKind::Normal
            && p.dependencies@[e].name@ == n
}

/// Some workspace member declares a normal-kind dependency on the name `n`.
pub open spec fn member_normal_dep(
    pkgs: Seq<PackageInfo>,
    members: Seq<Seq<char>>,
    n: Seq<char>,
) -> bool {
    exists|m: int|
        0 <= m < pkgs.len() && members.contains((#[trigger] pkgs[m]).name@) && has_normal_dep(
            pkgs[m],
            n,
        )
}

/// The package at index `i` belongs in the report.
///
/// In either scope a workspace member is excluded, and of several packages
/// with one key only the first counts, so every package appears at most
/// once. Under `TopLevelOnly` a package also needs a normal-kind edge from
/// some workspace member, and must be the first package of its name — the
/// resolver's lookup by dependency name stops there.
pub open spec fn wanted(
    pkgs: Seq<PackageInfo>,
    members: Seq<Seq<char>>,
    scope: ReportScope,
    i: int,
) -> bool {
    &&& 0 <= i < pkgs.len()
    &&& !members.contains(pkgs[i].name@)
    &&& match scope {
        ReportScope::TopLevelOnly => first_with_name(pkgs, i) && member_normal_dep(
            pkgs,
            members,
            pkgs[i].name@,
        ),
        ReportScope::AllTransitive => first_with_key(pkgs, i),
    }
}

proof fn lemma_split_contains(s1: Seq<usize>, x: usize, s2: Seq<usize>, y: usize)
    ensures
        (s1 + seq![x] + s2).contains(y) <==> (s1.contains(y) || y == x || s2.contains(y)),
{
    let whole = s1 + seq![x] + s2;
    if s1.contains(y) {
        let i = choose|i: int| 0 <= i < s1.len() && s1[i] == y;
        assert(whole[i] == y);
    }
    if y == x {
        assert(whole[s1.len() as int] == y);
    }
    if s2.contains(y) {
        let i = choose|i: int| 0 <= i < s2.len() && s2[i] == y;
        assert(whole[s1.len() + 1 + i] == y);
    }
    if whole.contains(y) {
        let i = choose|i: int| 0 <= i < whole.len() && whole[i] == y;
        if i < s1.len() {
            assert(s1[i] == y);
        } else if i > s1.len() {
            assert(s2[i - s1.len() - 1] == y);
        }
    }
}

/// Decides whether `members` holds the name.
fn name_is_member(members: &Vec<String>, name: &String) -> (r: bool)
    ensures
        r == members.deep_view().contains(name@),
{
    let n = members.len();
    let mut i: usize = 0;
    while i < n
        invariant
            i <= n,
            n == members@.len(),
            forall|k: int| 0 <= k < i ==> members.deep_view()[k] != name@,
        decreases n - i,
    {
        proof {
            assert(members@[i as int]@ == members.deep_view()[i as int]);
        }
        if str_eq(members[i].as_str(), name.as_str()) {
            assert(members.deep_view().contains(name@)) by {
                assert(members.deep_view()[i as int] == name@);
            }
            return true;
        }
        i = i + 1;
    }
    proof {
        if members.deep_view().contains(name@) {
            let k = choose|k: int|
                0 <= k < members.deep_view().len() && members.deep_view()[k] == name@;
        }
    }
    false
}

/// Decides `first_with_name`.
fn is_first_with_name(pkgs: &Vec<PackageInfo>, i: usize) -> (r: bool)
    requires
        i < pkgs@.len(),
    ensures
        r == first_with_name(pkgs@, i as int),
{
    let mut j: usize = 0;
    while j < i
        invariant
            j <= i < pkgs@.len(),
            forall|k: int| 0 <= k < j ==> (#[trigger] pkgs@[k]).name@ != pkgs@[i as int].name@,
        decreases i - j,
    {
        if str_eq(pkgs[j].name.as_str(), pkgs[i].name.as_str()) {
            return false;
        }
        j = j + 1;
    }
    true
}

/// Decides `first_with_key`.
fn is_first_with_key(pkgs: &Vec<PackageInfo>, i: usize) -> (r: bool)
    requires
        i < pkgs@.len(),
    ensures
        r == first_with_key(pkgs@, i as int),
{
    let mut j: usize = 0;
    while j < i
        invariant
            j <= i < pkgs@.len(),
            forall|k: int| 0 <= k < j ==> !pkg_key_eq(#[trigger] pkgs@[k], pkgs@[i as int]),
        decreases i - j,
    {
        if str_eq(pkgs[j].name.as_str(), pkgs[i].name.as_str()) && str_eq(
            pkgs[j].version.as_str(),
            pkgs[i].version.as_str(),
        ) {
            return false;
        }
        j = j + 1;
    }
    true
}

/// Decides `has_normal_dep`.
fn pkg_has_normal_dep(p: &PackageInfo, name: &String) -> (r: bool)
    ensures
        r == has_normal_dep(*p, name@),
{
    let n = p.dependencies.len();
    let mut e: usize = 0;
    while e < n
        invariant
            e <= n,
            n == p.dependencies@.len(),
            forall|k: int|
                0 <= k < e ==> !((#[trigger] p.dependencies@[k]).kind == DepKind::Normal
                    && p.dependencies@[k].name@ == name@),
        decreases n - e,
    {
        let edge = &p.dependencies[e];
        if edge.kind == DepKind::Normal && str_eq(edge.name.as_str(), name.as_str()) {
            assert(has_normal_dep(*p, name@)) by {
                assert((p.dependencies@[e as int]).kind == DepKind::Normal
                    && p.dependencies@[e as int].name@ == name@);
            }
            return true;
        }
        e = e + 1;
    }
    proof {
        if has_normal_dep(*p, name@) {
            let k = choose|k: int|
                0 <= k < p.dependencies@.len() && (#[trigger] p.dependencies@[k]).kind
                    == DepKind::Normal && p.dependencies@[k].name@ == name@;
        }
    }
    false
}

/// Decides `member_normal_dep`.
fn any_member_normal_dep(pkgs: &Vec<PackageInfo>, members: &Vec<String>, name: &String) -> (r:
    bool)
    ensures
        r == member_normal_dep(pkgs@, members.deep_view(), name@),
{
    let n = pkgs.len();
    let mut m: usize = 0;
    while m < n
        invariant
            m <= n,
            n == pkgs@.len(),
            forall|k: int|
                0 <= k < m ==> !(members.deep_view().contains((#[trigger] pkgs@[k]).name@)
                    && has_normal_dep(pkgs@[k], name@)),
        decreases n - m,
    {
        if name_is_member(members, &pkgs[m].name) {
            if pkg_has_normal_dep(&pkgs[m], name) {
                assert(member_normal_dep(pkgs@, members.deep_view(), name@)) by {
                    assert(members.deep_view().contains(pkgs@[m as int].name@) && has_normal_dep(
                        pkgs@[m as int],
                        name@,
                    ));
                }
                return true;
            }
        }
        m = m + 1;
    }
    proof {
        if member_normal_dep(pkgs@, members.deep_view(), name@) {
            let k = choose|k: int|
                0 <= k < pkgs@.len() && members.deep_view().contains((#[trigger] pkgs@[k]).name@)
                    && has_normal_dep(pkgs@[k], name@);
        }
    }
    false
}

/// Decides `pkg_lt`.
fn pkg_lt_exec(pa: &PackageInfo, pb: &PackageInfo) -> (r: bool)
    ensures
        r == pkg_lt(*pa, *pb),
{
    if str_lt(pa.name.as_str(), pb.name.as_str()) {
        true
    } else if str_eq(pa.name.as_str(), pb.name.as_str()) {
        str_lt(pa.version.as_str(), pb.version.as_str())
    } else {
        false
    }
}

/// Inserts the index `x` into `r`, which is strictly ascending by package
/// key; `x`'s key differs from every key already present.
fn insert_by_key(pkgs: &Vec<PackageInfo>, r: Vec<usize>, x: usize) -> (out: Vec<usize>)
    requires
        x < pkgs@.len(),
        forall|a: int| 0 <= a < r@.len() ==> (#[trigger] r@[a]) < pkgs@.len(),
        forall|a: int, b: int|
            0 <= a < b < r@.len() ==> pkg_lt(pkgs@[r@[a] as int], pkgs@[r@[b] as int]),
        forall|a: int|
            0 <= a < r@.len() ==> !pkg_key_eq(pkgs@[#[trigger] r@[a] as int], pkgs@[x as int]),
    ensures
        out@.len() == r@.len() + 1,
        forall|a: int| 0 <= a < out@.len() ==> (#[trigger] out@[a]) < pkgs@.len(),
        forall|a: int, b: int|
            0 <= a < b < out@.len() ==> pkg_lt(pkgs@[out@[a] as int], pkgs@[out@[b] as int]),
        forall|y: usize| #[trigger] out@.contains(y) <==> (r@.contains(y) || y == x),
{
    let n = r.len();
    let mut out: Vec<usize> = Vec::new();
    let mut i: usize = 0;
    while i < n
        invariant
            i <= n,
            n == r@.len(),
            x < pkgs@.len(),
            out@ =~= r@.take(i as int),
            forall|a: int| 0 <= a < r@.len() ==> (#[trigger] r@[a]) < pkgs@.len(),
            forall|a: int, b: int|
                0 <= a < b < r@.len() ==> pkg_lt(pkgs@[r@[a] as int], pkgs@[r@[b] as int]),
            forall|a: int|
                0 <= a < r@.len() ==> !pkg_key_eq(pkgs@[#[trigger] r@[a] as int], pkgs@[x as int]),
            forall|a: int| 0 <= a < i ==> pkg_lt(pkgs@[#[trigger] r@[a] as int], pkgs@[x as int]),
        decreases n - i,
    {
        let idx = r[i];
        if pkg_lt_exec(&pkgs[idx], &pkgs[x]) {
            out.push(idx);
            proof {
                assert(out@ =~= r@.take(i + 1));
            }
            i = i + 1;
        } else {
            // The keys differ and `r[i]`'s is not below `x`'s, so `x`'s key
            // is strictly below: totality of the order on distinct keys.
            proof {
                let pa = pkgs@[r@[i as int] as int];
                let pb = pkgs@[x as int];
                lemma_lex_le_total(pb.name@, pa.name@);
                if pa.name@ == pb.name@ {
                    lemma_lex_le_total(pb.version@, pa.version@);
                    if lex_le(pa.version@, pb.version@) && lex_le(pb.version@, pa.version@) {
                        lemma_lex_le_antisymmetric(pa.version@, pb.version@);
                    }
                } else {
                    if lex_le(pa.name@, pb.name@) && lex_le(pb.name@, pa.name@) {
                        lemma_lex_le_antisymmetric(pa.name@, pb.name@);
                    }
                }
                assert(pkg_lt(pb, pa));
            }
            out.push(x);
            let mut j: usize = i;
            while j < n
                invariant
                    i <= j <= n,
                    n == r@.len(),
                    out@ =~= r@.take(i as int) + seq![x] + r@.subrange(i as int, j as int),
                decreases n - j,
            {
                let idx2 = r[j];
                out.push(idx2);
                proof {
                    assert(out@ =~= r@.take(i as int) + seq![x] + r@.subrange(i as int, j + 1));
                }
                j = j + 1;
            }
            proof {
                assert(out@ =~= r@.take(i as int) + seq![x] + r@.skip(i as int));
                let pb = pkgs@[x as int];
                assert forall|a: int| i <= a < r@.len() implies pkg_lt(
                    pb,
                    pkgs@[#[trigger] r@[a] as int],
                ) by {
                    if a > i {
                        assert(pkg_lt(pkgs@[r@[i as int] as int], pkgs@[r@[a] as int]));
                        lemma_pkg_lt_transitive(
                            pb,
                            pkgs@[r@[i as int] as int],
                            pkgs@[r@[a] as int],
                        );
                    }
                }
                assert forall|a: int, b: int| 0 <= a < b < out@.len() implies pkg_lt(
                    pkgs@[out@[a] as int],
                    pkgs@[out@[b] as int],
                ) by {
                    let pos = i as int;
                    if b < pos {
                    } else if a < pos && b == pos {
                        assert(out@[a] == r@[a]);
                    } else if a < pos && b > pos {
                        assert(out@[a] == r@[a] && out@[b] == r@[b - 1]);
                        assert(pkg_lt(pkgs@[r@[a] as int], pkgs@[x as int]));
                        lemma_pkg_lt_transitive(
                            pkgs@[r@[a] as int],
                            pkgs@[x as int],
                            pkgs@[r@[b - 1] as int],
                        );
                    } else if a == pos {
                        assert(out@[b] == r@[b - 1]);
                    } else {
                        assert(out@[a] == r@[a - 1] && out@[b] == r@[b - 1]);
                    }
                }
                assert forall|y: usize| #[trigger]
                    out@.contains(y) <==> (r@.contains(y) || y == x) by {
                    lemma_split_contains(r@.take(i as int), x, r@.skip(i as int), y);
                    assert(r@.take(i as int) + r@.skip(i as int) =~= r@);
                    if r@.take(i as int).contains(y) {
                        let k = choose|k: int|
                            0 <= k < r@.take(i as int).len() && r@.take(i as int)[k] == y;
                        assert(r@[k] == y);
                    }
                    if r@.skip(i as int).contains(y) {
                        let k = choose|k: int|
                            0 <= k < r@.skip(i as int).len() && r@.skip(i as int)[k] == y;
                        assert(r@[k + i] == y);
                    }
                    if r@.contains(y) {
                        let k = choose|k: int| 0 <= k < r@.len() && r@[k] == y;
                        if k < i {
                            assert(r@.take(i as int)[k] == y);
                        } else {
                            assert(r@.skip(i as int)[k - i] == y);
                        }
                    }
                }
            }
            return out;
        }
    }
    out.push(x);
    proof {
        assert(r@.take(n as int) =~= r@);
        assert(out@ =~= r@ + seq![x]);
        assert forall|a: int, b: int| 0 <= a < b < out@.len() implies pkg_lt(
            pkgs@[out@[a] as int],
            pkgs@[out@[b] as int],
        ) by {
            if b == out@.len() - 1 {
                assert(out@[a] == r@[a]);
            } else {
                assert(out@[a] == r@[a] && out@[b] == r@[b]);
            }
        }
        assert forall|y: usize| #[trigger] out@.contains(y) <==> (r@.contains(y) || y == x) by {
            if r@.contains(y) {
                let k = choose|k: int| 0 <= k < r@.len() && r@[k] == y;
                assert(out@[k] == y);
            }
            if y == x {
                assert(out@[out@.len() - 1] == y);
            }
            if out@.contains(y) {
                let k = choose|k: int| 0 <= k < out@.len() && out@[k] == y;
                if k < r@.len() {
                    assert(r@[k] == y);
                }
            }
        }
    }
    out
}

/// The package order is transitive.
proof fn lemma_pkg_lt_transitive(pa: PackageInfo, pb: PackageInfo, pc: PackageInfo)
    requires
        pkg_lt(pa, pb),
        pkg_lt(pb, pc),
    ensures
        pkg_lt(pa, pc),
{
    if pa.name@ == pb.name@ && pb.name@ == pc.name@ {
        crate::text::lemma_lex_lt_transitive(pa.version@, pb.version@, pc.version@);
    } else if pa.name@ == pb.name@ {
    } else if pb.name@ == pc.name@ {
    } else {
        crate::text::lemma_lex_lt_transitive(pa.name@, pb.name@, pc.name@);
    }
}

/// Picks the packages the report covers.
///
/// The result holds exactly the indices of the wanted packages, each once,
/// strictly ascending by (name, version). A workspace member never appears,
/// under either scope, and under `TopLevelOnly` every reported package has a
/// normal-kind edge from some workspace member — a package reachable only
/// through build- or development-kind edges is left out.
pub fn enumerate_dependencies(
    pkgs: &Vec<PackageInfo>,
    members: &Vec<String>,
    scope: ReportScope,
) -> (r: Vec<usize>)
    ensures
        forall|i: int|
            0 <= i < pkgs@.len() ==> (r@.contains(i as usize) <==> wanted(
                pkgs@,
                members.deep_view(),
                scope,
                i,
            )),
        forall|a: int| 0 <= a < r@.len() ==> (#[trigger] r@[a]) < pkgs@.len(),
        forall|a: int, b: int|
            0 <= a < b < r@.len() ==> pkg_lt(pkgs@[r@[a] as int], pkgs@[r@[b] as int]),
        forall|a: int|
            0 <= a < r@.len() ==> !members.deep_view().contains(
                pkgs@[#[trigger] r@[a] as int].name@,
            ),
        scope == ReportScope::TopLevelOnly ==> forall|a: int|
            0 <= a < r@.len() ==> member_normal_dep(
                pkgs@,
                members.deep_view(),
                pkgs@[#[trigger] r@[a] as int].name@,
            ),
{
    let ghost mem = members.deep_view();
    let n = pkgs.len();
    let mut r: Vec<usize> = Vec::new();
    let mut i: usize = 0;
    while i < n
        invariant
            i <= n,
            n == pkgs@.len(),
            mem == members.deep_view(),
            forall|t: int| 0 <= t < i ==> (r@.contains(t as usize) <==> wanted(pkgs@, mem, scope, t)),
            forall|a: int| 0 <= a < r@.len() ==> (#[trigger] r@[a]) < i,
            forall|a: int| 0 <= a < r@.len() ==> wanted(pkgs@, mem, scope, #[trigger] r@[a] as int),
            forall|a: int, b: int|
                0 <= a < b < r@.len() ==> pkg_lt(pkgs@[r@[a] as int], pkgs@[r@[b] as int]),
        decreases n - i,
    {
        let is_mem = name_is_member(members, &pkgs[i].name);
        let take_it: bool = if is_mem {
            false
        } else {
            match scope {
                ReportScope::TopLevelOnly => {
                    let first = is_first_with_name(pkgs, i);
                    if first {
                        any_member_normal_dep(pkgs, members, &pkgs[i].name)
                    } else {
                        false
                    }
                },
                ReportScope::AllTransitive => is_first_with_key(pkgs, i),
            }
        };
        proof {
            assert(take_it == wanted(pkgs@, mem, scope, i as int));
        }
        if take_it {
            proof {
                assert forall|a: int| 0 <= a < r@.len() implies !pkg_key_eq(
                    pkgs@[#[trigger] r@[a] as int],
                    pkgs@[i as int],
                ) by {
                    let t = r@[a] as int;
                    assert(wanted(pkgs@, mem, scope, t));
                    if pkg_key_eq(pkgs@[t], pkgs@[i as int]) {
                        match scope {
                            ReportScope::TopLevelOnly => {
                                assert(first_with_name(pkgs@, i as int));
                                assert(pkgs@[t].name@ != pkgs@[i as int].name@);
                            },
                            ReportScope::AllTransitive => {
                                assert(first_with_key(pkgs@, i as int));
                                assert(!pkg_key_eq(pkgs@[t], pkgs@[i as int]));
                            },
                        }
                    }
                }
            }
            let ghost old_r = r@;
            r = insert_by_key(pkgs, r, i);
            proof {
                assert forall|t: int| 0 <= t < i + 1 implies (r@.contains(t as usize) <==> wanted(
                    pkgs@,
                    mem,
                    scope,
                    t,
                )) by {
                    if t < i {
                        assert(r@.contains(t as usize) <==> (old_r.contains(t as usize) || t
                            == i as int));
                    } else {
                        assert(r@.contains(i as usize));
                    }
                }
                assert forall|a: int| 0 <= a < r@.len() implies (#[trigger] r@[a]) < i + 1 by {
                    assert(r@.contains(r@[a]));
                    if r@[a] != i as usize {
                        assert(old_r.contains(r@[a]));
                        let k = choose|k: int| 0 <= k < old_r.len() && old_r[k] == r@[a];
                    }
                }
                assert forall|a: int| 0 <= a < r@.len() implies wanted(
                    pkgs@,
                    mem,
                    scope,
                    #[trigger] r@[a] as int,
                ) by {
                    assert(r@.contains(r@[a]));
                    if r@[a] != i as usize {
                        assert(old_r.contains(r@[a]));
                        let k = choose|k: int| 0 <= k < old_r.len() && old_r[k] == r@[a];
                    }
                }
            }
        } else {
            proof {
                if r@.contains(i as usize) {
                    let k = choose|k: int| 0 <= k < r@.len() && r@[k] == i as usize;
                }
                assert forall|t: int| 0 <= t < i + 1 implies (r@.contains(t as usize) <==> wanted(
                    pkgs@,
                    mem,
                    scope,
                    t,
                )) by {}
            }
        }
        i = i + 1;
    }
    proof {
        assert forall|a: int| 0 <= a < r@.len() implies !members.deep_view().contains(
            pkgs@[#[trigger] r@[a] as int].name@,
        ) by {
            assert(wanted(pkgs@, mem, scope, r@[a] as int));
        }
        if scope == ReportScope::TopLevelOnly {
            assert forall|a: int| 0 <= a < r@.len() implies member_normal_dep(
                pkgs@,
                members.deep_view(),
                pkgs@[#[trigger] r@[a] as int].name@,
            ) by {
                assert(wanted(pkgs@, mem, scope, r@[a] as int));
            }
        }
    }
    r
}

} // verus!
