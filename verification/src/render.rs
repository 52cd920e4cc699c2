//! Rendering of the aggregated results: the summary table's rows and text,
//! and the delimited license-text blocks.

use vstd::prelude::*;
use vstd::utf8::encode_utf8;

use crate::classify::{license_ids, package_licenses};
use crate::model::{PackageInfo, ReportRow};

verus! {

/// The sequences of `v` written out in order with `sep` between each
/// adjacent pair.
pub open spec fn join_with(v: Seq<Seq<char>>, sep: Seq<char>) -> Seq<char>
    decreases v.len(),
{
    if v.len() == 0 {
        Seq::empty()
    } else if v.len() == 1 {
        v[0]
    } else {
        v[0] + sep + join_with(v.drop_first(), sep)
    }
}

/// The text of the table's license cell for one package: the normalized
/// identifiers joined with `", "` when a license expression is declared, one
/// of the two fixed strings otherwise.
pub open spec fn license_cell(p: PackageInfo) -> Seq<char> {
    match p.license {
        Some(s) => join_with(license_ids(s@), ", "@),
        None => match p.license_file {
            Some(_) => "Specified in license file"@,
            None => "Missing"@,
        },
    }
}

/// Builds the summary rows for the selected packages, in the order given.
pub fn report_rows(pkgs: &Vec<PackageInfo>, sel: &Vec<usize>) -> (rows: Vec<ReportRow>)
    requires
        forall|a: int| 0 <= a < sel@.len() ==> (#[trigger] sel@[a]) < pkgs@.len(),
    ensures
        rows@.len() == sel@.len(),
        forall|a: int|
            0 <= a < sel@.len() ==> (#[trigger] rows@[a]).name@ == pkgs@[sel@[a] as int].name@
                && rows@[a].version@ == pkgs@[sel@[a] as int].version@ && rows@[a].licenses@
                == license_cell(pkgs@[sel@[a] as int]),
{
    let n = sel.len();
    let mut rows: Vec<ReportRow> = Vec::new();
    let mut a: usize = 0;
    while a < n
        invariant
            a <= n,
            n == sel@.len(),
            forall|t: int| 0 <= t < sel@.len() ==> (#[trigger] sel@[t]) < pkgs@.len(),
            rows@.len() == a,
            forall|t: int|
                0 <= t < a ==> (#[trigger] rows@[t]).name@ == pkgs@[sel@[t] as int].name@
                    && rows@[t].version@ == pkgs@[sel@[t] as int].version@ && rows@[t].licenses@
                    == license_cell(pkgs@[sel@[t] as int]),
        decreases n - a,
    {
        let idx = sel[a];
        let p = &pkgs[idx];
        let c = package_licenses(&p.license, &p.license_file);
        let licenses = c.display_string();
        proof {
            assert(licenses@ == license_cell(pkgs@[sel@[a as int] as int]));
        }
        let row = ReportRow { name: p.name.clone(), version: p.version.clone(), licenses };
        rows.push(row);
        a = a + 1;
    }
    rows
}

/// The three cells of each row, as plain character sequences.
pub open spec fn row_views(rows: Seq<ReportRow>) -> Seq<(Seq<char>, Seq<char>, Seq<char>)> {
    Seq::new(rows.len(), |k: int| (rows[k].name@, rows[k].version@, rows[k].licenses@))
}

/// The rendered grid of the given records: header and data cells laid out in
/// tabled's modern style. A function of the records alone.
pub uninterp spec fn table_text_of(rows: Seq<(Seq<char>, Seq<char>, Seq<char>)>) -> Seq<char>;

/// Relies on tabled's `Builder`, `Style::modern` and the `Display` of
/// `Table`: the rendered grid is computed from the pushed records alone.
#[verifier::external_body]
fn grid_text(rows: &Vec<ReportRow>) -> (r: String)
    ensures
        r@ == table_text_of(row_views(rows@)),
{
    let mut b = tabled::builder::Builder::new();
    for row in rows.iter() {
        b.push_record([row.name.as_str(), row.version.as_str(), row.licenses.as_str()]);
    }
    b.build().with(tabled::settings::Style::modern()).to_string()
}

/// Renders the summary table: a header row `Name | Version | Licenses`
/// followed by the given rows.
pub fn render_table(rows: &Vec<ReportRow>) -> (r: String)
    ensures
        r@ == table_text_of(
            seq![("Name"@, "Version"@, "Licenses"@)] + row_views(rows@),
        ),
{
    let mut with_header: Vec<ReportRow> = Vec::new();
    let header = ReportRow {
        name: "Name".to_owned(),
        version: "Version".to_owned(),
        licenses: "Licenses".to_owned(),
    };
    with_header.push(header);
    let n = rows.len();
    let mut a: usize = 0;
    while a < n
        invariant
            a <= n,
            n == rows@.len(),
            with_header@.len() == a + 1,
            with_header@[0].name@ == "Name"@,
            with_header@[0].version@ == "Version"@,
            with_header@[0].licenses@ == "Licenses"@,
            forall|t: int|
                0 <= t < a ==> (#[trigger] with_header@[t + 1]).name@ == rows@[t].name@
                    && with_header@[t + 1].version@ == rows@[t].version@ && with_header@[t
                    + 1].licenses@ == rows@[t].licenses@,
        decreases n - a,
    {
        let row = ReportRow {
            name: rows[a].name.clone(),
            version: rows[a].version.clone(),
            licenses: rows[a].licenses.clone(),
        };
        with_header.push(row);
        a = a + 1;
    }
    proof {
        let lhs = row_views(with_header@);
        let rhs = seq![("Name"@, "Version"@, "Licenses"@)] + row_views(rows@);
        assert forall|t: int| 0 <= t < lhs.len() implies lhs[t] == rhs[t] by {
            if t > 0 {
                assert(with_header@[(t - 1) + 1].name@ == rows@[t - 1].name@);
                assert(rhs[t] == row_views(rows@)[t - 1]);
            }
        }
        assert(row_views(with_header@) =~= rhs);
    }
    grid_text(&with_header)
}

/// The first line of a package's license dump.
pub open spec fn begin_marker(name: Seq<char>, version: Seq<char>) -> Seq<char> {
    "\n-----BEGIN "@ + name + " "@ + version + " LICENSES-----\n"@
}

/// The last line of a package's license dump.
pub open spec fn end_marker(name: Seq<char>, version: Seq<char>) -> Seq<char> {
    "\n-----END "@ + name + " "@ + version + " LICENSES-----\n"@
}

/// The line standing between two license files of one package.
pub open spec fn next_separator() -> Seq<char> {
    "\n-----NEXT LICENSE-----\n"@
}

/// The file bodies in order, the separator between each adjacent pair.
pub open spec fn bodies_joined(bodies: Seq<Seq<u8>>) -> Seq<u8>
    decreases bodies.len(),
{
    if bodies.len() == 0 {
        Seq::empty()
    } else if bodies.len() == 1 {
        bodies[0]
    } else {
        bodies[0] + encode_utf8(next_separator()) + bodies_joined(bodies.drop_first())
    }
}

/// The rendered license dump of one package: nothing at all without a file,
/// else the begin marker, the bodies joined by the separator, and the end
/// marker.
pub open spec fn bundle_bytes(name: Seq<char>, version: Seq<char>, bodies: Seq<Seq<u8>>) -> Seq<
    u8,
> {
    if bodies.len() == 0 {
        Seq::empty()
    } else {
        encode_utf8(begin_marker(name, version)) + bodies_joined(bodies) + encode_utf8(
            end_marker(name, version),
        )
    }
}

/// The separator stands exactly between adjacent files: a bundle of two
/// files carries it once, a bundle of one file not at all, and a bundle of no
/// files renders as nothing, so the package is omitted from the dump.
pub proof fn lemma_bundle_shape(name: Seq<char>, version: Seq<char>, bodies: Seq<Seq<u8>>)
    ensures
        bodies.len() == 0 ==> bundle_bytes(name, version, bodies) == Seq::<u8>::empty(),
        bodies.len() == 1 ==> bundle_bytes(name, version, bodies) == encode_utf8(
            begin_marker(name, version),
        ) + bodies[0] + encode_utf8(end_marker(name, version)),
        bodies.len() == 2 ==> bundle_bytes(name, version, bodies) == encode_utf8(
            begin_marker(name, version),
        ) + bodies[0] + encode_utf8(next_separator()) + bodies[1] + encode_utf8(
            end_marker(name, version),
        ),
{
    if bodies.len() == 2 {
        let tail = bodies.drop_first();
        assert(bodies_joined(tail) == tail[0]);
        assert(tail[0] == bodies[1]);
        assert(encode_utf8(begin_marker(name, version)) + (bodies[0] + encode_utf8(
            next_separator(),
        ) + bodies[1]) + encode_utf8(end_marker(name, version)) =~= encode_utf8(
            begin_marker(name, version),
        ) + bodies[0] + encode_utf8(next_separator()) + bodies[1] + encode_utf8(
            end_marker(name, version),
        ));
    }
}

/// Appends the bytes of `more` onto `out`.
fn append_bytes(out: &mut Vec<u8>, more: &Vec<u8>)
    ensures
        final (out)@ == old(out)@ + more@,
{
    let n = more.len();
    let mut j: usize = 0;
    proof {
        assert(out@ =~= old(out)@ + more@.take(0));
    }
    while j < n
        invariant
            j <= n,
            n == more@.len(),
            out@ == old(out)@ + more@.take(j as int),
        decreases n - j,
    {
        out.push(more[j]);
        proof {
            assert(out@ =~= old(out)@ + more@.take(j + 1));
        }
        j = j + 1;
    }
    proof {
        assert(more@.take(n as int) =~= more@);
    }
}

/// Renders the license dump of one package, from the raw bytes of its
/// located license files.
pub fn render_bundle(name: &str, version: &str, bodies: &Vec<Vec<u8>>) -> (r: Vec<u8>)
    ensures
        r@ == bundle_bytes(name@, version@, bodies.deep_view()),
{
    let ghost db = bodies.deep_view();
    let n = bodies.len();
    let mut out: Vec<u8> = Vec::new();
    if n == 0 {
        proof {
            assert(out@ =~= bundle_bytes(name@, version@, db));
        }
        return out;
    }
    let mut begin = "\n-----BEGIN ".to_owned();
    begin.append(name);
    begin.append(" ");
    begin.append(version);
    begin.append(" LICENSES-----\n");
    proof {
        assert(begin@ == begin_marker(name@, version@));
    }
    let bb = begin.as_str().as_bytes_vec();
    append_bytes(&mut out, &bb);
    let ghost head = encode_utf8(begin_marker(name@, version@));
    proof {
        assert(out@ =~= head);
        assert(db.skip(0) =~= db);
        assert(out@ + bodies_joined(db.skip(0)) =~= head + bodies_joined(db));
    }
    let mut k: usize = 0;
    while k < n
        invariant
            k <= n,
            n == bodies@.len(),
            db == bodies.deep_view(),
            head == encode_utf8(begin_marker(name@, version@)),
            out@ + bodies_joined(db.skip(k as int)) == head + bodies_joined(db),
        decreases n - k,
    {
        let ghost out0 = out@;
        let ghost rest = db.skip(k as int);
        proof {
            assert(bodies@[k as int]@ == db[k as int]);
            assert(rest[0] == db[k as int]);
        }
        append_bytes(&mut out, &bodies[k]);
        if k + 1 < n {
            let sepb = "\n-----NEXT LICENSE-----\n".as_bytes_vec();
            append_bytes(&mut out, &sepb);
            proof {
                assert(rest.len() >= 2);
                assert(bodies_joined(rest) == rest[0] + encode_utf8(next_separator())
                    + bodies_joined(rest.drop_first()));
                assert(rest.drop_first() =~= db.skip(k + 1));
                assert(out@ + bodies_joined(db.skip(k + 1)) =~= out0 + bodies_joined(rest));
            }
        } else {
            proof {
                assert(rest.len() == 1);
                assert(bodies_joined(rest) == rest[0]);
                assert(db.skip(k + 1).len() == 0);
                assert(bodies_joined(db.skip(k + 1)) == Seq::<u8>::empty());
                assert(out@ + bodies_joined(db.skip(k + 1)) =~= out0 + bodies_joined(rest));
            }
        }
        k = k + 1;
    }
    let mut end = "\n-----END ".to_owned();
    end.append(name);
    end.append(" ");
    end.append(version);
    end.append(" LICENSES-----\n");
    proof {
        assert(end@ == end_marker(name@, version@));
    }
    proof {
        assert(bodies_joined(db.skip(n as int)) == Seq::<u8>::empty());
        assert(out@ + Seq::<u8>::empty() =~= out@);
        assert(out@ == head + bodies_joined(db));
    }
    let eb = end.as_str().as_bytes_vec();
    append_bytes(&mut out, &eb);
    out
}

} // verus!
