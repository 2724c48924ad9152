//! Inventory export.

use vstd::prelude::*;
use vstd::string::*;

use crate::model::DeviceView;
use crate::text::{chars_of, join_strings};
use crate::util::fmt_time;

verus! {

/// Every quote doubled.
pub open spec fn doubled(s: Seq<char>) -> Seq<char>
    decreases s.len(),
{
    if s.len() == 0 {
        Seq::empty()
    } else if s.last() == '"' {
        doubled(s.drop_last()).push('"').push('"')
    } else {
        doubled(s.drop_last()).push(s.last())
    }
}

/// A value as one quoted field.
pub open spec fn quoted(s: Seq<char>) -> Seq<char> {
    seq!['"'] + doubled(s) + seq!['"']
}

/// The text of an optional value, nothing where it is missing.
pub open spec fn or_nothing(v: Option<Seq<char>>) -> Seq<char> {
    match v {
        Some(s) => s,
        None => Seq::empty(),
    }
}

/// The values of a device's row, in the order of the header.
pub open spec fn row_values(d: crate::model::DeviceViewModel) -> Seq<Seq<char>> {
    seq![
        d.key,
        d.display_name,
        d.status.text(),
        or_nothing(d.last_ip),
        or_nothing(d.mac),
        or_nothing(d.vendor),
        or_nothing(d.primary_name),
        crate::util::time_string(d.first_seen as int),
        crate::util::time_string(d.last_seen as int),
        crate::text::join(d.networks, seq![' ']),
        or_nothing(d.notes),
    ]
}

/// Fields with commas between them.
pub open spec fn csv_row(values: Seq<Seq<char>>) -> Seq<char>
    decreases values.len(),
{
    if values.len() == 0 {
        Seq::empty()
    } else if values.len() == 1 {
        quoted(values[0])
    } else {
        csv_row(values.drop_last()) + seq![','] + quoted(values.last())
    }
}

/// The header, then a line for each device.
pub open spec fn csv_text(devices: Seq<crate::model::DeviceViewModel>) -> Seq<char>
    decreases devices.len(),
{
    if devices.len() == 0 {
        "key,name,status,ip,mac,vendor,hostname,first_seen,last_seen,networks,notes\n"@
    } else {
        csv_text(devices.drop_last()) + csv_row(row_values(devices.last())) + seq!['\n']
    }
}

/// Append one CSV field, quoted per RFC 4180: a quote is doubled, not changed.
fn push_field(out: &mut String, value: &str)
    ensures
        final(out)@ == old(out)@ + quoted(value@),
{
    let ghost start = out@;
    let v = chars_of(value);
    out.push('"');
    let mut i: usize = 0;
    assert(out@ == start + seq!['"'] + doubled(v@.take(0)));
    while i < v.len()
        invariant
            i <= v.len(),
            out@ == start + seq!['"'] + doubled(v@.take(i as int)),
        decreases v.len() - i,
    {
        assert(v@.take(i + 1).drop_last() == v@.take(i as int));
        if v[i] == '"' {
            out.push('"');
        }
        out.push(v[i]);
        i = i + 1;
    }
    assert(v@.take(v.len() as int) == value@);
    out.push('"');
    assert(out@ == start + quoted(value@));
}

/// A copy of an optional value, the empty text where it is missing.
fn value_or_nothing(v: &Option<String>) -> (r: String)
    ensures
        r@ == or_nothing(v.deep_view()),
{
    match v {
        Some(s) => s.clone(),
        None => String::new(),
    }
}

/// The values of a device's row.
fn row_of(d: &DeviceView) -> (r: Vec<String>)
    ensures
        r.deep_view() == row_values(d.deep_view()),
{
    let mut v: Vec<String> = Vec::new();
    v.push(d.key.clone());
    v.push(d.display_name.clone());
    v.push(d.status.as_str().to_string());
    v.push(value_or_nothing(&d.last_ip));
    v.push(value_or_nothing(&d.mac));
    v.push(value_or_nothing(&d.vendor));
    v.push(value_or_nothing(&d.primary_name));
    v.push(fmt_time(d.first_seen));
    v.push(fmt_time(d.last_seen));
    v.push(join_strings(&d.networks, " "));
    v.push(value_or_nothing(&d.notes));
    proof {
        reveal_strlit(" ");
        assert(" "@ == seq![' ']);
        assert(v.deep_view() =~= row_values(d.deep_view()));
    }
    v
}

/// Append a row of quoted fields.
fn push_row(out: &mut String, values: &Vec<String>)
    ensures
        final(out)@ == old(out)@ + csv_row(values.deep_view()),
{
    let ghost start = out@;
    let ghost all = values.deep_view();
    let mut i: usize = 0;
    while i < values.len()
        invariant
            i <= values.len(),
            all == values.deep_view(),
            out@ == start + csv_row(all.take(i as int)),
        decreases values.len() - i,
    {
        assert(all.take(i + 1).drop_last() == all.take(i as int));
        assert(all[i as int] == values@[i as int]@);
        if i > 0 {
            out.push(',');
        }
        push_field(out, values[i].as_str());
        i = i + 1;
    }
    assert(all.take(all.len() as int) == all);
}

/// The inventory as RFC 4180 CSV, one row per device.
pub fn devices_csv(devices: &[DeviceView]) -> (r: String)
    ensures
        r@ == csv_text(devices.deep_view()),
{
    let mut out =
        "key,name,status,ip,mac,vendor,hostname,first_seen,last_seen,networks,notes\n".to_string();
    let ghost all = devices.deep_view();
    let mut i: usize = 0;
    while i < devices.len()
        invariant
            i <= devices@.len(),
            all == devices.deep_view(),
            out@ == csv_text(all.take(i as int)),
        decreases devices@.len() - i,
    {
        assert(all.take(i + 1).drop_last() == all.take(i as int));
        assert(all[i as int] == devices@[i as int].deep_view());
        push_row(&mut out, &row_of(&devices[i]));
        out.push('\n');
        i = i + 1;
    }
    assert(all.take(all.len() as int) == all);
    out
}

/// What an RFC 4180 reader takes from behind an opening quote: the value, and
/// the text behind the closing quote.
pub open spec fn read_quoted(s: Seq<char>) -> (Seq<char>, Seq<char>)
    decreases s.len(),
{
    if s.len() == 0 {
        (Seq::empty(), s)
    } else if s[0] == '"' {
        if s.len() > 1 && s[1] == '"' {
            let rest = read_quoted(s.skip(2));
            (seq!['"'] + rest.0, rest.1)
        } else {
            (Seq::empty(), s.skip(1))
        }
    } else {
        let rest = read_quoted(s.skip(1));
        (seq![s[0]] + rest.0, rest.1)
    }
}

/// Doubling quotes works piece by piece.
proof fn lemma_doubled_concat(a: Seq<char>, b: Seq<char>)
    ensures
        doubled(a + b) == doubled(a) + doubled(b),
    decreases b.len(),
{
    if b.len() == 0 {
        assert(a + b == a);
    } else {
        lemma_doubled_concat(a, b.drop_last());
        assert((a + b).drop_last() == a + b.drop_last());
    }
    assert(doubled(a + b) == doubled(a) + doubled(b));
}

/// No value is changed by the export: a reader of the CSV gets back exactly
/// what was written, quotes, commas and line breaks included.
pub proof fn law_field_reads_back(value: Seq<char>, rest: Seq<char>)
    requires
        rest.len() == 0 || rest[0] != '"',
    ensures
        read_quoted((quoted(value) + rest).skip(1)) == (value, rest),
    decreases value.len(),
{
    let s = (quoted(value) + rest).skip(1);
    assert(s == doubled(value) + seq!['"'] + rest);
    if value.len() == 0 {
        assert(doubled(value) == Seq::<char>::empty());
        assert(s == seq!['"'] + rest);
        assert(s.skip(1) == rest);
        assert(value == Seq::<char>::empty());
    } else {
        let first = seq![value[0]];
        let tail = value.skip(1);
        assert(value == first + tail);
        lemma_doubled_concat(first, tail);
        law_field_reads_back(tail, rest);
        let t = (quoted(tail) + rest).skip(1);
        assert(t == doubled(tail) + seq!['"'] + rest);
        assert(first.drop_last() == Seq::<char>::empty());
        reveal_with_fuel(doubled, 2);
        if value[0] == '"' {
            assert(doubled(first) == seq!['"', '"']);
            assert(s == seq!['"', '"'] + t);
            assert(s.skip(2) == t);
        } else {
            assert(doubled(first) == first);
            assert(s == first + t);
            assert(s.skip(1) == t);
        }
    }
}

/// What an RFC 4180 reader takes from the beginning of a line: the values of
/// its quoted fields, and the text behind the last of them.
pub open spec fn read_row(s: Seq<char>) -> (Seq<Seq<char>>, Seq<char>)
    decreases s.len(),
{
    if s.len() == 0 || s[0] != '"' {
        (Seq::empty(), s)
    } else {
        let field = read_quoted(s.skip(1));
        let rest = field.1;
        if 0 < rest.len() < s.len() && rest[0] == ',' {
            let more = read_row(rest.skip(1));
            (seq![field.0] + more.0, more.1)
        } else {
            (seq![field.0], rest)
        }
    }
}

/// A row begins with its first field.
proof fn lemma_row_begins(values: Seq<Seq<char>>)
    requires
        values.len() >= 2,
    ensures
        csv_row(values) == quoted(values[0]) + seq![','] + csv_row(values.skip(1)),
    decreases values.len(),
{
    let init = values.drop_last();
    let tail = values.skip(1);
    assert(tail.last() == values.last());
    assert(tail.drop_last() == init.skip(1));
    if values.len() == 2 {
        assert(init.len() == 1 && init[0] == values[0]);
        assert(tail.len() == 1 && tail[0] == values[1]);
        assert(csv_row(init) == quoted(values[0]));
        assert(csv_row(tail) == quoted(values[1]));
    } else {
        lemma_row_begins(init);
        assert(init[0] == values[0]);
        assert(csv_row(tail) == csv_row(tail.drop_last()) + seq![','] + quoted(tail.last()));
    }
    assert(csv_row(values) == quoted(values[0]) + seq![','] + csv_row(tail));
}

/// No row is changed by the export: a reader of the CSV gets back exactly the
/// values of a device, whatever they hold.
pub proof fn law_row_reads_back(values: Seq<Seq<char>>, rest: Seq<char>)
    requires
        values.len() > 0,
        rest.len() == 0 || (rest[0] != '"' && rest[0] != ','),
    ensures
        read_row(csv_row(values) + rest) == (values, rest),
    decreases values.len(),
{
    let s = csv_row(values) + rest;
    let first = values[0];
    if values.len() == 1 {
        law_field_reads_back(first, rest);
        assert(s == quoted(first) + rest);
        assert(s[0] == '"');
        assert(values == seq![first]);
    } else {
        let tail = values.skip(1);
        let behind = seq![','] + csv_row(tail) + rest;
        lemma_row_begins(values);
        law_field_reads_back(first, behind);
        law_row_reads_back(tail, rest);
        assert(s == quoted(first) + behind);
        assert(s[0] == '"');
        assert(behind.skip(1) == csv_row(tail) + rest);
        assert(behind.len() < s.len());
        assert(values == seq![first] + tail);
    }
}

/// The rows of a table that a reader of CSV takes from a text, line by line.
pub open spec fn read_rows(s: Seq<char>) -> Seq<Seq<Seq<char>>>
    decreases s.len(),
{
    if s.len() == 0 {
        Seq::empty()
    } else {
        let row = read_row(s);
        if 0 < row.1.len() <= s.len() && row.1[0] == '\n' {
            seq![row.0] + read_rows(row.1.skip(1))
        } else {
            seq![row.0]
        }
    }
}

/// The first line of a text.
pub open spec fn first_line(s: Seq<char>) -> Seq<char>
    decreases s.len(),
{
    if s.len() == 0 || s[0] == '\n' {
        Seq::empty()
    } else {
        seq![s[0]] + first_line(s.skip(1))
    }
}

/// The names of the columns that a reader of CSV takes from a text.
pub open spec fn column_names(s: Seq<char>) -> Seq<Seq<char>> {
    crate::text::split(first_line(s), ',')
}

/// What a reader of CSV finds in a row under the name of a column.
pub open spec fn under(s: Seq<char>, row: int, name: Seq<char>, value: Seq<char>) -> bool {
    let body = read_rows(s.skip(first_line(s).len() as int + 1));
    &&& 0 <= row < body.len()
    &&& column_names(s).contains(name)
    &&& forall|c: int|
        0 <= c < column_names(s).len() && #[trigger] column_names(s)[c] == name ==> c
            < body[row].len() && body[row][c] == value
}

/// The rows of devices, one after the other.
spec fn rows_text(ds: Seq<crate::model::DeviceViewModel>) -> Seq<char>
    decreases ds.len(),
{
    if ds.len() == 0 {
        Seq::empty()
    } else {
        csv_row(row_values(ds[0])) + seq!['\n'] + rows_text(ds.skip(1))
    }
}

/// A row more at the end.
proof fn lemma_rows_text(ds: Seq<crate::model::DeviceViewModel>)
    requires
        ds.len() > 0,
    ensures
        rows_text(ds) == rows_text(ds.drop_last()) + csv_row(row_values(ds.last())) + seq!['\n'],
    decreases ds.len(),
{
    if ds.len() == 1 {
        assert(rows_text(ds.skip(1)) =~= Seq::<char>::empty());
        assert(rows_text(ds.drop_last()) =~= Seq::<char>::empty());
    } else {
        lemma_rows_text(ds.skip(1));
        assert(ds.skip(1).drop_last() =~= ds.drop_last().skip(1));
    }
    assert(rows_text(ds) =~= rows_text(ds.drop_last()) + csv_row(row_values(ds.last())) + seq![
        '\n',
    ]);
}

/// The export is its header and its rows.
proof fn lemma_csv_text(ds: Seq<crate::model::DeviceViewModel>)
    ensures
        csv_text(ds)
            == "key,name,status,ip,mac,vendor,hostname,first_seen,last_seen,networks,notes\n"@
            + rows_text(ds),
    decreases ds.len(),
{
    if ds.len() > 0 {
        lemma_csv_text(ds.drop_last());
        lemma_rows_text(ds);
    }
    assert(csv_text(ds)
        =~= "key,name,status,ip,mac,vendor,hostname,first_seen,last_seen,networks,notes\n"@
        + rows_text(ds));
}

/// The rows of devices are read one for one.
proof fn lemma_rows_read(ds: Seq<crate::model::DeviceViewModel>)
    ensures
        read_rows(rows_text(ds)).len() == ds.len(),
        forall|i: int|
            0 <= i < ds.len() ==> #[trigger] read_rows(rows_text(ds))[i] == row_values(ds[i]),
    decreases ds.len(),
{
    if ds.len() > 0 {
        let rest = seq!['\n'] + rows_text(ds.skip(1));
        let values = row_values(ds[0]);
        law_row_reads_back(values, rest);
        assert(rows_text(ds) =~= csv_row(values) + rest);
        assert(rest.skip(1) =~= rows_text(ds.skip(1)));
        lemma_rows_read(ds.skip(1));
        assert forall|i: int| 0 <= i < ds.len() implies #[trigger] read_rows(rows_text(ds))[i]
            == row_values(ds[i]) by {
            if i > 0 {
                assert(ds.skip(1)[i - 1] == ds[i]);
                assert(read_rows(rows_text(ds))[i] == read_rows(rows_text(ds.skip(1)))[i - 1]);
            }
        }
    }
}

/// The line before the first line break.
proof fn lemma_first_line(a: Seq<char>, rest: Seq<char>)
    requires
        !a.contains('\n'),
    ensures
        first_line(a + seq!['\n'] + rest) == a,
    decreases a.len(),
{
    let s = a + seq!['\n'] + rest;
    if a.len() > 0 {
        let b = a.skip(1);
        assert(a.contains(a[0]));
        assert(!b.contains('\n')) by {
            if b.contains('\n') {
                let i = choose|i: int| 0 <= i < b.len() && b[i] == '\n';
                assert(a[i + 1] == '\n');
            }
        }
        lemma_first_line(b, rest);
        assert(s.skip(1) =~= b + seq!['\n'] + rest);
        assert(seq![a[0]] + b =~= a);
    } else {
        assert(s[0] == '\n');
    }
}

/// The header of the export.
#[verifier::spinoff_prover]
proof fn lemma_header(rest: Seq<char>)
    ensures
        ({
            let s = "key,name,status,ip,mac,vendor,hostname,first_seen,last_seen,networks,notes\n"@
                + rest;
            &&& column_names(s) == seq![
                "key"@, "name"@, "status"@, "ip"@, "mac"@, "vendor"@, "hostname"@, "first_seen"@, "last_seen"@, "networks"@, "notes"@,
            ]
            &&& s.skip(first_line(s).len() as int + 1) == rest
        }),
{
    reveal_strlit("key,name,status,ip,mac,vendor,hostname,first_seen,last_seen,networks,notes\n");
    reveal_strlit("key");
    reveal_strlit("name");
    reveal_strlit("status");
    reveal_strlit("ip");
    reveal_strlit("mac");
    reveal_strlit("vendor");
    reveal_strlit("hostname");
    reveal_strlit("first_seen");
    reveal_strlit("last_seen");
    reveal_strlit("networks");
    reveal_strlit("notes");
    let t10 = "notes"@;
    let t9 = "networks"@ + seq![','] + t10;
    let t8 = "last_seen"@ + seq![','] + t9;
    let t7 = "first_seen"@ + seq![','] + t8;
    let t6 = "hostname"@ + seq![','] + t7;
    let t5 = "vendor"@ + seq![','] + t6;
    let t4 = "mac"@ + seq![','] + t5;
    let t3 = "ip"@ + seq![','] + t4;
    let t2 = "status"@ + seq![','] + t3;
    let t1 = "name"@ + seq![','] + t2;
    let t0 = "key"@ + seq![','] + t1;
    let s = "key,name,status,ip,mac,vendor,hostname,first_seen,last_seen,networks,notes\n"@ + rest;
    assert("key,name,status,ip,mac,vendor,hostname,first_seen,last_seen,networks,notes\n"@ =~= t0 + seq!['\n']);
    assert(!t0.contains('\n'));
    assert(s =~= t0 + seq!['\n'] + rest);
    lemma_first_line(t0, rest);
    crate::text::lemma_split_free("key"@, ',');
    crate::text::lemma_split_free("name"@, ',');
    crate::text::lemma_split_free("status"@, ',');
    crate::text::lemma_split_free("ip"@, ',');
    crate::text::lemma_split_free("mac"@, ',');
    crate::text::lemma_split_free("vendor"@, ',');
    crate::text::lemma_split_free("hostname"@, ',');
    crate::text::lemma_split_free("first_seen"@, ',');
    crate::text::lemma_split_free("last_seen"@, ',');
    crate::text::lemma_split_free("networks"@, ',');
    crate::text::lemma_split_free("notes"@, ',');
    crate::text::lemma_split_concat("networks"@, t10, ',');
    crate::text::lemma_split_concat("last_seen"@, t9, ',');
    crate::text::lemma_split_concat("first_seen"@, t8, ',');
    crate::text::lemma_split_concat("hostname"@, t7, ',');
    crate::text::lemma_split_concat("vendor"@, t6, ',');
    crate::text::lemma_split_concat("mac"@, t5, ',');
    crate::text::lemma_split_concat("ip"@, t4, ',');
    crate::text::lemma_split_concat("status"@, t3, ',');
    crate::text::lemma_split_concat("name"@, t2, ',');
    crate::text::lemma_split_concat("key"@, t1, ',');
    assert(column_names(s) =~= seq![
        "key"@, "name"@, "status"@, "ip"@, "mac"@, "vendor"@, "hostname"@, "first_seen"@, "last_seen"@, "networks"@, "notes"@,
    ]);
    assert(s.skip(first_line(s).len() as int + 1) =~= rest);
}

/// Every value stands under its name: a reader of the export that looks a
/// column up in the header finds, in the row of each device, in the order of
/// the listing, the value that the column is named for.
pub proof fn law_values_stand_under_their_names(
    devices: Seq<crate::model::DeviceViewModel>,
    i: int,
)
    requires
        0 <= i < devices.len(),
    ensures
        ({
            let s = csv_text(devices);
            let d = devices[i];
            &&& read_rows(s.skip(first_line(s).len() as int + 1)).len() == devices.len()
            &&& under(s, i, "key"@, d.key)
            &&& under(s, i, "name"@, d.display_name)
            &&& under(
                s,
                i,
                "status"@,
                match d.status {
                    crate::model::DeviceStatus::New => "new"@,
                    crate::model::DeviceStatus::Changed => "changed"@,
                    crate::model::DeviceStatus::Gone => "gone"@,
                    crate::model::DeviceStatus::Known => "known"@,
                },
            )
            &&& under(s, i, "ip"@, if d.last_ip is Some { d.last_ip.unwrap() } else { ""@ })
            &&& under(s, i, "mac"@, if d.mac is Some { d.mac.unwrap() } else { ""@ })
            &&& under(s, i, "vendor"@, if d.vendor is Some { d.vendor.unwrap() } else { ""@ })
            &&& under(
                s,
                i,
                "hostname"@,
                if d.primary_name is Some {
                    d.primary_name.unwrap()
                } else {
                    ""@
                },
            )
            &&& under(s, i, "first_seen"@, crate::util::time_string(d.first_seen as int))
            &&& under(s, i, "last_seen"@, crate::util::time_string(d.last_seen as int))
            &&& under(s, i, "networks"@, crate::text::join(d.networks, seq![' ']))
            &&& under(s, i, "notes"@, if d.notes is Some { d.notes.unwrap() } else { ""@ })
        }),
{
    let s = csv_text(devices);
    lemma_csv_text(devices);
    lemma_header(rows_text(devices));
    lemma_rows_read(devices);
    lemma_distinct_columns();
    reveal_strlit("");
    assert(""@ =~= Seq::<char>::empty());
    let names = column_names(s);
    let row = row_values(devices[i]);
    assert(read_rows(rows_text(devices))[i] == row);
    assert(names[0] == "key"@ && names[1] == "name"@ && names[2] == "status"@ && names[3] == "ip"@
        && names[4] == "mac"@ && names[5] == "vendor"@ && names[6] == "hostname"@ && names[7]
        == "first_seen"@ && names[8] == "last_seen"@ && names[9] == "networks"@ && names[10]
        == "notes"@);
}

/// The names of the columns differ.
proof fn lemma_distinct_columns()
    ensures
        ({
            let names = seq![
                "key"@, "name"@, "status"@, "ip"@, "mac"@, "vendor"@, "hostname"@, "first_seen"@, "last_seen"@, "networks"@, "notes"@,
            ];
            forall|a: int, b: int|
                0 <= a < b < names.len() ==> #[trigger] names[a] != #[trigger] names[b]
        }),
{
    reveal_strlit("key");
    reveal_strlit("name");
    reveal_strlit("status");
    reveal_strlit("ip");
    reveal_strlit("mac");
    reveal_strlit("vendor");
    reveal_strlit("hostname");
    reveal_strlit("first_seen");
    reveal_strlit("last_seen");
    reveal_strlit("networks");
    reveal_strlit("notes");
    let names = seq![
        "key"@, "name"@, "status"@, "ip"@, "mac"@, "vendor"@, "hostname"@, "first_seen"@, "last_seen"@, "networks"@, "notes"@,
    ];
    assert forall|a: int, b: int| 0 <= a < b < names.len() implies #[trigger] names[a]
        != #[trigger] names[b] by {
        if names[a] == names[b] {
            assert(names[a].len() == names[b].len());
            assert(names[a][0] == names[b][0]);
            assert(names[a][1] == names[b][1]);
        }
    }
}

} // verus!
