//! What the command line prints: scan reports, diffs, tables, histories.

use vstd::prelude::*;
use vstd::string::*;

use crate::display;
use crate::display::short_key;
use crate::model::{
    ChangeModel, DeviceView, DeviceViewModel, EventModel, FieldChange, HistoryEvent, NetworkView,
    NetworkViewModel, PartialReason, ReasonModel, ReportModel, ScanReport, Transition,
    TransitionKind, TransitionModel,
};
use crate::num;
use crate::num::{dec_string, int_string, push_dec};
use crate::text;
use crate::text::{chars_of, join_strings, slice, string_of, trim};
use crate::util;
use crate::util::fmt_time;

verus! {

// ----- cells and rows -----

/// A text no longer than a width: what does not fit is cut and marked.
pub open spec fn cut_to(s: Seq<char>, max: nat) -> Seq<char> {
    if s.len() <= max {
        s
    } else if max == 0 {
        "…"@
    } else {
        s.take(max - 1) + "…"@
    }
}

/// Cut a text to a width.
pub fn truncate(s: &str, max: usize) -> (r: String)
    ensures
        r@ == cut_to(s@, max as nat),
{
    let v = chars_of(s);
    if v.len() <= max {
        return s.to_string();
    }
    let keep: usize = if max == 0 {
        0
    } else {
        max - 1
    };
    let mut out = string_of(&slice(&v, 0, keep));
    out.append("…");
    proof {
        if max == 0 {
            assert(v@.subrange(0, 0) + "…"@ == "…"@);
        } else {
            assert(v@.subrange(0, keep as int) == s@.take(max - 1));
        }
    }
    out
}

/// A text filled up with spaces to a width.
pub open spec fn padded(s: Seq<char>, width: nat) -> Seq<char> {
    if s.len() >= width {
        s
    } else {
        s + Seq::new((width - s.len()) as nat, |i: int| ' ')
    }
}

/// Cells filled up to their widths, each with a space behind it.
pub open spec fn cells_text(cells: Seq<(Seq<char>, usize)>) -> Seq<char>
    decreases cells.len(),
{
    if cells.len() == 0 {
        Seq::empty()
    } else {
        cells_text(cells.drop_last()) + padded(cells.last().0, cells.last().1 as nat) + seq![' ']
    }
}

/// Append a text filled up with spaces to a width.
fn push_padded(out: &mut String, s: &str, width: usize)
    ensures
        final(out)@ == old(out)@ + padded(s@, width as nat),
{
    let ghost before = out@;
    out.append(s);
    let n: usize = chars_of(s).len();
    let mut i: usize = n;
    assert(before + s@ == before + s@ + Seq::new(0, |k: int| ' '));
    while i < width
        invariant
            n <= i,
            i <= width || i == n,
            n == s@.len(),
            out@ == before + s@ + Seq::new((i - n) as nat, |k: int| ' '),
        decreases width - i,
    {
        out.push(' ');
        assert(out@ == before + s@ + Seq::new((i + 1 - n) as nat, |k: int| ' '));
        i = i + 1;
    }
    assert(out@ == before + padded(s@, width as nat));
}

/// Write cells filled up to their widths.
fn row_text(cells: &Vec<(String, usize)>, last: &str) -> (r: String)
    ensures
        r@ == cells_text(cells.deep_view()) + last@,
{
    let ghost all = cells.deep_view();
    let mut out = String::new();
    let mut i: usize = 0;
    while i < cells.len()
        invariant
            i <= cells.len(),
            all == cells.deep_view(),
            out@ == cells_text(all.take(i as int)),
        decreases cells.len() - i,
    {
        assert(all[i as int] == (cells@[i as int].0@, cells@[i as int].1));
        assert(all.take(i + 1).drop_last() == all.take(i as int));
        assert(all.take(i + 1).last() == all[i as int]);
        push_padded(&mut out, cells[i].0.as_str(), cells[i].1);
        out.push(' ');
        assert(out@ == cells_text(all.take(i + 1)));
        i = i + 1;
    }
    assert(all.take(all.len() as int) == all);
    out.append(last);
    out
}

/// The text of an optional value, another where it is missing.
pub open spec fn or_else(v: Option<Seq<char>>, other: Seq<char>) -> Seq<char> {
    match v {
        Some(s) => s,
        None => other,
    }
}

/// The text of an optional value, another where it is missing.
fn value_or(v: &Option<String>, other: &str) -> (r: String)
    ensures
        r@ == or_else(v.deep_view(), other@),
{
    match v {
        Some(s) => s.clone(),
        None => other.to_string(),
    }
}

// ----- transitions -----

/// The mark of a transition.
pub open spec fn mark_of(kind: TransitionKind) -> Seq<char> {
    match kind {
        TransitionKind::New => "+"@,
        TransitionKind::Changed => "~"@,
        TransitionKind::Gone => "-"@,
        TransitionKind::Returned => "↩"@,
    }
}

/// A change of one field.
pub open spec fn change_text(c: ChangeModel, arrow: Seq<char>, missing: Seq<char>) -> Seq<char> {
    c.field + ": "@ + or_else(c.from, missing) + arrow + or_else(c.to, missing)
}

/// Changes with commas between them.
pub open spec fn changes_text(
    s: Seq<ChangeModel>,
    arrow: Seq<char>,
    missing: Seq<char>,
) -> Seq<char> {
    text::join(Seq::new(s.len(), |i: int| change_text(s[i], arrow, missing)), ", "@)
}

/// What a transition changed, in brackets.
pub open spec fn details_of(s: Seq<ChangeModel>) -> Seq<char> {
    if s.len() == 0 {
        Seq::empty()
    } else {
        " ("@ + changes_text(s, " → "@, "∅"@) + ")"@
    }
}

/// The kind of a transition, with a remark where the identity will not hold.
pub open spec fn kind_text(t: TransitionModel) -> Seq<char> {
    if t.unstable_identity {
        t.kind.text() + " · randomised identity"@
    } else {
        t.kind.text()
    }
}

/// A transition as a line.
pub open spec fn transition_line_of(t: TransitionModel) -> Seq<char> {
    "  "@ + mark_of(t.kind) + " "@ + t.device_display + " ["@ + kind_text(t) + "]"@ + details_of(
        t.changes,
    )
}

/// A transition of a device whose identity will not hold.
pub open spec fn some_unstable(ts: Seq<TransitionModel>) -> bool {
    exists|i: int| 0 <= i < ts.len() && (#[trigger] ts[i]).unstable_identity
}

/// What is said of devices whose identity will not hold.
pub open spec fn unstable_note() -> Seq<Seq<char>> {
    seq![
        "  note: devices marked \"randomised identity\" change their MAC by design."@,
        "        mipscan cannot follow them across rotations, so it never reports"@,
        "        them gone. Give one a name to make it trackable."@,
    ]
}

/// Transitions as lines.
pub open spec fn transition_lines_of(ts: Seq<TransitionModel>) -> Seq<Seq<char>> {
    if ts.len() == 0 {
        seq!["  no changes since last scan"@]
    } else {
        Seq::new(ts.len(), |i: int| transition_line_of(ts[i])) + if some_unstable(ts) {
            unstable_note()
        } else {
            Seq::empty()
        }
    }
}

/// Write changes with commas between them.
fn write_changes(v: &Vec<FieldChange>, arrow: &str, missing: &str) -> (r: String)
    ensures
        r@ == changes_text(v.deep_view(), arrow@, missing@),
{
    let ghost all = v.deep_view();
    let mut parts: Vec<String> = Vec::new();
    let mut i: usize = 0;
    while i < v.len()
        invariant
            i <= v.len(),
            all == v.deep_view(),
            parts.deep_view() == Seq::new(
                i as nat,
                |k: int| change_text(all[k], arrow@, missing@),
            ),
        decreases v.len() - i,
    {
        assert(all[i as int] == v@[i as int].deep_view());
        let mut s = v[i].field.clone();
        s.append(": ");
        s.append(value_or(&v[i].from, missing).as_str());
        s.append(arrow);
        s.append(value_or(&v[i].to, missing).as_str());
        let ghost so_far = parts.deep_view();
        let ghost line = s@;
        parts.push(s);
        assert(parts.deep_view() == so_far.push(line));
        i = i + 1;
    }
    assert(parts.deep_view() == Seq::new(
        all.len(),
        |k: int| change_text(all[k], arrow@, missing@),
    ));
    join_strings(&parts, ", ")
}

/// A transition as a line.
fn transition_line(t: &Transition) -> (r: String)
    ensures
        r@ == transition_line_of(t.deep_view()),
{
    let mut s = "  ".to_string();
    s.append(
        match t.kind {
            TransitionKind::New => "+",
            TransitionKind::Changed => "~",
            TransitionKind::Gone => "-",
            TransitionKind::Returned => "↩",
        },
    );
    s.append(" ");
    s.append(t.device_display.as_str());
    s.append(" [");
    let mut kind = t.kind.as_str().to_string();
    if t.unstable_identity {
        kind.append(" · randomised identity");
    }
    s.append(kind.as_str());
    s.append("]");
    assert(t.changes.deep_view().len() == t.changes@.len());
    let mut details = String::new();
    if t.changes.len() > 0 {
        details.append(" (");
        details.append(write_changes(&t.changes, " → ", "∅").as_str());
        details.append(")");
        assert(details@ == details_of(t.changes.deep_view()));
    }
    s.append(details.as_str());
    s
}

/// Transitions as lines.
pub fn transition_lines(transitions: &Vec<Transition>) -> (r: Vec<String>)
    ensures
        r.deep_view() == transition_lines_of(transitions.deep_view()),
{
    let ghost all = transitions.deep_view();
    let mut out: Vec<String> = Vec::new();
    assert(all.len() == transitions@.len());
    if transitions.len() == 0 {
        out.push("  no changes since last scan".to_string());
        assert(out.deep_view() == seq!["  no changes since last scan"@]);
        return out;
    }
    let mut unstable = false;
    let mut i: usize = 0;
    while i < transitions.len()
        invariant
            i <= transitions.len(),
            all == transitions.deep_view(),
            out.deep_view() == Seq::new(i as nat, |k: int| transition_line_of(all[k])),
            unstable == exists|k: int| 0 <= k < i && (#[trigger] all[k]).unstable_identity,
        decreases transitions.len() - i,
    {
        assert(all[i as int] == transitions@[i as int].deep_view());
        let ghost so_far = out.deep_view();
        out.push(transition_line(&transitions[i]));
        assert(out.deep_view() == so_far.push(transition_line_of(all[i as int])));
        if transitions[i].unstable_identity {
            unstable = true;
        }
        i = i + 1;
    }
    let ghost lines = out.deep_view();
    if unstable {
        out.push(
            "  note: devices marked \"randomised identity\" change their MAC by design.".to_string(),
        );
        out.push(
            "        mipscan cannot follow them across rotations, so it never reports".to_string(),
        );
        out.push("        them gone. Give one a name to make it trackable.".to_string());
        assert(out.deep_view() == lines + unstable_note());
    }
    assert(out.deep_view() == transition_lines_of(all));
    out
}

// ----- reports and diffs -----

/// What is said of a scan that cannot tell what is gone.
pub open spec fn partial_lines(reasons: Seq<ReasonModel>) -> Seq<Seq<char>> {
    seq!["  ⚠ PARTIAL SCAN — \"gone\" transitions suppressed:"@] + Seq::new(
        reasons.len(),
        |i: int| "    · "@ + reasons[i].strategy + ": "@ + reasons[i].reason,
    )
}

/// The title of a report: the network's key, with its label where it has one.
pub open spec fn report_title(r: ReportModel) -> Seq<char> {
    if or_else(r.network_label, Seq::empty()).len() == 0 {
        r.network_key
    } else {
        r.network_key + " ("@ + r.network_label.unwrap() + ")"@
    }
}

/// A scan report as lines.
pub open spec fn report_lines_of(r: ReportModel) -> Seq<Seq<char>> {
    seq![
        "Scan #"@ + num::int_text(r.scan_id as int) + " on "@ + report_title(r),
        "  finished "@ + util::time_string(r.finished_at as int) + " UTC · "@ + num::dec(
            r.strategies_run.len(),
        ) + " strategies · "@ + num::dec(r.devices_seen) + " devices seen"@,
    ] + (if r.partial {
        partial_lines(r.partial_reasons)
    } else {
        seq!["  ✓ complete scan"@]
    }) + transition_lines_of(r.transitions)
}

/// Append what is said of a scan that cannot tell what is gone.
fn push_partial(out: &mut Vec<String>, reasons: &Vec<PartialReason>)
    ensures
        final(out).deep_view() == old(out).deep_view() + partial_lines(reasons.deep_view()),
{
    let ghost all = reasons.deep_view();
    let ghost before = out.deep_view();
    let ghost head = seq!["  ⚠ PARTIAL SCAN — \"gone\" transitions suppressed:"@];
    out.push("  ⚠ PARTIAL SCAN — \"gone\" transitions suppressed:".to_string());
    assert(out.deep_view() == before + head);
    let mut i: usize = 0;
    while i < reasons.len()
        invariant
            i <= reasons.len(),
            all == reasons.deep_view(),
            out.deep_view() == before + head + Seq::new(
                i as nat,
                |k: int| "    · "@ + all[k].strategy + ": "@ + all[k].reason,
            ),
        decreases reasons.len() - i,
    {
        assert(all[i as int] == reasons@[i as int].deep_view());
        let mut s = "    · ".to_string();
        s.append(reasons[i].strategy.as_str());
        s.append(": ");
        s.append(reasons[i].reason.as_str());
        let ghost so_far = out.deep_view();
        let ghost line = s@;
        out.push(s);
        assert(out.deep_view() == so_far.push(line));
        i = i + 1;
    }
    assert(out.deep_view() == before + partial_lines(all));
}

/// The title of a report.
fn title_of(report: &ScanReport) -> (r: String)
    ensures
        r@ == report_title(report.deep_view()),
{
    let mut s = report.network_key.clone();
    if let Some(label) = &report.network_label {
        if !label.as_str().is_empty() {
            s.append(" (");
            s.append(label.as_str());
            s.append(")");
        }
    }
    s
}

/// A scan report as lines.
pub fn report_lines(report: &ScanReport) -> (r: Vec<String>)
    ensures
        r.deep_view() == report_lines_of(report.deep_view()),
{
    let ghost m = report.deep_view();
    let mut first = "Scan #".to_string();
    first.append(int_string(report.scan_id).as_str());
    first.append(" on ");
    first.append(title_of(report).as_str());
    let mut second = "  finished ".to_string();
    second.append(fmt_time(report.finished_at).as_str());
    second.append(" UTC · ");
    assert(m.strategies_run.len() == report.strategies_run@.len());
    push_dec(&mut second, report.strategies_run.len() as u64);
    second.append(" strategies · ");
    push_dec(&mut second, report.devices_seen as u64);
    second.append(" devices seen");
    let ghost head = seq![first@, second@];
    let mut out: Vec<String> = Vec::new();
    out.push(first);
    out.push(second);
    assert(out.deep_view() == head);
    if report.partial {
        push_partial(&mut out, &report.partial_reasons);
    } else {
        out.push("  ✓ complete scan".to_string());
        assert(out.deep_view() == head + seq!["  ✓ complete scan"@]);
    }
    let ghost so_far = out.deep_view();
    let mut rest = transition_lines(&report.transitions);
    let ghost tail = rest.deep_view();
    out.append(&mut rest);
    assert(out.deep_view() == so_far + tail);
    out
}

/// The diff of a network's last scan as lines.
pub open spec fn diff_lines_of(
    network: Seq<char>,
    scan_id: i64,
    at: i64,
    partial: Option<Seq<ReasonModel>>,
    ts: Seq<TransitionModel>,
) -> Seq<Seq<char>> {
    seq![
        "Diff for network "@ + network + " (scan #"@ + num::int_text(scan_id as int) + " at "@
            + util::time_string(at as int) + " UTC)"@,
    ] + (match partial {
        Some(reasons) => partial_lines(reasons),
        None => Seq::empty(),
    }) + transition_lines_of(ts)
}

/// The diff of a network's last scan as lines.
///
/// A diff that cannot report `gone` has to say so, or "no changes" reads as
/// "nothing left" when it means "we could not tell".
pub fn diff_lines(
    network: &str,
    scan_id: i64,
    at: i64,
    partial: &Option<Vec<PartialReason>>,
    transitions: &Vec<Transition>,
) -> (r: Vec<String>)
    ensures
        r.deep_view() == diff_lines_of(
            network@,
            scan_id,
            at,
            partial.deep_view(),
            transitions.deep_view(),
        ),
{
    let mut first = "Diff for network ".to_string();
    first.append(network);
    first.append(" (scan #");
    first.append(int_string(scan_id).as_str());
    first.append(" at ");
    first.append(fmt_time(at).as_str());
    first.append(" UTC)");
    let ghost head = seq![first@];
    let mut out: Vec<String> = Vec::new();
    out.push(first);
    assert(out.deep_view() == head);
    match partial {
        Some(reasons) => {
            push_partial(&mut out, reasons);
        },
        None => {
            assert(head == head + Seq::<Seq<char>>::empty());
        },
    }
    let ghost so_far = out.deep_view();
    let mut rest = transition_lines(transitions);
    let ghost tail = rest.deep_view();
    out.append(&mut rest);
    assert(out.deep_view() == so_far + tail);
    out
}

// ----- tables -----

/// The standing of a device, marked where its identity will not hold.
pub open spec fn status_text(d: DeviceViewModel) -> Seq<char> {
    if d.identity_stable {
        d.status.text()
    } else {
        d.status.text() + "*"@
    }
}

/// The cells of a device's row.
pub open spec fn device_cells(d: DeviceViewModel) -> Seq<(Seq<char>, usize)> {
    seq![
        (num::int_text(d.id as int), 4usize),
        (status_text(d), 8),
        (cut_to(d.display_name, 20), 20),
        (or_else(d.last_ip, "-"@), 15),
        (or_else(d.mac, "-"@), 17),
        (cut_to(or_else(d.vendor, "-"@), 14), 14),
        (util::time_string(d.last_seen as int), 16),
    ]
}

/// The cells of the header of the device table.
pub open spec fn device_header() -> Seq<(Seq<char>, usize)> {
    seq![
        ("id"@, 4usize),
        ("status"@, 8),
        ("name"@, 20),
        ("ip"@, 15),
        ("mac"@, 17),
        ("vendor"@, 14),
        ("last seen (UTC)"@, 16),
    ]
}

/// A device whose identity will not hold.
pub open spec fn some_untracked(ds: Seq<DeviceViewModel>) -> bool {
    exists|i: int| 0 <= i < ds.len() && !(#[trigger] ds[i]).identity_stable
}

/// A device's row.
pub open spec fn device_line_of(d: DeviceViewModel) -> Seq<char> {
    cells_text(device_cells(d)) + num::dec(d.networks.len())
}

/// Devices as a table.
pub open spec fn device_lines_of(ds: Seq<DeviceViewModel>) -> Seq<Seq<char>> {
    if ds.len() == 0 {
        seq!["no devices recorded — run `mipscan scan` first"@]
    } else {
        seq![cells_text(device_header()) + "networks"@] + Seq::new(
            ds.len(),
            |i: int| device_line_of(ds[i]),
        ) + if some_untracked(ds) {
            seq!["  * randomised identity: cannot be followed across MAC rotations"@]
        } else {
            Seq::empty()
        }
    }
}

/// Append a cell.
fn push_cell(cells: &mut Vec<(String, usize)>, s: String, width: usize)
    ensures
        final(cells).deep_view() == old(cells).deep_view().push((s@, width)),
{
    let ghost before = cells.deep_view();
    let ghost text = s@;
    cells.push((s, width));
    assert(cells.deep_view() == before.push((text, width)));
}

/// A device's row.
fn device_line(d: &DeviceView) -> (r: String)
    ensures
        r@ == device_line_of(d.deep_view()),
{
    let mut status = d.status.as_str().to_string();
    // A randomised identity is worth flagging here too: it explains why such
    // a device is never reported gone.
    if !d.identity_stable {
        status.append("*");
    }
    let mut cells: Vec<(String, usize)> = Vec::new();
    push_cell(&mut cells, int_string(d.id), 4);
    push_cell(&mut cells, status, 8);
    push_cell(&mut cells, truncate(d.display_name.as_str(), 20), 20);
    push_cell(&mut cells, value_or(&d.last_ip, "-"), 15);
    push_cell(&mut cells, value_or(&d.mac, "-"), 17);
    push_cell(&mut cells, truncate(value_or(&d.vendor, "-").as_str(), 14), 14);
    push_cell(&mut cells, fmt_time(d.last_seen), 16);
    assert(cells.deep_view() == device_cells(d.deep_view()));
    assert(d.deep_view().networks.len() == d.networks@.len());
    row_text(&cells, dec_string(d.networks.len() as u64).as_str())
}

/// Devices as a table.
pub fn device_lines(devices: &Vec<DeviceView>) -> (r: Vec<String>)
    ensures
        r.deep_view() == device_lines_of(devices.deep_view()),
{
    let ghost all = devices.deep_view();
    let mut out: Vec<String> = Vec::new();
    assert(all.len() == devices@.len());
    if devices.len() == 0 {
        out.push("no devices recorded — run `mipscan scan` first".to_string());
        assert(out.deep_view() == seq!["no devices recorded — run `mipscan scan` first"@]);
        return out;
    }
    let mut cells: Vec<(String, usize)> = Vec::new();
    push_cell(&mut cells, "id".to_string(), 4);
    push_cell(&mut cells, "status".to_string(), 8);
    push_cell(&mut cells, "name".to_string(), 20);
    push_cell(&mut cells, "ip".to_string(), 15);
    push_cell(&mut cells, "mac".to_string(), 17);
    push_cell(&mut cells, "vendor".to_string(), 14);
    push_cell(&mut cells, "last seen (UTC)".to_string(), 16);
    assert(cells.deep_view() == device_header());
    let ghost head = seq![cells_text(device_header()) + "networks"@];
    out.push(row_text(&cells, "networks"));
    assert(out.deep_view() == head);
    let mut untracked = false;
    let mut i: usize = 0;
    while i < devices.len()
        invariant
            i <= devices.len(),
            all == devices.deep_view(),
            out.deep_view() == head + Seq::new(i as nat, |k: int| device_line_of(all[k])),
            untracked == exists|k: int| 0 <= k < i && !(#[trigger] all[k]).identity_stable,
        decreases devices.len() - i,
    {
        assert(all[i as int] == devices@[i as int].deep_view());
        let ghost so_far = out.deep_view();
        out.push(device_line(&devices[i]));
        assert(out.deep_view() == so_far.push(device_line_of(all[i as int])));
        if !devices[i].identity_stable {
            untracked = true;
        }
        i = i + 1;
    }
    let ghost lines = out.deep_view();
    if untracked {
        out.push(
            "  * randomised identity: cannot be followed across MAC rotations".to_string(),
        );
        assert(out.deep_view() == lines + seq![
            "  * randomised identity: cannot be followed across MAC rotations"@,
        ]);
    }
    assert(out.deep_view() == device_lines_of(all));
    out
}

/// The cells of a network's row.
pub open spec fn network_cells(n: NetworkViewModel) -> Seq<(Seq<char>, usize)> {
    seq![
        (display::short(n.key), 18usize),
        (cut_to(or_else(n.label, "-"@), 12), 12),
        (or_else(n.subnet, "-"@), 18),
        (util::time_string(n.last_seen as int), 16),
    ]
}

/// The cells of the header of the network table.
pub open spec fn network_header() -> Seq<(Seq<char>, usize)> {
    seq![("key"@, 18usize), ("label"@, 12), ("subnet"@, 18), ("last seen (UTC)"@, 16)]
}

/// A network's row.
pub open spec fn network_line_of(n: NetworkViewModel) -> Seq<char> {
    cells_text(network_cells(n)) + num::int_text(n.device_count as int)
}

/// Networks as a table.
pub open spec fn network_lines_of(ns: Seq<NetworkViewModel>) -> Seq<Seq<char>> {
    if ns.len() == 0 {
        seq!["no networks remembered yet — run `mipscan scan` first"@]
    } else {
        seq![cells_text(network_header()) + "devices"@] + Seq::new(
            ns.len(),
            |i: int| network_line_of(ns[i]),
        )
    }
}

/// A network's row.
fn network_line(n: &NetworkView) -> (r: String)
    ensures
        r@ == network_line_of(n.deep_view()),
{
    let mut cells: Vec<(String, usize)> = Vec::new();
    push_cell(&mut cells, short_key(n.key.as_str()), 18);
    push_cell(&mut cells, truncate(value_or(&n.label, "-").as_str(), 12), 12);
    push_cell(&mut cells, value_or(&n.subnet, "-"), 18);
    push_cell(&mut cells, fmt_time(n.last_seen), 16);
    assert(cells.deep_view() == network_cells(n.deep_view()));
    row_text(&cells, int_string(n.device_count).as_str())
}

/// Networks as a table.
pub fn network_lines(networks: &Vec<NetworkView>) -> (r: Vec<String>)
    ensures
        r.deep_view() == network_lines_of(networks.deep_view()),
{
    let ghost all = networks.deep_view();
    let mut out: Vec<String> = Vec::new();
    assert(all.len() == networks@.len());
    if networks.len() == 0 {
        out.push("no networks remembered yet — run `mipscan scan` first".to_string());
        assert(out.deep_view() == seq!["no networks remembered yet — run `mipscan scan` first"@]);
        return out;
    }
    let mut cells: Vec<(String, usize)> = Vec::new();
    push_cell(&mut cells, "key".to_string(), 18);
    push_cell(&mut cells, "label".to_string(), 12);
    push_cell(&mut cells, "subnet".to_string(), 18);
    push_cell(&mut cells, "last seen (UTC)".to_string(), 16);
    assert(cells.deep_view() == network_header());
    let ghost head = seq![cells_text(network_header()) + "devices"@];
    out.push(row_text(&cells, "devices"));
    assert(out.deep_view() == head);
    let mut i: usize = 0;
    while i < networks.len()
        invariant
            i <= networks.len(),
            all == networks.deep_view(),
            out.deep_view() == head + Seq::new(i as nat, |k: int| network_line_of(all[k])),
        decreases networks.len() - i,
    {
        assert(all[i as int] == networks@[i as int].deep_view());
        let ghost so_far = out.deep_view();
        out.push(network_line(&networks[i]));
        assert(out.deep_view() == so_far.push(network_line_of(all[i as int])));
        i = i + 1;
    }
    assert(out.deep_view() == network_lines_of(all));
    out
}

// ----- histories -----

/// An event of a device's history as a line.
pub open spec fn event_text(e: EventModel) -> Seq<char> {
    match e {
        EventModel::Observation { at, ip, mac, hostname, source, .. } => util::time_string(
            at as int,
        ) + " seen "@ + ip + " mac="@ + or_else(mac, "?"@) + " host="@ + or_else(hostname, "?"@)
            + " via "@ + source,
        EventModel::Transition { at, kind, changes, .. } => util::time_string(at as int) + " "@
            + kind.text() + " "@ + changes_text(changes, "→"@, "?"@),
        EventModel::Named { at, name } => util::time_string(at as int) + " named \""@ + name
            + "\""@,
    }
}

/// An event of a device's history as a line.
pub fn format_event(e: &HistoryEvent) -> (r: String)
    ensures
        r@ == event_text(e.deep_view()),
{
    match e {
        HistoryEvent::Observation { at, ip, mac, hostname, source, .. } => {
            let mut s = fmt_time(*at);
            s.append(" seen ");
            s.append(ip.as_str());
            s.append(" mac=");
            s.append(value_or(mac, "?").as_str());
            s.append(" host=");
            s.append(value_or(hostname, "?").as_str());
            s.append(" via ");
            s.append(source.as_str());
            s
        },
        HistoryEvent::Transition { at, kind, changes, .. } => {
            let mut s = fmt_time(*at);
            s.append(" ");
            s.append(kind.as_str());
            s.append(" ");
            s.append(write_changes(changes, "→", "?").as_str());
            s
        },
        HistoryEvent::Named { at, name } => {
            let mut s = fmt_time(*at);
            s.append(" named \"");
            s.append(name.as_str());
            s.append("\"");
            s
        },
    }
}

// ----- commands -----

/// The network seen last; of several, the one that is listed last.
pub open spec fn is_most_recent(s: Seq<NetworkViewModel>, i: int) -> bool {
    &&& 0 <= i < s.len()
    &&& forall|j: int|
        0 <= j < s.len() ==> (#[trigger] s[j]).last_seen <= s[i].last_seen && (j > i
            ==> s[j].last_seen < s[i].last_seen)
}

/// The key of the network seen last.
pub fn most_recent_network(networks: &Vec<NetworkView>) -> (r: Option<String>)
    ensures
        match r {
            Some(key) => exists|i: int|
                #[trigger] is_most_recent(networks.deep_view(), i) && key@
                    == networks.deep_view()[i].key,
            None => networks@.len() == 0,
        },
{
    let ghost all = networks.deep_view();
    if networks.len() == 0 {
        return None;
    }
    let mut best: usize = 0;
    let mut i: usize = 1;
    while i < networks.len()
        invariant
            1 <= i <= networks.len(),
            best < i,
            all == networks.deep_view(),
            forall|j: int|
                0 <= j < i ==> (#[trigger] all[j]).last_seen <= all[best as int].last_seen && (j
                    > best ==> all[j].last_seen < all[best as int].last_seen),
        decreases networks.len() - i,
    {
        assert(all[i as int] == networks@[i as int].deep_view());
        assert(all[best as int] == networks@[best as int].deep_view());
        if networks[i].last_seen >= networks[best].last_seen {
            best = i;
        }
        i = i + 1;
    }
    assert(is_most_recent(all, best as int));
    assert(all[best as int] == networks@[best as int].deep_view());
    Some(networks[best].key.clone())
}

/// What a request to name a device asks for.
#[derive(Debug)]
pub enum NameAction {
    Give(String),
    Clear,
    /// Neither a name nor the wish to remove one.
    Refuse,
}

/// What a request to name a device asks for: a name that says something is
/// set; without one the present name is removed, but only where that was
/// asked for. Silently clearing on a missing argument would make a typo
/// indistinguishable from an instruction.
pub fn name_action(name: Option<&str>, clear: bool) -> (r: NameAction)
    ensures
        match r {
            NameAction::Give(n) => name is Some && !text::blank(name.unwrap()@) && n@
                == text::trimmed(name.unwrap()@),
            NameAction::Clear => (name is None || text::blank(name.unwrap()@)) && clear,
            NameAction::Refuse => (name is None || text::blank(name.unwrap()@)) && !clear,
        },
{
    if let Some(n) = name {
        let t = trim(n);
        if !t.as_str().is_empty() {
            return NameAction::Give(t);
        }
    }
    if clear {
        NameAction::Clear
    } else {
        NameAction::Refuse
    }
}

/// A row never loses a cell to its neighbour: every cell is followed by a
/// space, whatever its width.
pub proof fn law_cells_are_kept(cells: Seq<(Seq<char>, usize)>, i: int)
    requires
        0 <= i < cells.len(),
    ensures
        exists|a: int|
            0 <= a && a + cells[i].0.len() < cells_text(cells).len() && (
            #[trigger] cells_text(cells).subrange(a, a + cells[i].0.len())) == cells[i].0,
    decreases cells.len(),
{
    let init = cells.drop_last();
    let before = cells_text(init);
    let whole = cells_text(cells);
    let last = cells.last();
    let p = padded(last.0, last.1 as nat);
    assert(whole == before + p + seq![' ']);
    if i < init.len() {
        law_cells_are_kept(init, i);
        let a = choose|a: int|
            0 <= a && a + cells[i].0.len() < before.len() && (#[trigger] before.subrange(
                a,
                a + cells[i].0.len(),
            )) == init[i].0;
        assert(whole.subrange(a, a + cells[i].0.len()) == before.subrange(
            a,
            a + cells[i].0.len(),
        ));
    } else {
        let a = before.len() as int;
        assert(whole.subrange(a, a + last.0.len()) == last.0);
    }
}

/// A transition is told by the mark of its kind, the device, the kind, whether
/// the identity will not hold, and what changed, the old value before the new
/// one.
pub proof fn law_transition_is_told(t: TransitionModel, c: ChangeModel)
    requires
        t.changes == seq![c],
    ensures
        transition_line_of(t) == "  "@ + (match t.kind {
            TransitionKind::New => "+"@,
            TransitionKind::Changed => "~"@,
            TransitionKind::Gone => "-"@,
            TransitionKind::Returned => "↩"@,
        }) + " "@ + t.device_display + " ["@ + (if t.unstable_identity {
            t.kind.text() + " · randomised identity"@
        } else {
            t.kind.text()
        }) + "]"@ + (" ("@ + (c.field + ": "@ + (if c.from is Some {
            c.from.unwrap()
        } else {
            "∅"@
        }) + " → "@ + (if c.to is Some {
            c.to.unwrap()
        } else {
            "∅"@
        })) + ")"@),
{
    let told = Seq::new(1, |i: int| change_text(t.changes[i], " → "@, "∅"@));
    assert(Seq::new(t.changes.len(), |i: int| change_text(t.changes[i], " → "@, "∅"@)) =~= told);
    assert(text::join(told, ", "@) == change_text(c, " → "@, "∅"@));
}

/// Every transition has its line, in its order; where there is none a line says
/// so, and a note follows exactly where some identity will not hold.
pub proof fn law_every_transition_has_its_line(ts: Seq<TransitionModel>)
    ensures
        ts.len() == 0 ==> transition_lines_of(ts) == seq!["  no changes since last scan"@],
        ts.len() > 0 ==> {
            &&& transition_lines_of(ts).len() == ts.len() + if exists|i: int|
                0 <= i < ts.len() && (#[trigger] ts[i]).unstable_identity {
                3int
            } else {
                0
            }
            &&& forall|i: int|
                0 <= i < ts.len() ==> #[trigger] transition_lines_of(ts)[i] == transition_line_of(
                    ts[i],
                )
        },
{
}

/// A diff of a partial scan says so and why, before the transitions; one of a
/// whole scan has the title and the transitions alone.
pub proof fn law_partial_diff_says_why(
    network: Seq<char>,
    scan_id: i64,
    at: i64,
    reasons: Seq<ReasonModel>,
    ts: Seq<TransitionModel>,
)
    ensures
        ({
            let whole = diff_lines_of(network, scan_id, at, None, ts);
            let partial = diff_lines_of(network, scan_id, at, Some(reasons), ts);
            &&& whole.len() == 1 + transition_lines_of(ts).len()
            &&& whole.skip(1) == transition_lines_of(ts)
            &&& whole[0] == partial[0]
            &&& partial.len() == 2 + reasons.len() + transition_lines_of(ts).len()
            &&& partial.skip(2int + reasons.len()) == transition_lines_of(ts)
            &&& forall|i: int|
                0 <= i < reasons.len() ==> #[trigger] partial[2 + i] == "    · "@
                    + reasons[i].strategy + ": "@ + reasons[i].reason
        }),
{
    let whole = diff_lines_of(network, scan_id, at, None, ts);
    let partial = diff_lines_of(network, scan_id, at, Some(reasons), ts);
    assert(whole.skip(1) =~= transition_lines_of(ts));
    assert(partial.skip(2int + reasons.len()) =~= transition_lines_of(ts));
}

/// The cells of a device's row are under the headers of what they tell; its
/// status has a star exactly where its identity will not hold.
pub proof fn law_device_cells_are_under_their_headers(d: DeviceViewModel)
    ensures
        ({
            let c = device_cells(d);
            let h = device_header();
            &&& c.len() == h.len()
            &&& forall|i: int| 0 <= i < c.len() ==> (#[trigger] c[i]).1 == h[i].1
            &&& h[0].0 == "id"@ && c[0].0 == num::int_text(d.id as int)
            &&& h[1].0 == "status"@ && c[1].0 == (if d.identity_stable {
                d.status.text()
            } else {
                d.status.text() + "*"@
            })
            &&& h[2].0 == "name"@ && c[2].0 == cut_to(d.display_name, 20)
            &&& h[3].0 == "ip"@ && c[3].0 == (if d.last_ip is Some {
                d.last_ip.unwrap()
            } else {
                "-"@
            })
            &&& h[4].0 == "mac"@ && c[4].0 == (if d.mac is Some {
                d.mac.unwrap()
            } else {
                "-"@
            })
            &&& h[5].0 == "vendor"@ && c[5].0 == cut_to(
                if d.vendor is Some {
                    d.vendor.unwrap()
                } else {
                    "-"@
                },
                14,
            )
            &&& h[6].0 == "last seen (UTC)"@ && c[6].0 == util::time_string(d.last_seen as int)
        }),
{
}

/// The cells of a network's row are under the headers of what they tell.
pub proof fn law_network_cells_are_under_their_headers(n: NetworkViewModel)
    ensures
        ({
            let c = network_cells(n);
            let h = network_header();
            &&& c.len() == h.len()
            &&& forall|i: int| 0 <= i < c.len() ==> (#[trigger] c[i]).1 == h[i].1
            &&& h[0].0 == "key"@ && c[0].0 == display::short(n.key)
            &&& h[1].0 == "label"@ && c[1].0 == cut_to(
                if n.label is Some {
                    n.label.unwrap()
                } else {
                    "-"@
                },
                12,
            )
            &&& h[2].0 == "subnet"@ && c[2].0 == (if n.subnet is Some {
                n.subnet.unwrap()
            } else {
                "-"@
            })
            &&& h[3].0 == "last seen (UTC)"@ && c[3].0 == util::time_string(n.last_seen as int)
        }),
{
}

/// Every device has its row, in its order, behind the header; a remark follows
/// exactly where some identity will not hold.
pub proof fn law_every_device_has_its_row(ds: Seq<DeviceViewModel>)
    requires
        ds.len() > 0,
    ensures
        device_lines_of(ds).len() == 1 + ds.len() + if exists|i: int|
            0 <= i < ds.len() && !(#[trigger] ds[i]).identity_stable {
            1int
        } else {
            0
        },
        forall|i: int|
            0 <= i < ds.len() ==> #[trigger] device_lines_of(ds)[1 + i] == cells_text(
                device_cells(ds[i]),
            ) + num::dec(ds[i].networks.len()),
{
}

/// Every network has its row, in its order, behind the header, with the number
/// of its devices at the end.
pub proof fn law_every_network_has_its_row(ns: Seq<NetworkViewModel>)
    requires
        ns.len() > 0,
    ensures
        network_lines_of(ns).len() == 1 + ns.len(),
        forall|i: int|
            0 <= i < ns.len() ==> #[trigger] network_lines_of(ns)[1 + i] == cells_text(
                network_cells(ns[i]),
            ) + num::int_text(ns[i].device_count as int),
{
}

/// What fits is told whole, and what does not is told with nothing but its end
/// missing, in no more than the width.
pub proof fn law_cut_keeps_the_beginning(s: Seq<char>, max: nat)
    requires
        max >= 1,
    ensures
        s.len() <= max ==> cut_to(s, max) == s,
        cut_to(s, max).len() <= max,
        s.len() > max ==> cut_to(s, max).take(max - 1) == s.take(max - 1),
{
    reveal_strlit("…");
    if s.len() > max {
        assert(cut_to(s, max).take(max - 1) =~= s.take(max - 1));
    }
}

} // verus!
