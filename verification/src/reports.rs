//! Choosing the metrics files and lines to read, and assembling the text to transmit.
use vstd::prelude::*;
use vstd::string::StringExecFns;
use vstd::utf8::encode_utf8;
use crate::text::{join, law_split_join, lemma_split_nonempty, lines, split, split_at_char, strip_cr, views};

verus! {

/// How many lines of a metrics file of `total_lines` lines are read when
/// `lines_to_read` are asked for: that many when the file has more lines, otherwise
/// every line but the header.
pub open spec fn window_count(total_lines: int, lines_to_read: int) -> int {
    if total_lines > lines_to_read {
        lines_to_read
    } else if total_lines > 0 {
        total_lines - 1
    } else {
        0
    }
}

/// The first line number (counting the header as 0) and the number of lines to read:
/// the last `window_count` lines of the file.
pub fn line_window(total_lines: usize, lines_to_read: u32) -> (w: (usize, usize))
    ensures
        w.1 == window_count(total_lines as int, lines_to_read as int),
        w.0 + w.1 == total_lines,
{
    let count: usize = if total_lines > lines_to_read as usize {
        lines_to_read as usize
    } else if total_lines > 0 {
        total_lines - 1
    } else {
        0
    };
    (total_lines - count, count)
}

/// The lines read are the last lines of the file: as many as were asked for, but never
/// the header line. A file with more lines than asked gives exactly the lines asked;
/// otherwise every line but the header is read.
pub proof fn law_window_skips_header(total_lines: nat, lines_to_read: nat)
    ensures
        0 <= window_count(total_lines as int, lines_to_read as int) <= lines_to_read,
        window_count(total_lines as int, lines_to_read as int) <= total_lines,
        window_count(total_lines as int, lines_to_read as int) > 0 ==> total_lines
            - window_count(total_lines as int, lines_to_read as int) >= 1,
        total_lines > lines_to_read ==> window_count(total_lines as int, lines_to_read as int)
            == lines_to_read,
        total_lines > 0 ==> window_count(total_lines as int, lines_to_read as int) == (if lines_to_read
            < total_lines - 1 {
            lines_to_read as int
        } else {
            total_lines - 1
        }),
        total_lines == 0 ==> window_count(total_lines as int, lines_to_read as int) == 0,
{
}

/// The reports, each followed by a line feed.
pub open spec fn terminated_lines(reports: Seq<Seq<char>>) -> Seq<char>
    decreases reports.len(),
{
    if reports.len() == 0 {
        Seq::<char>::empty()
    } else {
        terminated_lines(reports.drop_last()) + reports.last() + seq!['\n']
    }
}

/// Adds the report of a line to those to transmit; an empty report, of a line that
/// was not valid, is left out. Returns whether the report was added.
pub fn push_report(reports: &mut Vec<String>, report: String) -> (pushed: bool)
    ensures
        pushed == (report@.len() > 0),
        views(final(reports)@) == (if pushed {
            views(old(reports)@).push(report@)
        } else {
            views(old(reports)@)
        }),
{
    if report.unicode_len() > 0 {
        let ghost r = report@;
        reports.push(report);
        assert(views(reports@) =~= views(old(reports)@).push(r));
        true
    } else {
        false
    }
}

/// The text to transmit: every report followed by a line feed.
pub fn concat_reports(reports: &Vec<String>) -> (out: String)
    ensures
        out@ == terminated_lines(views(reports@)),
{
    let mut out = String::new();
    let mut i: usize = 0;
    while i < reports.len()
        invariant
            i <= reports.len(),
            out@ == terminated_lines(views(reports@).take(i as int)),
        decreases reports.len() - i,
    {
        out.append(reports[i].as_str());
        out.append("\n");
        proof {
            reveal_strlit("\n");
        }
        let ghost next = views(reports@).take(i + 1);
        assert(next.drop_last() =~= views(reports@).take(i as int));
        i = i + 1;
        assert(out@ =~= terminated_lines(views(reports@).take(i as int)));
    }
    assert(views(reports@).take(reports.len() as int) =~= views(reports@));
    out
}

proof fn lemma_terminated_lines_join(reports: Seq<Seq<char>>)
    ensures
        terminated_lines(reports) == join(reports.push(Seq::<char>::empty()), seq!['\n']),
    decreases reports.len(),
{
    let e = Seq::<char>::empty();
    let sep = seq!['\n'];
    if reports.len() == 0 {
        assert(reports.push(e) =~= seq![e]);
    } else {
        let p = reports.drop_last();
        lemma_terminated_lines_join(p);
        assert(reports.push(e).drop_last() =~= reports);
        assert(join(reports.push(e), sep) == join(reports, sep) + sep + e);
        if reports.len() == 1 {
            assert(p.push(e) =~= seq![e]);
            assert(terminated_lines(p) =~= e);
            assert(terminated_lines(reports) =~= join(reports.push(e), sep));
        } else {
            assert(p.push(e).drop_last() =~= p);
            assert(join(p.push(e), sep) == join(p, sep) + sep + e);
            assert(join(reports, sep) == join(p, sep) + sep + reports.last());
            assert(terminated_lines(reports) =~= join(reports.push(e), sep));
        }
    }
}

/// The transmitted text holds one line per report, in order, when no report holds a
/// line feed or ends with a carriage return.
pub proof fn law_transmitted_lines(reports: Seq<Seq<char>>)
    requires
        forall|i: int|
            0 <= i < reports.len() ==> !(#[trigger] reports[i]).contains('\n') && !(
            reports[i].len() > 0 && reports[i].last() == '\r'),
    ensures
        lines(terminated_lines(reports)) == reports,
{
    let e = Seq::<char>::empty();
    let f = reports.push(e);
    lemma_terminated_lines_join(reports);
    assert forall|i: int| 0 <= i < f.len() implies !(#[trigger] f[i]).contains('\n') by {
        if i < reports.len() {
            assert(f[i] == reports[i]);
        } else {
            assert(f[i] == e);
        }
    }
    law_split_join(f, '\n');
    assert(split(terminated_lines(reports), '\n') == f);
    assert forall|i: int| 0 <= i < reports.len() implies strip_cr(f[i]) == reports[i] by {
        assert(f[i] == reports[i]);
    }
    assert(lines(terminated_lines(reports)) =~= reports);
}

/// The part of a metrics file's name before its first underscore: the IMSI of the user.
pub open spec fn metrics_file_imsi(path: Seq<char>) -> Seq<char> {
    split(split(path, '/').last(), '_')[0]
}

/// A metrics file belongs to a user when the IMSI part of its name is at least 10
/// bytes long in UTF-8.
pub open spec fn is_metrics_path(path: Seq<char>) -> bool {
    encode_utf8(metrics_file_imsi(path)).len() >= 10
}

/// Whether the file at `path` holds the metrics of a user.
pub fn is_metrics_file(path: &str) -> (b: bool)
    ensures
        b == is_metrics_path(path@),
{
    let parts = split_at_char(path, '/');
    proof {
        lemma_split_nonempty(path@, '/');
    }
    let name = &parts[parts.len() - 1];
    let pieces = split_at_char(name.as_str(), '_');
    proof {
        lemma_split_nonempty(name@, '_');
    }
    pieces[0].as_str().as_bytes().len() >= 10
}

/// The paths of user metrics files, in the order given.
pub fn select_metric_files(paths: &Vec<String>) -> (files: Vec<String>)
    ensures
        views(files@) == views(paths@).filter(|p: Seq<char>| is_metrics_path(p)),
{
    let ghost pred = |p: Seq<char>| is_metrics_path(p);
    let mut files: Vec<String> = Vec::new();
    let mut i: usize = 0;
    while i < paths.len()
        invariant
            i <= paths.len(),
            pred == (|p: Seq<char>| is_metrics_path(p)),
            views(files@) == views(paths@).take(i as int).filter(pred),
        decreases paths.len() - i,
    {
        let ghost prev = views(paths@).take(i as int);
        let ghost next = views(paths@).take(i + 1);
        assert(next.drop_last() =~= prev);
        assert(next.last() == paths@[i as int]@);
        assert(next.filter(pred) == (if pred(next.last()) {
            prev.filter(pred).push(next.last())
        } else {
            prev.filter(pred)
        })) by {
            reveal_with_fuel(Seq::<_>::filter, 1);
        }
        if is_metrics_file(paths[i].as_str()) {
            let p = paths[i].clone();
            files.push(p);
            assert(views(files@) =~= next.filter(pred));
        } else {
            assert(views(files@) =~= next.filter(pred));
        }
        i = i + 1;
    }
    assert(views(paths@).take(paths.len() as int) =~= views(paths@));
    files
}

} // verus!
