use crate::date::date_text;
use crate::date::Date;
use crate::text::decimal;
use crate::text::push_decimal;
use crate::triage::entries_view;
use vstd::prelude::*;
use vstd::string::StringExecFns;

verus! {

/// What the report says when nothing is stale.
pub open spec fn empty_report() -> Seq<char> {
    "empty\n"@
}

/// Title and fixed instructions of a report for the month `cur`.
pub open spec fn report_header(cur: Date) -> Seq<char> {
    "Date Reference Triage for "@ + date_text(cur) + "\n## Procedure\n\n"@
        + "Each of these dates should be checked to see if the docs they annotate are up-to-date. Each date should be updated (in the Markdown file where it appears) to use the current month ("@
        + date_text(cur)
        + "), or removed if the docs it annotates are not expected to fall out of date quickly.\n\n"@
        + "Please check off each date once a PR to update it (and, if applicable, its surrounding docs) has been merged. Please also mention that you are working on a particular set of dates so duplicate work is avoided.\n\n"@
        + "Finally, once all the dates have been updated, please close this issue.\n\n## Dates\n\n"@
}

/// One nested checklist item per annotation.
pub open spec fn line_items(ds: Seq<(int, Date)>) -> Seq<char>
    decreases ds.len(),
{
    if ds.len() == 0 {
        seq![]
    } else {
        line_items(ds.drop_last()) + "  - [ ] line "@ + decimal(ds.last().0 as nat) + ": "@
            + date_text(ds.last().1) + "\n"@
    }
}

/// One checklist item per document, followed by the items of its annotations.
pub open spec fn file_items(fs: Seq<(Seq<char>, Seq<(int, Date)>)>) -> Seq<char>
    decreases fs.len(),
{
    if fs.len() == 0 {
        seq![]
    } else {
        file_items(fs.drop_last()) + "- [ ] "@ + fs.last().0 + "\n"@ + line_items(fs.last().1)
    }
}

/// The whole report for the month `cur` over documents and their stale annotations.
pub open spec fn report_text(cur: Date, fs: Seq<(Seq<char>, Seq<(int, Date)>)>) -> Seq<char> {
    if fs.len() == 0 {
        empty_report()
    } else {
        report_header(cur) + file_items(fs) + "\n"@
    }
}

/// Renders the triage checklist for `current_month`, or `empty` when there is nothing to list.
pub fn render_report(current_month: Date, dates_by_file: &Vec<(String, Vec<(usize, Date)>)>) -> (r:
    String)
    ensures
        r@ == report_text(current_month, entries_view(dates_by_file@)),
{
    let ghost fs = entries_view(dates_by_file@);
    let mut s = String::new();
    if dates_by_file.len() == 0 {
        s.append("empty\n");
        return s;
    }
    let month = current_month.to_text();
    s.append("Date Reference Triage for ");
    s.append(month.as_str());
    s.append("\n## Procedure\n\n");
    s.append(
        "Each of these dates should be checked to see if the docs they annotate are up-to-date. Each date should be updated (in the Markdown file where it appears) to use the current month (",
    );
    s.append(month.as_str());
    s.append(
        "), or removed if the docs it annotates are not expected to fall out of date quickly.\n\n",
    );
    s.append(
        "Please check off each date once a PR to update it (and, if applicable, its surrounding docs) has been merged. Please also mention that you are working on a particular set of dates so duplicate work is avoided.\n\n",
    );
    s.append("Finally, once all the dates have been updated, please close this issue.\n\n## Dates\n\n");
    assert(s@ =~= report_header(current_month));
    let mut i: usize = 0;
    while i < dates_by_file.len()
        invariant
            fs == entries_view(dates_by_file@),
            i <= dates_by_file.len(),
            s@ == report_header(current_month) + file_items(fs.take(i as int)),
        decreases dates_by_file.len() - i,
    {
        let ghost before = s@;
        let path = &dates_by_file[i].0;
        let ds = &dates_by_file[i].1;
        s.append("- [ ] ");
        s.append(path.as_str());
        s.append("\n");
        let ghost head = s@;
        let ghost lines = fs[i as int].1;
        assert(lines == crate::extract::numbered(ds@));
        let mut t: usize = 0;
        while t < ds.len()
            invariant
                t <= ds.len(),
                lines == crate::extract::numbered(ds@),
                s@ == head + line_items(lines.take(t as int)),
            decreases ds.len() - t,
        {
            let (line, date) = ds[t];
            let ghost prev = s@;
            s.append("  - [ ] line ");
            push_decimal(&mut s, line);
            s.append(": ");
            let dt = date.to_text();
            s.append(dt.as_str());
            s.append("\n");
            proof {
                assert(lines.take(t + 1).drop_last() =~= lines.take(t as int));
                assert(lines[t as int] == (line as int, date));
                assert(s@ =~= prev + "  - [ ] line "@ + decimal(line as nat) + ": "@ + date_text(date)
                    + "\n"@);
                assert(s@ =~= head + line_items(lines.take(t + 1)));
            }
            t = t + 1;
        }
        proof {
            assert(lines.take(ds.len() as int) =~= lines);
            assert(fs.take(i + 1).drop_last() =~= fs.take(i as int));
            assert(fs[i as int].0 == path@);
            assert(s@ =~= report_header(current_month) + file_items(fs.take(i + 1)));
        }
        i = i + 1;
    }
    s.append("\n");
    assert(fs.take(i as int) =~= fs);
    assert(s@ =~= report_text(current_month, fs));
    s
}

} // verus!
