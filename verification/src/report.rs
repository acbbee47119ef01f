use crate::bytes::byte_rows;
use crate::bytes::copy_bytes;
use crate::bytes::copy_rows;
use crate::bytes::split;
use crate::bytes::split_bytes;
use crate::bytes::SPACE;
use crate::bytes::TAB;
use crate::closure::report_view;
use crate::closure::ReportEntry;
use crate::closure::ReportEntryView;
use crate::error::PipelineError;
use crate::error::TaxonomyFault;
use crate::lines::lines_of;
use crate::lines::read_lines;
use vstd::prelude::*;

verus! {

/// The fewest tab-separated columns that a report line has.
pub const MIN_COLUMNS: usize = 6;

/// The number of spaces by which a name is indented for each level.
pub const INDENT_STEP: usize = 2;

/// What a report line says of the hierarchy: how deep its taxon stands, and
/// the taxon's id.
pub struct LevelLine {
    pub depth: nat,
    pub taxid: Seq<u8>,
}

/// The number of spaces that `s` starts with.
pub open spec fn leading_spaces(s: Seq<u8>) -> nat
    decreases s.len(),
{
    if s.len() == 0 || s[0] != SPACE {
        0
    } else {
        (1 + leading_spaces(s.skip(1))) as nat
    }
}

/// Reads one report line: the last column is the name, indented by two
/// spaces for each level, and the column before it is the taxon id. Nothing
/// where the line has fewer than six columns, no taxon id, or a name
/// indented by an odd number of spaces.
pub open spec fn read_level(line: Seq<u8>) -> Option<LevelLine> {
    let columns = split(line, TAB);
    if columns.len() < MIN_COLUMNS {
        None
    } else {
        let taxid = columns[columns.len() - 2];
        let indent = leading_spaces(columns[columns.len() - 1]);
        if taxid.len() == 0 || indent % (INDENT_STEP as nat) != 0 {
            None
        } else {
            Some(LevelLine { depth: indent / (INDENT_STEP as nat), taxid })
        }
    }
}

/// Where a walk over report lines stands: the entries read so far, and the
/// taxa from the root down to the taxon of the last line.
pub struct Walk {
    pub entries: Seq<ReportEntryView>,
    pub path: Seq<Seq<u8>>,
}

/// Walks over the lines of a report. Every line gives an entry whose lineage
/// is the path down to its depth; a line that cannot be read, or that
/// stands more than one level below the line before it, stops the walk at
/// its position.
pub open spec fn walk(lines: Seq<Seq<u8>>) -> Result<Walk, int>
    decreases lines.len(),
{
    if lines.len() == 0 {
        Ok(Walk { entries: Seq::empty(), path: Seq::empty() })
    } else {
        match walk(lines.drop_last()) {
            Err(at) => Err(at),
            Ok(w) => match read_level(lines.last()) {
                None => Err(lines.len() - 1),
                Some(level) => if level.depth > w.path.len() {
                    Err(lines.len() - 1)
                } else {
                    let lineage = w.path.take(level.depth as int);
                    Ok(
                        Walk {
                            entries: w.entries.push(
                                ReportEntryView { taxid: level.taxid, lineage },
                            ),
                            path: lineage.push(level.taxid),
                        },
                    )
                },
            },
        }
    }
}

/// A walk that stops within the first `n` lines stops there for the whole
/// report.
pub proof fn lemma_walk_fails_on(lines: Seq<Seq<u8>>, n: int)
    requires
        0 <= n <= lines.len(),
        walk(lines.take(n)) is Err,
    ensures
        walk(lines) == walk(lines.take(n)),
    decreases lines.len() - n,
{
    if n < lines.len() {
        assert(lines.take(n + 1).drop_last() == lines.take(n));
        lemma_walk_fails_on(lines, n + 1);
    } else {
        assert(lines.take(n) == lines);
    }
}

/// The number of spaces that `s` starts with.
pub fn count_leading_spaces(s: &[u8]) -> (n: usize)
    ensures
        n == leading_spaces(s@),
{
    let mut i: usize = 0;
    assert(s@.skip(0) == s@);
    while i < s.len() && s[i] == SPACE
        invariant
            i <= s.len(),
            leading_spaces(s@) == i + leading_spaces(s@.skip(i as int)),
        decreases s.len() - i,
    {
        proof {
            assert(s@.skip(i as int).skip(1) == s@.skip(i + 1));
        }
        i += 1;
    }
    i
}

/// Reads one report line: the depth of its taxon and the taxon's id.
pub fn read_report_line(line: &[u8]) -> (level: Option<(usize, Vec<u8>)>)
    ensures
        match level {
            Some((depth, taxid)) => read_level(line@) == Some(
                LevelLine { depth: depth as nat, taxid: taxid@ },
            ),
            None => read_level(line@) is None,
        },
{
    let columns = split_bytes(line, TAB);
    if columns.len() < MIN_COLUMNS {
        return None;
    }
    let ghost parts = byte_rows(columns@);
    let taxid = &columns[columns.len() - 2];
    let name = &columns[columns.len() - 1];
    assert(parts[columns.len() - 2] == taxid@);
    assert(parts[columns.len() - 1] == name@);
    let indent = count_leading_spaces(name.as_slice());
    if taxid.len() == 0 || indent % INDENT_STEP != 0 {
        return None;
    }
    Some((indent / INDENT_STEP, copy_bytes(taxid.as_slice())))
}

/// Reads the entries of a report from its lines.
pub fn entries_from_lines(lines: &Vec<Vec<u8>>) -> (read: Result<Vec<ReportEntry>, PipelineError>)
    ensures
        match read {
            Ok(entries) => walk(byte_rows(lines@)) matches Ok(w) && w.entries == report_view(
                entries@,
            ),
            Err(e) => walk(byte_rows(lines@)) matches Err(at) && 0 <= at < lines.len() && e
                == PipelineError::TaxonomyParse(TaxonomyFault::MalformedLine { line: at as usize }),
        },
{
    let ghost rows = byte_rows(lines@);
    let mut entries: Vec<ReportEntry> = Vec::new();
    let mut path: Vec<Vec<u8>> = Vec::new();
    let mut i: usize = 0;
    assert(report_view(entries@) =~= Seq::empty());
    assert(byte_rows(path@) =~= Seq::empty());
    while i < lines.len()
        invariant
            i <= lines.len(),
            rows == byte_rows(lines@),
            walk(rows.take(i as int)) == Ok::<Walk, int>(
                Walk { entries: report_view(entries@), path: byte_rows(path@) },
            ),
        decreases lines.len() - i,
    {
        proof {
            assert(rows.take(i + 1).drop_last() == rows.take(i as int));
            assert(rows.take(i + 1).last() == lines@[i as int]@);
        }
        let (depth, taxid) = match read_report_line(lines[i].as_slice()) {
            Some(level) => level,
            None => {
                proof {
                    lemma_walk_fails_on(rows, i + 1);
                }
                return Err(
                    PipelineError::TaxonomyParse(TaxonomyFault::MalformedLine { line: i }),
                );
            },
        };
        if depth > path.len() {
            proof {
                lemma_walk_fails_on(rows, i + 1);
            }
            return Err(PipelineError::TaxonomyParse(TaxonomyFault::MalformedLine { line: i }));
        }
        let ghost old_path = byte_rows(path@);
        let ghost old_entries = report_view(entries@);
        let lineage = copy_rows(&path, depth);
        path.truncate(depth);
        assert(byte_rows(path@) =~= old_path.take(depth as int));
        path.push(copy_bytes(taxid.as_slice()));
        assert(byte_rows(path@) =~= old_path.take(depth as int).push(taxid@));
        let entry = ReportEntry { taxid, lineage };
        entries.push(entry);
        assert(report_view(entries@) =~= old_entries.push(
            ReportEntryView { taxid: taxid@, lineage: old_path.take(depth as int) },
        ));
        i += 1;
    }
    assert(rows.take(lines.len() as int) == rows);
    Ok(entries)
}

/// Reads the entries of a report from its text.
pub fn parse_report(text: &[u8]) -> (read: Result<Vec<ReportEntry>, PipelineError>)
    ensures
        match read {
            Ok(entries) => walk(lines_of(text@)) matches Ok(w) && w.entries == report_view(
                entries@,
            ),
            Err(e) => walk(lines_of(text@)) matches Err(at) && 0 <= at && e
                == PipelineError::TaxonomyParse(TaxonomyFault::MalformedLine { line: at as usize }),
        },
{
    let lines = read_lines(text);
    entries_from_lines(&lines)
}

} // verus!
