//! The discovery scanner: a directory listing, filtered and parsed.
//!
//! Only entries whose name has the extension `csv` and starts with one of
//! the allow-list prefixes are considered; each is handed to the record
//! parser, and entries that do not parse (or could not be read) are
//! skipped.

use vstd::prelude::*;

use crate::record::parse_record;
use crate::record::parse_spec;
use crate::record::stats_wf;
use crate::record::StatsResult;
use crate::record::StatsView;
use crate::strutil::prefix_match;
use crate::strutil::str_has_prefix;

verus! {

/// One directory entry handed to the scanner: the file name and the file's
/// text content, absent when the file could not be read.
pub struct FileEntry {
    pub name: String,
    pub content: Option<String>,
}

/// The mathematical value of a [`FileEntry`].
pub struct FileView {
    pub name: Seq<char>,
    pub content: Option<Seq<char>>,
}

impl View for FileEntry {
    type V = FileView;

    open spec fn view(&self) -> FileView {
        FileView {
            name: self.name@,
            content: match self.content {
                Some(c) => Some(c@),
                None => None,
            },
        }
    }
}

/// The views of a sequence of records.
pub open spec fn stats_views(s: Seq<StatsResult>) -> Seq<StatsView> {
    s.map_values(|r: StatsResult| r@)
}

/// The views of a sequence of entries.
pub open spec fn file_views(s: Seq<FileEntry>) -> Seq<FileView> {
    s.map_values(|e: FileEntry| e@)
}

/// Whether a file name carries the extension `csv`: it ends in `.csv` with
/// a non-empty stem before the dot.
pub open spec fn is_csv_name(n: Seq<char>) -> bool {
    n.len() >= 5 && n[n.len() - 4] == '.' && n[n.len() - 3] == 'c' && n[n.len() - 2] == 's' && n[
        n.len() - 1] == 'v'
}

/// Whether some allow-list entry is a literal prefix of the name.
pub open spec fn any_allowed(n: Seq<char>, allow: Seq<Seq<char>>) -> bool {
    exists|t: int| 0 <= t < allow.len() && prefix_match(n, #[trigger] allow[t])
}

/// The records of the eligible, readable, parseable entries, in listing
/// order.
pub open spec fn scan_spec(files: Seq<FileView>, allow: Seq<Seq<char>>) -> Seq<StatsView>
    decreases files.len(),
{
    if files.len() == 0 {
        Seq::empty()
    } else {
        let rest = scan_spec(files.drop_last(), allow);
        let f = files.last();
        if is_csv_name(f.name) && any_allowed(f.name, allow) && f.content is Some && parse_spec(
            f.name,
            f.content.unwrap(),
        ) is Some {
            rest.push(parse_spec(f.name, f.content.unwrap()).unwrap())
        } else {
            rest
        }
    }
}

/// Exec extension test, per `is_csv_name`.
fn is_csv(name: &str) -> (r: bool)
    ensures
        r == is_csv_name(name@),
{
    let n: usize = name.unicode_len();
    if n < 5 {
        return false;
    }
    name.get_char(n - 4) == '.' && name.get_char(n - 3) == 'c' && name.get_char(n - 2) == 's'
        && name.get_char(n - 1) == 'v'
}

/// Exec allow-list test, per `any_allowed`.
fn allowed(name: &str, allow: &Vec<String>) -> (r: bool)
    ensures
        r == any_allowed(name@, allow.deep_view()),
{
    let mut j: usize = 0;
    while j < allow.len()
        invariant
            j <= allow@.len(),
            allow.deep_view().len() == allow@.len(),
            forall|t: int| 0 <= t < j ==> !prefix_match(name@, #[trigger] allow.deep_view()[t]),
        decreases allow@.len() - j,
    {
        proof {
            assert(allow.deep_view()[j as int] == allow@[j as int]@);
        }
        if str_has_prefix(name, allow[j].as_str()) {
            return true;
        }
        j = j + 1;
    }
    false
}

/// Scans a directory listing: keeps the `csv` entries whose name starts
/// with an allow-list prefix, parses each readable one, and skips the rest.
pub fn scan(files: &Vec<FileEntry>, allow: &Vec<String>) -> (out: Vec<StatsResult>)
    ensures
        stats_views(out@) == scan_spec(file_views(files@), allow.deep_view()),
        forall|i: int| 0 <= i < out@.len() ==> stats_wf((#[trigger] out@[i])@),
{
    let mut out: Vec<StatsResult> = Vec::new();
    let mut i: usize = 0;
    proof {
        assert(stats_views(out@) =~= scan_spec(file_views(files@).subrange(0, 0), allow.deep_view()));
        assert(file_views(files@).subrange(0, 0) =~= Seq::<FileView>::empty());
    }
    while i < files.len()
        invariant
            i <= files@.len(),
            stats_views(out@) == scan_spec(
                file_views(files@).subrange(0, i as int),
                allow.deep_view(),
            ),
            forall|t: int| 0 <= t < out@.len() ==> stats_wf((#[trigger] out@[t])@),
        decreases files@.len() - i,
    {
        let ghost fv = file_views(files@);
        let ghost pre = fv.subrange(0, i as int);
        let ghost cur = fv.subrange(0, i + 1);
        proof {
            assert(cur.drop_last() =~= pre);
            assert(cur.last() == fv[i as int]);
            assert(fv[i as int] == files@[i as int]@);
        }
        let e = &files[i];
        if is_csv(e.name.as_str()) && allowed(e.name.as_str(), allow) {
            match &e.content {
                Some(c) => {
                    match parse_record(e.name.as_str(), c.as_str()) {
                        Some(rec) => {
                            let ghost old_out = out@;
                            out.push(rec);
                            proof {
                                assert(stats_views(out@) =~= stats_views(old_out).push(rec@));
                            }
                        },
                        None => {},
                    }
                },
                None => {},
            }
        }
        i = i + 1;
    }
    proof {
        assert(file_views(files@).subrange(0, files@.len() as int) =~= file_views(files@));
    }
    out
}

} // verus!
