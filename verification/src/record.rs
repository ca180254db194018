//! The record parser: one session-result file to one typed record.
//!
//! The filename carries the scenario and the date as the first and third of
//! its ` - `-separated segments, with a trailing ` Stats.csv` suffix
//! stripped from the date.  The body is `Key: Value` lines; a line with
//! other than exactly one colon is ignored, unknown keys are ignored, the
//! last occurrence of a key wins, and malformed numeric values degrade to
//! zero.  The sensitivity pair is present only when the `Sens Scale` field
//! is exactly `cm/360`.

use vstd::prelude::*;

use crate::numparse::dec_of;
use crate::numparse::dec_wf;
use crate::numparse::dec_zero;
use crate::numparse::decimal_zero;
use crate::numparse::int32_of;
use crate::numparse::parse_decimal;
use crate::numparse::parse_i32;
use crate::numparse::Decimal;
use crate::strutil::count_char;
use crate::strutil::first_char_from;
use crate::strutil::lines_of;
use crate::strutil::split_lines;
use crate::strutil::str_eq;
use crate::strutil::strip_commas;
use crate::strutil::strip_commas_str;
use crate::strutil::trim_seq;
use crate::strutil::trim_str;
use crate::strutil::range_eq;

verus! {

/// One parsed session record.
#[derive(Clone, Debug, PartialEq)]
pub struct StatsResult {
    pub scenario_name: String,
    pub score: Decimal,
    pub kills: i32,
    pub hits: i32,
    pub misses: i32,
    pub fov_scale: String,
    pub fov: Decimal,
    pub resolution: String,
    pub avg_fps: Decimal,
    pub sens_cm: Option<(Decimal, Decimal)>,
    pub date: String,
}

/// The mathematical value of a [`StatsResult`].
pub struct StatsView {
    pub scenario_name: Seq<char>,
    pub score: Decimal,
    pub kills: i32,
    pub hits: i32,
    pub misses: i32,
    pub fov_scale: Seq<char>,
    pub fov: Decimal,
    pub resolution: Seq<char>,
    pub avg_fps: Decimal,
    pub sens_cm: Option<(Decimal, Decimal)>,
    pub date: Seq<char>,
}

impl View for StatsResult {
    type V = StatsView;

    open spec fn view(&self) -> StatsView {
        StatsView {
            scenario_name: self.scenario_name@,
            score: self.score,
            kills: self.kills,
            hits: self.hits,
            misses: self.misses,
            fov_scale: self.fov_scale@,
            fov: self.fov,
            resolution: self.resolution@,
            avg_fps: self.avg_fps,
            sens_cm: self.sens_cm,
            date: self.date@,
        }
    }
}

/// Every decimal a record carries is bounded, so records can be compared.
pub open spec fn stats_wf(v: StatsView) -> bool {
    &&& dec_wf(v.score)
    &&& dec_wf(v.fov)
    &&& dec_wf(v.avg_fps)
    &&& match v.sens_cm {
        Some(p) => dec_wf(p.0) && dec_wf(p.1),
        None => true,
    }
}

/// Whether the three-character segment separator ` - ` stands at `i`.
pub open spec fn sep_at(s: Seq<char>, i: int) -> bool {
    0 <= i && i + 3 <= s.len() && s[i] == ' ' && s[i + 1] == '-' && s[i + 2] == ' '
}

/// Index of the first segment separator at or after `from`, if any.
pub open spec fn first_sep_from(s: Seq<char>, from: int) -> Option<int>
    decreases s.len() - from,
{
    if from < 0 || from + 3 > s.len() {
        None
    } else if sep_at(s, from) {
        Some(from)
    } else {
        first_sep_from(s, from + 1)
    }
}

proof fn lemma_first_sep_from_props(s: Seq<char>, from: int)
    requires
        0 <= from,
    ensures
        match first_sep_from(s, from) {
            Some(i) => from <= i && sep_at(s, i) && (forall|j: int|
                from <= j < i ==> !sep_at(s, j)),
            None => forall|j: int| from <= j ==> !sep_at(s, j),
        },
    decreases s.len() - from,
{
    if from + 3 > s.len() {
    } else if sep_at(s, from) {
    } else {
        lemma_first_sep_from_props(s, from + 1);
    }
}

/// Exec search for the first segment separator at or after `from`.
fn find_sep(s: &str, from: usize) -> (r: Option<usize>)
    ensures
        match r {
            Some(i) => first_sep_from(s@, from as int) == Some(i as int) && from <= i && i + 3
                <= s@.len(),
            None => first_sep_from(s@, from as int) is None,
        },
{
    let n: usize = s.unicode_len();
    if n < 3 {
        return None;
    }
    let mut i: usize = from;
    while i <= n - 3
        invariant
            from <= i,
            3 <= n == s@.len(),
            first_sep_from(s@, from as int) == first_sep_from(s@, i as int),
        decreases n - i,
    {
        if s.get_char(i) == ' ' && s.get_char(i + 1) == '-' && s.get_char(i + 2) == ' ' {
            return Some(i);
        }
        i = i + 1;
    }
    None
}

/// The scenario segment and the raw third segment of a record filename, if
/// the name has at least three ` - `-separated segments.
pub open spec fn filename_parts(f: Seq<char>) -> Option<(Seq<char>, Seq<char>)> {
    match first_sep_from(f, 0) {
        None => None,
        Some(i1) => match first_sep_from(f, i1 + 3) {
            None => None,
            Some(i2) => {
                let end = match first_sep_from(f, i2 + 3) {
                    Some(i3) => i3,
                    None => f.len() as int,
                };
                Some((f.subrange(0, i1), f.subrange(i2 + 3, end)))
            },
        },
    }
}

/// The third filename segment with one trailing ` Stats.csv` (ten
/// characters) removed, when it carries that suffix.
pub open spec fn strip_stats_suffix(t: Seq<char>) -> Seq<char> {
    if t.len() >= 10 && t.subrange(t.len() - 10, t.len() as int) == " Stats.csv"@ {
        t.subrange(0, t.len() - 10)
    } else {
        t
    }
}

/// The trimmed value of a `Key: Value` line whose trimmed key is `key`;
/// lines with other than exactly one colon carry no value.
pub open spec fn line_value(l: Seq<char>, key: Seq<char>) -> Option<Seq<char>> {
    if count_char(l, ':') == 1 {
        match first_char_from(l, ':', 0) {
            Some(i) => if trim_seq(l.subrange(0, i)) == key {
                Some(trim_seq(l.subrange(i + 1, l.len() as int)))
            } else {
                None
            },
            None => None,
        }
    } else {
        None
    }
}

/// The value of the last line carrying `key`, if any: later lines win.
pub open spec fn last_value(ls: Seq<Seq<char>>, key: Seq<char>) -> Option<Seq<char>>
    decreases ls.len(),
{
    if ls.len() == 0 {
        None
    } else {
        match line_value(ls.last(), key) {
            Some(v) => Some(v),
            None => last_value(ls.drop_last(), key),
        }
    }
}

/// A decimal field: leading commas stripped, malformed or missing is zero.
pub open spec fn field_dec(ls: Seq<Seq<char>>, key: Seq<char>) -> Decimal {
    match last_value(ls, key) {
        Some(v) => dec_of(strip_commas(v)),
        None => dec_zero(),
    }
}

/// An integer field: leading commas stripped, malformed or missing is zero.
pub open spec fn field_i32(ls: Seq<Seq<char>>, key: Seq<char>) -> i32 {
    match last_value(ls, key) {
        Some(v) => int32_of(strip_commas(v)),
        None => 0,
    }
}

/// A string field: the trimmed value as it stands, missing is empty.
/// Leading commas are stripped from numeric values only, never here.
pub open spec fn field_str(ls: Seq<Seq<char>>, key: Seq<char>) -> Seq<char> {
    match last_value(ls, key) {
        Some(v) => v,
        None => Seq::empty(),
    }
}

/// The record a filename and a file content parse to, if the filename has
/// three segments.
pub open spec fn parse_spec(fname: Seq<char>, content: Seq<char>) -> Option<StatsView> {
    match filename_parts(fname) {
        None => None,
        Some(parts) => {
            let ls = lines_of(content);
            Some(
                StatsView {
                    scenario_name: parts.0,
                    score: field_dec(ls, "Score"@),
                    kills: field_i32(ls, "Kills"@),
                    hits: field_i32(ls, "Hit Count"@),
                    misses: field_i32(ls, "Miss Count"@),
                    fov_scale: field_str(ls, "FOVScale"@),
                    fov: field_dec(ls, "FOV"@),
                    resolution: field_str(ls, "Resolution"@),
                    avg_fps: field_dec(ls, "Avg FPS"@),
                    sens_cm: if field_str(ls, "Sens Scale"@) == "cm/360"@ {
                        Some((field_dec(ls, "Horiz Sens"@), field_dec(ls, "Vert Sens"@)))
                    } else {
                        None
                    },
                    date: strip_stats_suffix(parts.1),
                },
            )
        },
    }
}

/// The segment separator as a sequence.
pub open spec fn sep_seq() -> Seq<char> {
    seq![' ', '-', ' ']
}

/// No segment separator occurs anywhere in `s`.
pub open spec fn sep_free(s: Seq<char>) -> bool {
    forall|i: int| !sep_at(s, i)
}

proof fn lemma_first_sep_exact(s: Seq<char>, from: int, i: int)
    requires
        0 <= from <= i,
        sep_at(s, i),
        forall|j: int| from <= j < i ==> !sep_at(s, j),
    ensures
        first_sep_from(s, from) == Some(i),
    decreases i - from,
{
    if from < i {
        lemma_first_sep_exact(s, from + 1, i);
    }
}

/// Parsing a well-formed three-segment filename — a scenario, free-form
/// metadata and a date, joined by ` - ` and closed by ` Stats.csv` —
/// yields the scenario and the date, for any content.  The segments must
/// not themselves contain or recreate the separator at a boundary.
pub proof fn lemma_well_formed_filename(
    a: Seq<char>,
    b: Seq<char>,
    c: Seq<char>,
    content: Seq<char>,
)
    requires
        sep_free(a),
        sep_free(b),
        sep_free(c + " Stats.csv"@),
        !(a.len() >= 2 && a[a.len() - 2] == ' ' && a[a.len() - 1] == '-'),
        !(b.len() >= 2 && b[0] == '-' && b[1] == ' '),
        !(b.len() >= 2 && b[b.len() - 2] == ' ' && b[b.len() - 1] == '-'),
        !((c + " Stats.csv"@).len() >= 2 && (c + " Stats.csv"@)[0] == '-' && (c
            + " Stats.csv"@)[1] == ' '),
    ensures
        ({
            let f = a + sep_seq() + b + sep_seq() + (c + " Stats.csv"@);
            parse_spec(f, content) matches Some(v) && v.scenario_name == a && v.date == c
        }),
{
    reveal_strlit(" Stats.csv");
    let t = c + " Stats.csv"@;
    let f = a + sep_seq() + b + sep_seq() + t;
    let al = a.len() as int;
    let bl = b.len() as int;
    let tl = t.len() as int;
    assert(f.len() == al + 3 + bl + 3 + tl);
    assert(" Stats.csv"@.len() == 10);
    assert forall|i: int| 0 <= i < al implies f[i] == a[i] by {}
    assert(f[al] == ' ' && f[al + 1] == '-' && f[al + 2] == ' ');
    assert forall|i: int| 0 <= i < bl implies f[al + 3 + i] == b[i] by {}
    assert(f[al + 3 + bl] == ' ' && f[al + 3 + bl + 1] == '-' && f[al + 3 + bl + 2] == ' ');
    assert forall|i: int| 0 <= i < tl implies f[al + 3 + bl + 3 + i] == t[i] by {}
    // the first separator stands exactly at the end of the scenario
    assert(sep_at(f, al));
    assert forall|j: int| 0 <= j < al implies !sep_at(f, j) by {
        if j + 3 <= al {
            assert(!sep_at(a, j));
        } else if j == al - 2 {
            assert(f[j] == a[al - 2] && f[j + 1] == a[al - 1]);
        } else {
            assert(f[j + 1] == ' ');
        }
    }
    lemma_first_sep_exact(f, 0, al);
    // the second stands exactly at the end of the metadata segment
    let i2 = al + 3 + bl;
    assert(sep_at(f, i2));
    assert forall|j: int| al + 3 <= j < i2 implies !sep_at(f, j) by {
        let r = j - (al + 3);
        if r + 3 <= bl {
            assert(f[j] == b[r] && f[j + 1] == b[r + 1] && f[j + 2] == b[r + 2]);
            assert(!sep_at(b, r));
        } else if r == bl - 2 {
            assert(f[j] == b[bl - 2] && f[j + 1] == b[bl - 1]);
        } else {
            assert(r == bl - 1);
            assert(f[j + 1] == ' ');
        }
    }
    lemma_first_sep_exact(f, al + 3, i2);
    // no separator stands in the date segment
    let ts = i2 + 3;
    lemma_first_sep_from_props(f, ts);
    match first_sep_from(f, ts) {
        Some(i3) => {
            assert(sep_at(f, i3));
            let r = i3 - ts;
            assert(f[i3] == t[r] && f[i3 + 1] == t[r + 1] && f[i3 + 2] == t[r + 2]);
            assert(sep_at(t, r));
            assert(false);
        },
        None => {},
    }
    assert(filename_parts(f) matches Some(p) && p.0 == f.subrange(0, al) && p.1 == f.subrange(
        ts,
        f.len() as int,
    ));
    assert(f.subrange(0, al) =~= a);
    let third = f.subrange(ts, f.len() as int);
    assert(third =~= t);
    assert(t.subrange(tl - 10, tl) =~= " Stats.csv"@);
    assert(t.subrange(0, tl - 10) =~= c);
    assert(strip_stats_suffix(t) == c);
}

/// A filename in which no two segment separators stand apart — fewer than
/// three ` - `-separated segments — parses to no record, whatever the
/// content.
pub proof fn lemma_too_few_segments(f: Seq<char>, content: Seq<char>)
    requires
        forall|i: int, j: int| #[trigger] sep_at(f, i) && #[trigger] sep_at(f, j) ==> j < i + 3,
    ensures
        parse_spec(f, content) is None,
{
    lemma_first_sep_from_props(f, 0);
    match first_sep_from(f, 0) {
        None => {},
        Some(i1) => {
            lemma_first_sep_from_props(f, i1 + 3);
            match first_sep_from(f, i1 + 3) {
                None => {},
                Some(i2) => {
                    assert(sep_at(f, i1));
                    assert(sep_at(f, i2));
                    assert(false);
                },
            }
        },
    }
}

/// A numeric field value with a leading comma parses to the same number,
/// decimal or integer, as the value without it.
pub proof fn lemma_leading_comma(v: Seq<char>)
    ensures
        dec_of(strip_commas(seq![','] + v)) == dec_of(strip_commas(v)),
        int32_of(strip_commas(seq![','] + v)) == int32_of(strip_commas(v)),
{
    crate::strutil::lemma_strip_leading_comma(v);
}

/// A line with other than exactly one colon is ignored: dropping it from
/// the content changes no field of the record.
pub proof fn lemma_bad_line_ignored(
    ls1: Seq<Seq<char>>,
    bad: Seq<char>,
    ls2: Seq<Seq<char>>,
    key: Seq<char>,
)
    requires
        count_char(bad, ':') != 1,
    ensures
        last_value(ls1 + seq![bad] + ls2, key) == last_value(ls1 + ls2, key),
    decreases ls2.len(),
{
    if ls2.len() == 0 {
        assert(ls1 + seq![bad] + ls2 =~= ls1.push(bad));
        assert(ls1 + ls2 =~= ls1);
        assert(ls1.push(bad).last() == bad);
        assert(line_value(bad, key) is None);
        assert(ls1.push(bad).drop_last() =~= ls1);
    } else {
        let l = ls2.last();
        assert((ls1 + seq![bad] + ls2).last() == l);
        assert((ls1 + seq![bad] + ls2).drop_last() =~= ls1 + seq![bad] + ls2.drop_last());
        assert((ls1 + ls2).last() == l);
        assert((ls1 + ls2).drop_last() =~= ls1 + ls2.drop_last());
        lemma_bad_line_ignored(ls1, bad, ls2.drop_last(), key);
    }
}

/// The recognized field keys.
#[derive(Clone, Copy, Debug, PartialEq, Eq, Structural)]
pub enum FieldKey {
    Score,
    Kills,
    Hits,
    Misses,
    FovScale,
    Fov,
    Resolution,
    AvgFps,
    SensScale,
    HorizSens,
    VertSens,
}

/// The literal key a [`FieldKey`] stands for.
pub open spec fn key_lit(k: FieldKey) -> Seq<char> {
    match k {
        FieldKey::Score => "Score"@,
        FieldKey::Kills => "Kills"@,
        FieldKey::Hits => "Hit Count"@,
        FieldKey::Misses => "Miss Count"@,
        FieldKey::FovScale => "FOVScale"@,
        FieldKey::Fov => "FOV"@,
        FieldKey::Resolution => "Resolution"@,
        FieldKey::AvgFps => "Avg FPS"@,
        FieldKey::SensScale => "Sens Scale"@,
        FieldKey::HorizSens => "Horiz Sens"@,
        FieldKey::VertSens => "Vert Sens"@,
    }
}

/// The recognized keys are pairwise distinct literals.
proof fn lemma_keys_distinct()
    ensures
        forall|k1: FieldKey, k2: FieldKey|
            k1 != k2 ==> #[trigger] key_lit(k1) != #[trigger] key_lit(k2),
{
    reveal_strlit("Score");
    reveal_strlit("Kills");
    reveal_strlit("Hit Count");
    reveal_strlit("Miss Count");
    reveal_strlit("FOVScale");
    reveal_strlit("FOV");
    reveal_strlit("Resolution");
    reveal_strlit("Avg FPS");
    reveal_strlit("Sens Scale");
    reveal_strlit("Horiz Sens");
    reveal_strlit("Vert Sens");
    assert("Score"@.len() == 5);
    assert("Kills"@.len() == 5);
    assert("Hit Count"@.len() == 9);
    assert("Miss Count"@.len() == 10);
    assert("FOVScale"@.len() == 8);
    assert("FOV"@.len() == 3);
    assert("Resolution"@.len() == 10);
    assert("Avg FPS"@.len() == 7);
    assert("Sens Scale"@.len() == 10);
    assert("Horiz Sens"@.len() == 10);
    assert("Vert Sens"@.len() == 9);
    assert("Score"@[0] != "Kills"@[0]);
    assert("Hit Count"@[0] != "Vert Sens"@[0]);
    assert("Miss Count"@[0] != "Resolution"@[0]);
    assert("Miss Count"@[0] != "Sens Scale"@[0]);
    assert("Miss Count"@[0] != "Horiz Sens"@[0]);
    assert("Resolution"@[0] != "Sens Scale"@[0]);
    assert("Resolution"@[0] != "Horiz Sens"@[0]);
    assert("Sens Scale"@[0] != "Horiz Sens"@[0]);
}

/// Splits one line into its recognized key and trimmed value, if it has
/// exactly one colon and a recognized key.
fn line_field(line: &str) -> (r: Option<(FieldKey, String)>)
    ensures
        match r {
            Some(kv) => line_value(line@, key_lit(kv.0)) == Some(kv.1@) && (forall|k2: FieldKey|
                k2 != kv.0 ==> #[trigger] line_value(line@, key_lit(k2)) is None),
            None => forall|k2: FieldKey| #[trigger] line_value(line@, key_lit(k2)) is None,
        },
{
    proof {
        reveal_strlit("Score");
        reveal_strlit("Kills");
        reveal_strlit("Hit Count");
        reveal_strlit("Miss Count");
        reveal_strlit("FOVScale");
        reveal_strlit("FOV");
        reveal_strlit("Resolution");
        reveal_strlit("Avg FPS");
        reveal_strlit("Sens Scale");
        reveal_strlit("Horiz Sens");
        reveal_strlit("Vert Sens");
        lemma_keys_distinct();
    }
    let n: usize = line.unicode_len();
    let mut cnt: usize = 0;
    let mut ci: usize = 0;
    let mut i: usize = 0;
    proof {
        assert(line@.subrange(0, 0) =~= Seq::<char>::empty());
    }
    while i < n
        invariant
            i <= n,
            n == line@.len(),
            cnt as int == count_char(line@.subrange(0, i as int), ':'),
            cnt <= i,
            cnt > 0 ==> first_char_from(line@, ':', 0) == Some(ci as int) && ci < i,
            cnt == 0 ==> first_char_from(line@, ':', 0) == first_char_from(line@, ':', i as int),
        decreases n - i,
    {
        let c = line.get_char(i);
        proof {
            let pre = line@.subrange(0, i as int);
            let cur = line@.subrange(0, i + 1);
            assert(cur.drop_last() =~= pre);
            assert(cur.last() == line@[i as int]);
        }
        if c == ':' {
            if cnt == 0 {
                ci = i;
            }
            cnt = cnt + 1;
        }
        i = i + 1;
    }
    proof {
        assert(line@.subrange(0, n as int) =~= line@);
    }
    if cnt != 1 {
        return None;
    }
    let key_part = line.substring_char(0, ci);
    let tk = trim_str(key_part);
    let val_part = line.substring_char(ci + 1, n);
    let tv = trim_str(val_part);
    proof {
        assert(val_part@ == line@.subrange(ci + 1, line@.len() as int));
    }
    let v = tv.to_owned();
    if str_eq(tk, "Score") {
        return Some((FieldKey::Score, v));
    }
    if str_eq(tk, "Kills") {
        return Some((FieldKey::Kills, v));
    }
    if str_eq(tk, "Hit Count") {
        return Some((FieldKey::Hits, v));
    }
    if str_eq(tk, "Miss Count") {
        return Some((FieldKey::Misses, v));
    }
    if str_eq(tk, "FOVScale") {
        return Some((FieldKey::FovScale, v));
    }
    if str_eq(tk, "FOV") {
        return Some((FieldKey::Fov, v));
    }
    if str_eq(tk, "Resolution") {
        return Some((FieldKey::Resolution, v));
    }
    if str_eq(tk, "Avg FPS") {
        return Some((FieldKey::AvgFps, v));
    }
    if str_eq(tk, "Sens Scale") {
        return Some((FieldKey::SensScale, v));
    }
    if str_eq(tk, "Horiz Sens") {
        return Some((FieldKey::HorizSens, v));
    }
    if str_eq(tk, "Vert Sens") {
        return Some((FieldKey::VertSens, v));
    }
    None
}

/// Parses a field value as a decimal after comma stripping.
fn parse_dec_field(v: &str) -> (d: Decimal)
    ensures
        d == dec_of(strip_commas(v@)),
        dec_wf(d),
{
    let t = strip_commas_str(v);
    parse_decimal(t)
}

/// Parses a field value as an integer after comma stripping.
fn parse_i32_field(v: &str) -> (r: i32)
    ensures
        r == int32_of(strip_commas(v@)),
{
    let t = strip_commas_str(v);
    parse_i32(t)
}

/// Parses one record file: the filename gives the scenario and the date,
/// the content gives the fields, later lines winning and malformed values
/// degrading to zero.  A filename without three segments gives no record;
/// the sensitivity pair is present exactly when the `Sens Scale` field is
/// `cm/360`.
pub fn parse_record(filename: &str, content: &str) -> (r: Option<StatsResult>)
    ensures
        r is Some <==> parse_spec(filename@, content@) is Some,
        parse_spec(filename@, content@) matches Some(v) ==> r matches Some(rec) && rec@ == v
            && stats_wf(rec@),
        r matches Some(rec) ==> (rec.sens_cm is Some <==> field_str(
            lines_of(content@),
            "Sens Scale"@,
        ) == "cm/360"@),
{
    let n: usize = filename.unicode_len();
    let i1 = match find_sep(filename, 0) {
        Some(i) => i,
        None => {
            return None;
        },
    };
    let i2 = match find_sep(filename, i1 + 3) {
        Some(i) => i,
        None => {
            return None;
        },
    };
    let end3 = match find_sep(filename, i2 + 3) {
        Some(i3) => i3,
        None => n,
    };
    let scenario = filename.substring_char(0, i1).to_owned();
    let tstart = i2 + 3;
    let ghost third = filename@.subrange(tstart as int, end3 as int);
    let date = if end3 - tstart >= 10 && range_eq(filename, end3 - 10, end3, " Stats.csv") {
        proof {
            assert(third.subrange(third.len() - 10, third.len() as int) =~= filename@.subrange(
                end3 - 10,
                end3 as int,
            ));
            assert(third.subrange(0, third.len() - 10) =~= filename@.subrange(
                tstart as int,
                end3 - 10,
            ));
        }
        filename.substring_char(tstart, end3 - 10).to_owned()
    } else {
        proof {
            if third.len() >= 10 {
                assert(third.subrange(third.len() - 10, third.len() as int) =~= filename@.subrange(
                    end3 - 10,
                    end3 as int,
                ));
            }
        }
        filename.substring_char(tstart, end3).to_owned()
    };
    proof {
        assert(date@ == strip_stats_suffix(third));
    }
    let lines = split_lines(content);
    let ghost lv = lines.deep_view();
    let mut score: Decimal = decimal_zero();
    let mut kills: i32 = 0;
    let mut hits: i32 = 0;
    let mut misses: i32 = 0;
    let mut fov_scale: String = String::new();
    let mut fov: Decimal = decimal_zero();
    let mut resolution: String = String::new();
    let mut avg_fps: Decimal = decimal_zero();
    let mut sens_scale: String = String::new();
    let mut horiz: Decimal = decimal_zero();
    let mut vert: Decimal = decimal_zero();
    let mut idx: usize = 0;
    proof {
        assert(lv.subrange(0, 0) =~= Seq::<Seq<char>>::empty());
    }
    while idx < lines.len()
        invariant
            idx <= lines.len(),
            lv == lines.deep_view(),
            lv == lines_of(content@),
            score == field_dec(lv.subrange(0, idx as int), "Score"@),
            kills == field_i32(lv.subrange(0, idx as int), "Kills"@),
            hits == field_i32(lv.subrange(0, idx as int), "Hit Count"@),
            misses == field_i32(lv.subrange(0, idx as int), "Miss Count"@),
            fov_scale@ == field_str(lv.subrange(0, idx as int), "FOVScale"@),
            fov == field_dec(lv.subrange(0, idx as int), "FOV"@),
            resolution@ == field_str(lv.subrange(0, idx as int), "Resolution"@),
            avg_fps == field_dec(lv.subrange(0, idx as int), "Avg FPS"@),
            sens_scale@ == field_str(lv.subrange(0, idx as int), "Sens Scale"@),
            horiz == field_dec(lv.subrange(0, idx as int), "Horiz Sens"@),
            vert == field_dec(lv.subrange(0, idx as int), "Vert Sens"@),
            dec_wf(score) && dec_wf(fov) && dec_wf(avg_fps) && dec_wf(horiz) && dec_wf(vert),
        decreases lines.len() - idx,
    {
        let lf = line_field(lines[idx].as_str());
        proof {
            assert(lines.deep_view()[idx as int] == lines@[idx as int]@);
            let pre = lv.subrange(0, idx as int);
            let cur = lv.subrange(0, idx + 1);
            assert(cur.drop_last() =~= pre);
            assert(cur.last() == lv[idx as int]);
            let l = lv[idx as int];
            assert(line_value(l, key_lit(FieldKey::Score)) == line_value(l, "Score"@));
            assert(line_value(l, key_lit(FieldKey::Kills)) == line_value(l, "Kills"@));
            assert(line_value(l, key_lit(FieldKey::Hits)) == line_value(l, "Hit Count"@));
            assert(line_value(l, key_lit(FieldKey::Misses)) == line_value(l, "Miss Count"@));
            assert(line_value(l, key_lit(FieldKey::FovScale)) == line_value(l, "FOVScale"@));
            assert(line_value(l, key_lit(FieldKey::Fov)) == line_value(l, "FOV"@));
            assert(line_value(l, key_lit(FieldKey::Resolution)) == line_value(l, "Resolution"@));
            assert(line_value(l, key_lit(FieldKey::AvgFps)) == line_value(l, "Avg FPS"@));
            assert(line_value(l, key_lit(FieldKey::SensScale)) == line_value(l, "Sens Scale"@));
            assert(line_value(l, key_lit(FieldKey::HorizSens)) == line_value(l, "Horiz Sens"@));
            assert(line_value(l, key_lit(FieldKey::VertSens)) == line_value(l, "Vert Sens"@));
        }
        match lf {
            None => {},
            Some((k, v)) => {
                match k {
                    FieldKey::Score => {
                        score = parse_dec_field(v.as_str());
                    },
                    FieldKey::Kills => {
                        kills = parse_i32_field(v.as_str());
                    },
                    FieldKey::Hits => {
                        hits = parse_i32_field(v.as_str());
                    },
                    FieldKey::Misses => {
                        misses = parse_i32_field(v.as_str());
                    },
                    FieldKey::FovScale => {
                        fov_scale = v;
                    },
                    FieldKey::Fov => {
                        fov = parse_dec_field(v.as_str());
                    },
                    FieldKey::Resolution => {
                        resolution = v;
                    },
                    FieldKey::AvgFps => {
                        avg_fps = parse_dec_field(v.as_str());
                    },
                    FieldKey::SensScale => {
                        sens_scale = v;
                    },
                    FieldKey::HorizSens => {
                        horiz = parse_dec_field(v.as_str());
                    },
                    FieldKey::VertSens => {
                        vert = parse_dec_field(v.as_str());
                    },
                }
            },
        }
        idx = idx + 1;
    }
    proof {
        assert(lv.subrange(0, lines@.len() as int) =~= lv);
    }
    let sens_cm: Option<(Decimal, Decimal)> = if str_eq(sens_scale.as_str(), "cm/360") {
        Some((horiz, vert))
    } else {
        None
    };
    Some(
        StatsResult {
            scenario_name: scenario,
            score,
            kills,
            hits,
            misses,
            fov_scale,
            fov,
            resolution,
            avg_fps,
            sens_cm,
            date,
        },
    )
}

} // verus!
