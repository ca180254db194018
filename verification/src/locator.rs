//! The library locator: a platform install root expanded to the candidate
//! results directories.
//!
//! A library-manifest text beside the install root may name further library
//! roots: each line's fourth double-quote-delimited field is taken as one,
//! mapped to its `steamapps` subdirectory.  The install root's own
//! `steamapps` subdirectory is always the last candidate.  A missing or
//! malformed manifest simply adds no candidates.

use vstd::prelude::*;

use crate::strutil::find_char_from;
use crate::strutil::first_char_from;
use crate::strutil::lines_of;
use crate::strutil::split_lines;

verus! {

/// The fourth double-quote-delimited field of a manifest line, if the line
/// has at least three double quotes.
pub open spec fn quote_field(l: Seq<char>) -> Option<Seq<char>> {
    match first_char_from(l, '"', 0) {
        None => None,
        Some(q1) => match first_char_from(l, '"', q1 + 1) {
            None => None,
            Some(q2) => match first_char_from(l, '"', q2 + 1) {
                None => None,
                Some(q3) => {
                    let end = match first_char_from(l, '"', q3 + 1) {
                        Some(q4) => q4,
                        None => l.len() as int,
                    };
                    Some(l.subrange(q3 + 1, end))
                },
            },
        },
    }
}

/// The library roots a manifest names, in line order, each mapped to its
/// `steamapps` subdirectory.
pub open spec fn manifest_candidates(ls: Seq<Seq<char>>) -> Seq<Seq<char>>
    decreases ls.len(),
{
    if ls.len() == 0 {
        Seq::empty()
    } else {
        let rest = manifest_candidates(ls.drop_last());
        match quote_field(ls.last()) {
            Some(p) => rest.push(p + "/steamapps"@),
            None => rest,
        }
    }
}

/// The candidate library directories of an install root: the manifest's
/// candidates first, in line order, then the root's own `steamapps`.
pub open spec fn library_paths_spec(install: Seq<char>, manifest: Option<Seq<char>>) -> Seq<
    Seq<char>,
> {
    let from_manifest = match manifest {
        None => Seq::empty(),
        Some(c) => manifest_candidates(lines_of(c)),
    };
    from_manifest.push(install + "/steamapps"@)
}

/// The view of an optional manifest text.
pub open spec fn opt_view(o: Option<String>) -> Option<Seq<char>> {
    match o {
        Some(s) => Some(s@),
        None => None,
    }
}

/// Expands an install root to its candidate library directories, reading
/// extra library roots out of the manifest text when one is given.
pub fn steam_library_paths(install_path: &str, manifest: &Option<String>) -> (out: Vec<String>)
    ensures
        out.deep_view() == library_paths_spec(install_path@, opt_view(*manifest)),
{
    let mut out: Vec<String> = Vec::new();
    match manifest {
        None => {},
        Some(c) => {
            let lines = split_lines(c.as_str());
            let ghost lv = lines.deep_view();
            let mut i: usize = 0;
            proof {
                assert(lv.subrange(0, 0) =~= Seq::<Seq<char>>::empty());
                assert(out.deep_view() =~= manifest_candidates(lv.subrange(0, 0)));
            }
            while i < lines.len()
                invariant
                    i <= lines@.len(),
                    lv == lines.deep_view(),
                    out.deep_view() == manifest_candidates(lv.subrange(0, i as int)),
                decreases lines@.len() - i,
            {
                proof {
                    let pre = lv.subrange(0, i as int);
                    let cur = lv.subrange(0, i + 1);
                    assert(cur.drop_last() =~= pre);
                    assert(cur.last() == lv[i as int]);
                    assert(lines.deep_view()[i as int] == lines@[i as int]@);
                }
                let line: &str = lines[i].as_str();
                let n: usize = line.unicode_len();
                match find_char_from(line, '"', 0) {
                    None => {},
                    Some(q1) => {
                        match find_char_from(line, '"', q1 + 1) {
                            None => {},
                            Some(q2) => {
                                match find_char_from(line, '"', q2 + 1) {
                                    None => {},
                                    Some(q3) => {
                                        let end: usize = match find_char_from(line, '"', q3 + 1) {
                                            Some(q4) => q4,
                                            None => n,
                                        };
                                        let piece = line.substring_char(q3 + 1, end);
                                        let ghost old_out = out.deep_view();
                                        let p = piece.to_owned().concat("/steamapps");
                                        out.push(p);
                                        proof {
                                            assert(out.deep_view() =~= old_out.push(
                                                lv[i as int].subrange(q3 + 1, end as int)
                                                    + "/steamapps"@,
                                            ));
                                        }
                                    },
                                }
                            },
                        }
                    },
                }
                i = i + 1;
            }
            proof {
                assert(lv.subrange(0, lines@.len() as int) =~= lv);
            }
        },
    }
    let ghost old_out = out.deep_view();
    let dflt = install_path.to_owned().concat("/steamapps");
    out.push(dflt);
    proof {
        assert(out.deep_view() =~= old_out.push(install_path@ + "/steamapps"@));
    }
    out
}

/// Maps each candidate library directory to the results directory beneath
/// it, and appends the caller's extra probe directories unchanged.
pub fn candidate_stats_dirs(roots: &Vec<String>, extra: &Vec<String>) -> (out: Vec<String>)
    ensures
        out.deep_view() == roots.deep_view().map_values(
            |r: Seq<char>| r + "/common/FPSAimTrainer/FPSAimTrainer/stats"@,
        ) + extra.deep_view(),
{
    let ghost target = roots.deep_view().map_values(
        |r: Seq<char>| r + "/common/FPSAimTrainer/FPSAimTrainer/stats"@,
    );
    let mut out: Vec<String> = Vec::new();
    let mut i: usize = 0;
    proof {
        assert(out.deep_view() =~= target.subrange(0, 0));
    }
    while i < roots.len()
        invariant
            i <= roots@.len(),
            target == roots.deep_view().map_values(
                |r: Seq<char>| r + "/common/FPSAimTrainer/FPSAimTrainer/stats"@,
            ),
            target.len() == roots@.len(),
            out.deep_view() == target.subrange(0, i as int),
        decreases roots@.len() - i,
    {
        let ghost old_out = out.deep_view();
        proof {
            assert(roots.deep_view()[i as int] == roots@[i as int]@);
        }
        let p = roots[i].as_str().to_owned().concat("/common/FPSAimTrainer/FPSAimTrainer/stats");
        out.push(p);
        proof {
            assert(target[i as int] == roots.deep_view()[i as int]
                + "/common/FPSAimTrainer/FPSAimTrainer/stats"@);
            assert(out.deep_view() =~= old_out.push(target[i as int]));
            assert(out.deep_view() =~= target.subrange(0, i + 1));
        }
        i = i + 1;
    }
    let mut j: usize = 0;
    while j < extra.len()
        invariant
            j <= extra@.len(),
            target == roots.deep_view().map_values(
                |r: Seq<char>| r + "/common/FPSAimTrainer/FPSAimTrainer/stats"@,
            ),
            extra.deep_view().len() == extra@.len(),
            out.deep_view() == target + extra.deep_view().subrange(0, j as int),
        decreases extra@.len() - j,
    {
        let ghost old_out = out.deep_view();
        proof {
            assert(extra.deep_view()[j as int] == extra@[j as int]@);
        }
        let p = extra[j].clone();
        out.push(p);
        proof {
            assert(out.deep_view() =~= old_out.push(extra.deep_view()[j as int]));
            assert(out.deep_view() =~= target + extra.deep_view().subrange(0, j + 1));
        }
        j = j + 1;
    }
    proof {
        assert(extra.deep_view().subrange(0, extra@.len() as int) =~= extra.deep_view());
    }
    out
}

/// The two fixed home-relative library directories probed on the
/// home-directory platform, in probe order.
pub fn home_steam_roots(home: &str) -> (out: Vec<String>)
    ensures
        out.deep_view() == seq![
            home@ + "/.local/share/Steam/steamapps"@,
            home@ + "/.steam/steam/steamapps"@,
        ],
{
    let mut out: Vec<String> = Vec::new();
    out.push(home.to_owned().concat("/.local/share/Steam/steamapps"));
    out.push(home.to_owned().concat("/.steam/steam/steamapps"));
    proof {
        assert(out.deep_view() =~= seq![
            home@ + "/.local/share/Steam/steamapps"@,
            home@ + "/.steam/steam/steamapps"@,
        ]);
    }
    out
}

/// The path reported on the home-directory platform when no candidate
/// directory exists: the last-attempted results directory.
pub fn home_fallback_path(home: &str) -> (s: String)
    ensures
        s@ == home@ + "/.steam/steam/steamapps/common/FPSAimTrainer/FPSAimTrainer/stats"@,
{
    home.to_owned().concat("/.steam/steam/steamapps/common/FPSAimTrainer/FPSAimTrainer/stats")
}

} // verus!
