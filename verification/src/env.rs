//! Every environment a request can be sent with: the kinds, and where each
//! one was found.
//!
//! Three ecosystems' formats share one selector: `.env` files, Bruno's
//! `environments/*.bru`, and Postman's `*.postman_environment.json`.

use vstd::prelude::*;

use crate::dotenv::{chosen, env_files, EnvFile};
use crate::formats::{format_of_extension, path_extension, Format};
use crate::paths::{file_stem, in_name_order, pairs_sorted, stem_of};
use crate::text::{chars_of, ends_with, ends_with_chars, lower, lower_chars, same, slice, string_of};
use crate::varmap::pair_views;

verus! {

#[derive(Debug, Clone, Copy, PartialEq, Eq, Structural)]
pub enum EnvKind {
    Dotenv,
    Bruno,
    Postman,
}

impl EnvKind {
    pub fn label(self) -> (r: &'static str)
        ensures
            r@ == match self {
                EnvKind::Dotenv => ".env"@,
                EnvKind::Bruno => "Bruno"@,
                EnvKind::Postman => "Postman"@,
            },
    {
        match self {
            EnvKind::Dotenv => ".env",
            EnvKind::Bruno => "Bruno",
            EnvKind::Postman => "Postman",
        }
    }
}

/// One environment on disk: what it is called, the file, and its format.
#[derive(Debug, Clone, PartialEq, Eq)]
pub struct EnvSource {
    pub label: String,
    pub path: String,
    pub kind: EnvKind,
}

/// What every Postman environment export's file name ends with.
pub open spec fn environment_suffix() -> Seq<char> {
    ".postman_environment.json"@
}

/// The label a Postman environment file's name gives it: the name without
/// its ending, which is matched in any case.
pub open spec fn postman_label(name: Seq<char>) -> Option<Seq<char>> {
    if ends_with(lower(name), environment_suffix()) {
        Some(name.take(name.len() - environment_suffix().len()))
    } else {
        None
    }
}

/// Each Postman environment file whose label no file before it has.
pub open spec fn postman_chosen(files: Seq<(Seq<char>, Seq<char>)>) -> Seq<(Seq<char>, Seq<char>)>
    decreases files.len(),
{
    if files.len() == 0 {
        Seq::empty()
    } else {
        let before = postman_chosen(files.drop_last());
        match postman_label(files.last().0) {
            Some(label) => if exists|k: int| 0 <= k < before.len() && (#[trigger] before[k]).0 == label {
                before
            } else {
                before.push((label, files.last().1))
            },
            None => before,
        }
    }
}

/// The `.bru` files of an `environments/` directory, each with its label,
/// the file's stem.
pub open spec fn bruno_found(entries: Seq<(Seq<char>, Seq<char>)>) -> Seq<(Seq<char>, Seq<char>)>
    decreases entries.len(),
{
    if entries.len() == 0 {
        Seq::empty()
    } else {
        let before = bruno_found(entries.drop_last());
        let path = entries.last().1;
        let bru = match path_extension(path) {
            Some(extension) => format_of_extension(extension) == Some(Format::Bru),
            None => false,
        };
        if bru && stem_of(path) is Some {
            before.push((stem_of(path)->0, path))
        } else {
            before
        }
    }
}

/// Bruno's environments: those of the nearest `environments/` directory
/// that holds any, sorted.
pub open spec fn bruno_chosen(levels: Seq<Seq<(Seq<char>, Seq<char>)>>) -> Seq<(Seq<char>, Seq<char>)>
    decreases levels.len(),
{
    if levels.len() == 0 {
        Seq::empty()
    } else if bruno_found(levels[0]).len() > 0 {
        pairs_sorted(bruno_found(levels[0]))
    } else {
        bruno_chosen(levels.drop_first())
    }
}

/// The files of every level, each level in name order, the first level
/// first.
pub open spec fn flat_sorted(levels: Seq<Seq<(Seq<char>, Seq<char>)>>) -> Seq<(Seq<char>, Seq<char>)>
    decreases levels.len(),
{
    if levels.len() == 0 {
        Seq::empty()
    } else {
        flat_sorted(levels.drop_last()) + pairs_sorted(levels.last())
    }
}

pub open spec fn level_views(levels: Seq<Vec<(String, String)>>) -> Seq<Seq<(Seq<char>, Seq<char>)>> {
    levels.map_values(|level: Vec<(String, String)>| pair_views(level@))
}

pub open spec fn source_views(s: Seq<EnvSource>) -> Seq<(Seq<char>, Seq<char>, EnvKind)> {
    s.map_values(|e: EnvSource| (e.label@, e.path@, e.kind))
}

pub open spec fn of_kind(found: Seq<(Seq<char>, Seq<char>)>, kind: EnvKind) -> Seq<(Seq<char>, Seq<char>, EnvKind)> {
    found.map_values(|f: (Seq<char>, Seq<char>)| (f.0, f.1, kind))
}

/// Every environment above a request: `.env` files first, then Bruno's,
/// then Postman's. `levels` holds, for each directory from the request's
/// up to its collection's, the name and path of each file in it; `bruno`
/// the same for the `environments/` directory in each, empty where there
/// is none. Among `.env` files and among Postman's, a label is taken from
/// the deepest directory that has it, each directory read in name order.
pub open spec fn discovered(levels: Seq<Seq<(Seq<char>, Seq<char>)>>, bruno: Seq<Seq<(Seq<char>, Seq<char>)>>) -> Seq<(Seq<char>, Seq<char>, EnvKind)> {
    of_kind(chosen(flat_sorted(levels)), EnvKind::Dotenv)
        + of_kind(bruno_chosen(bruno), EnvKind::Bruno)
        + of_kind(postman_chosen(flat_sorted(levels)), EnvKind::Postman)
}

/// The label a file's name gives it as a Postman environment.
fn postman_label_of(name: &str) -> (r: Option<String>)
    ensures
        match r {
            Some(label) => postman_label(name@) == Some(label@),
            None => postman_label(name@) is None,
        },
{
    proof {
        reveal_strlit(".postman_environment.json");
    }
    let chars = chars_of(name);
    let suffix = chars_of(".postman_environment.json");
    if ends_with_chars(&lower_chars(&chars), &suffix) {
        assert(lower(name@).len() == name@.len());
        Some(string_of(&slice(&chars, 0, chars.len() - suffix.len())))
    } else {
        None
    }
}

fn postman_environments(files: &Vec<(String, String)>) -> (r: Vec<(String, String)>)
    ensures
        pair_views(r@) == postman_chosen(pair_views(files@)),
{
    let ghost all = pair_views(files@);
    let mut out: Vec<(String, String)> = Vec::new();
    let mut i: usize = 0;
    while i < files.len()
        invariant
            i <= files@.len(),
            all == pair_views(files@),
            pair_views(out@) == postman_chosen(all.take(i as int)),
        decreases files@.len() - i,
    {
        assert(all.take(i + 1).drop_last() == all.take(i as int));
        assert(all.take(i + 1).last() == (files@[i as int].0@, files@[i as int].1@));
        let ghost before = pair_views(out@);
        match postman_label_of(files[i].0.as_str()) {
            Some(label) => {
                let mut seen = false;
                let mut k: usize = 0;
                while k < out.len()
                    invariant
                        k <= out@.len(),
                        before == pair_views(out@),
                        seen == exists|j: int| 0 <= j < k && (#[trigger] before[j]).0 == label@,
                    decreases out@.len() - k,
                {
                    assert(before[k as int].0 == out@[k as int].0@);
                    if same(&chars_of(out[k].0.as_str()), &chars_of(label.as_str())) {
                        seen = true;
                    }
                    k += 1;
                }
                if !seen {
                    out.push((label, files[i].1.clone()));
                    assert(pair_views(out@) == before.push((label@, files@[i as int].1@)));
                }
            },
            None => {},
        }
        i += 1;
    }
    assert(all.take(all.len() as int) == all);
    out
}

fn bruno_in(entries: &Vec<(String, String)>) -> (r: Vec<(String, String)>)
    ensures
        pair_views(r@) == bruno_found(pair_views(entries@)),
{
    let ghost all = pair_views(entries@);
    let mut out: Vec<(String, String)> = Vec::new();
    let mut i: usize = 0;
    while i < entries.len()
        invariant
            i <= entries@.len(),
            all == pair_views(entries@),
            pair_views(out@) == bruno_found(all.take(i as int)),
        decreases entries@.len() - i,
    {
        assert(all.take(i + 1).drop_last() == all.take(i as int));
        assert(all.take(i + 1).last() == (entries@[i as int].0@, entries@[i as int].1@));
        let path = &entries[i].1;
        let is_bru = match Format::of(path.as_str()) {
            Some(Format::Bru) => true,
            _ => false,
        };
        if is_bru {
            match file_stem(path.as_str()) {
                Some(stem) => {
                    let ghost before = pair_views(out@);
                    out.push((stem, path.clone()));
                    assert(pair_views(out@) == before.push((stem_of(path@)->0, path@)));
                },
                None => {},
            }
        }
        i += 1;
    }
    assert(all.take(all.len() as int) == all);
    out
}

fn sources(found: Vec<(String, String)>, kind: EnvKind, out: &mut Vec<EnvSource>)
    ensures
        source_views(final(out)@) == source_views(old(out)@) + of_kind(pair_views(found@), kind),
{
    let ghost start = source_views(out@);
    let ghost all = pair_views(found@);
    let mut i: usize = 0;
    while i < found.len()
        invariant
            i <= found@.len(),
            all == pair_views(found@),
            source_views(out@) == start + of_kind(all.take(i as int), kind),
        decreases found@.len() - i,
    {
        let ghost before = source_views(out@);
        out.push(EnvSource { label: found[i].0.clone(), path: found[i].1.clone(), kind });
        assert(of_kind(all.take(i + 1), kind) == of_kind(all.take(i as int), kind).push((found@[i as int].0@, found@[i as int].1@, kind)));
        assert(source_views(out@) == before.push((found@[i as int].0@, found@[i as int].1@, kind)));
        i += 1;
    }
    assert(all.take(all.len() as int) == all);
}

/// Every environment above a request: see [`discovered`].
pub fn discover(levels: &Vec<Vec<(String, String)>>, bruno: &Vec<Vec<(String, String)>>) -> (r: Vec<EnvSource>)
    ensures
        source_views(r@) == discovered(level_views(levels@), level_views(bruno@)),
{
    let ghost lv = level_views(levels@);
    let ghost bv = level_views(bruno@);
    let mut flat: Vec<(String, String)> = Vec::new();
    let mut i: usize = 0;
    while i < levels.len()
        invariant
            i <= levels@.len(),
            lv == level_views(levels@),
            pair_views(flat@) == flat_sorted(lv.take(i as int)),
        decreases levels@.len() - i,
    {
        assert(lv.take(i + 1).drop_last() == lv.take(i as int));
        assert(lv.take(i + 1).last() == pair_views(levels@[i as int]@));
        let sorted = in_name_order(&levels[i]);
        let ghost before = pair_views(flat@);
        let mut k: usize = 0;
        while k < sorted.len()
            invariant
                k <= sorted@.len(),
                pair_views(flat@) == before + pair_views(sorted@).take(k as int),
            decreases sorted@.len() - k,
        {
            let ghost old_flat = pair_views(flat@);
            flat.push((sorted[k].0.clone(), sorted[k].1.clone()));
            assert(pair_views(flat@) == old_flat.push((sorted@[k as int].0@, sorted@[k as int].1@)));
            assert(pair_views(sorted@).take(k + 1) == pair_views(sorted@).take(k as int).push((sorted@[k as int].0@, sorted@[k as int].1@)));
            k += 1;
        }
        assert(pair_views(sorted@).take(sorted@.len() as int) == pair_views(sorted@));
        i += 1;
    }
    assert(lv.take(levels@.len() as int) == lv);
    let dotenv = env_files(&flat);
    assert(flat@.map_values(|f: (String, String)| (f.0@, f.1@)) == pair_views(flat@));
    let mut dot_pairs: Vec<(String, String)> = Vec::new();
    let mut d: usize = 0;
    while d < dotenv.len()
        invariant
            d <= dotenv@.len(),
            pair_views(dot_pairs@) == dotenv@.map_values(|f: EnvFile| (f.label@, f.path@)).take(d as int),
        decreases dotenv@.len() - d,
    {
        dot_pairs.push((dotenv[d].label.clone(), dotenv[d].path.clone()));
        assert(dotenv@.map_values(|f: EnvFile| (f.label@, f.path@)).take(d + 1)
            == dotenv@.map_values(|f: EnvFile| (f.label@, f.path@)).take(d as int).push((dotenv@[d as int].label@, dotenv@[d as int].path@)));
        d += 1;
    }
    assert(dotenv@.map_values(|f: EnvFile| (f.label@, f.path@)).take(dotenv@.len() as int) == dotenv@.map_values(|f: EnvFile| (f.label@, f.path@)));
    let mut bruno_pairs: Vec<(String, String)> = Vec::new();
    let mut j: usize = 0;
    assert(bv.skip(0) == bv);
    while j < bruno.len()
        invariant_except_break
            bruno_pairs@.len() == 0,
        invariant
            j <= bruno@.len(),
            bv == level_views(bruno@),
            bruno_chosen(bv) == bruno_chosen(bv.skip(j as int)),
        ensures
            pair_views(bruno_pairs@) == bruno_chosen(bv),
        decreases bruno@.len() - j,
    {
        let found = bruno_in(&bruno[j]);
        assert(bv.skip(j as int)[0] == pair_views(bruno@[j as int]@));
        if found.len() > 0 {
            bruno_pairs = in_name_order(&found);
            break;
        }
        assert(bv.skip(j as int).drop_first() == bv.skip(j + 1));
        j += 1;
        proof {
            if j == bruno@.len() {
                assert(bv.skip(j as int).len() == 0);
                assert(pair_views(bruno_pairs@) == Seq::<(Seq<char>, Seq<char>)>::empty());
            }
        }
    }
    let ghost bruno_view = pair_views(bruno_pairs@);
    assert(bruno_view == bruno_chosen(bv));
    let postman_pairs = postman_environments(&flat);
    let mut out: Vec<EnvSource> = Vec::new();
    assert(source_views(out@) == Seq::<(Seq<char>, Seq<char>, EnvKind)>::empty());
    sources(dot_pairs, EnvKind::Dotenv, &mut out);
    sources(bruno_pairs, EnvKind::Bruno, &mut out);
    sources(postman_pairs, EnvKind::Postman, &mut out);
    out
}

} // verus!
