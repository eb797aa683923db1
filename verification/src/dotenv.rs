//! `.env` files.

use vstd::prelude::*;

use crate::text::{chars_of, lines, lines_of, slice, split_once, split_once_chars, starts_with, starts_with_chars, ends_with, ends_with_chars, string_of, trim, trim_chars, views};
use crate::varmap::{insert_all, pair_views, Vars};

verus! {

#[derive(Debug, Clone, PartialEq, Eq)]
pub struct EnvFile {
    /// `.env` is "default"; `.env.staging` is "staging".
    pub label: String,
    pub path: String,
}

/// A value wrapped in matching quotes, double or single, without them.
pub open spec fn unquoted(value: Seq<char>) -> Seq<char> {
    if value.len() >= 2 && value[0] == '"' && value.last() == '"' {
        value.subrange(1, value.len() - 1)
    } else if value.len() >= 2 && value[0] == '\'' && value.last() == '\'' {
        value.subrange(1, value.len() - 1)
    } else {
        value
    }
}

/// The pair a line sets, if it sets one: `KEY=VALUE`, both trimmed and the
/// value unquoted. Blank lines, `#` comments, lines without `=` and an empty
/// key set nothing.
pub open spec fn env_pair(raw: Seq<char>) -> Option<(Seq<char>, Seq<char>)> {
    let line = trim(raw);
    if line.len() == 0 || starts_with(line, "#"@) {
        None
    } else {
        match split_once(line, '=') {
            None => None,
            Some((key, value)) => if trim(key).len() == 0 {
                None
            } else {
                Some((trim(key), unquoted(trim(value))))
            },
        }
    }
}

/// The pairs the lines set, in order.
pub open spec fn env_pairs(lines: Seq<Seq<char>>) -> Seq<(Seq<char>, Seq<char>)>
    decreases lines.len(),
{
    if lines.len() == 0 {
        Seq::empty()
    } else {
        match env_pair(lines.last()) {
            Some(pair) => env_pairs(lines.drop_last()).push(pair),
            None => env_pairs(lines.drop_last()),
        }
    }
}

fn unquote(value: &Vec<char>) -> (r: Vec<char>)
    ensures
        r@ == unquoted(value@),
{
    let n = value.len();
    if n >= 2 && value[0] == '"' && value[n - 1] == '"' {
        slice(value, 1, n - 1)
    } else if n >= 2 && value[0] == '\'' && value[n - 1] == '\'' {
        slice(value, 1, n - 1)
    } else {
        slice(value, 0, n)
    }
}

/// `KEY=VALUE` lines. `#` starts a comment, and a value wrapped in matching
/// quotes loses them, as every other reader of these files does. A key set
/// twice keeps the later value.
pub fn parse(text: &str) -> (r: Vars)
    ensures
        r@ == insert_all(Map::empty(), env_pairs(lines(text@))),
{
    let all = lines_of(&chars_of(text));
    let ghost seen = views(all@);
    let mut pairs: Vec<(String, String)> = Vec::new();
    let mut i: usize = 0;
    proof {
        reveal_strlit("#");
    }
    while i < all.len()
        invariant
            i <= all@.len(),
            seen == views(all@),
            pair_views(pairs@) == env_pairs(seen.take(i as int)),
        decreases all@.len() - i,
    {
        assert(seen.take(i + 1).drop_last() == seen.take(i as int));
        assert(seen.take(i + 1).last() == all@[i as int]@);
        let line = trim_chars(&all[i]);
        i += 1;
        if line.len() == 0 || starts_with_chars(&line, &chars_of("#")) {
            continue;
        }
        let (key, value) = match split_once_chars(&line, '=') {
            Some((key, value)) => (trim_chars(&key), trim_chars(&value)),
            None => continue,
        };
        if key.len() == 0 {
            continue;
        }
        let value = unquote(&value);
        let ghost before = pair_views(pairs@);
        pairs.push((string_of(&key), string_of(&value)));
        assert(pair_views(pairs@) == before.push((key@, value@)));
    }
    assert(seen.take(seen.len() as int) == seen);
    let mut vars = Vars::new();
    vars.extend(pairs);
    vars
}

/// The environment a file's name makes: `.env` is "default", and
/// `.env.staging` is "staging". Nothing for any other name, nor for `.env.`
/// with nothing after it.
pub open spec fn env_label(name: Seq<char>) -> Option<Seq<char>> {
    if name == ".env"@ {
        Some("default"@)
    } else if starts_with(name, ".env."@) && name.len() > 5 {
        Some(name.skip(5))
    } else {
        None
    }
}

/// The environment a file's name makes, if it makes one.
pub fn label_of(name: &str) -> (r: Option<String>)
    ensures
        match r {
            Some(label) => env_label(name@) == Some(label@),
            None => env_label(name@) is None,
        },
{
    proof {
        reveal_strlit(".env");
        reveal_strlit(".env.");
        reveal_strlit("default");
    }
    let chars = chars_of(name);
    if crate::text::same(&chars, &chars_of(".env")) {
        return Some("default".to_string());
    }
    if starts_with_chars(&chars, &chars_of(".env.")) && chars.len() > 5 {
        return Some(string_of(&slice(&chars, 5, chars.len())));
    }
    None
}

/// Each file that makes a label not made by one before it: its label and
/// its path.
pub open spec fn chosen(files: Seq<(Seq<char>, Seq<char>)>) -> Seq<(Seq<char>, Seq<char>)>
    decreases files.len(),
{
    if files.len() == 0 {
        Seq::empty()
    } else {
        let before = chosen(files.drop_last());
        match env_label(files.last().0) {
            Some(label) => if exists|k: int| 0 <= k < before.len() && (#[trigger] before[k]).0 == label {
                before
            } else {
                before.push((label, files.last().1))
            },
            None => before,
        }
    }
}

/// The environment files a walk up from a request finds, from the files of
/// each directory (the deepest first, each in name order): each label once,
/// from the deepest directory that has it.
pub fn env_files(files: &Vec<(String, String)>) -> (r: Vec<EnvFile>)
    ensures
        r@.map_values(|f: EnvFile| (f.label@, f.path@)) == chosen(files@.map_values(|f: (String, String)| (f.0@, f.1@))),
{
    let ghost all = files@.map_values(|f: (String, String)| (f.0@, f.1@));
    let mut out: Vec<EnvFile> = Vec::new();
    let mut i: usize = 0;
    while i < files.len()
        invariant
            i <= files@.len(),
            all == files@.map_values(|f: (String, String)| (f.0@, f.1@)),
            out@.map_values(|f: EnvFile| (f.label@, f.path@)) == chosen(all.take(i as int)),
        decreases files@.len() - i,
    {
        let ghost t = all.take(i + 1);
        assert(t.drop_last() =~= all.take(i as int));
        assert(t.last() == (files@[i as int].0@, files@[i as int].1@));
        let ghost before = out@.map_values(|f: EnvFile| (f.label@, f.path@));
        match label_of(files[i].0.as_str()) {
            Some(label) => {
                let mut seen = false;
                let mut k: usize = 0;
                while k < out.len()
                    invariant
                        k <= out@.len(),
                        before == out@.map_values(|f: EnvFile| (f.label@, f.path@)),
                        seen == exists|j: int| 0 <= j < k && (#[trigger] before[j]).0 == label@,
                    decreases out@.len() - k,
                {
                    assert(before[k as int].0 == out@[k as int].label@);
                    if crate::text::same(&chars_of(out[k].label.as_str()), &chars_of(label.as_str())) {
                        seen = true;
                    }
                    k += 1;
                }
                if !seen {
                    out.push(EnvFile { label, path: files[i].1.clone() });
                    assert(out@.map_values(|f: EnvFile| (f.label@, f.path@)) =~= before.push((label@, files@[i as int].1@)));
                }
            },
            None => {},
        }
        i += 1;
    }
    assert(all.take(all.len() as int) =~= all);
    out
}

} // verus!
