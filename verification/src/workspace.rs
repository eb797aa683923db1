//! The collections in play: which file a collection is saved in, where one
//! in the list came from, and what a collection is called.

use vstd::prelude::*;

use crate::app::overlay::{to_lowercase, unicode_lower};
use crate::error::Error;
use crate::varmap::{before, compare, lemma_before_asymmetric, lemma_before_total, lemma_before_transitive, Order};
use crate::text::{append, chars_of, same, contains_chars, ends_with, ends_with_chars, lower, lower_chars, slice, string_of, trim, trim_chars};

verus! {

/// The file a collection is saved in.
#[derive(Debug, Clone, Copy, PartialEq, Eq, Structural)]
pub enum Scope {
    /// The project's `.binman.json`.
    Project,
    /// `~/.config/binman/collections.json`.
    User,
}

/// Where a collection in the list came from.
#[derive(Debug, Clone, Copy, PartialEq, Eq, Structural)]
pub enum Source {
    /// `HTTP_FILES` in the config.
    Config,
    User,
    Project,
    /// Named on the command line.
    Argument,
}

/// A registered collection: a directory of requests, or one file that
/// holds them.
#[derive(Debug, Clone, PartialEq, Eq)]
pub struct Collection {
    pub name: String,
    pub path: String,
    pub source: Source,
}

impl Source {
    /// The file it is saved in, when it is saved in one of binman's.
    pub fn scope(self) -> (r: Option<Scope>)
        ensures
            r == match self {
                Source::User => Some(Scope::User),
                Source::Project => Some(Scope::Project),
                Source::Config | Source::Argument => None,
            },
    {
        match self {
            Source::User => Some(Scope::User),
            Source::Project => Some(Scope::Project),
            Source::Config | Source::Argument => None,
        }
    }
}

/// The last component of the path `path` writes, as `Path::file_name`
/// finds it.
pub uninterp spec fn path_file_name(path: Seq<char>) -> Option<Seq<char>>;

/// `Path::file_name`, as text. The contract only names the result.
#[verifier::external_body]
pub(crate) fn file_name_of(path: &str) -> (r: Option<String>)
    ensures
        match r {
            Some(name) => path_file_name(path@) == Some(name@),
            None => path_file_name(path@) is None,
        },
{
    std::path::Path::new(path).file_name().map(|name| name.to_string_lossy().into_owned())
}

/// The endings a collection file's name loses, first match first.
pub open spec fn collection_endings() -> Seq<Seq<char>> {
    seq![".postman_collection.json"@, ".json"@, ".yaml"@, ".yml"@]
}

/// `name` without the first of `endings` it ends with, in any case.
pub open spec fn without_ending(name: Seq<char>, endings: Seq<Seq<char>>) -> Seq<char>
    decreases endings.len(),
{
    if endings.len() == 0 {
        name
    } else if ends_with(lower(name), endings[0]) {
        name.take(name.len() - endings[0].len())
    } else {
        without_ending(name, endings.skip(1))
    }
}

/// What a collection at `path` is called when nothing names it: the file
/// or directory name, a file losing its collection ending.
pub open spec fn collection_name(path: Seq<char>, is_dir: bool) -> Seq<char> {
    let name = match path_file_name(path) {
        Some(name) => name,
        None => path,
    };
    if is_dir {
        name
    } else {
        without_ending(name, collection_endings())
    }
}

/// What a collection at `path` is called when nothing names it. `is_dir`
/// says whether the path is a directory on disk.
pub fn name_for(path: &str, is_dir: bool) -> (r: String)
    ensures
        r@ == collection_name(path@, is_dir),
{
    let name = match file_name_of(path) {
        Some(name) => name,
        None => path.to_string(),
    };
    if is_dir {
        return name;
    }
    let chars = chars_of(name.as_str());
    let low = lower_chars(&chars);
    proof {
        reveal_strlit(".postman_collection.json");
        reveal_strlit(".json");
        reveal_strlit(".yaml");
        reveal_strlit(".yml");
    }
    assert(collection_name(path@, is_dir) == without_ending(chars@, collection_endings()));
    let endings: [&str; 4] = [".postman_collection.json", ".json", ".yaml", ".yml"];
    let ghost all = collection_endings();
    assert(endings@.map_values(|e: &str| e@) == all);
    let mut k: usize = 0;
    assert(all.skip(0) == all);
    while k < 4
        invariant
            k <= 4,
            endings@.map_values(|e: &str| e@) == all,
            all == collection_endings(),
            low@ == lower(chars@),
            chars@ == name@,
            !is_dir,
            collection_name(path@, is_dir) == without_ending(chars@, all),
            without_ending(chars@, all) == without_ending(chars@, all.skip(k as int)),
        decreases 4 - k,
    {
        let ending = chars_of(endings[k]);
        assert(ending@ == all[k as int]);
        assert(all.skip(k as int)[0] == all[k as int]);
        assert(all.skip(k as int).skip(1) == all.skip(k + 1));
        if ends_with_chars(&low, &ending) {
            assert(low@.len() == chars@.len());
            let cut = chars.len() - ending.len();
            assert(slice_view_is_take(chars@, cut as int));
            return string_of(&slice(&chars, 0, cut));
        }
        k += 1;
    }
    assert(all.skip(4) =~= Seq::<Seq<char>>::empty());
    name
}

pub open spec fn slice_view_is_take(s: Seq<char>, n: int) -> bool {
    0 <= n <= s.len() ==> s.subrange(0, n) == s.take(n)
}

/// Whether `name` can name a collection: not blank, and without a slash,
/// since a request's name starts with its collection's and then a slash.
pub fn check_name(name: &str) -> (r: Result<(), Error>)
    ensures
        match r {
            Ok(()) => trim(name@).len() > 0 && !name@.contains('/') && !name@.contains('\\'),
            Err(error) => error matches Error::Config(message) && message@ == if trim(name@).len() == 0 {
                "A collection needs a name"@
            } else {
                name@ + ": a collection's name can't hold a slash \u{2014} a request's name starts with it"@
            },
        },
{
    let chars = chars_of(name);
    if trim_chars(&chars).len() == 0 {
        return Err(Error::Config("A collection needs a name".to_string()));
    }
    let mut i: usize = 0;
    while i < chars.len()
        invariant
            i <= chars@.len(),
            chars@ == name@,
            trim(name@).len() > 0,
            forall|j: int| 0 <= j < i ==> chars@[j] != '/' && chars@[j] != '\\',
        decreases chars@.len() - i,
    {
        if chars[i] == '/' || chars[i] == '\\' {
            let mut message = chars_of(name);
            append(&mut message, &chars_of(": a collection's name can't hold a slash \u{2014} a request's name starts with it"));
            return Err(Error::Config(string_of(&message)));
        }
        i += 1;
    }
    Ok(())
}

/// A collection as text: its name, its path, and where it came from.
pub open spec fn collection_view(c: Collection) -> (Seq<char>, Seq<char>, Source) {
    (c.name@, c.path@, c.source)
}

pub open spec fn collection_views(cs: Seq<Collection>) -> Seq<(Seq<char>, Seq<char>, Source)> {
    cs.map_values(|c: Collection| collection_view(c))
}

/// Where the first entry called `name` stands.
pub open spec fn first_named(s: Seq<(Seq<char>, Seq<char>, Source)>, name: Seq<char>) -> Option<int>
    decreases s.len(),
{
    if s.len() == 0 {
        None
    } else {
        match first_named(s.drop_last(), name) {
            Some(i) => Some(i),
            None => if s.last().0 == name { Some(s.len() - 1) } else { None },
        }
    }
}

/// One more collection in the list: in the place of the one it shares a
/// name with, or at the end.
pub open spec fn put(s: Seq<(Seq<char>, Seq<char>, Source)>, c: (Seq<char>, Seq<char>, Source)) -> Seq<(Seq<char>, Seq<char>, Source)> {
    match first_named(s, c.0) {
        Some(i) => s.update(i, c),
        None => s.push(c),
    }
}

/// The candidates put in turn, so that a later one wins a name.
pub open spec fn gathered(cands: Seq<(Seq<char>, Seq<char>, Source)>) -> Seq<(Seq<char>, Seq<char>, Source)>
    decreases cands.len(),
{
    if cands.len() == 0 {
        Seq::empty()
    } else {
        put(gathered(cands.drop_last()), cands.last())
    }
}

/// What a collection is ordered by: its name in Unicode lower case.
pub open spec fn sort_key(c: (Seq<char>, Seq<char>, Source)) -> Seq<char> {
    unicode_lower(c.0)
}

/// `x` placed after every entry whose key does not come after its own.
pub open spec fn placed(s: Seq<(Seq<char>, Seq<char>, Source)>, x: (Seq<char>, Seq<char>, Source)) -> Seq<(Seq<char>, Seq<char>, Source)>
    decreases s.len(),
{
    if s.len() == 0 {
        seq![x]
    } else if before(sort_key(x), sort_key(s.last())) {
        placed(s.drop_last(), x).push(s.last())
    } else {
        s.push(x)
    }
}

/// The entries in order of their keys; those with equal keys keep the
/// order they came in.
pub open spec fn in_key_order(s: Seq<(Seq<char>, Seq<char>, Source)>) -> Seq<(Seq<char>, Seq<char>, Source)>
    decreases s.len(),
{
    if s.len() == 0 {
        Seq::empty()
    } else {
        placed(in_key_order(s.drop_last()), s.last())
    }
}

/// The list of collections the candidates make: one for each name, the
/// last candidate with it, in order of the names in lower case.
pub open spec fn registry(cands: Seq<(Seq<char>, Seq<char>, Source)>) -> Seq<(Seq<char>, Seq<char>, Source)> {
    in_key_order(gathered(cands))
}

fn copy_collection(c: &Collection) -> (r: Collection)
    ensures
        collection_view(r) == collection_view(*c),
{
    Collection { name: c.name.clone(), path: c.path.clone(), source: c.source }
}

proof fn lemma_first_named_none(s: Seq<(Seq<char>, Seq<char>, Source)>, name: Seq<char>)
    requires
        forall|m: int| 0 <= m < s.len() ==> #[trigger] s[m].0 != name,
    ensures
        first_named(s, name) is None,
    decreases s.len(),
{
    if s.len() > 0 {
        lemma_first_named_none(s.drop_last(), name);
    }
}

proof fn lemma_first_named_at(s: Seq<(Seq<char>, Seq<char>, Source)>, name: Seq<char>, k: int)
    requires
        0 <= k < s.len(),
        s[k].0 == name,
        forall|m: int| 0 <= m < k ==> #[trigger] s[m].0 != name,
    ensures
        first_named(s, name) == Some(k),
    decreases s.len(),
{
    if k < s.len() - 1 {
        lemma_first_named_at(s.drop_last(), name, k);
    } else {
        lemma_first_named_none(s.drop_last(), name);
    }
}

proof fn lemma_placed_at(s: Seq<(Seq<char>, Seq<char>, Source)>, x: (Seq<char>, Seq<char>, Source), j: int)
    requires
        0 <= j <= s.len(),
        forall|m: int| j <= m < s.len() ==> before(sort_key(x), sort_key(#[trigger] s[m])),
        j > 0 ==> !before(sort_key(x), sort_key(s[j - 1])),
    ensures
        placed(s, x) == s.take(j).push(x) + s.skip(j),
    decreases s.len(),
{
    if s.len() == 0 {
        assert(s.take(j).push(x) + s.skip(j) =~= seq![x]);
    } else if j == s.len() {
        assert(!before(sort_key(x), sort_key(s.last())));
        assert(s.take(j).push(x) + s.skip(j) =~= s.push(x));
    } else {
        assert(before(sort_key(x), sort_key(s[s.len() - 1])));
        let dl = s.drop_last();
        lemma_placed_at(dl, x, j);
        assert(dl.take(j) =~= s.take(j));
        assert((dl.take(j).push(x) + dl.skip(j)).push(s.last()) =~= s.take(j).push(x) + s.skip(j));
    }
}

/// The collections the candidates make, in the order they are listed: a
/// later candidate takes the place of an earlier one with its name, and
/// the list is ordered by name in lower case, ties kept in the order they
/// came.
pub fn merged(candidates: &Vec<Collection>) -> (r: Vec<Collection>)
    ensures
        collection_views(r@) == registry(collection_views(candidates@)),
{
    let ghost cands = collection_views(candidates@);
    let mut gathered_list: Vec<Collection> = Vec::new();
    let mut i: usize = 0;
    while i < candidates.len()
        invariant
            i <= candidates@.len(),
            cands == collection_views(candidates@),
            collection_views(gathered_list@) == gathered(cands.take(i as int)),
        decreases candidates@.len() - i,
    {
        let c = copy_collection(&candidates[i]);
        let ghost before_put = collection_views(gathered_list@);
        assert(cands.take(i + 1).drop_last() =~= cands.take(i as int));
        assert(cands.take(i + 1).last() == collection_view(c));
        let mut k: usize = 0;
        while k < gathered_list.len() && !same(&chars_of(gathered_list[k].name.as_str()), &chars_of(c.name.as_str()))
            invariant
                k <= gathered_list@.len(),
                before_put == collection_views(gathered_list@),
                forall|m: int| 0 <= m < k ==> #[trigger] before_put[m].0 != c.name@,
            decreases gathered_list@.len() - k,
        {
            k += 1;
        }
        if k < gathered_list.len() {
            proof {
                lemma_first_named_at(before_put, c.name@, k as int);
            }
            gathered_list.remove(k);
            gathered_list.insert(k, c);
            assert(collection_views(gathered_list@) =~= before_put.update(k as int, collection_view(c)));
        } else {
            proof {
                lemma_first_named_none(before_put, c.name@);
            }
            gathered_list.push(c);
            assert(collection_views(gathered_list@) =~= before_put.push(collection_view(c)));
        }
        i += 1;
    }
    assert(cands.take(candidates@.len() as int) =~= cands);
    let ghost all = collection_views(gathered_list@);
    let mut out: Vec<Collection> = Vec::new();
    let mut keys: Vec<Vec<char>> = Vec::new();
    let mut n: usize = 0;
    while n < gathered_list.len()
        invariant
            n <= gathered_list@.len(),
            all == collection_views(gathered_list@),
            keys@.len() == out@.len(),
            forall|m: int| 0 <= m < out@.len() ==> (#[trigger] keys@[m])@ == sort_key(collection_view(out@[m])),
            collection_views(out@) == in_key_order(all.take(n as int)),
        decreases gathered_list@.len() - n,
    {
        let c = copy_collection(&gathered_list[n]);
        let key = chars_of(to_lowercase(c.name.as_str()).as_str());
        let ghost sorted = collection_views(out@);
        assert(all.take(n + 1).drop_last() =~= all.take(n as int));
        assert(all.take(n + 1).last() == collection_view(c));
        let mut j: usize = out.len();
        while j > 0 && matches!(compare(&key, &keys[j - 1]), Order::Less)
            invariant
                j <= out@.len(),
                keys@.len() == out@.len(),
                sorted == collection_views(out@),
                key@ == sort_key(collection_view(c)),
                forall|m: int| 0 <= m < out@.len() ==> (#[trigger] keys@[m])@ == sort_key(collection_view(out@[m])),
                forall|m: int| j <= m < out@.len() ==> before(key@, sort_key(#[trigger] sorted[m])),
            decreases j,
        {
            assert(keys@[j - 1]@ == sort_key(sorted[j - 1]));
            j -= 1;
        }
        proof {
            if j > 0 {
                assert(keys@[j - 1]@ == sort_key(sorted[j - 1]));
            }
            lemma_placed_at(sorted, collection_view(c), j as int);
        }
        let ghost old_out = out@;
        let ghost old_keys = keys@;
        let ghost v = collection_view(c);
        out.insert(j, c);
        keys.insert(j, key);
        assert(collection_views(out@) =~= sorted.take(j as int).push(v) + sorted.skip(j as int));
        assert forall|m: int| 0 <= m < out@.len() implies (#[trigger] keys@[m])@ == sort_key(collection_view(out@[m])) by {
            if m < j {
                assert(keys@[m] == old_keys[m]);
                assert(out@[m] == old_out[m]);
            } else if m > j {
                assert(keys@[m] == old_keys[m - 1]);
                assert(out@[m] == old_out[m - 1]);
            }
        }
        n += 1;
    }
    assert(all.take(gathered_list@.len() as int) =~= all);
    out
}

/// No two collections in `s` share a name.
pub open spec fn names_unique(s: Seq<(Seq<char>, Seq<char>, Source)>) -> bool {
    forall|i: int, j: int| 0 <= i < j < s.len() ==> (#[trigger] s[i]).0 != (#[trigger] s[j]).0
}

/// No collection in `s` comes after one that follows it.
pub open spec fn key_sorted(s: Seq<(Seq<char>, Seq<char>, Source)>) -> bool {
    forall|i: int, j: int| 0 <= i < j < s.len() ==> !before(sort_key(#[trigger] s[j]), sort_key(#[trigger] s[i]))
}

proof fn lemma_first_named_found(s: Seq<(Seq<char>, Seq<char>, Source)>, name: Seq<char>)
    ensures
        match first_named(s, name) {
            Some(i) => 0 <= i < s.len() && s[i].0 == name,
            None => forall|m: int| 0 <= m < s.len() ==> #[trigger] s[m].0 != name,
        },
    decreases s.len(),
{
    if s.len() > 0 {
        let dl = s.drop_last();
        lemma_first_named_found(dl, name);
        if first_named(dl, name) is None {
            assert forall|m: int| 0 <= m < s.len() - 1 implies #[trigger] s[m].0 != name by {
                assert(s[m] == dl[m]);
            }
        }
    }
}

proof fn lemma_gathered_unique(cands: Seq<(Seq<char>, Seq<char>, Source)>)
    ensures
        names_unique(gathered(cands)),
    decreases cands.len(),
{
    if cands.len() > 0 {
        let before_put = gathered(cands.drop_last());
        let c = cands.last();
        lemma_gathered_unique(cands.drop_last());
        lemma_first_named_found(before_put, c.0);
        let after = gathered(cands);
        assert forall|i: int, j: int| 0 <= i < j < after.len() implies (#[trigger] after[i]).0 != (#[trigger] after[j]).0 by {
            match first_named(before_put, c.0) {
                Some(k) => {
                    assert(after == before_put.update(k, c));
                    if i != k && j != k {
                        assert(after[i] == before_put[i] && after[j] == before_put[j]);
                    } else if i == k {
                        assert(after[j] == before_put[j]);
                        assert(before_put[k].0 != before_put[j].0);
                    } else {
                        assert(after[i] == before_put[i]);
                        assert(before_put[i].0 != before_put[k].0);
                    }
                },
                None => {
                    assert(after == before_put.push(c));
                    if j < before_put.len() {
                        assert(after[i] == before_put[i] && after[j] == before_put[j]);
                    } else {
                        assert(after[i] == before_put[i]);
                    }
                },
            }
        }
    }
}

/// Placing a collection in a list holds that collection and the list's
/// own, and nothing else.
proof fn lemma_placed_holds(s: Seq<(Seq<char>, Seq<char>, Source)>, x: (Seq<char>, Seq<char>, Source))
    ensures
        placed(s, x).len() == s.len() + 1,
        forall|m: int| 0 <= m < placed(s, x).len() ==> #[trigger] placed(s, x)[m] == x || s.contains(placed(s, x)[m]),
    decreases s.len(),
{
    if s.len() > 0 && before(sort_key(x), sort_key(s.last())) {
        let dl = s.drop_last();
        lemma_placed_holds(dl, x);
        let p = placed(dl, x);
        assert forall|m: int| 0 <= m < placed(s, x).len() implies #[trigger] placed(s, x)[m] == x
            || s.contains(placed(s, x)[m]) by {
            if m < p.len() {
                assert(placed(s, x)[m] == p[m]);
                if p[m] != x {
                    let k = choose|k: int| 0 <= k < dl.len() && dl[k] == p[m];
                    assert(s[k] == p[m]);
                }
            } else {
                assert(placed(s, x)[m] == s[s.len() - 1]);
            }
        }
    } else if s.len() > 0 {
        assert forall|m: int| 0 <= m < placed(s, x).len() implies #[trigger] placed(s, x)[m] == x
            || s.contains(placed(s, x)[m]) by {
            if m < s.len() {
                assert(placed(s, x)[m] == s[m]);
            }
        }
    }
}

proof fn lemma_in_key_order_holds(s: Seq<(Seq<char>, Seq<char>, Source)>)
    ensures
        in_key_order(s).len() == s.len(),
        forall|m: int| 0 <= m < in_key_order(s).len() ==> s.contains(#[trigger] in_key_order(s)[m]),
    decreases s.len(),
{
    if s.len() > 0 {
        let dl = s.drop_last();
        lemma_in_key_order_holds(dl);
        let sorted = in_key_order(dl);
        lemma_placed_holds(sorted, s.last());
        assert forall|m: int| 0 <= m < in_key_order(s).len() implies s.contains(#[trigger] in_key_order(s)[m]) by {
            let v = in_key_order(s)[m];
            if v == s.last() {
                assert(s[s.len() - 1] == v);
            } else {
                assert(sorted.contains(v));
                let k = choose|k: int| 0 <= k < sorted.len() && sorted[k] == v;
                assert(dl.contains(sorted[k]));
                let q = choose|q: int| 0 <= q < dl.len() && dl[q] == v;
                assert(s[q] == v);
            }
        }
    }
}

proof fn lemma_in_key_order_unique(s: Seq<(Seq<char>, Seq<char>, Source)>)
    requires
        names_unique(s),
    ensures
        names_unique(in_key_order(s)),
    decreases s.len(),
{
    if s.len() > 0 {
        let dl = s.drop_last();
        let last = s.last();
        assert(names_unique(dl)) by {
            assert forall|i: int, j: int| 0 <= i < j < dl.len() implies (#[trigger] dl[i]).0 != (#[trigger] dl[j]).0 by {
                assert(dl[i] == s[i] && dl[j] == s[j]);
            }
        }
        lemma_in_key_order_unique(dl);
        lemma_in_key_order_holds(dl);
        let sorted = in_key_order(dl);
        lemma_placed_unique(sorted, last);
        assert forall|m: int| 0 <= m < sorted.len() implies (#[trigger] sorted[m]).0 != last.0 by {
            assert(dl.contains(sorted[m]));
            let q = choose|q: int| 0 <= q < dl.len() && dl[q] == sorted[m];
            assert(s[q] == dl[q]);
            assert(s[q].0 != s[s.len() - 1].0);
        }
    }
}

proof fn lemma_placed_unique(s: Seq<(Seq<char>, Seq<char>, Source)>, x: (Seq<char>, Seq<char>, Source))
    requires
        names_unique(s),
    ensures
        (forall|m: int| 0 <= m < s.len() ==> (#[trigger] s[m]).0 != x.0) ==> names_unique(placed(s, x)),
    decreases s.len(),
{
    if s.len() > 0 && forall|m: int| 0 <= m < s.len() ==> (#[trigger] s[m]).0 != x.0 {
        if before(sort_key(x), sort_key(s.last())) {
            let dl = s.drop_last();
            let last = s.last();
            assert(names_unique(dl)) by {
                assert forall|i: int, j: int| 0 <= i < j < dl.len() implies (#[trigger] dl[i]).0 != (#[trigger] dl[j]).0 by {
                    assert(dl[i] == s[i] && dl[j] == s[j]);
                }
            }
            assert forall|m: int| 0 <= m < dl.len() implies (#[trigger] dl[m]).0 != x.0 by {
                assert(dl[m] == s[m]);
            }
            lemma_placed_unique(dl, x);
            lemma_placed_holds(dl, x);
            let p = placed(dl, x);
            let r = placed(s, x);
            assert(r == p.push(last));
            assert forall|i: int, j: int| 0 <= i < j < r.len() implies (#[trigger] r[i]).0 != (#[trigger] r[j]).0 by {
                if j < p.len() {
                    assert(r[i] == p[i] && r[j] == p[j]);
                } else {
                    assert(r[i] == p[i]);
                    assert(r[j] == last);
                    if p[i] == x {
                        assert(s[s.len() - 1].0 != x.0);
                    } else {
                        let k = choose|k: int| 0 <= k < dl.len() && dl[k] == p[i];
                        assert(s[k] == p[i]);
                        assert(s[k].0 != s[s.len() - 1].0);
                    }
                }
            }
        } else {
            let r = placed(s, x);
            assert(r == s.push(x));
            assert forall|i: int, j: int| 0 <= i < j < r.len() implies (#[trigger] r[i]).0 != (#[trigger] r[j]).0 by {
                assert(r[i] == s[i]);
                if j < s.len() {
                    assert(r[j] == s[j]);
                }
            }
        }
    }
}

proof fn lemma_placed_sorted(s: Seq<(Seq<char>, Seq<char>, Source)>, x: (Seq<char>, Seq<char>, Source))
    requires
        key_sorted(s),
    ensures
        key_sorted(placed(s, x)),
    decreases s.len(),
{
    if s.len() == 0 {
    } else if before(sort_key(x), sort_key(s.last())) {
        let dl = s.drop_last();
        let last = s.last();
        assert(key_sorted(dl)) by {
            assert forall|i: int, j: int| 0 <= i < j < dl.len() implies !before(sort_key(#[trigger] dl[j]), sort_key(#[trigger] dl[i])) by {
                assert(dl[i] == s[i] && dl[j] == s[j]);
            }
        }
        lemma_placed_sorted(dl, x);
        lemma_placed_holds(dl, x);
        let p = placed(dl, x);
        let r = placed(s, x);
        assert(r == p.push(last));
        assert forall|i: int, j: int| 0 <= i < j < r.len() implies !before(sort_key(#[trigger] r[j]), sort_key(#[trigger] r[i])) by {
            if j < p.len() {
                assert(r[i] == p[i] && r[j] == p[j]);
            } else {
                assert(r[j] == last);
                assert(r[i] == p[i]);
                if p[i] == x {
                    lemma_before_asymmetric(sort_key(x), sort_key(last));
                } else {
                    let k = choose|k: int| 0 <= k < dl.len() && dl[k] == p[i];
                    assert(s[k] == p[i]);
                    assert(!before(sort_key(s[s.len() - 1]), sort_key(s[k])));
                }
            }
        }
    } else {
        let r = placed(s, x);
        let last = s.last();
        assert(r == s.push(x));
        assert forall|i: int, j: int| 0 <= i < j < r.len() implies !before(sort_key(#[trigger] r[j]), sort_key(#[trigger] r[i])) by {
            if j < s.len() {
                assert(r[i] == s[i] && r[j] == s[j]);
            } else {
                assert(r[j] == x);
                assert(r[i] == s[i]);
                if i < s.len() - 1 {
                    assert(!before(sort_key(s[s.len() - 1]), sort_key(s[i])));
                }
                lemma_before_total(sort_key(s[i]), sort_key(last));
                if before(sort_key(x), sort_key(s[i])) {
                    if before(sort_key(s[i]), sort_key(last)) {
                        lemma_before_transitive(sort_key(x), sort_key(s[i]), sort_key(last));
                    }
                }
            }
        }
    }
}

proof fn lemma_in_key_order_sorted(s: Seq<(Seq<char>, Seq<char>, Source)>)
    ensures
        key_sorted(in_key_order(s)),
    decreases s.len(),
{
    if s.len() > 0 {
        lemma_in_key_order_sorted(s.drop_last());
        lemma_placed_sorted(in_key_order(s.drop_last()), s.last());
    }
}

/// The list the candidates make holds one collection for each name, in
/// order of the names in lower case.
pub proof fn registry_is_unique_and_ordered(cands: Seq<(Seq<char>, Seq<char>, Source)>)
    ensures
        names_unique(registry(cands)),
        key_sorted(registry(cands)),
{
    lemma_gathered_unique(cands);
    lemma_in_key_order_unique(gathered(cands));
    lemma_in_key_order_sorted(gathered(cands));
}

/// The last candidate called `name`, if any is.
pub open spec fn last_named(cands: Seq<(Seq<char>, Seq<char>, Source)>, name: Seq<char>) -> Option<(Seq<char>, Seq<char>, Source)>
    decreases cands.len(),
{
    if cands.len() == 0 {
        None
    } else if cands.last().0 == name {
        Some(cands.last())
    } else {
        last_named(cands.drop_last(), name)
    }
}

proof fn lemma_gathered_keeps_last(cands: Seq<(Seq<char>, Seq<char>, Source)>, name: Seq<char>)
    requires
        last_named(cands, name) is Some,
    ensures
        gathered(cands).contains(last_named(cands, name)->0),
    decreases cands.len(),
{
    let dl = cands.drop_last();
    let c = cands.last();
    let before_put = gathered(dl);
    lemma_first_named_found(before_put, c.0);
    if c.0 == name {
        match first_named(before_put, c.0) {
            Some(i) => {
                assert(gathered(cands)[i] == c);
            },
            None => {
                assert(gathered(cands)[before_put.len() as int] == c);
            },
        }
    } else {
        lemma_gathered_keeps_last(dl, name);
        let v = last_named(dl, name)->0;
        assert(v.0 == name) by {
            lemma_last_named_is_named(dl, name);
        }
        let k = choose|k: int| 0 <= k < before_put.len() && before_put[k] == v;
        match first_named(before_put, c.0) {
            Some(i) => {
                assert(i != k);
                assert(gathered(cands)[k] == v);
            },
            None => {
                assert(gathered(cands)[k] == v);
            },
        }
    }
}

proof fn lemma_last_named_is_named(cands: Seq<(Seq<char>, Seq<char>, Source)>, name: Seq<char>)
    ensures
        last_named(cands, name) matches Some(v) ==> v.0 == name,
    decreases cands.len(),
{
    if cands.len() > 0 && cands.last().0 != name {
        lemma_last_named_is_named(cands.drop_last(), name);
    }
}

/// Placing a collection in a list keeps every collection the list held.
proof fn lemma_placed_keeps(s: Seq<(Seq<char>, Seq<char>, Source)>, x: (Seq<char>, Seq<char>, Source), v: (Seq<char>, Seq<char>, Source))
    requires
        s.contains(v),
    ensures
        placed(s, x).contains(v),
    decreases s.len(),
{
    let k = choose|k: int| 0 <= k < s.len() && s[k] == v;
    if before(sort_key(x), sort_key(s.last())) {
        if k == s.len() - 1 {
            assert(placed(s, x)[placed(s, x).len() - 1] == v);
        } else {
            let dl = s.drop_last();
            assert(dl[k] == v);
            lemma_placed_keeps(dl, x, v);
            let p = placed(dl, x);
            let m = choose|m: int| 0 <= m < p.len() && p[m] == v;
            assert(placed(s, x)[m] == v);
        }
    } else {
        assert(placed(s, x)[k] == v);
    }
}

proof fn lemma_in_key_order_keeps(s: Seq<(Seq<char>, Seq<char>, Source)>, v: (Seq<char>, Seq<char>, Source))
    requires
        s.contains(v),
    ensures
        in_key_order(s).contains(v),
    decreases s.len(),
{
    let dl = s.drop_last();
    if s.last() == v {
        lemma_placed_contains_itself(in_key_order(dl), v);
    } else {
        let k = choose|k: int| 0 <= k < s.len() && s[k] == v;
        assert(dl[k] == v);
        lemma_in_key_order_keeps(dl, v);
        lemma_placed_keeps(in_key_order(dl), s.last(), v);
    }
}

proof fn lemma_placed_contains_itself(s: Seq<(Seq<char>, Seq<char>, Source)>, x: (Seq<char>, Seq<char>, Source))
    ensures
        placed(s, x).contains(x),
    decreases s.len(),
{
    if s.len() == 0 {
        assert(placed(s, x)[0] == x);
    } else if before(sort_key(x), sort_key(s.last())) {
        lemma_placed_contains_itself(s.drop_last(), x);
        let p = placed(s.drop_last(), x);
        let m = choose|m: int| 0 <= m < p.len() && p[m] == x;
        assert(placed(s, x)[m] == x);
    } else {
        assert(placed(s, x)[s.len() as int] == x);
    }
}

/// A name in the list keeps the last candidate that has it: the project's
/// over your own, and one named on the command line over both.
pub proof fn last_candidate_wins(cands: Seq<(Seq<char>, Seq<char>, Source)>, name: Seq<char>)
    requires
        last_named(cands, name) is Some,
    ensures
        registry(cands).contains(last_named(cands, name)->0),
{
    lemma_gathered_keeps_last(cands, name);
    lemma_in_key_order_keeps(gathered(cands), last_named(cands, name)->0);
}

} // verus!
