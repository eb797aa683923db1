//! What sits in the collections directory, for the sidebar and for search:
//! the kinds of entry, the badge a request file shows, and paths as they are
//! shown.

use vstd::prelude::*;

use crate::formats::http::{http_parsed, parse as parse_http};
use crate::formats::{format_of_extension, path_extension, Format};
use crate::formats::openapi::{is_spec, looks_like_spec};
use crate::formats::postman::{collection_suffix, is_collection};
use crate::request::{is_method, names_method};
use crate::source::Origin;
use crate::app::overlay::{to_lowercase, unicode_lower};
use crate::text::{
    chars_of, ends_with, ends_with_chars, is_space, is_space_char, lines, lines_of, lower, lower_chars, same, split_once_space,
    split_once_space_chars, starts_with, string_of, trim_end_char, trim_end_char_chars, upper, upper_chars, views,
};
use crate::varmap::{
    before, compare, lemma_before_asymmetric, lemma_before_irreflexive, lemma_before_total, lemma_before_transitive, Order,
};

verus! {

#[derive(Debug, Clone, Copy, PartialEq, Eq, Structural)]
pub enum EntryKind {
    Dir,
    Request(Format),
    Postman,
    OpenApi,
}

/// One thing a directory listing shows: a directory, or a file binman can
/// open.
#[derive(Debug, Clone, PartialEq, Eq)]
pub struct Entry {
    pub name: String,
    pub path: String,
    pub kind: EntryKind,
}

/// One request anywhere under the root, for the search.
#[derive(Debug, Clone, PartialEq, Eq)]
pub struct Found {
    pub method: String,
    pub title: String,
    /// Where it sits: the directory, or the collection and its folders.
    pub location: String,
    pub origin: Origin,
}

/// The method a `.bru` line opens a block with, upper-cased: the first word
/// of a line at the margin, a `{` after it dropped, when it names a method.
pub open spec fn bru_method_word(line: Seq<char>) -> Option<Seq<char>> {
    if line.len() == 0 || is_space(line[0]) {
        None
    } else {
        let token = match split_once_space(line) {
            Some((token, _)) => token,
            None => line,
        };
        let word = trim_end_char(token, '{');
        if names_method(word) {
            Some(upper(word))
        } else {
            None
        }
    }
}

/// The first method a run of `.bru` lines opens a block with.
pub open spec fn first_method_word(lines: Seq<Seq<char>>) -> Option<Seq<char>>
    decreases lines.len(),
{
    if lines.len() == 0 {
        None
    } else {
        match bru_method_word(lines[0]) {
            Some(word) => Some(word),
            None => first_method_word(lines.skip(1)),
        }
    }
}

/// The method a request file sends, read from its first lines, `head` —
/// enough to badge it in the sidebar without reading the whole file.
pub open spec fn method_badge(head: Seq<char>, format: Format) -> Option<Seq<char>> {
    match format {
        Format::Graphql => Some("POST"@),
        Format::Http => if names_method(http_parsed(head).0) { Some(http_parsed(head).0) } else { None },
        Format::Bru => first_method_word(lines(head)),
    }
}

fn method_word(line: &Vec<char>) -> (r: Option<Vec<char>>)
    ensures
        match r {
            Some(word) => bru_method_word(line@) == Some(word@),
            None => bru_method_word(line@) is None,
        },
{
    if line.len() == 0 || is_space_char(line[0]) {
        return None;
    }
    let token = match split_once_space_chars(line) {
        Some((token, _)) => token,
        None => crate::text::slice(line, 0, line.len()),
    };
    assert(line@.subrange(0, line@.len() as int) == line@);
    let word = trim_end_char_chars(&token, '{');
    if is_method(string_of(&word).as_str()) {
        Some(upper_chars(&word))
    } else {
        None
    }
}

/// The method a request file sends, read from `head`, its first lines —
/// enough to badge it in the sidebar without reading the whole file.
pub fn method_of(head: &str, format: Format) -> (r: Option<String>)
    ensures
        match r {
            Some(method) => method_badge(head@, format) == Some(method@),
            None => method_badge(head@, format) is None,
        },
{
    match format {
        Format::Graphql => {
            proof {
                reveal_strlit("POST");
            }
            Some("POST".to_string())
        },
        Format::Http => {
            let method = parse_http(head).method;
            if is_method(method.as_str()) {
                Some(method)
            } else {
                None
            }
        },
        Format::Bru => {
            let all = lines_of(&chars_of(head));
            let ghost seen = views(all@);
            let mut i: usize = 0;
            assert(seen.skip(0) == seen);
            while i < all.len()
                invariant
                    i <= all@.len(),
                    seen == views(all@),
                    seen == lines(head@),
                    format == Format::Bru,
                    first_method_word(seen) == first_method_word(seen.skip(i as int)),
                decreases all@.len() - i,
            {
                assert(seen.skip(i as int)[0] == all@[i as int]@);
                assert(seen.skip(i as int).skip(1) == seen.skip(i + 1));
                match method_word(&all[i]) {
                    Some(word) => return Some(string_of(&word)),
                    None => {},
                }
                i += 1;
            }
            assert(seen.skip(i as int) =~= Seq::<Seq<char>>::empty());
            None
        },
    }
}

/// What `Path::strip_prefix` leaves of `path` under `root`, component by
/// component, as text; nothing when `path` is not under `root`.
pub uninterp spec fn path_under(root: Seq<char>, path: Seq<char>) -> Option<Seq<char>>;

/// `Path::strip_prefix`, displayed. The contract only names the result.
#[verifier::external_body]
pub(crate) fn strip_root(root: &str, path: &str) -> (r: Option<String>)
    ensures
        match r {
            Some(rest) => path_under(root@, path@) == Some(rest@),
            None => path_under(root@, path@) is None,
        },
{
    std::path::Path::new(path)
        .strip_prefix(root)
        .ok()
        .map(|rest| rest.display().to_string())
}

/// `path` as it sits under `root`, for display; as it is when it is not
/// under `root`.
pub fn relative(root: &str, path: &str) -> (r: String)
    ensures
        r@ == match path_under(root@, path@) {
            Some(rest) => rest,
            None => path@,
        },
{
    match strip_root(root, path) {
        Some(rest) => rest,
        None => path.to_string(),
    }
}

/// Whether a directory is a Bruno collection's root: it holds a
/// `collection.bru`, in any case.
pub open spec fn bruno_root(found: Seq<(String, String, Option<EntryKind>)>) -> bool {
    exists|i: int| 0 <= i < found.len() && lower((#[trigger] found[i]).0@) == "collection.bru"@
}

/// Whether the sidebar lists what a directory holds under `name`: not a
/// hidden file, something binman can open, and not one of the files Bruno
/// keeps beside its requests (`collection.bru`, `folder.bru`, and the
/// `environments/` directory at a collection's root).
pub open spec fn listed(name: Seq<char>, kind: Option<EntryKind>, in_bruno_root: bool) -> bool {
    &&& !starts_with(name, "."@)
    &&& kind is Some
    &&& !(kind->0 is Request && (lower(name) == "collection.bru"@ || lower(name) == "folder.bru"@))
    &&& !(kind->0 == EntryKind::Dir && in_bruno_root && lower(name) == "environments"@)
}

/// What an entry is sorted by: directories first, then the name without
/// regard to case.
pub open spec fn sort_key(entry: Entry) -> (bool, Seq<char>) {
    (entry.kind != EntryKind::Dir, unicode_lower(entry.name@))
}

/// Whether one sort key comes strictly before another.
pub open spec fn key_before(a: (bool, Seq<char>), b: (bool, Seq<char>)) -> bool {
    (!a.0 && b.0) || (a.0 == b.0 && before(a.1, b.1))
}

/// Where an entry goes among sorted ones: after every one it does not come
/// before, so entries that sort alike keep the order they were found in.
pub open spec fn slot_for(sorted: Seq<Entry>, key: (bool, Seq<char>)) -> int
    decreases sorted.len(),
{
    if sorted.len() == 0 {
        0
    } else if key_before(key, sort_key(sorted[0])) {
        0
    } else {
        1 + slot_for(sorted.skip(1), key)
    }
}

/// The entries listed, sorted one at a time, in the order found.
pub open spec fn listing_of(found: Seq<(String, String, Option<EntryKind>)>, in_bruno_root: bool) -> Seq<Entry>
    decreases found.len(),
{
    if found.len() == 0 {
        Seq::empty()
    } else {
        let sorted = listing_of(found.drop_last(), in_bruno_root);
        let (name, path, kind) = found.last();
        if listed(name@, kind, in_bruno_root) {
            let entry = Entry { name, path, kind: kind->0 };
            sorted.insert(slot_for(sorted, sort_key(entry)), entry)
        } else {
            sorted
        }
    }
}

proof fn lemma_slot_bounds(sorted: Seq<Entry>, key: (bool, Seq<char>))
    ensures
        0 <= slot_for(sorted, key) <= sorted.len(),
    decreases sorted.len(),
{
    if sorted.len() > 0 && !key_before(key, sort_key(sorted[0])) {
        lemma_slot_bounds(sorted.skip(1), key);
    }
}

fn key_before_exec(a_dir_last: bool, a: &Vec<char>, b_dir_last: bool, b: &Vec<char>) -> (r: bool)
    ensures
        r == key_before((a_dir_last, a@), (b_dir_last, b@)),
{
    let less = match compare(a, b) {
        Order::Less => true,
        _ => false,
    };
    (!a_dir_last && b_dir_last) || (a_dir_last == b_dir_last && less)
}

/// A directory as the sidebar shows it: directories first, then everything
/// binman can open, each alphabetically. `found` is what reading the
/// directory gave: each name, its path, and what binman makes of it.
pub fn listing(found: Vec<(String, String, Option<EntryKind>)>) -> (r: Vec<Entry>)
    ensures
        r@ == listing_of(found@, bruno_root(found@)),
{
    let mut in_bruno_root = false;
    let mut j: usize = 0;
    while j < found.len()
        invariant
            j <= found@.len(),
            in_bruno_root == exists|i: int| 0 <= i < j && lower((#[trigger] found@[i]).0@) == "collection.bru"@,
        decreases found@.len() - j,
    {
        proof {
            reveal_strlit("collection.bru");
        }
        if same(&lower_chars(&chars_of(found[j].0.as_str())), &chars_of("collection.bru")) {
            in_bruno_root = true;
        }
        j += 1;
    }
    let ghost flag = in_bruno_root;
    let mut sorted: Vec<Entry> = Vec::new();
    let mut keys: Vec<(bool, Vec<char>)> = Vec::new();
    let mut i: usize = 0;
    proof {
        reveal_strlit(".");
        reveal_strlit("folder.bru");
        reveal_strlit("environments");
    }
    while i < found.len()
        invariant
            i <= found@.len(),
            flag == in_bruno_root,
            sorted@ == listing_of(found@.take(i as int), flag),
            keys@.len() == sorted@.len(),
            forall|k: int| 0 <= k < keys@.len() ==> (#[trigger] keys@[k]).0 == sort_key(sorted@[k]).0
                && keys@[k].1@ == sort_key(sorted@[k]).1,
        decreases found@.len() - i,
    {
        let ghost t = found@.take(i + 1);
        assert(t.drop_last() =~= found@.take(i as int));
        assert(t.last() == found@[i as int]);
        let name = &found[i].0;
        let path = found[i].1.clone();
        let name_chars = chars_of(name.as_str());
        let lowered = lower_chars(&name_chars);
        let hidden = name_chars.len() > 0 && name_chars[0] == '.';
        proof {
            reveal_strlit(".");
            reveal_strlit("collection.bru");
            reveal_strlit("folder.bru");
            reveal_strlit("environments");
            assert("."@ =~= seq!['.']);
            if name@.len() > 0 {
                assert(name@.take(1) =~= seq![name@[0]]);
                if name@[0] == '.' {
                    assert(name@.take(1) =~= "."@);
                }
                if starts_with(name@, "."@) {
                    assert(name@.take(1)[0] == '.');
                }
            }
            assert(starts_with(name@, "."@) == (name@.len() > 0 && name@[0] == '.'));
        }
        let keep = match found[i].2 {
            Some(k) => {
                let bruno_file = match k {
                    EntryKind::Request(_) => same(&lowered, &chars_of("collection.bru")) || same(&lowered, &chars_of("folder.bru")),
                    _ => false,
                };
                let bruno_environments = k == EntryKind::Dir && in_bruno_root && same(&lowered, &chars_of("environments"));
                !hidden && !bruno_file && !bruno_environments
            },
            None => false,
        };
        assert(keep == listed(name@, found@[i as int].2, flag));
        if keep {
            let entry_kind = match found[i].2 {
                Some(k) => k,
                None => EntryKind::Dir,
            };
            let entry = Entry { name: name.clone(), path, kind: entry_kind };
            let dir_last = entry_kind != EntryKind::Dir;
            let key = chars_of(to_lowercase(name.as_str()).as_str());
            let mut at: usize = 0;
            let ghost before_sorted = sorted@;
            assert(before_sorted.skip(0) =~= before_sorted);
            while at < sorted.len() && !key_before_exec(dir_last, &key, keys[at].0, &keys[at].1)
                invariant
                    at <= sorted@.len(),
                    sorted@ == before_sorted,
                    keys@.len() == sorted@.len(),
                    forall|k: int| 0 <= k < keys@.len() ==> (#[trigger] keys@[k]).0 == sort_key(sorted@[k]).0
                        && keys@[k].1@ == sort_key(sorted@[k]).1,
                    slot_for(before_sorted, (dir_last, key@)) == at + slot_for(before_sorted.skip(at as int), (dir_last, key@)),
                decreases sorted@.len() - at,
            {
                assert(before_sorted.skip(at as int)[0] == before_sorted[at as int]);
                assert(before_sorted.skip(at as int).skip(1) =~= before_sorted.skip(at + 1));
                at += 1;
            }
            proof {
                if at < sorted@.len() {
                    assert(before_sorted.skip(at as int)[0] == before_sorted[at as int]);
                }
                assert(sort_key(entry) == (dir_last, key@));
            }
            let ghost old_keys = keys@;
            let ghost key_view = key@;
            sorted.insert(at, entry);
            keys.insert(at, (dir_last, key));
            proof {
                assert forall|k: int| 0 <= k < keys@.len() implies (#[trigger] keys@[k]).0 == sort_key(sorted@[k]).0
                    && keys@[k].1@ == sort_key(sorted@[k]).1 by {
                    if k < at as int {
                        assert(keys@[k] == old_keys[k]);
                        assert(sorted@[k] == before_sorted[k]);
                    } else if k > at as int {
                        assert(keys@[k] == old_keys[k - 1]);
                        assert(sorted@[k] == before_sorted[k - 1]);
                    } else {
                        assert(keys@[k].1@ == key_view);
                    }
                }
            }
        }
        i += 1;
    }
    assert(found@.take(found@.len() as int) =~= found@);
    sorted
}

/// Entries in the order the sidebar wants: none comes before one listed
/// ahead of it.
pub open spec fn in_order(entries: Seq<Entry>) -> bool {
    forall|i: int, j: int| 0 <= i < j < entries.len() ==> !key_before(sort_key(#[trigger] entries[j]), sort_key(#[trigger] entries[i]))
}

proof fn lemma_key_before_transitive(a: (bool, Seq<char>), b: (bool, Seq<char>), c: (bool, Seq<char>))
    requires
        key_before(a, b),
        key_before(b, c),
    ensures
        key_before(a, c),
{
    if a.0 == b.0 && b.0 == c.0 {
        lemma_before_transitive(a.1, b.1, c.1);
    }
}

proof fn lemma_key_before_irreflexive(a: (bool, Seq<char>))
    ensures
        !key_before(a, a),
{
    lemma_before_irreflexive(a.1);
}

proof fn lemma_slot(sorted: Seq<Entry>, key: (bool, Seq<char>))
    ensures
        0 <= slot_for(sorted, key) <= sorted.len(),
        forall|j: int| 0 <= j < slot_for(sorted, key) ==> !key_before(key, sort_key(#[trigger] sorted[j])),
        slot_for(sorted, key) < sorted.len() ==> key_before(key, sort_key(sorted[slot_for(sorted, key)])),
    decreases sorted.len(),
{
    if sorted.len() > 0 && !key_before(key, sort_key(sorted[0])) {
        let rest = sorted.skip(1);
        lemma_slot(rest, key);
        assert forall|j: int| 0 <= j < slot_for(sorted, key) implies !key_before(key, sort_key(#[trigger] sorted[j])) by {
            if j > 0 {
                assert(sorted[j] == rest[j - 1]);
            }
        }
        if slot_for(sorted, key) < sorted.len() {
            assert(sorted[slot_for(sorted, key)] == rest[slot_for(rest, key)]);
        }
    }
}

proof fn lemma_insert_in_order(sorted: Seq<Entry>, entry: Entry)
    requires
        in_order(sorted),
    ensures
        in_order(sorted.insert(slot_for(sorted, sort_key(entry)), entry)),
{
    let key = sort_key(entry);
    let p = slot_for(sorted, key);
    lemma_slot(sorted, key);
    let after = sorted.insert(p, entry);
    assert forall|i: int, j: int| 0 <= i < j < after.len() implies !key_before(sort_key(#[trigger] after[j]), sort_key(#[trigger] after[i])) by {
        if j < p {
            assert(after[i] == sorted[i] && after[j] == sorted[j]);
        } else if j == p {
            assert(after[i] == sorted[i]);
        } else if i == p {
            let m = j - 1;
            assert(after[j] == sorted[m]);
            if key_before(sort_key(sorted[m]), key) {
                lemma_key_before_transitive(sort_key(sorted[m]), key, sort_key(sorted[p]));
                if m == p {
                    lemma_key_before_irreflexive(sort_key(sorted[p]));
                }
            }
        } else if i < p {
            assert(after[i] == sorted[i] && after[j] == sorted[j - 1]);
        } else {
            assert(after[i] == sorted[i - 1] && after[j] == sorted[j - 1]);
        }
    }
}

/// A listing is in the sidebar's order: directories first, then the rest,
/// each run by name without regard to case.
pub proof fn listing_in_order(found: Seq<(String, String, Option<EntryKind>)>, in_bruno_root: bool)
    ensures
        in_order(listing_of(found, in_bruno_root)),
    decreases found.len(),
{
    if found.len() > 0 {
        listing_in_order(found.drop_last(), in_bruno_root);
        let (name, path, kind) = found.last();
        if listed(name@, kind, in_bruno_root) {
            lemma_insert_in_order(listing_of(found.drop_last(), in_bruno_root), Entry { name, path, kind: kind->0 });
        }
    }
}

/// What the search orders a request by: where it sits, then its title in
/// Unicode lower case.
pub open spec fn found_key(f: Found) -> (Seq<char>, Seq<char>) {
    (f.location@, unicode_lower(f.title@))
}

/// `a` comes before `b` in the search's order.
pub open spec fn found_before(a: (Seq<char>, Seq<char>), b: (Seq<char>, Seq<char>)) -> bool {
    before(a.0, b.0) || (a.0 == b.0 && before(a.1, b.1))
}

/// `x` placed after every request whose key does not come after its own.
pub open spec fn found_placed(s: Seq<Found>, x: Found) -> Seq<Found>
    decreases s.len(),
{
    if s.len() == 0 {
        seq![x]
    } else if found_before(found_key(x), found_key(s.last())) {
        found_placed(s.drop_last(), x).push(s.last())
    } else {
        s.push(x)
    }
}

/// The requests in the search's order; those with equal keys keep the
/// order they were found in.
pub open spec fn search_order(s: Seq<Found>) -> Seq<Found>
    decreases s.len(),
{
    if s.len() == 0 {
        Seq::empty()
    } else {
        found_placed(search_order(s.drop_last()), s.last())
    }
}

proof fn lemma_found_placed_at(s: Seq<Found>, x: Found, j: int)
    requires
        0 <= j <= s.len(),
        forall|m: int| j <= m < s.len() ==> found_before(found_key(x), found_key(#[trigger] s[m])),
        j > 0 ==> !found_before(found_key(x), found_key(s[j - 1])),
    ensures
        found_placed(s, x) == s.take(j).push(x) + s.skip(j),
    decreases s.len(),
{
    if s.len() == 0 {
        assert(s.take(j).push(x) + s.skip(j) =~= seq![x]);
    } else if j == s.len() {
        assert(s.take(j).push(x) + s.skip(j) =~= s.push(x));
    } else {
        assert(found_before(found_key(x), found_key(s[s.len() - 1])));
        let dl = s.drop_last();
        lemma_found_placed_at(dl, x, j);
        assert(dl.take(j) =~= s.take(j));
        assert((dl.take(j).push(x) + dl.skip(j)).push(s.last()) =~= s.take(j).push(x) + s.skip(j));
    }
}

/// Whether a request with keys `(location, title)` goes before one with
/// `(other_location, other_title)`.
fn key_goes_before(location: &Vec<char>, title: &Vec<char>, other_location: &Vec<char>, other_title: &Vec<char>) -> (r: bool)
    ensures
        r == found_before((location@, title@), (other_location@, other_title@)),
{
    match compare(location, other_location) {
        Order::Less => true,
        Order::Greater => false,
        Order::Equal => matches!(compare(title, other_title), Order::Less),
    }
}

/// The requests the search lists, in its order: by where they sit, then by
/// title whatever its case; ties keep the order they were found in.
pub fn in_search_order(found: Vec<Found>) -> (r: Vec<Found>)
    ensures
        r@ == search_order(found@),
{
    let ghost all = found@;
    let mut rest = found;
    let mut out: Vec<Found> = Vec::new();
    let mut locations: Vec<Vec<char>> = Vec::new();
    let mut titles: Vec<Vec<char>> = Vec::new();
    while rest.len() > 0
        invariant
            rest@.len() <= all.len(),
            rest@ == all.skip(all.len() - rest@.len()),
            out@ == search_order(all.take(all.len() - rest@.len())),
            locations@.len() == out@.len(),
            titles@.len() == out@.len(),
            forall|m: int| 0 <= m < out@.len() ==> (#[trigger] locations@[m])@ == found_key(out@[m]).0,
            forall|m: int| 0 <= m < out@.len() ==> (#[trigger] titles@[m])@ == found_key(out@[m]).1,
        decreases rest@.len(),
    {
        let ghost n = all.len() - rest@.len();
        let ghost sorted = out@;
        let f = rest.remove(0);
        assert(all.take(n + 1).drop_last() =~= all.take(n));
        assert(all.take(n + 1).last() == f);
        assert(rest@ =~= all.skip(all.len() - rest@.len()));
        let location = chars_of(f.location.as_str());
        let title = chars_of(to_lowercase(f.title.as_str()).as_str());
        let mut j: usize = out.len();
        while j > 0 && key_goes_before(&location, &title, &locations[j - 1], &titles[j - 1])
            invariant
                j <= out@.len(),
                sorted == out@,
                locations@.len() == out@.len(),
                titles@.len() == out@.len(),
                location@ == found_key(f).0,
                title@ == found_key(f).1,
                forall|m: int| 0 <= m < out@.len() ==> (#[trigger] locations@[m])@ == found_key(out@[m]).0,
                forall|m: int| 0 <= m < out@.len() ==> (#[trigger] titles@[m])@ == found_key(out@[m]).1,
                forall|m: int| j <= m < out@.len() ==> found_before(found_key(f), found_key(#[trigger] sorted[m])),
            decreases j,
        {
            assert(locations@[j - 1]@ == found_key(sorted[j - 1]).0);
            assert(titles@[j - 1]@ == found_key(sorted[j - 1]).1);
            j -= 1;
        }
        proof {
            if j > 0 {
                assert(locations@[j - 1]@ == found_key(sorted[j - 1]).0);
                assert(titles@[j - 1]@ == found_key(sorted[j - 1]).1);
            }
            lemma_found_placed_at(sorted, f, j as int);
        }
        let ghost old_locations = locations@;
        let ghost old_titles = titles@;
        out.insert(j, f);
        locations.insert(j, location);
        titles.insert(j, title);
        assert(out@ =~= sorted.take(j as int).push(f) + sorted.skip(j as int));
        assert forall|m: int| 0 <= m < out@.len() implies (#[trigger] locations@[m])@ == found_key(out@[m]).0
            && titles@[m]@ == found_key(out@[m]).1 by {
            if m < j {
                assert(locations@[m] == old_locations[m]);
                assert(titles@[m] == old_titles[m]);
                assert(out@[m] == sorted[m]);
            } else if m > j {
                assert(locations@[m] == old_locations[m - 1]);
                assert(titles@[m] == old_titles[m - 1]);
                assert(out@[m] == sorted[m - 1]);
            }
        }
    }
    assert(all.take(all.len() as int) =~= all);
    out
}

/// No request in `s` comes after one that follows it.
pub open spec fn search_sorted(s: Seq<Found>) -> bool {
    forall|i: int, j: int| 0 <= i < j < s.len() ==> !found_before(found_key(#[trigger] s[j]), found_key(#[trigger] s[i]))
}

proof fn lemma_found_before_facts(a: (Seq<char>, Seq<char>), b: (Seq<char>, Seq<char>), c: (Seq<char>, Seq<char>))
    ensures
        !found_before(a, a),
        found_before(a, b) ==> !found_before(b, a),
        found_before(a, b) && found_before(b, c) ==> found_before(a, c),
        !found_before(a, b) && !found_before(b, a) ==> a == b,
{
    lemma_before_irreflexive(a.0);
    lemma_before_irreflexive(a.1);
    lemma_before_total(a.0, b.0);
    lemma_before_total(a.1, b.1);
    if before(a.0, b.0) {
        lemma_before_asymmetric(a.0, b.0);
    }
    if before(b.0, a.0) {
        lemma_before_asymmetric(b.0, a.0);
    }
    if before(a.1, b.1) {
        lemma_before_asymmetric(a.1, b.1);
    }
    if found_before(a, b) && found_before(b, c) {
        if before(a.0, b.0) && before(b.0, c.0) {
            lemma_before_transitive(a.0, b.0, c.0);
        } else if a.0 == b.0 && b.0 == c.0 {
            lemma_before_transitive(a.1, b.1, c.1);
        }
    }
}

/// A request placed in a list holds that request and the list's own.
proof fn lemma_found_placed_holds(s: Seq<Found>, x: Found)
    ensures
        found_placed(s, x).len() == s.len() + 1,
        forall|m: int| 0 <= m < found_placed(s, x).len() ==> #[trigger] found_placed(s, x)[m] == x
            || s.contains(found_placed(s, x)[m]),
    decreases s.len(),
{
    if s.len() > 0 && found_before(found_key(x), found_key(s.last())) {
        let dl = s.drop_last();
        lemma_found_placed_holds(dl, x);
        let p = found_placed(dl, x);
        assert forall|m: int| 0 <= m < found_placed(s, x).len() implies #[trigger] found_placed(s, x)[m] == x
            || s.contains(found_placed(s, x)[m]) by {
            if m < p.len() {
                assert(found_placed(s, x)[m] == p[m]);
                if p[m] != x {
                    let k = choose|k: int| 0 <= k < dl.len() && dl[k] == p[m];
                    assert(s[k] == p[m]);
                }
            } else {
                assert(found_placed(s, x)[m] == s[s.len() - 1]);
            }
        }
    } else if s.len() > 0 {
        assert forall|m: int| 0 <= m < found_placed(s, x).len() implies #[trigger] found_placed(s, x)[m] == x
            || s.contains(found_placed(s, x)[m]) by {
            if m < s.len() {
                assert(found_placed(s, x)[m] == s[m]);
            }
        }
    }
}

/// Placing a request in a sorted list keeps it sorted.
proof fn lemma_found_placed_sorted(s: Seq<Found>, x: Found)
    requires
        search_sorted(s),
    ensures
        search_sorted(found_placed(s, x)),
    decreases s.len(),
{
    if s.len() == 0 {
    } else if found_before(found_key(x), found_key(s.last())) {
        let dl = s.drop_last();
        let last = s.last();
        assert(search_sorted(dl)) by {
            assert forall|i: int, j: int| 0 <= i < j < dl.len() implies !found_before(found_key(#[trigger] dl[j]), found_key(#[trigger] dl[i])) by {
                assert(dl[i] == s[i] && dl[j] == s[j]);
            }
        }
        lemma_found_placed_sorted(dl, x);
        lemma_found_placed_holds(dl, x);
        let p = found_placed(dl, x);
        let r = found_placed(s, x);
        assert(r == p.push(last));
        assert forall|i: int, j: int| 0 <= i < j < r.len() implies !found_before(found_key(#[trigger] r[j]), found_key(#[trigger] r[i])) by {
            if j < p.len() {
                assert(r[i] == p[i] && r[j] == p[j]);
            } else {
                assert(r[j] == last);
                assert(r[i] == p[i]);
                lemma_found_before_facts(found_key(x), found_key(last), found_key(x));
                if p[i] != x {
                    let k = choose|k: int| 0 <= k < dl.len() && dl[k] == p[i];
                    assert(s[k] == p[i]);
                    assert(!found_before(found_key(s[s.len() - 1]), found_key(s[k])));
                }
            }
        }
    } else {
        let r = found_placed(s, x);
        let last = s.last();
        assert(r == s.push(x));
        assert forall|i: int, j: int| 0 <= i < j < r.len() implies !found_before(found_key(#[trigger] r[j]), found_key(#[trigger] r[i])) by {
            if j < s.len() {
                assert(r[i] == s[i] && r[j] == s[j]);
            } else {
                assert(r[j] == x);
                assert(r[i] == s[i]);
                if i < s.len() - 1 {
                    assert(!found_before(found_key(s[s.len() - 1]), found_key(s[i])));
                }
                lemma_found_before_facts(found_key(x), found_key(s[i]), found_key(last));
                lemma_found_before_facts(found_key(s[i]), found_key(last), found_key(x));
            }
        }
    }
}

/// What the search lists is in its order: no request comes after one
/// that follows it.
pub proof fn search_order_is_sorted(s: Seq<Found>)
    ensures
        search_sorted(search_order(s)),
    decreases s.len(),
{
    if s.len() > 0 {
        search_order_is_sorted(s.drop_last());
        lemma_found_placed_sorted(search_order(s.drop_last()), s.last());
    }
}

/// A file name an OpenAPI spec may have: `.json`, `.yaml` or `.yml`, case
/// aside.
pub open spec fn spec_candidate(name: Seq<char>) -> bool {
    let l = lower(name);
    ends_with(l, ".json"@) || ends_with(l, ".yaml"@) || ends_with(l, ".yml"@)
}

/// Whether a file of this name is worth looking into for an OpenAPI spec.
pub fn may_be_spec(name: &str) -> (r: bool)
    ensures
        r == spec_candidate(name@),
{
    let l = lower_chars(&chars_of(name));
    ends_with_chars(&l, &chars_of(".json")) || ends_with_chars(&l, &chars_of(".yaml")) || ends_with_chars(&l, &chars_of(".yml"))
}

pub open spec fn opt_bytes(head: Option<Vec<u8>>) -> Option<Seq<u8>> {
    match head {
        Some(h) => Some(h@),
        None => None,
    }
}

/// What binman makes of a path: a directory; a request file, by its
/// extension; a Postman export, by its name; an OpenAPI spec, by a name a
/// spec may have and a first kilobyte `head` that declares one; or none of
/// them.
pub open spec fn entry_kind(path: Seq<char>, name: Seq<char>, is_dir: bool, head: Option<Seq<u8>>) -> Option<EntryKind> {
    let format = match path_extension(path) {
        Some(extension) => format_of_extension(extension),
        None => None,
    };
    if is_dir {
        Some(EntryKind::Dir)
    } else if format is Some {
        Some(EntryKind::Request(format->0))
    } else if ends_with(lower(name), collection_suffix()) {
        Some(EntryKind::Postman)
    } else if spec_candidate(name) && (head matches Some(h) && looks_like_spec(h, lower(name))) {
        Some(EntryKind::OpenApi)
    } else {
        None
    }
}

/// What binman makes of the file or directory at `path`, called `name`:
/// `is_dir` and, for a name [`may_be_spec`] accepts, the file's first
/// kilobyte, are read by the caller.
pub fn kind_of(path: &str, name: &str, is_dir: bool, head: &Option<Vec<u8>>) -> (r: Option<EntryKind>)
    ensures
        r == entry_kind(path@, name@, is_dir, opt_bytes(*head)),
{
    if is_dir {
        return Some(EntryKind::Dir);
    }
    if let Some(format) = Format::of(path) {
        return Some(EntryKind::Request(format));
    }
    if is_collection(name) {
        return Some(EntryKind::Postman);
    }
    if may_be_spec(name) {
        if let Some(bytes) = head {
            let lowered = string_of(&lower_chars(&chars_of(name)));
            if is_spec(bytes.as_slice(), lowered.as_str()) {
                return Some(EntryKind::OpenApi);
            }
        }
    }
    None
}

} // verus!
