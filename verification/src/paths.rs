//! Walking from a request's directory up to the collection root.

use vstd::prelude::*;

use crate::text::chars_of;
use crate::varmap::{before, compare, lemma_before_asymmetric, lemma_before_irreflexive, lemma_before_transitive, pair_views, Order};

verus! {

/// What `Path::parent` gives for the path `path` writes: the path without
/// its final component, or nothing for a root or an empty path.
pub uninterp spec fn parent_path(path: Seq<char>) -> Option<Seq<char>>;

/// Whether two paths name the same place as `Path`'s `==` compares them:
/// component by component, so `/c/` and `/c` are one path.
pub uninterp spec fn same_path(a: Seq<char>, b: Seq<char>) -> bool;

/// `Path::parent`, written back as text. The parent is the path with its
/// last component taken off, so it is shorter than the path; the contract
/// says that much and otherwise only names the result.
#[verifier::external_body]
pub(crate) fn parent_of(path: &str) -> (r: Option<String>)
    ensures
        match r {
            Some(parent) => parent_path(path@) == Some(parent@) && parent@.len() < path@.len(),
            None => parent_path(path@) is None,
        },
{
    std::path::Path::new(path).parent().map(|parent| parent.to_string_lossy().into_owned())
}

/// `Path`'s `==` on the paths `a` and `b` write. The contract only names
/// the result.
#[verifier::external_body]
pub(crate) fn paths_equal(a: &str, b: &str) -> (r: bool)
    ensures
        r == same_path(a@, b@),
{
    std::path::Path::new(a) == std::path::Path::new(b)
}

/// Every directory from `dir` up to and including `root`, deepest first, or
/// up to the filesystem root when `root` is not above `dir`.
pub open spec fn lineage_of(dir: Seq<char>, root: Seq<char>) -> Seq<Seq<char>>
    decreases dir.len(),
{
    if same_path(dir, root) {
        seq![dir]
    } else {
        match parent_path(dir) {
            Some(parent) => if parent.len() < dir.len() {
                seq![dir] + lineage_of(parent, root)
            } else {
                seq![dir]
            },
            None => seq![dir],
        }
    }
}

/// Every directory from `dir` up to and including `root`, deepest first.
///
/// Stops at the filesystem root when `dir` is not inside `root` at all, rather
/// than looping, so a request opened from outside the collection still finds
/// the environments above it.
pub fn lineage(dir: &str, root: &str) -> (r: Vec<String>)
    ensures
        r@.map_values(|p: String| p@) == lineage_of(dir@, root@),
{
    let mut out: Vec<String> = Vec::new();
    let mut here = dir.to_string();
    loop
        invariant
            out@.map_values(|p: String| p@) + lineage_of(here@, root@) == lineage_of(dir@, root@),
        decreases here@.len(),
    {
        let ghost before = out@.map_values(|p: String| p@);
        let ghost rest = lineage_of(here@, root@);
        if paths_equal(here.as_str(), root) {
            out.push(here);
            assert(out@.map_values(|p: String| p@) == before.push(rest[0]));
            assert(before + rest == before.push(rest[0]));
            return out;
        }
        match parent_of(here.as_str()) {
            Some(parent) => {
                let ghost tail = lineage_of(parent@, root@);
                out.push(here);
                assert(out@.map_values(|p: String| p@) == before.push(rest[0]));
                assert(rest == seq![rest[0]] + tail);
                assert(before + rest == before.push(rest[0]) + tail);
                here = parent;
            },
            None => {
                out.push(here);
                assert(out@.map_values(|p: String| p@) == before.push(rest[0]));
                assert(before + rest == before.push(rest[0]));
                return out;
            },
        }
    }
}

/// The path `Path::join` makes of `base` and `file`: `file` under `base`,
/// or `file` itself when it is absolute.
pub uninterp spec fn joined_path(base: Seq<char>, file: Seq<char>) -> Seq<char>;

/// `Path::join`, written back as text. The contract only names the result.
#[verifier::external_body]
pub(crate) fn join_path(base: &str, file: &str) -> (r: String)
    ensures
        r@ == joined_path(base@, file@),
{
    std::path::Path::new(base).join(file).to_string_lossy().into_owned()
}

/// The components `Path::components` reads from the path `path` writes,
/// each as text: a leading `/` is one, and `.` and doubled separators are
/// not there.
pub uninterp spec fn components_of(path: Seq<char>) -> Seq<Seq<char>>;

/// `Path::components`, each written back as text. The contract only names
/// the result.
#[verifier::external_body]
pub(crate) fn path_components(path: &str) -> (r: Vec<String>)
    ensures
        r@.map_values(|c: String| c@) == components_of(path@),
{
    let mut out = Vec::new();
    for component in std::path::Path::new(path).components() {
        out.push(component.as_os_str().to_string_lossy().into_owned());
    }
    out
}

/// `Path::file_stem`, as text: the file name without its extension, or
/// the whole name when it has none.
pub uninterp spec fn stem_of(path: Seq<char>) -> Option<Seq<char>>;

/// `Path::file_stem`, written back as text. The contract only names the
/// result.
#[verifier::external_body]
pub(crate) fn file_stem(path: &str) -> (r: Option<String>)
    ensures
        match r {
            Some(stem) => stem_of(path@) == Some(stem@),
            None => stem_of(path@) is None,
        },
{
    std::path::Path::new(path).file_stem().map(|stem| stem.to_string_lossy().into_owned())
}

/// One pair strictly before another in the order a sort of `(String,
/// String)` tuples gives: by the first, then by the second.
pub open spec fn pair_before(a: (Seq<char>, Seq<char>), b: (Seq<char>, Seq<char>)) -> bool {
    before(a.0, b.0) || (a.0 == b.0 && before(a.1, b.1))
}

/// Where `p` goes among sorted pairs: after every one it does not come
/// before, so pairs that sort alike keep the order they came in.
pub open spec fn pair_slot(sorted: Seq<(Seq<char>, Seq<char>)>, p: (Seq<char>, Seq<char>)) -> int
    decreases sorted.len(),
{
    if sorted.len() == 0 {
        0
    } else if pair_before(p, sorted[0]) {
        0
    } else {
        1 + pair_slot(sorted.skip(1), p)
    }
}

/// The pairs sorted one at a time, in the order they came.
pub open spec fn pairs_sorted(pairs: Seq<(Seq<char>, Seq<char>)>) -> Seq<(Seq<char>, Seq<char>)>
    decreases pairs.len(),
{
    if pairs.len() == 0 {
        Seq::empty()
    } else {
        let sorted = pairs_sorted(pairs.drop_last());
        sorted.insert(pair_slot(sorted, pairs.last()), pairs.last())
    }
}

proof fn lemma_pair_slot_bounds(sorted: Seq<(Seq<char>, Seq<char>)>, p: (Seq<char>, Seq<char>))
    ensures
        0 <= pair_slot(sorted, p) <= sorted.len(),
        forall|j: int| 0 <= j < pair_slot(sorted, p) ==> !pair_before(p, #[trigger] sorted[j]),
        pair_slot(sorted, p) < sorted.len() ==> pair_before(p, sorted[pair_slot(sorted, p)]),
    decreases sorted.len(),
{
    if sorted.len() > 0 && !pair_before(p, sorted[0]) {
        let rest = sorted.skip(1);
        lemma_pair_slot_bounds(rest, p);
        assert forall|j: int| 0 <= j < pair_slot(sorted, p) implies !pair_before(p, #[trigger] sorted[j]) by {
            if j > 0 {
                assert(sorted[j] == rest[j - 1]);
            }
        }
        if pair_slot(sorted, p) < sorted.len() {
            assert(sorted[pair_slot(sorted, p)] == rest[pair_slot(rest, p)]);
        }
    }
}

fn pair_before_exec(a: &(Vec<char>, Vec<char>), b: &(Vec<char>, Vec<char>)) -> (r: bool)
    ensures
        r == pair_before((a.0@, a.1@), (b.0@, b.1@)),
{
    match compare(&a.0, &b.0) {
        Order::Less => true,
        Order::Equal => match compare(&a.1, &b.1) {
            Order::Less => true,
            _ => false,
        },
        Order::Greater => {
            proof {
                lemma_before_asymmetric(b.0@, a.0@);
            }
            false
        },
    }
}

/// Pairs sorted as `sort` sorts `(String, String)` tuples: a directory's
/// file names with their paths, say, in name order.
pub fn in_name_order(pairs: &Vec<(String, String)>) -> (r: Vec<(String, String)>)
    ensures
        pair_views(r@) == pairs_sorted(pair_views(pairs@)),
{
    let ghost all = pair_views(pairs@);
    let mut sorted: Vec<(String, String)> = Vec::new();
    let mut keys: Vec<(Vec<char>, Vec<char>)> = Vec::new();
    let mut i: usize = 0;
    while i < pairs.len()
        invariant
            i <= pairs@.len(),
            all == pair_views(pairs@),
            pair_views(sorted@) == pairs_sorted(all.take(i as int)),
            keys@.len() == sorted@.len(),
            forall|k: int| 0 <= k < keys@.len() ==> (#[trigger] keys@[k]).0@ == sorted@[k].0@ && keys@[k].1@ == sorted@[k].1@,
        decreases pairs@.len() - i,
    {
        assert(all.take(i + 1).drop_last() == all.take(i as int));
        assert(all.take(i + 1).last() == all[i as int]);
        let key = (chars_of(pairs[i].0.as_str()), chars_of(pairs[i].1.as_str()));
        let ghost before_sorted = pair_views(sorted@);
        let ghost p = (key.0@, key.1@);
        let mut at: usize = 0;
        assert(before_sorted.skip(0) == before_sorted);
        while at < sorted.len() && !pair_before_exec(&key, &keys[at])
            invariant
                at <= sorted@.len(),
                before_sorted == pair_views(sorted@),
                p == (key.0@, key.1@),
                keys@.len() == sorted@.len(),
                forall|k: int| 0 <= k < keys@.len() ==> (#[trigger] keys@[k]).0@ == sorted@[k].0@ && keys@[k].1@ == sorted@[k].1@,
                pair_slot(before_sorted, p) == at + pair_slot(before_sorted.skip(at as int), p),
            decreases sorted@.len() - at,
        {
            assert(before_sorted.skip(at as int)[0] == before_sorted[at as int]);
            assert(before_sorted.skip(at as int).skip(1) == before_sorted.skip(at + 1));
            at += 1;
        }
        proof {
            if at < sorted@.len() {
                assert(before_sorted.skip(at as int)[0] == before_sorted[at as int]);
            }
        }
        let ghost old_keys = keys@;
        let ghost old_sorted = sorted@;
        let entry = (pairs[i].0.clone(), pairs[i].1.clone());
        assert(entry.0@ == p.0 && entry.1@ == p.1);
        sorted.insert(at, entry);
        keys.insert(at, key);
        proof {
            assert(pair_views(sorted@) == before_sorted.insert(at as int, p));
            assert forall|k: int| 0 <= k < keys@.len() implies (#[trigger] keys@[k]).0@ == sorted@[k].0@ && keys@[k].1@ == sorted@[k].1@ by {
                if k < at as int {
                    assert(keys@[k] == old_keys[k] && sorted@[k] == old_sorted[k]);
                } else if k > at as int {
                    assert(keys@[k] == old_keys[k - 1] && sorted@[k] == old_sorted[k - 1]);
                }
            }
        }
        i += 1;
    }
    assert(all.take(pairs@.len() as int) == all);
    sorted
}

/// Pairs in order: none comes before one ahead of it.
pub open spec fn pairs_in_order(pairs: Seq<(Seq<char>, Seq<char>)>) -> bool {
    forall|i: int, j: int| 0 <= i < j < pairs.len() ==> !pair_before(#[trigger] pairs[j], #[trigger] pairs[i])
}

proof fn lemma_pair_before_transitive(a: (Seq<char>, Seq<char>), b: (Seq<char>, Seq<char>), c: (Seq<char>, Seq<char>))
    requires
        pair_before(a, b),
        pair_before(b, c),
    ensures
        pair_before(a, c),
{
    if before(a.0, b.0) && before(b.0, c.0) {
        lemma_before_transitive(a.0, b.0, c.0);
    } else if a.0 == b.0 && b.0 == c.0 {
        lemma_before_transitive(a.1, b.1, c.1);
    }
}

/// What [`in_name_order`] gives is in order, and holds the same pairs as
/// many times each.
pub proof fn name_order_sorts(pairs: Seq<(Seq<char>, Seq<char>)>)
    ensures
        pairs_in_order(pairs_sorted(pairs)),
        pairs_sorted(pairs).to_multiset() == pairs.to_multiset(),
    decreases pairs.len(),
{
    if pairs.len() > 0 {
        let rest = pairs.drop_last();
        let p = pairs.last();
        name_order_sorts(rest);
        let sorted = pairs_sorted(rest);
        let at = pair_slot(sorted, p);
        lemma_pair_slot_bounds(sorted, p);
        let after = sorted.insert(at, p);
        assert forall|i: int, j: int| 0 <= i < j < after.len() implies !pair_before(#[trigger] after[j], #[trigger] after[i]) by {
            if j < at {
                assert(after[i] == sorted[i] && after[j] == sorted[j]);
            } else if j == at {
                assert(after[i] == sorted[i]);
            } else if i == at {
                let m = j - 1;
                assert(after[j] == sorted[m]);
                if pair_before(sorted[m], p) {
                    lemma_pair_before_transitive(sorted[m], p, sorted[at]);
                    if m == at {
                        lemma_before_irreflexive(sorted[at].0);
                        lemma_before_irreflexive(sorted[at].1);
                    } else {
                        assert(!pair_before(sorted[m], sorted[at]));
                    }
                }
            } else if i < at {
                assert(after[i] == sorted[i] && after[j] == sorted[j - 1]);
            } else {
                assert(after[i] == sorted[i - 1] && after[j] == sorted[j - 1]);
            }
        }
        sorted.insert_ensures(at, p);
        assert(after.remove(at) == sorted);
        assert(after[at] == p);
        rest.to_multiset_ensures();
        assert(pairs == rest.push(p));
        after.to_multiset_ensures();
        assert(after.contains(p));
        assert(after.to_multiset().count(p) > 0);
        assert(sorted.to_multiset() == after.to_multiset().remove(p));
        assert(after.to_multiset() =~= sorted.to_multiset().insert(p));
        assert(rest.push(p).to_multiset() =~= rest.to_multiset().insert(p));
        assert(pairs_sorted(pairs) == after);
    } else {
        assert(pairs =~= Seq::<(Seq<char>, Seq<char>)>::empty());
        assert(pairs_sorted(pairs) =~= pairs);
    }
}

} // verus!
