//! `Vars`: variable names to values, kept in name order as a `BTreeMap`
//! would keep them.

use vstd::prelude::*;

use crate::text::{chars_of, copy_string};

verus! {

/// Strictly before, comparing character by character, a prefix first: the
/// order `String`'s `Ord` puts names in.
pub open spec fn before(a: Seq<char>, b: Seq<char>) -> bool
    decreases a.len(),
{
    if a.len() == 0 {
        b.len() > 0
    } else if b.len() == 0 {
        false
    } else if a[0] < b[0] {
        true
    } else if a[0] == b[0] {
        before(a.drop_first(), b.drop_first())
    } else {
        false
    }
}

pub proof fn lemma_before_irreflexive(a: Seq<char>)
    ensures
        !before(a, a),
    decreases a.len(),
{
    if a.len() > 0 {
        lemma_before_irreflexive(a.drop_first());
    }
}

pub proof fn lemma_before_total(a: Seq<char>, b: Seq<char>)
    ensures
        a == b || before(a, b) || before(b, a),
    decreases a.len(),
{
    if a.len() > 0 && b.len() > 0 && a[0] == b[0] {
        lemma_before_total(a.drop_first(), b.drop_first());
        if a.drop_first() == b.drop_first() {
            assert(a == seq![a[0]] + a.drop_first());
            assert(b == seq![b[0]] + b.drop_first());
        }
    } else if a.len() == 0 && b.len() == 0 {
        assert(a == b);
    } else if a.len() > 0 && b.len() > 0 {

    }
}

pub proof fn lemma_before_asymmetric(a: Seq<char>, b: Seq<char>)
    requires
        before(a, b),
    ensures
        !before(b, a),
    decreases a.len(),
{
    if a.len() > 0 && b.len() > 0 && a[0] == b[0] {
        lemma_before_asymmetric(a.drop_first(), b.drop_first());
    }
}

pub proof fn lemma_before_transitive(a: Seq<char>, b: Seq<char>, c: Seq<char>)
    requires
        before(a, b),
        before(b, c),
    ensures
        before(a, c),
    decreases a.len(),
{
    if a.len() > 0 && b.len() > 0 && c.len() > 0 && a[0] == b[0] && b[0] == c[0] {
        lemma_before_transitive(a.drop_first(), b.drop_first(), c.drop_first());
    }
}

proof fn lemma_before_skip(a: Seq<char>, b: Seq<char>, i: int)
    requires
        0 <= i <= a.len(),
        i <= b.len(),
        a.take(i) == b.take(i),
    ensures
        before(a, b) == before(a.skip(i), b.skip(i)),
    decreases i,
{
    if i > 0 {
        assert(a[0] == a.take(i)[0]);
        assert(b[0] == b.take(i)[0]);
        assert(a.drop_first().take(i - 1) == a.take(i).drop_first());
        assert(b.drop_first().take(i - 1) == b.take(i).drop_first());
        lemma_before_skip(a.drop_first(), b.drop_first(), i - 1);
        assert(a.drop_first().skip(i - 1) == a.skip(i));
        assert(b.drop_first().skip(i - 1) == b.skip(i));
    } else {
        assert(a.skip(0) == a);
        assert(b.skip(0) == b);
    }
}

/// How two names compare.
#[derive(Debug, Clone, Copy, PartialEq, Eq)]
pub enum Order {
    Less,
    Equal,
    Greater,
}

/// Compares two names in `String`'s order.
pub fn compare(a: &[char], b: &[char]) -> (r: Order)
    ensures
        r == Order::Less <==> before(a@, b@),
        r == Order::Equal <==> a@ == b@,
        r == Order::Greater <==> before(b@, a@),
{
    let mut i: usize = 0;
    while i < a.len() && i < b.len() && a[i] == b[i]
        invariant
            i <= a@.len(),
            i <= b@.len(),
            a@.take(i as int) == b@.take(i as int),
        decreases a@.len() - i,
    {
        assert(a@.take(i + 1) == a@.take(i as int).push(a@[i as int]));
        assert(b@.take(i + 1) == b@.take(i as int).push(b@[i as int]));
        i += 1;
    }
    proof {
        lemma_before_skip(a@, b@, i as int);
        lemma_before_skip(b@, a@, i as int);
        lemma_before_irreflexive(a@);
        lemma_before_total(a@, b@);
        if before(a@, b@) {
            lemma_before_asymmetric(a@, b@);
        }
    }
    let r = if i == a.len() && i == b.len() {
        assert(a@ == a@.take(i as int));
        assert(b@ == b@.take(i as int));
        Order::Equal
    } else if i == a.len() {
        Order::Less
    } else if i == b.len() {
        Order::Greater
    } else if a[i] < b[i] {
        Order::Less
    } else {
        Order::Greater
    };
    proof {
        if r != Order::Equal {
            if i < a@.len() && i < b@.len() {
                assert(a@.skip(i as int)[0] == a@[i as int]);
                assert(b@.skip(i as int)[0] == b@[i as int]);
            }
            if a@ == b@ {
                lemma_before_irreflexive(a@);
            }
        }
    }
    r
}

/// Name–value pairs as views.
pub open spec fn pair_views(v: Seq<(String, String)>) -> Seq<(Seq<char>, Seq<char>)> {
    v.map_values(|p: (String, String)| (p.0@, p.1@))
}

/// Names strictly increasing, so none repeats.
pub open spec fn ordered(p: Seq<(Seq<char>, Seq<char>)>) -> bool {
    forall|i: int, j: int| 0 <= i < j < p.len() ==> before(#[trigger] p[i].0, #[trigger] p[j].0)
}

/// Whether `name` is one of the names in `p`.
pub open spec fn has_name(p: Seq<(Seq<char>, Seq<char>)>, name: Seq<char>) -> bool {
    exists|i: int| 0 <= i < p.len() && #[trigger] p[i].0 == name
}

/// The map the pairs describe.
pub open spec fn pairs_map(p: Seq<(Seq<char>, Seq<char>)>) -> Map<Seq<char>, Seq<char>> {
    Map::new(
        |name: Seq<char>| has_name(p, name),
        |name: Seq<char>| p[slot_of(p, name)].1,
    )
}

/// The slot that holds `name`.
pub open spec fn slot_of(p: Seq<(Seq<char>, Seq<char>)>, name: Seq<char>) -> int {
    choose|i: int| 0 <= i < p.len() && #[trigger] p[i].0 == name
}

pub proof fn lemma_ordered_distinct(p: Seq<(Seq<char>, Seq<char>)>, i: int, j: int)
    requires
        ordered(p),
        0 <= i < p.len(),
        0 <= j < p.len(),
        p[i].0 == p[j].0,
    ensures
        i == j,
{
    if i < j {
        assert(before(p[i].0, p[j].0));
        lemma_before_irreflexive(p[i].0);
    }
    if j < i {
        assert(before(p[j].0, p[i].0));
        lemma_before_irreflexive(p[i].0);
    }
}

/// Inserting pairs with names in order, each once, adds the map they
/// describe.
pub proof fn lemma_insert_all_union(m: Map<Seq<char>, Seq<char>>, p: Seq<(Seq<char>, Seq<char>)>)
    requires
        ordered(p),
    ensures
        insert_all(m, p) == m.union_prefer_right(pairs_map(p)),
    decreases p.len(),
{
    if p.len() == 0 {
        assert(pairs_map(p) =~= Map::<Seq<char>, Seq<char>>::empty());
        assert(m.union_prefer_right(pairs_map(p)) =~= m);
    } else {
        let dl = p.drop_last();
        let x = p.last();
        assert(ordered(dl)) by {
            assert forall|i: int, j: int| 0 <= i < j < dl.len() implies before(#[trigger] dl[i].0, #[trigger] dl[j].0) by {
                assert(dl[i] == p[i] && dl[j] == p[j]);
            }
        }
        lemma_insert_all_union(m, dl);
        lemma_pairs_map_at(p, p.len() - 1);
        assert(pairs_map(p) =~= pairs_map(dl).insert(x.0, x.1)) by {
            assert forall|n: Seq<char>| #[trigger] pairs_map(p).contains_key(n) <==> pairs_map(dl).insert(x.0, x.1).contains_key(n) by {
                if has_name(p, n) && n != x.0 {
                    let k = choose|k: int| 0 <= k < p.len() && #[trigger] p[k].0 == n;
                    assert(k < dl.len());
                    assert(dl[k].0 == n);
                }
                if has_name(dl, n) {
                    let k = choose|k: int| 0 <= k < dl.len() && #[trigger] dl[k].0 == n;
                    assert(p[k].0 == n);
                }
            }
            assert forall|n: Seq<char>| pairs_map(p).contains_key(n) implies #[trigger] pairs_map(p)[n] == pairs_map(dl).insert(x.0, x.1)[n] by {
                if n != x.0 {
                    let k = choose|k: int| 0 <= k < p.len() && #[trigger] p[k].0 == n;
                    assert(k < dl.len());
                    lemma_pairs_map_at(p, k);
                    lemma_pairs_map_at(dl, k);
                }
            }
        }
        assert(m.union_prefer_right(pairs_map(dl)).insert(x.0, x.1) =~= m.union_prefer_right(pairs_map(dl).insert(x.0, x.1)));
    }
}

pub proof fn lemma_pairs_map_at(p: Seq<(Seq<char>, Seq<char>)>, i: int)
    requires
        ordered(p),
        0 <= i < p.len(),
    ensures
        pairs_map(p).contains_key(p[i].0),
        pairs_map(p)[p[i].0] == p[i].1,
{
    let name = p[i].0;
    assert(has_name(p, name));
    let k = slot_of(p, name);
    assert(0 <= k < p.len() && p[k].0 == name);
    lemma_ordered_distinct(p, i, k);
}

/// Variable names to values.
#[derive(Debug, PartialEq, Eq)]
pub struct Vars {
    entries: Vec<(String, String)>,
}

impl View for Vars {
    type V = Map<Seq<char>, Seq<char>>;

    closed spec fn view(&self) -> Map<Seq<char>, Seq<char>> {
        pairs_map(pair_views(self.entries@))
    }
}

impl Vars {
    /// The pairs in name order.
    pub closed spec fn pairs(&self) -> Seq<(Seq<char>, Seq<char>)> {
        pair_views(self.entries@)
    }

    #[verifier::type_invariant]
    closed spec fn well_ordered(&self) -> bool {
        ordered(pair_views(self.entries@))
    }

    fn lemma_view(&self)
        ensures
            ordered(self.pairs()),
            self@ == pairs_map(self.pairs()),
            self.pairs().len() == self@.len(),
            forall|i: int| 0 <= i < self.pairs().len() ==> self@.contains_key(#[trigger] self.pairs()[i].0)
                && self@[self.pairs()[i].0] == self.pairs()[i].1,
            forall|name: Seq<char>| self@.contains_key(name) ==> exists|i: int| 0 <= i < self.pairs().len() && #[trigger] self.pairs()[i].0 == name,
    {
        proof {
            use_type_invariant(self);
            let p = self.pairs();
            assert forall|i: int| 0 <= i < p.len() implies self@.contains_key(#[trigger] p[i].0)
                && self@[p[i].0] == p[i].1 by {
                lemma_pairs_map_at(p, i);
            }
            lemma_map_len(p);
        }
    }

    pub fn new() -> (r: Vars)
        ensures
            r@ == Map::<Seq<char>, Seq<char>>::empty(),
            r.pairs().len() == 0,
    {
        let r = Vars { entries: Vec::new() };
        assert(r@ =~= Map::<Seq<char>, Seq<char>>::empty());
        r
    }

    pub fn len(&self) -> (n: usize)
        ensures
            n == self@.len(),
    {
        self.lemma_view();
        self.entries.len()
    }

    pub fn is_empty(&self) -> (r: bool)
        ensures
            r == (self@.len() == 0),
    {
        self.len() == 0
    }

    /// Where `name` sits, or where it would go.
    fn position(&self, name: &[char]) -> (r: (usize, bool))
        ensures
            r.0 <= self.pairs().len(),
            forall|j: int| 0 <= j < r.0 ==> before(#[trigger] self.pairs()[j].0, name@),
            r.1 ==> r.0 < self.pairs().len() && self.pairs()[r.0 as int].0 == name@,
            !r.1 ==> r.0 < self.pairs().len() ==> before(name@, self.pairs()[r.0 as int].0),
    {
        proof {
            use_type_invariant(self);
        }
        let mut i: usize = 0;
        while i < self.entries.len()
            invariant
                i <= self.entries@.len(),
                self.pairs() == pair_views(self.entries@),
                forall|j: int| 0 <= j < i ==> before(#[trigger] self.pairs()[j].0, name@),
            decreases self.entries@.len() - i,
        {
            let key = chars_of(self.entries[i].0.as_str());
            match compare(&key, name) {
                Order::Less => {},
                Order::Equal => {
                    return (i, true);
                },
                Order::Greater => {
                    return (i, false);
                },
            }
            i += 1;
        }
        (i, false)
    }

    /// The value of `name`.
    pub fn get(&self, name: &str) -> (r: Option<&String>)
        ensures
            match r {
                Some(value) => self@.contains_key(name@) && self@[name@] == value@,
                None => !self@.contains_key(name@),
            },
    {
        self.lemma_view();
        let key = chars_of(name);
        let (i, found) = self.position(&key);
        if found {
            Some(&self.entries[i].1)
        } else {
            proof {
                if self@.contains_key(name@) {
                    let k = choose|k: int| 0 <= k < self.pairs().len() && #[trigger] self.pairs()[k].0 == name@;
                    if k < i {
                        lemma_before_irreflexive(name@);
                    } else if k > i {
                        lemma_before_transitive(name@, self.pairs()[i as int].0, name@);
                        lemma_before_irreflexive(name@);
                    } else {
                        lemma_before_irreflexive(name@);
                    }
                }
            }
            None
        }
    }

    pub fn contains_key(&self, name: &str) -> (r: bool)
        ensures
            r == self@.contains_key(name@),
    {
        self.get(name).is_some()
    }

    /// Sets `name` to `value`, replacing what it was.
    pub fn insert(&mut self, name: String, value: String)
        ensures
            final(self)@ == old(self)@.insert(name@, value@),
    {
        proof {
            use_type_invariant(&*self);
        }
        self.lemma_view();
        let key = chars_of(name.as_str());
        let (i, found) = self.position(&key);
        let ghost old_pairs = self.pairs();
        let ghost old_map = self@;
        let ghost name_v = name@;
        let ghost value_v = value@;
        let mut entries: Vec<(String, String)> = Vec::new();
        std::mem::swap(&mut entries, &mut self.entries);
        assert(pair_views(entries@) == old_pairs);
        if found {
            entries.set(i, (name, value));
        } else {
            entries.insert(i, (name, value));
        }
        let ghost new_pairs = pair_views(entries@);
        proof {
            if found {
                assert(new_pairs == old_pairs.update(i as int, (name_v, value_v)));
                assert forall|a: int, b: int| 0 <= a < b < new_pairs.len() implies before(
                    #[trigger] new_pairs[a].0,
                    #[trigger] new_pairs[b].0,
                ) by {
                    assert(before(old_pairs[a].0, old_pairs[b].0));
                }
            } else {
                assert(new_pairs == old_pairs.insert(i as int, (name_v, value_v)));
                assert forall|a: int, b: int| 0 <= a < b < new_pairs.len() implies before(
                    #[trigger] new_pairs[a].0,
                    #[trigger] new_pairs[b].0,
                ) by {
                    if a < i && b == i {
                    } else if a < i && b > i {
                        assert(before(old_pairs[a].0, old_pairs[b - 1].0));
                    } else if a == i {
                        assert(i < old_pairs.len());
                        if b - 1 > i {
                            assert(before(old_pairs[i as int].0, old_pairs[b - 1].0));
                            lemma_before_transitive(name_v, old_pairs[i as int].0, old_pairs[b - 1].0);
                        }
                    } else if b < i {
                        assert(before(old_pairs[a].0, old_pairs[b].0));
                    } else {
                        assert(before(old_pairs[a - 1].0, old_pairs[b - 1].0));
                    }
                }
            }
        }
        self.entries = entries;
        self.lemma_view();
        proof {
            let target = old_map.insert(name_v, value_v);
            assert forall|k: Seq<char>| #[trigger] self@.contains_key(k) <==> target.contains_key(k) by {
                if self@.contains_key(k) {
                    let j = choose|j: int| 0 <= j < new_pairs.len() && #[trigger] new_pairs[j].0 == k;
                    if k != name_v {
                        if found {
                            assert(old_pairs[j].0 == k);
                        } else if j < i {
                            assert(old_pairs[j].0 == k);
                        } else {
                            assert(old_pairs[j - 1].0 == k);
                        }
                    }
                }
                if target.contains_key(k) && k != name_v {
                    let j = choose|j: int| 0 <= j < old_pairs.len() && #[trigger] old_pairs[j].0 == k;
                    if found || j < i {
                        assert(new_pairs[j].0 == k);
                    } else {
                        assert(new_pairs[j + 1].0 == k);
                    }
                }
                if k == name_v {
                    assert(new_pairs[i as int].0 == k);
                }
            }
            assert forall|k: Seq<char>| #[trigger] self@.contains_key(k) implies self@[k] == target[k] by {
                let j = choose|j: int| 0 <= j < new_pairs.len() && #[trigger] new_pairs[j].0 == k;
                if k != name_v {
                    if found || j < i {
                        assert(old_pairs[j].0 == k);
                    } else {
                        assert(old_pairs[j - 1].0 == k);
                    }
                } else {
                    lemma_ordered_distinct(new_pairs, i as int, j);
                }
            }
            assert(self@ =~= target);
        }
    }

    /// `other`'s variables added, each in place of one of the same name.
    pub fn extend_with(&mut self, other: &Vars)
        ensures
            final(self)@ == old(self)@.union_prefer_right(other@),
    {
        other.lemma_view();
        let pairs = other.entries();
        proof {
            lemma_insert_all_union(self@, other.pairs());
        }
        self.extend(pairs);
    }

    /// Every pair of `other` inserted in turn.
    pub fn extend(&mut self, other: Vec<(String, String)>)
        ensures
            final(self)@ == insert_all(old(self)@, pair_views(other@)),
    {
        let ghost start = self@;
        let ghost all = pair_views(other@);
        let mut i: usize = 0;
        while i < other.len()
            invariant
                i <= other@.len(),
                all == pair_views(other@),
                self@ == insert_all(start, all.take(i as int)),
            decreases other@.len() - i,
        {
            let name = copy_string(&other[i].0);
            let value = copy_string(&other[i].1);
            assert(all.take(i + 1).drop_last() == all.take(i as int));
            self.insert(name, value);
            i += 1;
        }
        assert(all.take(other@.len() as int) == all);
    }

    /// The pairs in name order.
    pub fn entries(&self) -> (r: Vec<(String, String)>)
        ensures
            pair_views(r@) == self.pairs(),
    {
        let mut r: Vec<(String, String)> = Vec::new();
        let mut i: usize = 0;
        while i < self.entries.len()
            invariant
                i <= self.entries@.len(),
                pair_views(r@) == pair_views(self.entries@).take(i as int),
            decreases self.entries@.len() - i,
        {
            let name = copy_string(&self.entries[i].0);
            let value = copy_string(&self.entries[i].1);
            r.push((name, value));
            assert(pair_views(self.entries@).take(i + 1) == pair_views(self.entries@).take(i as int).push((name@, value@)));
            i += 1;
        }
        assert(pair_views(self.entries@).take(self.entries@.len() as int) == pair_views(self.entries@));
        r
    }

    /// The names in order.
    pub fn keys(&self) -> (r: Vec<String>)
        ensures
            r@.map_values(|s: String| s@) == self.pairs().map_values(|p: (Seq<char>, Seq<char>)| p.0),
    {
        let mut r: Vec<String> = Vec::new();
        let mut i: usize = 0;
        while i < self.entries.len()
            invariant
                i <= self.entries@.len(),
                r@.map_values(|s: String| s@) == self.pairs().map_values(|p: (Seq<char>, Seq<char>)| p.0).take(i as int),
            decreases self.entries@.len() - i,
        {
            let name = copy_string(&self.entries[i].0);
            r.push(name);
            assert(self.pairs().map_values(|p: (Seq<char>, Seq<char>)| p.0).take(i + 1) == self.pairs().map_values(|p: (Seq<char>, Seq<char>)| p.0).take(i as int).push(name@));
            assert(r@.map_values(|s: String| s@) == r@.drop_last().map_values(|s: String| s@).push(name@));
            i += 1;
        }
        assert(self.pairs().map_values(|p: (Seq<char>, Seq<char>)| p.0).take(self.entries@.len() as int) == self.pairs().map_values(|p: (Seq<char>, Seq<char>)| p.0));
        r
    }
}

impl Clone for Vars {
    fn clone(&self) -> (r: Vars)
        ensures
            r@ == self@,
    {
        proof {
            use_type_invariant(self);
        }
        let entries = self.entries();
        Vars { entries }
    }
}

impl Default for Vars {
    fn default() -> (r: Vars)
        ensures
            r@ == Map::<Seq<char>, Seq<char>>::empty(),
    {
        Vars::new()
    }
}

/// `pairs` inserted one after another into `m`: a later pair wins a name.
pub open spec fn insert_all(m: Map<Seq<char>, Seq<char>>, pairs: Seq<(Seq<char>, Seq<char>)>) -> Map<Seq<char>, Seq<char>>
    decreases pairs.len(),
{
    if pairs.len() == 0 {
        m
    } else {
        insert_all(m, pairs.drop_last()).insert(pairs.last().0, pairs.last().1)
    }
}

proof fn lemma_map_len(p: Seq<(Seq<char>, Seq<char>)>)
    requires
        ordered(p),
    ensures
        pairs_map(p).dom().finite(),
        pairs_map(p).len() == p.len(),
    decreases p.len(),
{
    if p.len() == 0 {
        assert(pairs_map(p).dom() =~= Set::<Seq<char>>::empty());
    } else {
        let q = p.drop_last();
        assert(ordered(q));
        lemma_map_len(q);
        let last = p.last().0;
        assert forall|k: Seq<char>| pairs_map(p).dom().contains(k) <==> #[trigger] pairs_map(q).dom().insert(last).contains(k) by {
            if has_name(p, k) {
                let j = choose|j: int| 0 <= j < p.len() && #[trigger] p[j].0 == k;
                if j < q.len() {
                    assert(q[j].0 == k);
                }
            }
            if has_name(q, k) {
                let j = choose|j: int| 0 <= j < q.len() && #[trigger] q[j].0 == k;
                assert(p[j].0 == k);
            }
            if k == last {
                assert(p[p.len() - 1].0 == k);
            }
        }
        assert(pairs_map(p).dom() =~= pairs_map(q).dom().insert(last));
        assert(!pairs_map(q).dom().contains(last)) by {
            if has_name(q, last) {
                let j = choose|j: int| 0 <= j < q.len() && #[trigger] q[j].0 == last;
                assert(p[j].0 == last);
                lemma_ordered_distinct(p, j, p.len() - 1);
            }
        }
    }
}

/// Whether two lists of pairs are the same, pair for pair.
pub fn same_pairs(a: &Vec<(String, String)>, b: &Vec<(String, String)>) -> (r: bool)
    ensures
        r == (pair_views(a@) == pair_views(b@)),
{
    if a.len() != b.len() {
        assert(pair_views(a@).len() != pair_views(b@).len());
        return false;
    }
    let mut i: usize = 0;
    while i < a.len()
        invariant
            i <= a@.len() == b@.len(),
            forall|j: int| 0 <= j < i ==> pair_views(a@)[j] == pair_views(b@)[j],
        decreases a@.len() - i,
    {
        let ka = crate::text::chars_of(a[i].0.as_str());
        let kb = crate::text::chars_of(b[i].0.as_str());
        let va = crate::text::chars_of(a[i].1.as_str());
        let vb = crate::text::chars_of(b[i].1.as_str());
        if !crate::text::same(&ka, &kb) || !crate::text::same(&va, &vb) {
            assert(pair_views(a@)[i as int] != pair_views(b@)[i as int]);
            return false;
        }
        i += 1;
    }
    assert(pair_views(a@) =~= pair_views(b@));
    true
}

} // verus!
