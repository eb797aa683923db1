//! `{{variables}}`: finding them, resolving them, and which source wins.
//!
//! Five layers can define a variable. Lowest to highest:
//!
//! 1. collection vars — Postman `variable[]`, Bruno `collection.bru` and
//!    `folder.bru`
//! 2. the selected environment — `.env`, a Bruno environment, a Postman one
//! 3. vars the request declares for itself — Bruno `vars:pre-request`
//! 4. vars extracted from earlier responses
//! 5. overrides typed into the Vars tab
//!
//! A placeholder is `{{`, one or more characters that are not `}`, and `}}`;
//! the name is what sits between, trimmed. Placeholders are found left to
//! right, each search resuming after the last one found.

use vstd::prelude::*;

use crate::text::{append, chars_of, same, slice, string_of, trim, trim_chars, views};
pub use crate::varmap::Vars;

verus! {

/// How many times a value that itself holds a placeholder is expanded: enough
/// for an environment that builds a URL out of a host variable, and a stop for
/// one that refers to itself.
pub const DEPTH: usize = 8;

/// `j` is the first `}` at or after `from`.
pub open spec fn close_at(s: Seq<char>, from: int, j: int) -> bool {
    &&& from <= j < s.len()
    &&& s[j] == '}'
    &&& forall|k: int| from <= k < j ==> s[k] != '}'
}

/// When a placeholder starts at `i`, where its name ends: the first of its
/// two closing braces.
pub open spec fn placeholder_at(s: Seq<char>, i: int) -> Option<int> {
    if 0 <= i && i + 1 < s.len() && s[i] == '{' && s[i + 1] == '{' && exists|j: int| #[trigger] close_at(s, i + 2, j) {
        let j = choose|j: int| #[trigger] close_at(s, i + 2, j);
        if j > i + 2 && j + 1 < s.len() && s[j + 1] == '}' {
            Some(j)
        } else {
            None
        }
    } else {
        None
    }
}

/// The name a placeholder from `i` to `j` refers to.
pub open spec fn name_in(s: Seq<char>, i: int, j: int) -> Seq<char> {
    trim(s.subrange(i + 2, j))
}

/// The value the first layer that defines `name` gives it; `layers` runs
/// from the highest to the lowest.
pub open spec fn layered(layers: Seq<Map<Seq<char>, Seq<char>>>, name: Seq<char>) -> Option<Seq<char>>
    decreases layers.len(),
{
    if layers.len() == 0 {
        None
    } else if layers[0].contains_key(name) {
        Some(layers[0][name])
    } else {
        layered(layers.drop_first(), name)
    }
}

/// `s` from `p` on, each placeholder replaced by its value, and one no
/// layer knows left exactly as written.
pub open spec fn substituted(s: Seq<char>, p: int, layers: Seq<Map<Seq<char>, Seq<char>>>) -> Seq<char>
    decreases s.len() - p,
{
    if p < 0 || p >= s.len() {
        Seq::empty()
    } else {
        match placeholder_at(s, p) {
            Some(j) => {
                let piece = match layered(layers, name_in(s, p, j)) {
                    Some(value) => value,
                    None => s.subrange(p, j + 2),
                };
                piece + substituted(s, j + 2, layers)
            },
            None => seq![s[p]] + substituted(s, p + 1, layers),
        }
    }
}

/// Up to `depth` rounds of substitution, stopping once a round changes
/// nothing.
pub open spec fn resolved(s: Seq<char>, layers: Seq<Map<Seq<char>, Seq<char>>>, depth: nat) -> Seq<char>
    decreases depth,
{
    if depth == 0 {
        s
    } else {
        let next = substituted(s, 0, layers);
        if next == s {
            s
        } else {
            resolved(next, layers, (depth - 1) as nat)
        }
    }
}

/// The names of the placeholders in `s` from `p` on, in order.
pub open spec fn names_from(s: Seq<char>, p: int) -> Seq<Seq<char>>
    decreases s.len() - p,
{
    if p < 0 || p >= s.len() {
        Seq::empty()
    } else {
        match placeholder_at(s, p) {
            Some(j) => seq![name_in(s, p, j)] + names_from(s, j + 2),
            None => names_from(s, p + 1),
        }
    }
}

/// `names` without the empty ones and without any already in `seen` or met
/// before.
pub open spec fn first_mentions(seen: Seq<Seq<char>>, names: Seq<Seq<char>>) -> Seq<Seq<char>>
    decreases names.len(),
{
    if names.len() == 0 {
        Seq::empty()
    } else {
        let name = names[0];
        if name.len() == 0 || seen.contains(name) {
            first_mentions(seen, names.drop_first())
        } else {
            seq![name] + first_mentions(seen.push(name), names.drop_first())
        }
    }
}

/// Where a placeholder starting at `i` ends, if one does.
pub fn placeholder_end(s: &[char], i: usize) -> (r: Option<usize>)
    requires
        i < s@.len(),
    ensures
        match r {
            Some(j) => placeholder_at(s@, i as int) == Some(j as int),
            None => placeholder_at(s@, i as int) is None,
        },
{
    if !(i < s.len() - 1 && s[i] == '{' && s[i + 1] == '{') {
        return None;
    }
    let mut j = i + 2;
    while j < s.len() && s[j] != '}'
        invariant
            i + 2 <= j <= s@.len(),
            forall|k: int| i + 2 <= k < j ==> s@[k] != '}',
        decreases s@.len() - j,
    {
        j += 1;
    }
    if j == s.len() {
        return None;
    }
    proof {
        assert(close_at(s@, i + 2, j as int));
        let c = choose|c: int| #[trigger] close_at(s@, i + 2, c);
        if c < j {
            assert(s@[c] != '}');
        }
        if j < c {
            assert(s@[j as int] != '}');
        }
        assert(c == j);
    }
    if j > i + 2 && j + 1 < s.len() && s[j + 1] == '}' {
        Some(j)
    } else {
        None
    }
}

/// Where each `{{name}}` sits in `text`, by character position from its
/// first brace to past its last, with the name trimmed as it is looked up.
pub fn placeholders(text: &[char]) -> (r: Vec<(usize, usize, Vec<char>)>)
    ensures
        r@.map_values(|m: (usize, usize, Vec<char>)| m.2@) == names_from(text@, 0),
        forall|k: int| 0 <= k < r@.len() ==> {
            &&& placeholder_at(text@, #[trigger] r@[k].0 as int) == Some(r@[k].1 - 2)
            &&& r@[k].2@ == name_in(text@, r@[k].0 as int, r@[k].1 - 2)
        },
        forall|k: int| 0 < k < r@.len() ==> r@[k - 1].1 <= #[trigger] r@[k].0,
{
    let mut out: Vec<(usize, usize, Vec<char>)> = Vec::new();
    let mut p: usize = 0;
    while p < text.len()
        invariant
            p <= text@.len(),
            out@.map_values(|m: (usize, usize, Vec<char>)| m.2@) + names_from(text@, p as int) == names_from(text@, 0),
            forall|k: int| 0 <= k < out@.len() ==> {
                &&& placeholder_at(text@, #[trigger] out@[k].0 as int) == Some(out@[k].1 - 2)
                &&& out@[k].2@ == name_in(text@, out@[k].0 as int, out@[k].1 - 2)
                &&& out@[k].1 <= p
            },
            forall|k: int| 0 < k < out@.len() ==> out@[k - 1].1 <= #[trigger] out@[k].0,
        decreases text@.len() - p,
    {
        let ghost before = out@.map_values(|m: (usize, usize, Vec<char>)| m.2@);
        match placeholder_end(text, p) {
            Some(j) => {
                let name = trim_chars(&slice(text, p + 2, j));
                let ghost n = name@;
                let ghost old_out = out@;
                out.push((p, j + 2, name));
                assert forall|k: int| 0 < k < out@.len() implies out@[k - 1].1 <= #[trigger] out@[k].0 by {
                    if k < out@.len() - 1 {
                        assert(out@[k - 1] == old_out[k - 1]);
                        assert(out@[k] == old_out[k]);
                    } else {
                        assert(out@[k - 1] == old_out[k - 1]);
                        let prev = old_out[k - 1];
                        assert(placeholder_at(text@, prev.0 as int) == Some(prev.1 - 2));
                        assert(prev.1 <= p);
                    }
                }
                assert(out@.map_values(|m: (usize, usize, Vec<char>)| m.2@) == before.push(n));
                assert(before.push(n) + names_from(text@, j + 2) == before + (seq![n] + names_from(text@, j + 2)));
                p = j + 2;
            },
            None => {
                p += 1;
            },
        }
    }
    out
}

/// The names `text` refers to, each once, in the order they first appear.
pub open spec fn scanned(text: Seq<char>) -> Seq<Seq<char>> {
    first_mentions(Seq::empty(), names_from(text, 0))
}

/// The names `text` refers to, each once, in the order they first appear.
pub fn scan(text: &str) -> (r: Vec<String>)
    ensures
        r@.map_values(|s: String| s@) == scanned(text@),
{
    let chars = chars_of(text);
    let found = placeholders(&chars);
    let ghost names = found@.map_values(|m: (usize, usize, Vec<char>)| m.2@);
    let mut seen: Vec<Vec<char>> = Vec::new();
    let mut out: Vec<String> = Vec::new();
    let mut k: usize = 0;
    assert(views(seen@) =~= Seq::<Seq<char>>::empty());
    assert(out@.map_values(|s: String| s@) =~= Seq::<Seq<char>>::empty());
    assert(names.skip(0) == names);
    assert(views(seen@) + first_mentions(views(seen@), names) =~= first_mentions(Seq::empty(), names));
    while k < found.len()
        invariant
            k <= found@.len(),
            names == found@.map_values(|m: (usize, usize, Vec<char>)| m.2@),
            names == names_from(text@, 0),
            out@.map_values(|s: String| s@) == views(seen@),
            views(seen@) + first_mentions(views(seen@), names.skip(k as int)) == scanned(text@),
        decreases found@.len() - k,
    {
        let ghost seen_before = views(seen@);
        let name = &found[k].2;
        assert(names.skip(k as int)[0] == name@);
        assert(names.skip(k as int).drop_first() == names.skip(k + 1));
        let mut known = false;
        let mut m: usize = 0;
        while m < seen.len()
            invariant
                m <= seen@.len(),
                seen_before == views(seen@),
                known == exists|x: int| 0 <= x < m && seen_before[x] == name@,
            decreases seen@.len() - m,
        {
            assert(seen_before[m as int] == seen@[m as int]@);
            if same(&seen[m], name) {
                known = true;
            }
            m += 1;
        }
        assert(known == seen_before.contains(name@));
        if name.len() > 0 && !known {
            let copy = slice(name, 0, name.len());
            assert(copy@ == name@);
            let ghost out_before = out@.map_values(|s: String| s@);
            out.push(string_of(&copy));
            seen.push(copy);
            assert(views(seen@) == seen_before.push(name@));
            assert(out@.map_values(|s: String| s@) == out_before.push(name@));
            assert(seen_before + (seq![name@] + first_mentions(seen_before.push(name@), names.skip(k + 1)))
                == seen_before.push(name@) + first_mentions(seen_before.push(name@), names.skip(k + 1)));
        }
        k += 1;
    }
    assert(names.skip(found@.len() as int) == Seq::<Seq<char>>::empty());
    out
}

/// The views of the layers, highest first.
pub open spec fn layer_views(layers: Seq<&Vars>) -> Seq<Map<Seq<char>, Seq<char>>> {
    layers.map_values(|v: &Vars| v@)
}

/// The value the first layer that defines `name` gives it.
pub fn lookup_in<'a>(layers: &[&'a Vars], name: &str) -> (r: Option<(&'a String, usize)>)
    ensures
        match r {
            Some((value, at)) => layered(layer_views(layers@), name@) == Some(value@)
                && at < layers@.len() && layers@[at as int]@.contains_key(name@)
                && forall|x: int| 0 <= x < at ==> !layers@[x]@.contains_key(name@),
            None => layered(layer_views(layers@), name@) is None,
        },
{
    let ghost all = layer_views(layers@);
    let mut i: usize = 0;
    assert(all.skip(0) == all);
    while i < layers.len()
        invariant
            i <= layers@.len(),
            all == layer_views(layers@),
            layered(all, name@) == layered(all.skip(i as int), name@),
            forall|x: int| 0 <= x < i ==> !layers@[x]@.contains_key(name@),
        decreases layers@.len() - i,
    {
        let ghost rest = all.skip(i as int);
        assert(rest[0] == layers@[i as int]@);
        assert(rest.drop_first() == all.skip(i + 1));
        if let Some(value) = layers[i].get(name) {
            return Some((value, i));
        }
        i += 1;
    }
    None
}

/// One round of substitution over all of `s`.
fn substitute(s: &[char], layers: &[&Vars]) -> (r: Vec<char>)
    ensures
        r@ == substituted(s@, 0, layer_views(layers@)),
{
    let ghost all = layer_views(layers@);
    let mut out: Vec<char> = Vec::new();
    let mut p: usize = 0;
    while p < s.len()
        invariant
            p <= s@.len(),
            all == layer_views(layers@),
            out@ + substituted(s@, p as int, all) == substituted(s@, 0, all),
        decreases s@.len() - p,
    {
        let ghost out_before = out@;
        match placeholder_end(s, p) {
            Some(j) => {
                let name = trim_chars(&slice(s, p + 2, j));
                let text = string_of(&name);
                let ghost piece;
                match lookup_in(layers, text.as_str()) {
                    Some((value, _)) => {
                        let v = chars_of(value.as_str());
                        append(&mut out, &v);
                        proof { piece = value@; }
                    },
                    None => {
                        let written = slice(s, p, j + 2);
                        append(&mut out, &written);
                        proof { piece = s@.subrange(p as int, j + 2); }
                    },
                }
                assert(out@ == out_before + piece);
                assert(out_before + (piece + substituted(s@, j + 2, all)) == out@ + substituted(s@, j + 2, all));
                p = j + 2;
            },
            None => {
                out.push(s[p]);
                assert(out@ == out_before + seq![s@[p as int]]);
                assert(out_before + (seq![s@[p as int]] + substituted(s@, p + 1, all)) == out@ + substituted(s@, p + 1, all));
                p += 1;
            },
        }
    }
    out
}

/// Replaces every placeholder the layers know, again and again while a
/// value brings in more, up to [`DEPTH`] rounds. Unknown ones are left
/// exactly as they were written, so a missing variable is visible in what
/// gets sent.
pub fn resolve_in(text: &str, layers: &[&Vars]) -> (r: String)
    ensures
        r@ == resolved(text@, layer_views(layers@), DEPTH as nat),
{
    let ghost all = layer_views(layers@);
    let mut current = chars_of(text);
    let mut k: usize = 0;
    while k < DEPTH
        invariant
            k <= DEPTH,
            all == layer_views(layers@),
            resolved(current@, all, (DEPTH - k) as nat) == resolved(text@, all, DEPTH as nat),
        decreases DEPTH - k,
    {
        let next = substitute(&current, layers);
        if same(&next, &current) {
            return string_of(&current);
        }
        current = next;
        k += 1;
    }
    string_of(&current)
}

/// `text` with every placeholder `vars` knows replaced.
pub fn resolve(text: &str, vars: &Vars) -> (r: String)
    ensures
        r@ == resolved(text@, seq![vars@], DEPTH as nat),
{
    let layers: [&Vars; 1] = [vars];
    let r = resolve_in(text, &layers);
    assert(layer_views(layers@) == seq![vars@]);
    r
}

#[derive(Debug, Clone, Copy, PartialEq, Eq, PartialOrd, Ord, Structural)]
pub enum Layer {
    Collection,
    Environment,
    Request,
    Extracted,
    Override,
}

/// The layers from the one that wins to the one that loses.
pub open spec fn precedence() -> Seq<Layer> {
    seq![Layer::Override, Layer::Extracted, Layer::Request, Layer::Environment, Layer::Collection]
}

fn layer_at(at: usize) -> (r: Layer)
    requires
        at < 5,
    ensures
        r == precedence()[at as int],
{
    match at {
        0 => Layer::Override,
        1 => Layer::Extracted,
        2 => Layer::Request,
        3 => Layer::Environment,
        _ => Layer::Collection,
    }
}

impl Layer {
    pub fn label(self) -> (r: &'static str)
        ensures
            r@ == match self {
                Layer::Collection => "collection"@,
                Layer::Environment => "environment"@,
                Layer::Request => "request"@,
                Layer::Extracted => "extracted"@,
                Layer::Override => "override"@,
            },
    {
        match self {
            Layer::Collection => "collection",
            Layer::Environment => "environment",
            Layer::Request => "request",
            Layer::Extracted => "extracted",
            Layer::Override => "override",
        }
    }
}

/// The five layers, borrowed from wherever each one is kept.
#[derive(Debug, Clone, Copy)]
pub struct Scope<'a> {
    pub collection: &'a Vars,
    pub environment: &'a Vars,
    pub request: &'a Vars,
    pub extracted: &'a Vars,
    pub overrides: &'a Vars,
}

/// The names among `names` that no layer defines, in the same order.
pub open spec fn undefined(names: Seq<Seq<char>>, layers: Seq<Map<Seq<char>, Seq<char>>>) -> Seq<Seq<char>>
    decreases names.len(),
{
    if names.len() == 0 {
        Seq::empty()
    } else if layered(layers, names.last()) is None {
        undefined(names.drop_last(), layers).push(names.last())
    } else {
        undefined(names.drop_last(), layers)
    }
}

impl<'a> Scope<'a> {
    /// The layers' variables, from the one that wins to the one that loses.
    pub open spec fn layers(&self) -> Seq<Map<Seq<char>, Seq<char>>> {
        seq![self.overrides@, self.extracted@, self.request@, self.environment@, self.collection@]
    }

    /// The layer that gives `name` its value is the one at `at` in
    /// [`precedence`]: it defines the name and no higher one does.
    pub open spec fn wins_at(&self, name: Seq<char>, at: int) -> bool {
        &&& 0 <= at < 5
        &&& self.layers()[at].contains_key(name)
        &&& forall|x: int| 0 <= x < at ==> !self.layers()[x].contains_key(name)
    }

    fn in_order(&self) -> (r: [&'a Vars; 5])
        ensures
            layer_views(r@) == self.layers(),
    {
        let r = [self.overrides, self.extracted, self.request, self.environment, self.collection];
        assert(layer_views(r@) =~= self.layers());
        r
    }

    /// The winning value for `name`, and the layer it came from.
    pub fn lookup(&self, name: &str) -> (r: Option<(&'a str, Layer)>)
        ensures
            match r {
                Some((value, layer)) => layered(self.layers(), name@) == Some(value@)
                    && exists|at: int| self.wins_at(name@, at) && layer == precedence()[at],
                None => layered(self.layers(), name@) is None,
            },
    {
        let layers = self.in_order();
        match lookup_in(&layers, name) {
            Some((value, at)) => {
                assert(self.wins_at(name@, at as int));
                Some((value.as_str(), layer_at(at)))
            },
            None => None,
        }
    }

    pub fn resolve(&self, text: &str) -> (r: String)
        ensures
            r@ == resolved(text@, self.layers(), DEPTH as nat),
    {
        let layers = self.in_order();
        resolve_in(text, &layers)
    }

    /// The names in `text` that no layer defines, even after expansion:
    /// each once, in the order they first appear in the expanded text.
    pub fn unresolved(&self, text: &str) -> (r: Vec<String>)
        ensures
            r@.map_values(|s: String| s@) == undefined(scanned(resolved(text@, self.layers(), DEPTH as nat)), self.layers()),
    {
        let resolved_text = self.resolve(text);
        let names = scan(resolved_text.as_str());
        let ghost all = names@.map_values(|s: String| s@);
        let mut out: Vec<String> = Vec::new();
        let mut i: usize = 0;
        while i < names.len()
            invariant
                i <= names@.len(),
                all == names@.map_values(|s: String| s@),
                out@.map_values(|s: String| s@) == undefined(all.take(i as int), self.layers()),
            decreases names@.len() - i,
        {
            assert(all.take(i + 1).drop_last() == all.take(i as int));
            assert(all.take(i + 1).last() == names@[i as int]@);
            if self.lookup(names[i].as_str()).is_none() {
                let ghost before = out@.map_values(|s: String| s@);
                out.push(names[i].clone());
                assert(out@.map_values(|s: String| s@) == before.push(names@[i as int]@));
            }
            i += 1;
        }
        assert(all.take(names@.len() as int) == all);
        out
    }
}

/// The layer that gives a name its value is the highest one that defines
/// it: whatever is typed into the Vars section beats everything, and an
/// extracted value beats the environment.
pub proof fn highest_layer_wins(scope: Scope, name: Seq<char>, at: int)
    requires
        scope.wins_at(name, at),
    ensures
        layered(scope.layers(), name) == Some(scope.layers()[at][name]),
        at == 0 ==> layered(scope.layers(), name) == Some(scope.overrides@[name]),
{
    reveal_with_fuel(layered, 6);
    let l = scope.layers();
    assert(l.drop_first() =~= seq![l[1], l[2], l[3], l[4]]);
    assert(l.drop_first().drop_first() =~= seq![l[2], l[3], l[4]]);
    assert(l.drop_first().drop_first().drop_first() =~= seq![l[3], l[4]]);
    assert(l.drop_first().drop_first().drop_first().drop_first() =~= seq![l[4]]);
    if at >= 1 { assert(!l[0].contains_key(name)); }
    if at >= 2 { assert(!l[1].contains_key(name)); }
    if at >= 3 { assert(!l[2].contains_key(name)); }
    if at >= 4 { assert(!l[3].contains_key(name)); }
}

proof fn lemma_unknown_substituted(s: Seq<char>, p: int, layers: Seq<Map<Seq<char>, Seq<char>>>)
    requires
        0 <= p <= s.len(),
        forall|i: int| #![trigger placeholder_at(s, i)] 0 <= i < s.len() && placeholder_at(s, i) is Some
            ==> layered(layers, name_in(s, i, placeholder_at(s, i).unwrap())) is None,
    ensures
        substituted(s, p, layers) == s.skip(p),
    decreases s.len() - p,
{
    if p < s.len() {
        match placeholder_at(s, p) {
            Some(j) => {
                let k = choose|k: int| #[trigger] close_at(s, p + 2, k);
                assert(close_at(s, p + 2, k));
                lemma_unknown_substituted(s, j + 2, layers);
                assert(s.subrange(p, j + 2) + s.skip(j + 2) =~= s.skip(p));
            },
            None => {
                lemma_unknown_substituted(s, p + 1, layers);
                assert(seq![s[p]] + s.skip(p + 1) =~= s.skip(p));
            },
        }
    } else {
        assert(s.skip(p) =~= Seq::<char>::empty());
    }
}

/// Text whose placeholders no layer defines resolves to itself: a
/// variable nothing sets is left exactly as written, braces and all.
pub proof fn unknown_placeholders_stay(text: Seq<char>, layers: Seq<Map<Seq<char>, Seq<char>>>, depth: nat)
    requires
        forall|i: int| #![trigger placeholder_at(text, i)] 0 <= i < text.len() && placeholder_at(text, i) is Some
            ==> layered(layers, name_in(text, i, placeholder_at(text, i).unwrap())) is None,
    ensures
        resolved(text, layers, depth) == text,
{
    lemma_unknown_substituted(text, 0, layers);
    assert(text.skip(0) =~= text);
}

} // verus!
