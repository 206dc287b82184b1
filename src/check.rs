//! Grouping of manifests: merges manifests that describe the same object
//! (or that can be compared) until no two groups are related.

use crate::sums::{comparable_spec, same_spec, ChecksumView, SumsFile};
use crate::text::{lex_lt, lemma_lex_irreflexive, lemma_lex_total, lemma_lex_transitive, str_less};
use vstd::prelude::*;

verus! {

/// How manifests are grouped.
#[derive(Debug, Clone, Copy, PartialEq, Eq, Structural)]
pub enum GroupBy {
    /// Groups of manifests that describe the same object.
    Equality,
    /// Groups of manifests that share at least one spec, whatever its value.
    Comparability,
}

impl Default for GroupBy {
    fn default() -> (r: Self)
        ensures
            r == GroupBy::Equality,
    {
        GroupBy::Equality
    }
}

/// Whether two manifests belong in one group.
pub open spec fn related(g: GroupBy, a: SumsFile, b: SumsFile) -> bool {
    match g {
        GroupBy::Equality => same_spec(a, b),
        GroupBy::Comparability => comparable_spec(a, b),
    }
}

/// The key that manifests are sorted by: the first name, or the empty
/// string for a manifest without names.
pub open spec fn sort_key(f: SumsFile) -> Seq<char> {
    if f.name_list().len() > 0 {
        f.name_list()[0]
    } else {
        Seq::empty()
    }
}

/// Manifests in non-decreasing order of their keys.
pub open spec fn sorted_files(s: Seq<SumsFile>) -> bool {
    forall|i: int, j: int|
        0 <= i < j < s.len() ==> !lex_lt(sort_key(#[trigger] s[j]), sort_key(#[trigger] s[i]))
}

/// No later manifest is related to an earlier one.
pub open spec fn settled(g: GroupBy, s: Seq<SumsFile>) -> bool {
    forall|i: int, j: int| 0 <= i < j < s.len() ==> !related(g, #[trigger] s[j], #[trigger] s[i])
}

/// Every manifest is well formed.
pub open spec fn all_wf(s: Seq<SumsFile>) -> bool {
    forall|i: int| 0 <= i < s.len() ==> (#[trigger] s[i]).wf()
}

/// A manifest as a value: size, entries and names.
pub open spec fn file_view(f: SumsFile) -> (Option<u64>, Seq<(Seq<char>, ChecksumView)>, Seq<Seq<char>>) {
    (f.spec_size(), f.entries(), f.name_list())
}

/// Two lists of manifests with the same values, in the same order.
pub open spec fn same_files(a: Seq<SumsFile>, b: Seq<SumsFile>) -> bool {
    a.len() == b.len() && forall|i: int| 0 <= i < a.len() ==> file_view(#[trigger] a[i]) == file_view(b[i])
}

/// The names of all manifests of a list.
pub open spec fn all_names(s: Seq<SumsFile>) -> Set<Seq<char>> {
    Set::new(|n: Seq<char>| exists|i: int| 0 <= i < s.len() && (#[trigger] s[i]).name_set().contains(n))
}

/// Inserting a manifest adds its names.
proof fn lemma_all_names_insert(s: Seq<SumsFile>, p: int, x: SumsFile)
    requires
        0 <= p <= s.len(),
    ensures
        all_names(s.insert(p, x)) == all_names(s).union(x.name_set()),
{
    let t = s.insert(p, x);
    assert forall|n: Seq<char>| #[trigger] all_names(t).contains(n) == all_names(s).union(
        x.name_set(),
    ).contains(n) by {
        if all_names(t).contains(n) {
            let i = choose|i: int| 0 <= i < t.len() && (#[trigger] t[i]).name_set().contains(n);
            if i < p {
                assert(s[i] == t[i]);
            } else if i > p {
                assert(s[i - 1] == t[i]);
            }
        }
        if all_names(s).contains(n) {
            let i = choose|i: int| 0 <= i < s.len() && (#[trigger] s[i]).name_set().contains(n);
            if i < p {
                assert(t[i] == s[i]);
            } else {
                assert(t[i + 1] == s[i]);
            }
        }
        if x.name_set().contains(n) {
            assert(t[p] == x);
        }
    }
    assert(all_names(t) =~= all_names(s).union(x.name_set()));
}

/// Removing a manifest takes away at most its names.
proof fn lemma_all_names_remove(s: Seq<SumsFile>, p: int)
    requires
        0 <= p < s.len(),
    ensures
        all_names(s) == all_names(s.remove(p)).union(s[p].name_set()),
{
    lemma_all_names_insert(s.remove(p), p, s[p]);
    assert(s.remove(p).insert(p, s[p]) =~= s);
}

/// The spec strings of all manifests of a list.
pub open spec fn all_specs(s: Seq<SumsFile>) -> Set<Seq<char>> {
    Set::new(
        |k: Seq<char>| exists|i: int| 0 <= i < s.len() && (#[trigger] s[i]).checksums_map().contains_key(k),
    )
}

/// Inserting a manifest adds its spec strings.
proof fn lemma_all_specs_insert(s: Seq<SumsFile>, p: int, x: SumsFile)
    requires
        0 <= p <= s.len(),
    ensures
        all_specs(s.insert(p, x)) == all_specs(s).union(x.checksums_map().dom()),
{
    let t = s.insert(p, x);
    assert forall|k: Seq<char>| #[trigger] all_specs(t).contains(k) == all_specs(s).union(
        x.checksums_map().dom(),
    ).contains(k) by {
        if all_specs(t).contains(k) {
            let i = choose|i: int| 0 <= i < t.len() && (#[trigger] t[i]).checksums_map().contains_key(k);
            if i < p {
                assert(s[i] == t[i]);
            } else if i > p {
                assert(s[i - 1] == t[i]);
            }
        }
        if all_specs(s).contains(k) {
            let i = choose|i: int| 0 <= i < s.len() && (#[trigger] s[i]).checksums_map().contains_key(k);
            if i < p {
                assert(t[i] == s[i]);
            } else {
                assert(t[i + 1] == s[i]);
            }
        }
        if x.checksums_map().contains_key(k) {
            assert(t[p] == x);
        }
    }
    assert(all_specs(t) =~= all_specs(s).union(x.checksums_map().dom()));
}

/// Removing a manifest takes away at most its spec strings.
proof fn lemma_all_specs_remove(s: Seq<SumsFile>, p: int)
    requires
        0 <= p < s.len(),
    ensures
        all_specs(s) == all_specs(s.remove(p)).union(s[p].checksums_map().dom()),
{
    lemma_all_specs_insert(s.remove(p), p, s[p]);
    assert(s.remove(p).insert(p, s[p]) =~= s);
}

/// Manifest `f` covers input `x`: its names, its spec strings and its size.
pub open spec fn holds(f: SumsFile, x: SumsFile) -> bool {
    &&& x.name_set().subset_of(f.name_set())
    &&& x.checksums_map().dom().subset_of(f.checksums_map().dom())
    &&& f.spec_size() == x.spec_size()
}

/// Some manifest of a list covers input `x`.
pub open spec fn held(state: Seq<SumsFile>, x: SumsFile) -> bool {
    exists|i: int| 0 <= i < state.len() && holds(#[trigger] state[i], x)
}

/// Every digest value of `f` (encoded digest and part digests) is that of
/// some input under the same spec.
pub open spec fn sourced(f: SumsFile, inputs: Seq<SumsFile>) -> bool {
    forall|k: Seq<char>|
        #[trigger] f.checksums_map().contains_key(k) ==> exists|y: int|
            0 <= y < inputs.len() && (#[trigger] inputs[y]).checksums_map().contains_key(k)
                && inputs[y].checksums_map()[k] == f.checksums_map()[k]
}

/// The manifests cover every input and hold only digests of the inputs.
#[verifier::opaque]
pub open spec fn tracks(state: Seq<SumsFile>, inputs: Seq<SumsFile>) -> bool {
    &&& forall|x: int| 0 <= x < inputs.len() ==> held(state, #[trigger] inputs[x])
    &&& forall|i: int| 0 <= i < state.len() ==> sourced(#[trigger] state[i], inputs)
}

/// No two inputs have different encoded digests under one spec.
pub open spec fn consistent(inputs: Seq<SumsFile>) -> bool {
    forall|i: int, j: int, k: Seq<char>|
        0 <= i < inputs.len() && 0 <= j < inputs.len() && #[trigger] inputs[i].checksums_map().contains_key(k)
            && #[trigger] inputs[j].checksums_map().contains_key(k) ==> inputs[i].checksums_map()[k].checksum
            == inputs[j].checksums_map()[k].checksum
}

/// Every input covers itself.
proof fn lemma_tracks_self(inputs: Seq<SumsFile>)
    ensures
        tracks(inputs, inputs),
{
    reveal(tracks);
    assert forall|x: int| 0 <= x < inputs.len() implies held(inputs, #[trigger] inputs[x]) by {
        assert(holds(inputs[x], inputs[x]));
    }
    assert forall|i: int| 0 <= i < inputs.len() implies sourced(#[trigger] inputs[i], inputs) by {
        assert forall|k: Seq<char>| #[trigger] inputs[i].checksums_map().contains_key(k) implies exists|y: int|
            0 <= y < inputs.len() && (#[trigger] inputs[y]).checksums_map().contains_key(k)
                && inputs[y].checksums_map()[k] == inputs[i].checksums_map()[k] by {
            assert(inputs[i] == inputs[i]);
        }
    }
}

/// Reordering the manifests keeps what they cover and hold.
proof fn lemma_tracks_permute(s: Seq<SumsFile>, t: Seq<SumsFile>, inputs: Seq<SumsFile>)
    requires
        s.to_multiset() == t.to_multiset(),
        tracks(s, inputs),
    ensures
        tracks(t, inputs),
{
    reveal(tracks);
    assert forall|x: int| 0 <= x < inputs.len() implies held(t, #[trigger] inputs[x]) by {
        let i = choose|i: int| 0 <= i < s.len() && holds(#[trigger] s[i], inputs[x]);
        vstd::seq_lib::to_multiset_contains(s, s[i]);
        vstd::seq_lib::to_multiset_contains(t, s[i]);
        assert(s.contains(s[i]));
        let j = choose|j: int| 0 <= j < t.len() && t[j] == s[i];
        assert(holds(t[j], inputs[x]));
    }
    assert forall|j: int| 0 <= j < t.len() implies sourced(#[trigger] t[j], inputs) by {
        vstd::seq_lib::to_multiset_contains(t, t[j]);
        vstd::seq_lib::to_multiset_contains(s, t[j]);
        assert(t.contains(t[j]));
        let i = choose|i: int| 0 <= i < s.len() && s[i] == t[j];
        assert(sourced(s[i], inputs));
    }
}

/// Merging the popped manifest `a` into `w[j]` keeps what the manifests
/// cover and hold.
proof fn lemma_tracks_merge(
    w: Seq<SumsFile>,
    a: SumsFile,
    c: Seq<SumsFile>,
    j: int,
    b2: SumsFile,
    inputs: Seq<SumsFile>,
)
    requires
        tracks(w.push(a) + c, inputs),
        0 <= j < w.len(),
        b2.name_set() == w[j].name_set().union(a.name_set()),
        b2.checksums_map() == w[j].checksums_map().union_prefer_right(a.checksums_map()),
        b2.spec_size() == w[j].spec_size(),
        a.spec_size() == w[j].spec_size(),
    ensures
        tracks(w.update(j, b2) + c, inputs),
{
    reveal(tracks);
    let s = w.push(a) + c;
    let t = w.update(j, b2) + c;
    let n = w.len() as int;
    assert(b2.checksums_map().dom() == w[j].checksums_map().dom().union(a.checksums_map().dom()));
    assert forall|x: int| 0 <= x < inputs.len() implies held(t, #[trigger] inputs[x]) by {
        let i = choose|i: int| 0 <= i < s.len() && holds(#[trigger] s[i], inputs[x]);
        if i < n {
            if i == j {
                assert(s[i] == w[j]);
                assert(holds(t[j], inputs[x]));
            } else {
                assert(t[i] == s[i]);
            }
        } else if i == n {
            assert(s[i] == a);
            assert(holds(t[j], inputs[x]));
        } else {
            assert(t[i - 1] == s[i]);
        }
    }
    assert forall|i: int| 0 <= i < t.len() implies sourced(#[trigger] t[i], inputs) by {
        if i < n && i != j {
            assert(t[i] == s[i]);
        } else if i >= n {
            assert(t[i] == s[i + 1]);
        } else {
            assert(sourced(s[j], inputs));
            assert(s[n] == a);
            assert(sourced(s[n], inputs));
            assert(s[j] == w[j]);
            assert forall|k: Seq<char>| #[trigger] b2.checksums_map().contains_key(k) implies exists|y: int|
                0 <= y < inputs.len() && (#[trigger] inputs[y]).checksums_map().contains_key(k)
                    && inputs[y].checksums_map()[k] == b2.checksums_map()[k] by {
                if a.checksums_map().contains_key(k) {
                    assert(b2.checksums_map()[k] == a.checksums_map()[k]);
                } else {
                    assert(b2.checksums_map()[k] == w[j].checksums_map()[k]);
                }
            }
        }
    }
}

/// Grouping by equality is transitive for inputs that never disagree on a
/// digest: when `a` and `b` describe the same object, and `b` and `c` do,
/// one group of a grouped and covering result holds all three.
pub proof fn lemma_transitive_grouping(r: Seq<SumsFile>, inputs: Seq<SumsFile>, a: int, b: int, c: int)
    requires
        settled(GroupBy::Equality, r),
        tracks(r, inputs),
        consistent(inputs),
        0 <= a < inputs.len(),
        0 <= b < inputs.len(),
        0 <= c < inputs.len(),
        same_spec(inputs[a], inputs[b]),
        same_spec(inputs[b], inputs[c]),
    ensures
        exists|g: int|
            0 <= g < r.len() && holds(#[trigger] r[g], inputs[a]) && holds(r[g], inputs[b]) && holds(
                r[g],
                inputs[c],
            ),
{
    reveal(tracks);
    assert(held(r, inputs[b]));
    let g = choose|g: int| 0 <= g < r.len() && holds(#[trigger] r[g], inputs[b]);
    lemma_same_group(r, inputs, a, b, g);
    lemma_same_group(r, inputs, c, b, g);
    assert(holds(r[g], inputs[a]) && holds(r[g], inputs[b]) && holds(r[g], inputs[c]));
}

/// An input that describes the same object as an input covered by group
/// `g` is covered by `g` too.
proof fn lemma_same_group(r: Seq<SumsFile>, inputs: Seq<SumsFile>, a: int, b: int, g: int)
    requires
        settled(GroupBy::Equality, r),
        tracks(r, inputs),
        consistent(inputs),
        0 <= a < inputs.len(),
        0 <= b < inputs.len(),
        0 <= g < r.len(),
        holds(r[g], inputs[b]),
        same_spec(inputs[a], inputs[b]) || same_spec(inputs[b], inputs[a]),
    ensures
        holds(r[g], inputs[a]),
{
    reveal(tracks);
    let x = inputs[a];
    let y = inputs[b];
    assert(held(r, x));
    let h = choose|h: int| 0 <= h < r.len() && holds(#[trigger] r[h], x);
    let k = if same_spec(x, y) {
        choose|k: Seq<char>|
            x.checksums_map().contains_key(k) && y.checksums_map().contains_key(k)
                && x.checksums_map()[k].checksum == y.checksums_map()[k].checksum
    } else {
        choose|k: Seq<char>|
            y.checksums_map().contains_key(k) && x.checksums_map().contains_key(k)
                && y.checksums_map()[k].checksum == x.checksums_map()[k].checksum
    };
    assert(r[h].checksums_map().contains_key(k));
    assert(r[g].checksums_map().contains_key(k));
    assert(sourced(r[h], inputs));
    assert(sourced(r[g], inputs));
    let yh = choose|yy: int|
        0 <= yy < inputs.len() && (#[trigger] inputs[yy]).checksums_map().contains_key(k)
            && inputs[yy].checksums_map()[k] == r[h].checksums_map()[k];
    let yg = choose|yy: int|
        0 <= yy < inputs.len() && (#[trigger] inputs[yy]).checksums_map().contains_key(k)
            && inputs[yy].checksums_map()[k] == r[g].checksums_map()[k];
    assert(inputs[yh].checksums_map()[k].checksum == inputs[a].checksums_map()[k].checksum);
    assert(inputs[yg].checksums_map()[k].checksum == inputs[b].checksums_map()[k].checksum);
    assert(same_spec(r[h], r[g]));
    assert(same_spec(r[g], r[h]));
    if h != g {
        if h < g {
            assert(!related(GroupBy::Equality, r[g], r[h]));
        } else {
            assert(!related(GroupBy::Equality, r[h], r[g]));
        }
    }
}

/// Inputs bound to non-empty and pairwise disjoint sets of names.
pub open spec fn distinct_bindings(inputs: Seq<SumsFile>) -> bool {
    &&& forall|x: int| 0 <= x < inputs.len() ==> (#[trigger] inputs[x]).name_set() != Set::<Seq<char>>::empty()
    &&& forall|x: int, y: int|
        0 <= x < inputs.len() && 0 <= y < inputs.len() && x != y ==> (#[trigger] inputs[x]).name_set().disjoint(
            (#[trigger] inputs[y]).name_set(),
        )
}

/// A path of inputs, each related to the next.
pub open spec fn chain(g: GroupBy, inputs: Seq<SumsFile>, p: Seq<int>) -> bool {
    &&& p.len() > 0
    &&& forall|i: int| 0 <= i < p.len() ==> 0 <= #[trigger] p[i] < inputs.len()
    &&& forall|i: int| 0 <= i < p.len() - 1 ==> related(g, inputs[#[trigger] p[i]], inputs[p[i + 1]])
}

/// Inputs `x` and `y` are joined by a chain of related inputs.
pub open spec fn linked(g: GroupBy, inputs: Seq<SumsFile>, x: int, y: int) -> bool {
    exists|p: Seq<int>| chain(g, inputs, p) && p[0] == x && #[trigger] p[p.len() - 1] == y
}

/// A set other than the empty one has an element.
proof fn lemma_set_nonempty(s: Set<Seq<char>>) -> (nm: Seq<char>)
    requires
        s != Set::<Seq<char>>::empty(),
    ensures
        s.contains(nm),
{
    if !exists|n: Seq<char>| s.contains(n) {
        assert(s =~= Set::<Seq<char>>::empty());
    }
    choose|n: Seq<char>| s.contains(n)
}

/// Manifest `f` is the merge of the inputs that it covers: it covers at
/// least one, each of its names and spec strings comes from one of them
/// (with that input's whole value, encoded digest and part digests, when
/// grouping by equality), and any two of them are linked.
#[verifier::opaque]
pub open spec fn well_grouped(f: SumsFile, inputs: Seq<SumsFile>, g: GroupBy) -> bool {
    &&& exists|x: int| 0 <= x < inputs.len() && holds(f, #[trigger] inputs[x])
    &&& forall|nm: Seq<char>|
        #[trigger] f.name_set().contains(nm) ==> exists|x: int|
            0 <= x < inputs.len() && holds(f, #[trigger] inputs[x]) && inputs[x].name_set().contains(nm)
    &&& forall|k: Seq<char>|
        #[trigger] f.checksums_map().contains_key(k) ==> exists|x: int|
            0 <= x < inputs.len() && holds(f, #[trigger] inputs[x])
                && inputs[x].checksums_map().contains_key(k) && (g == GroupBy::Equality
                ==> inputs[x].checksums_map()[k] == f.checksums_map()[k])
    &&& forall|x: int, y: int|
        0 <= x < inputs.len() && 0 <= y < inputs.len() && holds(f, #[trigger] inputs[x]) && holds(
            f,
            #[trigger] inputs[y],
        ) ==> linked(g, inputs, x, y)
}

/// Every input is covered by some manifest.
pub open spec fn all_held(state: Seq<SumsFile>, inputs: Seq<SumsFile>) -> bool {
    forall|x: int| 0 <= x < inputs.len() ==> held(state, #[trigger] inputs[x])
}

/// Every manifest is the merge of the inputs it covers.
pub open spec fn all_well_grouped(state: Seq<SumsFile>, inputs: Seq<SumsFile>, g: GroupBy) -> bool {
    forall|i: int| 0 <= i < state.len() ==> well_grouped(#[trigger] state[i], inputs, g)
}

/// Different manifests have disjoint names.
pub open spec fn names_apart(state: Seq<SumsFile>) -> bool {
    forall|i: int, j: int|
        0 <= i < state.len() && 0 <= j < state.len() && state[i] != state[j] ==> (#[trigger] state[i]).name_set().disjoint(
            (#[trigger] state[j]).name_set(),
        )
}

/// The manifests are groups of the inputs: every input is covered, each
/// manifest is the merge of the inputs it covers, and different manifests
/// have disjoint names.
#[verifier::opaque]
pub open spec fn grouped(state: Seq<SumsFile>, inputs: Seq<SumsFile>, g: GroupBy) -> bool {
    &&& all_held(state, inputs)
    &&& all_well_grouped(state, inputs, g)
    &&& state.no_duplicates()
    &&& names_apart(state)
}

proof fn lemma_related_symmetric(g: GroupBy, a: SumsFile, b: SumsFile)
    ensures
        related(g, a, b) == related(g, b, a),
{
    if related(g, a, b) {
        let k = choose|k: Seq<char>|
            a.checksums_map().contains_key(k) && b.checksums_map().contains_key(k) && (g
                == GroupBy::Equality ==> a.checksums_map()[k].checksum == b.checksums_map()[k].checksum);
        assert(b.checksums_map().contains_key(k) && a.checksums_map().contains_key(k));
    }
    if related(g, b, a) {
        let k = choose|k: Seq<char>|
            b.checksums_map().contains_key(k) && a.checksums_map().contains_key(k) && (g
                == GroupBy::Equality ==> b.checksums_map()[k].checksum == a.checksums_map()[k].checksum);
        assert(a.checksums_map().contains_key(k) && b.checksums_map().contains_key(k));
    }
}

/// Joining two chains by a related pair gives a chain.
proof fn lemma_link_join(g: GroupBy, inputs: Seq<SumsFile>, x: int, x2: int, y2: int, y: int)
    requires
        linked(g, inputs, x, x2),
        related(g, inputs[x2], inputs[y2]),
        linked(g, inputs, y2, y),
    ensures
        linked(g, inputs, x, y),
{
    let p = choose|p: Seq<int>| chain(g, inputs, p) && p[0] == x && #[trigger] p[p.len() - 1] == x2;
    let q = choose|q: Seq<int>| chain(g, inputs, q) && q[0] == y2 && #[trigger] q[q.len() - 1] == y;
    let r = p + q;
    assert forall|i: int| 0 <= i < r.len() implies 0 <= #[trigger] r[i] < inputs.len() by {
        if i < p.len() {
            assert(r[i] == p[i]);
        } else {
            assert(r[i] == q[i - p.len()]);
        }
    }
    assert forall|i: int| 0 <= i < r.len() - 1 implies related(g, inputs[#[trigger] r[i]], inputs[r[i + 1]]) by {
        if i < p.len() - 1 {
            assert(r[i] == p[i] && r[i + 1] == p[i + 1]);
        } else if i == p.len() - 1 {
            assert(r[i] == x2 && r[i + 1] == y2);
        } else {
            assert(r[i] == q[i - p.len()] && r[i + 1] == q[i - p.len() + 1]);
        }
    }
    assert(r[r.len() - 1] == q[q.len() - 1]);
    assert(chain(g, inputs, r) && r[0] == x && r[r.len() - 1] == y);
}

/// Links go both ways.
proof fn lemma_link_reverse(g: GroupBy, inputs: Seq<SumsFile>, x: int, y: int)
    requires
        linked(g, inputs, x, y),
    ensures
        linked(g, inputs, y, x),
{
    let p = choose|p: Seq<int>| chain(g, inputs, p) && p[0] == x && #[trigger] p[p.len() - 1] == y;
    let r = p.reverse();
    let n = p.len();
    assert forall|i: int| 0 <= i < r.len() implies 0 <= #[trigger] r[i] < inputs.len() by {
        assert(r[i] == p[n - 1 - i]);
    }
    assert forall|i: int| 0 <= i < r.len() - 1 implies related(g, inputs[#[trigger] r[i]], inputs[r[i + 1]]) by {
        assert(r[i] == p[n - 1 - i]);
        assert(r[i + 1] == p[n - 2 - i]);
        assert(related(g, inputs[p[n - 2 - i]], inputs[p[n - 2 - i + 1]]));
        lemma_related_symmetric(g, inputs[p[n - 2 - i]], inputs[p[n - 1 - i]]);
    }
    assert(r[0] == p[n - 1]);
    assert(r[r.len() - 1] == p[0]);
}

/// An input whose names are disjoint from all others' is, alone, a group.
proof fn lemma_well_grouped_self(inputs: Seq<SumsFile>, g: GroupBy, i: int)
    requires
        distinct_bindings(inputs),
        0 <= i < inputs.len(),
    ensures
        well_grouped(inputs[i], inputs, g),
{
    reveal(well_grouped);
    let f = inputs[i];
    assert(holds(f, inputs[i]));
    assert forall|x: int| 0 <= x < inputs.len() && holds(f, #[trigger] inputs[x]) implies x == i by {
        if x != i {
            assert(inputs[x].name_set().disjoint(inputs[i].name_set()));
            let nm = lemma_set_nonempty(inputs[x].name_set());
        }
    }
    let p = seq![i];
    assert(chain(g, inputs, p) && p[0] == i && p[p.len() - 1] == i);
    assert(linked(g, inputs, i, i));
}

/// Each input, alone, is a group.
proof fn lemma_grouped_self(inputs: Seq<SumsFile>, g: GroupBy)
    requires
        distinct_bindings(inputs),
    ensures
        grouped(inputs, inputs, g),
{
    reveal(grouped);
    assert forall|x: int| 0 <= x < inputs.len() implies held(inputs, #[trigger] inputs[x]) by {
        assert(holds(inputs[x], inputs[x]));
    }
    assert forall|i: int| 0 <= i < inputs.len() implies well_grouped(#[trigger] inputs[i], inputs, g) by {
        lemma_well_grouped_self(inputs, g, i);
    }
    assert forall|i: int, j: int| 0 <= i < inputs.len() && 0 <= j < inputs.len() && i != j implies inputs[i]
        != inputs[j] by {
        assert(inputs[i].name_set().disjoint(inputs[j].name_set()));
        let nm = lemma_set_nonempty(inputs[i].name_set());
    }
}

/// Reordering the manifests keeps them groups of the inputs.
proof fn lemma_grouped_permute(s: Seq<SumsFile>, t: Seq<SumsFile>, inputs: Seq<SumsFile>, g: GroupBy)
    requires
        s.to_multiset() == t.to_multiset(),
        grouped(s, inputs, g),
    ensures
        grouped(t, inputs, g),
{
    reveal(grouped);
    assert forall|x: int| 0 <= x < inputs.len() implies held(t, #[trigger] inputs[x]) by {
        let i = choose|i: int| 0 <= i < s.len() && holds(#[trigger] s[i], inputs[x]);
        vstd::seq_lib::to_multiset_contains(s, s[i]);
        vstd::seq_lib::to_multiset_contains(t, s[i]);
        assert(s.contains(s[i]));
        let j = choose|j: int| 0 <= j < t.len() && t[j] == s[i];
        assert(holds(t[j], inputs[x]));
    }
    assert forall|j: int| 0 <= j < t.len() implies well_grouped(#[trigger] t[j], inputs, g) by {
        vstd::seq_lib::to_multiset_contains(t, t[j]);
        vstd::seq_lib::to_multiset_contains(s, t[j]);
        assert(t.contains(t[j]));
        let i = choose|i: int| 0 <= i < s.len() && s[i] == t[j];
        assert(well_grouped(s[i], inputs, g));
    }
    s.lemma_multiset_has_no_duplicates();
    t.lemma_multiset_has_no_duplicates_conv();
    assert forall|a: int, b: int|
        0 <= a < t.len() && 0 <= b < t.len() && t[a] != t[b] implies (#[trigger] t[a]).name_set().disjoint(
        (#[trigger] t[b]).name_set(),
    ) by {
        vstd::seq_lib::to_multiset_contains(t, t[a]);
        vstd::seq_lib::to_multiset_contains(s, t[a]);
        vstd::seq_lib::to_multiset_contains(t, t[b]);
        vstd::seq_lib::to_multiset_contains(s, t[b]);
        assert(t.contains(t[a]));
        assert(t.contains(t[b]));
        let i = choose|i: int| 0 <= i < s.len() && s[i] == t[a];
        let k = choose|k: int| 0 <= k < s.len() && s[k] == t[b];
        assert(s[i] != s[k]);
    }
}

/// The merge of two groups covers the inputs that either covers, and no
/// other input.
proof fn lemma_merged_holds(
    s: Seq<SumsFile>,
    a_idx: int,
    b_idx: int,
    b2: SumsFile,
    inputs: Seq<SumsFile>,
    g: GroupBy,
    x: int,
)
    requires
        all_held(s, inputs),
        s.no_duplicates(),
        names_apart(s),
        distinct_bindings(inputs),
        0 <= a_idx < s.len(),
        0 <= b_idx < s.len(),
        a_idx != b_idx,
        0 <= x < inputs.len(),
        s[a_idx].spec_size() == s[b_idx].spec_size(),
        b2.name_set() == s[b_idx].name_set().union(s[a_idx].name_set()),
        b2.checksums_map() == s[b_idx].checksums_map().union_prefer_right(s[a_idx].checksums_map()),
        b2.spec_size() == s[b_idx].spec_size(),
    ensures
        holds(b2, inputs[x]) <==> holds(s[b_idx], inputs[x]) || holds(s[a_idx], inputs[x]),
{
    let a = s[a_idx];
    let b = s[b_idx];
    assert(b2.checksums_map().dom() =~= b.checksums_map().dom().union(a.checksums_map().dom()));
    if holds(b2, inputs[x]) && !holds(b, inputs[x]) && !holds(a, inputs[x]) {
        assert(held(s, inputs[x]));
        let e = choose|e: int| 0 <= e < s.len() && holds(#[trigger] s[e], inputs[x]);
        assert(s[e] != a && s[e] != b);
        assert(s[e].name_set().disjoint(a.name_set()));
        assert(s[e].name_set().disjoint(b.name_set()));
        let nm = lemma_set_nonempty(inputs[x].name_set());
        assert(b2.name_set().contains(nm));
    }
}

/// Merging the popped manifest `a` into the related `w[j]` keeps the
/// manifests groups of the inputs.
proof fn lemma_grouped_merge(
    w: Seq<SumsFile>,
    a: SumsFile,
    c: Seq<SumsFile>,
    j: int,
    b2: SumsFile,
    inputs: Seq<SumsFile>,
    g: GroupBy,
)
    requires
        grouped(w.push(a) + c, inputs, g),
        distinct_bindings(inputs),
        0 <= j < w.len(),
        related(g, a, w[j]),
        b2.name_set() == w[j].name_set().union(a.name_set()),
        b2.checksums_map() == w[j].checksums_map().union_prefer_right(a.checksums_map()),
        b2.spec_size() == w[j].spec_size(),
    ensures
        grouped(w.update(j, b2) + c, inputs, g),
{
    let s = w.push(a) + c;
    let t = w.update(j, b2) + c;
    let n = w.len() as int;
    let b = w[j];
    reveal(grouped);
    assert(s[j] == b && s[n] == a);
    assert(a.spec_size() == b.spec_size());
    assert(members_union(a, b, b2, inputs)) by {
        assert forall|x: int| 0 <= x < inputs.len() implies #[trigger] holds(b2, inputs[x]) == (holds(b, inputs[x])
            || holds(a, inputs[x])) by {
            lemma_merged_holds(s, n, j, b2, inputs, g, x);
        }
    }
    assert(well_grouped(a, inputs, g) && well_grouped(b, inputs, g));
    lemma_well_grouped_merge(a, b, b2, inputs, g);
    lemma_merge_held(w, a, c, j, b2, inputs);
    lemma_merge_all_well(w, a, c, j, b2, inputs, g);
    lemma_well_grouped_parts(b, inputs, g);
    let xb = choose|x: int| 0 <= x < inputs.len() && holds(b, #[trigger] inputs[x]);
    let nm = lemma_set_nonempty(inputs[xb].name_set());
    assert(b.name_set().contains(nm));
    lemma_merge_apart(w, a, c, j, b2, nm);
}

proof fn lemma_merge_held(w: Seq<SumsFile>, a: SumsFile, c: Seq<SumsFile>, j: int, b2: SumsFile, inputs: Seq<SumsFile>)
    requires
        all_held(w.push(a) + c, inputs),
        0 <= j < w.len(),
        members_union(a, w[j], b2, inputs),
    ensures
        all_held(w.update(j, b2) + c, inputs),
{
    let s = w.push(a) + c;
    let t = w.update(j, b2) + c;
    let n = w.len() as int;
    assert forall|x: int| 0 <= x < inputs.len() implies held(t, #[trigger] inputs[x]) by {
        assert(held(s, inputs[x]));
        let e = choose|e: int| 0 <= e < s.len() && holds(#[trigger] s[e], inputs[x]);
        if e == j || e == n {
            assert(holds(t[j], inputs[x]));
        } else if e < n {
            assert(t[e] == s[e]);
        } else {
            assert(t[e - 1] == s[e]);
        }
    }
}

proof fn lemma_merge_all_well(
    w: Seq<SumsFile>,
    a: SumsFile,
    c: Seq<SumsFile>,
    j: int,
    b2: SumsFile,
    inputs: Seq<SumsFile>,
    g: GroupBy,
)
    requires
        all_well_grouped(w.push(a) + c, inputs, g),
        0 <= j < w.len(),
        well_grouped(b2, inputs, g),
    ensures
        all_well_grouped(w.update(j, b2) + c, inputs, g),
{
    let s = w.push(a) + c;
    let t = w.update(j, b2) + c;
    let n = w.len() as int;
    assert forall|i: int| 0 <= i < t.len() implies well_grouped(#[trigger] t[i], inputs, g) by {
        if i < n && i != j {
            assert(t[i] == s[i]);
        } else if i >= n {
            assert(t[i] == s[i + 1]);
        }
    }
}

proof fn lemma_merge_apart(w: Seq<SumsFile>, a: SumsFile, c: Seq<SumsFile>, j: int, b2: SumsFile, nm: Seq<char>)
    requires
        (w.push(a) + c).no_duplicates(),
        names_apart(w.push(a) + c),
        0 <= j < w.len(),
        w[j].name_set().contains(nm),
        b2.name_set() == w[j].name_set().union(a.name_set()),
    ensures
        (w.update(j, b2) + c).no_duplicates(),
        names_apart(w.update(j, b2) + c),
{
    let s = w.push(a) + c;
    let t = w.update(j, b2) + c;
    let n = w.len() as int;
    let b = w[j];
    assert(s[j] == b && s[n] == a);
    assert forall|p: int, q: int| 0 <= p < t.len() && 0 <= q < t.len() && p != q implies t[p] != t[q] by {
        if p != j && q != j {
            let sp = if p < n { p } else { p + 1 };
            let sq = if q < n { q } else { q + 1 };
            assert(t[p] == s[sp] && t[q] == s[sq]);
        } else {
            let o = if p == j { q } else { p };
            let so = if o < n { o } else { o + 1 };
            assert(t[o] == s[so]);
            assert(s[so] != b);
            assert(s[so].name_set().disjoint(b.name_set()));
            assert(b2.name_set().contains(nm));
        }
    }
    assert forall|p: int, q: int|
        0 <= p < t.len() && 0 <= q < t.len() && t[p] != t[q] implies (#[trigger] t[p]).name_set().disjoint(
        (#[trigger] t[q]).name_set(),
    ) by {
        if p != j && q != j {
            let sp = if p < n { p } else { p + 1 };
            let sq = if q < n { q } else { q + 1 };
            assert(t[p] == s[sp] && t[q] == s[sq]);
        } else {
            let o = if p == j { q } else { p };
            let so = if o < n { o } else { o + 1 };
            assert(t[o] == s[so]);
            assert(s[so] != b && s[so] != a);
            assert(s[so].name_set().disjoint(b.name_set()));
            assert(s[so].name_set().disjoint(a.name_set()));
        }
    }
}

/// Members of `b2` are exactly the members of `a` and of `b`.
pub open spec fn members_union(a: SumsFile, b: SumsFile, b2: SumsFile, inputs: Seq<SumsFile>) -> bool {
    forall|x: int|
        0 <= x < inputs.len() ==> #[trigger] holds(b2, inputs[x]) == (holds(b, inputs[x]) || holds(
            a,
            inputs[x],
        ))
}

/// Every two members of a group are linked.
pub open spec fn members_linked(f: SumsFile, inputs: Seq<SumsFile>, g: GroupBy) -> bool {
    forall|x: int, y: int|
        0 <= x < inputs.len() && 0 <= y < inputs.len() && holds(f, #[trigger] inputs[x]) && holds(
            f,
            #[trigger] inputs[y],
        ) ==> linked(g, inputs, x, y)
}

proof fn lemma_merge_linked(
    a: SumsFile,
    b: SumsFile,
    b2: SumsFile,
    inputs: Seq<SumsFile>,
    g: GroupBy,
    xa: int,
    yb: int,
)
    requires
        members_linked(a, inputs, g),
        members_linked(b, inputs, g),
        members_union(a, b, b2, inputs),
        0 <= xa < inputs.len(),
        0 <= yb < inputs.len(),
        holds(a, inputs[xa]),
        holds(b, inputs[yb]),
        related(g, inputs[xa], inputs[yb]),
    ensures
        members_linked(b2, inputs, g),
{
    lemma_related_symmetric(g, inputs[xa], inputs[yb]);
    assert forall|x: int, y: int|
        0 <= x < inputs.len() && 0 <= y < inputs.len() && holds(b2, #[trigger] inputs[x]) && holds(
            b2,
            #[trigger] inputs[y],
        ) implies linked(g, inputs, x, y) by {
        if holds(a, inputs[x]) && holds(b, inputs[y]) && !holds(a, inputs[y]) {
            lemma_link_join(g, inputs, x, xa, yb, y);
        } else if holds(b, inputs[x]) && holds(a, inputs[y]) && !holds(b, inputs[y]) {
            lemma_link_join(g, inputs, x, yb, xa, y);
        }
    }
}

/// A key of a group comes from a member (with its whole value, by
/// equality).
pub open spec fn keys_from_members(f: SumsFile, inputs: Seq<SumsFile>, g: GroupBy) -> bool {
    forall|k: Seq<char>|
        #[trigger] f.checksums_map().contains_key(k) ==> exists|x: int|
            0 <= x < inputs.len() && holds(f, #[trigger] inputs[x])
                && inputs[x].checksums_map().contains_key(k) && (g == GroupBy::Equality
                ==> inputs[x].checksums_map()[k] == f.checksums_map()[k])
}

/// A name of a group comes from a member.
pub open spec fn names_from_members(f: SumsFile, inputs: Seq<SumsFile>) -> bool {
    forall|nm: Seq<char>|
        #[trigger] f.name_set().contains(nm) ==> exists|x: int|
            0 <= x < inputs.len() && holds(f, #[trigger] inputs[x]) && inputs[x].name_set().contains(nm)
}

proof fn lemma_well_grouped_parts(f: SumsFile, inputs: Seq<SumsFile>, g: GroupBy)
    ensures
        well_grouped(f, inputs, g) == ((exists|x: int| 0 <= x < inputs.len() && holds(f, #[trigger] inputs[x]))
            && names_from_members(f, inputs) && keys_from_members(f, inputs, g) && members_linked(
            f,
            inputs,
            g,
        )),
{
    reveal(well_grouped);
}

proof fn lemma_merge_keys(a: SumsFile, b: SumsFile, b2: SumsFile, inputs: Seq<SumsFile>, g: GroupBy)
    requires
        keys_from_members(a, inputs, g),
        keys_from_members(b, inputs, g),
        members_union(a, b, b2, inputs),
        b2.checksums_map() == b.checksums_map().union_prefer_right(a.checksums_map()),
    ensures
        keys_from_members(b2, inputs, g),
{
    assert forall|k: Seq<char>| #[trigger] b2.checksums_map().contains_key(k) implies exists|x: int|
        0 <= x < inputs.len() && holds(b2, #[trigger] inputs[x]) && inputs[x].checksums_map().contains_key(k)
            && (g == GroupBy::Equality ==> inputs[x].checksums_map()[k]
            == b2.checksums_map()[k]) by {
        if a.checksums_map().contains_key(k) {
            let x = choose|x: int|
                0 <= x < inputs.len() && holds(a, #[trigger] inputs[x]) && inputs[x].checksums_map().contains_key(k)
                    && (g == GroupBy::Equality ==> inputs[x].checksums_map()[k]
                    == a.checksums_map()[k]);
            assert(holds(b2, inputs[x]));
        } else {
            let x = choose|x: int|
                0 <= x < inputs.len() && holds(b, #[trigger] inputs[x]) && inputs[x].checksums_map().contains_key(k)
                    && (g == GroupBy::Equality ==> inputs[x].checksums_map()[k]
                    == b.checksums_map()[k]);
            assert(holds(b2, inputs[x]));
        }
    }
}

proof fn lemma_merge_names(a: SumsFile, b: SumsFile, b2: SumsFile, inputs: Seq<SumsFile>)
    requires
        names_from_members(a, inputs),
        names_from_members(b, inputs),
        members_union(a, b, b2, inputs),
        b2.name_set() == b.name_set().union(a.name_set()),
    ensures
        names_from_members(b2, inputs),
{
    assert forall|nm: Seq<char>| #[trigger] b2.name_set().contains(nm) implies exists|x: int|
        0 <= x < inputs.len() && holds(b2, #[trigger] inputs[x]) && inputs[x].name_set().contains(nm) by {
        if b.name_set().contains(nm) {
            let x = choose|x: int| 0 <= x < inputs.len() && holds(b, #[trigger] inputs[x]) && inputs[x].name_set().contains(nm);
            assert(holds(b2, inputs[x]));
        } else {
            let x = choose|x: int| 0 <= x < inputs.len() && holds(a, #[trigger] inputs[x]) && inputs[x].name_set().contains(nm);
            assert(holds(b2, inputs[x]));
        }
    }
}

/// Two related groups have a related pair of members.
proof fn lemma_related_members(a: SumsFile, b: SumsFile, inputs: Seq<SumsFile>, g: GroupBy) -> (r: (int, int))
    requires
        keys_from_members(a, inputs, g),
        keys_from_members(b, inputs, g),
        related(g, a, b),
    ensures
        0 <= r.0 < inputs.len(),
        0 <= r.1 < inputs.len(),
        holds(a, inputs[r.0]),
        holds(b, inputs[r.1]),
        related(g, inputs[r.0], inputs[r.1]),
{
    let k = choose|k: Seq<char>|
        a.checksums_map().contains_key(k) && b.checksums_map().contains_key(k) && (g
            == GroupBy::Equality ==> a.checksums_map()[k].checksum == b.checksums_map()[k].checksum);
    assert(a.checksums_map().contains_key(k));
    assert(b.checksums_map().contains_key(k));
    let xa = choose|x: int|
        0 <= x < inputs.len() && holds(a, #[trigger] inputs[x]) && inputs[x].checksums_map().contains_key(k)
            && (g == GroupBy::Equality ==> inputs[x].checksums_map()[k] == a.checksums_map()[k]);
    let yb = choose|x: int|
        0 <= x < inputs.len() && holds(b, #[trigger] inputs[x]) && inputs[x].checksums_map().contains_key(k)
            && (g == GroupBy::Equality ==> inputs[x].checksums_map()[k] == b.checksums_map()[k]);
    assert(inputs[xa].checksums_map().contains_key(k) && inputs[yb].checksums_map().contains_key(k));
    (xa, yb)
}

/// The merge of two related groups is a group.
proof fn lemma_well_grouped_merge(
    a: SumsFile,
    b: SumsFile,
    b2: SumsFile,
    inputs: Seq<SumsFile>,
    g: GroupBy,
)
    requires
        well_grouped(a, inputs, g),
        well_grouped(b, inputs, g),
        related(g, a, b),
        b2.name_set() == b.name_set().union(a.name_set()),
        b2.checksums_map() == b.checksums_map().union_prefer_right(a.checksums_map()),
        members_union(a, b, b2, inputs),
    ensures
        well_grouped(b2, inputs, g),
{
    lemma_well_grouped_parts(a, inputs, g);
    lemma_well_grouped_parts(b, inputs, g);
    lemma_well_grouped_parts(b2, inputs, g);
    let (xa, yb) = lemma_related_members(a, b, inputs, g);
    lemma_merge_linked(a, b, b2, inputs, g, xa, yb);
    lemma_merge_keys(a, b, b2, inputs, g);
    lemma_merge_names(a, b, b2, inputs);
    assert(holds(b2, inputs[yb]));
}

/// Clearing the digests of groups by comparability keeps them groups:
/// names, spec strings and sizes stay.
proof fn lemma_grouped_cleared(s: Seq<SumsFile>, t: Seq<SumsFile>, inputs: Seq<SumsFile>)
    requires
        grouped(s, inputs, GroupBy::Comparability),
        distinct_bindings(inputs),
        t.len() == s.len(),
        forall|i: int|
            0 <= i < s.len() ==> (#[trigger] t[i]).name_set() == s[i].name_set()
                && t[i].checksums_map().dom() == s[i].checksums_map().dom() && t[i].spec_size()
                == s[i].spec_size(),
    ensures
        grouped(t, inputs, GroupBy::Comparability),
{
    reveal(grouped);
    let g = GroupBy::Comparability;
    assert forall|i: int, x: int| 0 <= i < s.len() && 0 <= x < inputs.len() implies #[trigger] holds(
        t[i],
        inputs[x],
    ) == holds(s[i], inputs[x]) by {
        assert(t[i].checksums_map().dom() == s[i].checksums_map().dom());
    }
    assert forall|x: int| 0 <= x < inputs.len() implies held(t, #[trigger] inputs[x]) by {
        let e = choose|e: int| 0 <= e < s.len() && holds(#[trigger] s[e], inputs[x]);
        assert(holds(t[e], inputs[x]));
    }
    assert forall|i: int| 0 <= i < t.len() implies well_grouped(#[trigger] t[i], inputs, g) by {
        lemma_well_grouped_parts(s[i], inputs, g);
        lemma_well_grouped_parts(t[i], inputs, g);
        assert(well_grouped(s[i], inputs, g));
        let x0 = choose|x: int| 0 <= x < inputs.len() && holds(s[i], #[trigger] inputs[x]);
        assert(holds(t[i], inputs[x0]));
        assert forall|nm: Seq<char>| #[trigger] t[i].name_set().contains(nm) implies exists|x: int|
            0 <= x < inputs.len() && holds(t[i], #[trigger] inputs[x]) && inputs[x].name_set().contains(nm) by {
            assert(s[i].name_set().contains(nm));
            let x = choose|x: int| 0 <= x < inputs.len() && holds(s[i], #[trigger] inputs[x]) && inputs[x].name_set().contains(nm);
            assert(holds(t[i], inputs[x]));
        }
        assert forall|k: Seq<char>| #[trigger] t[i].checksums_map().contains_key(k) implies exists|x: int|
            0 <= x < inputs.len() && holds(t[i], #[trigger] inputs[x]) && inputs[x].checksums_map().contains_key(k)
                && (g == GroupBy::Equality ==> inputs[x].checksums_map()[k]
                == t[i].checksums_map()[k]) by {
            assert(s[i].checksums_map().contains_key(k));
            let x = choose|x: int|
                0 <= x < inputs.len() && holds(s[i], #[trigger] inputs[x]) && inputs[x].checksums_map().contains_key(k)
                    && (g == GroupBy::Equality ==> inputs[x].checksums_map()[k]
                    == s[i].checksums_map()[k]);
            assert(holds(t[i], inputs[x]));
        }
        assert forall|x: int, y: int|
            0 <= x < inputs.len() && 0 <= y < inputs.len() && holds(t[i], #[trigger] inputs[x]) && holds(
                t[i],
                #[trigger] inputs[y],
            ) implies linked(g, inputs, x, y) by {
            assert(holds(s[i], inputs[x]) && holds(s[i], inputs[y]));
        }
    }
    assert forall|p: int, q: int| 0 <= p < t.len() && 0 <= q < t.len() && p != q implies t[p] != t[q]
        && t[p].name_set().disjoint(t[q].name_set()) by {
        assert(s[p] != s[q]);
        assert(s[p].name_set().disjoint(s[q].name_set()));
        lemma_well_grouped_parts(s[p], inputs, g);
        assert(well_grouped(s[p], inputs, g));
        let x = choose|x: int| 0 <= x < inputs.len() && holds(s[p], #[trigger] inputs[x]);
        let nm = lemma_set_nonempty(inputs[x].name_set());
        assert(t[p].name_set().contains(nm));
    }
}

/// Each input with its own names ends in exactly one group.
pub proof fn lemma_one_group_per_input(r: Seq<SumsFile>, inputs: Seq<SumsFile>, g: GroupBy, x: int)
    requires
        grouped(r, inputs, g),
        distinct_bindings(inputs),
        0 <= x < inputs.len(),
    ensures
        exists|i: int| 0 <= i < r.len() && holds(#[trigger] r[i], inputs[x]),
        forall|i: int, j: int|
            0 <= i < r.len() && 0 <= j < r.len() && holds(#[trigger] r[i], inputs[x]) && holds(
                #[trigger] r[j],
                inputs[x],
            ) ==> i == j,
{
    reveal(grouped);
    assert(held(r, inputs[x]));
    assert forall|i: int, j: int|
        0 <= i < r.len() && 0 <= j < r.len() && holds(#[trigger] r[i], inputs[x]) && holds(
            #[trigger] r[j],
            inputs[x],
        ) implies i == j by {
        if i != j {
            assert(r[i] != r[j]);
            assert(r[i].name_set().disjoint(r[j].name_set()));
            let nm = lemma_set_nonempty(inputs[x].name_set());
            assert(r[i].name_set().contains(nm));
        }
    }
}

/// Non-strict order is transitive.
proof fn lemma_key_le_transitive(a: Seq<char>, b: Seq<char>, c: Seq<char>)
    requires
        !lex_lt(b, a),
        !lex_lt(c, b),
    ensures
        !lex_lt(c, a),
{
    if lex_lt(c, a) {
        lemma_lex_total(a, b);
        lemma_lex_total(b, c);
        if a == b {
        } else if b == c {
            lemma_lex_transitive(c, a, b);
            lemma_lex_irreflexive(c);
        } else {
            lemma_lex_transitive(a, b, c);
            lemma_lex_transitive(a, c, a);
            lemma_lex_irreflexive(a);
        }
    }
}

/// Whether `a`'s key sorts strictly before `b`'s.
fn key_less(a: &SumsFile, b: &SumsFile) -> (r: bool)
    ensures
        r == lex_lt(sort_key(*a), sort_key(*b)),
{
    let na = a.names();
    let nb = b.names();
    proof {
        reveal_strlit("");
    }
    let ka: &str = if na.len() > 0 {
        na[0].as_str()
    } else {
        ""
    };
    let kb: &str = if nb.len() > 0 {
        nb[0].as_str()
    } else {
        ""
    };
    assert(ka@ == sort_key(*a));
    assert(kb@ == sort_key(*b));
    str_less(ka, kb)
}

/// Sorts manifests by key; of equal keys the earlier stays first. A sorted
/// list is returned as it is.
pub fn sort_files(v: Vec<SumsFile>) -> (r: Vec<SumsFile>)
    requires
        all_wf(v@),
    ensures
        all_wf(r@),
        r@.len() == v@.len(),
        sorted_files(r@),
        sorted_files(v@) ==> r@ == v@,
        all_names(r@) == all_names(v@),
        all_specs(r@) == all_specs(v@),
        r@.to_multiset() == v@.to_multiset(),
{
    let ghost orig = v@;
    let n = v.len();
    let mut rest = v;
    let mut out: Vec<SumsFile> = Vec::new();
    let mut i: usize = 0;
    assert(all_names(out@) =~= all_names(orig.take(0)));
    assert(all_specs(out@) =~= all_specs(orig.take(0)));
    assert(orig.take(0) =~= out@);
    while rest.len() > 0
        invariant
            n == orig.len(),
            i + rest@.len() == n,
            rest@ == orig.skip(i as int),
            all_wf(orig),
            all_wf(out@),
            out@.len() == i,
            sorted_files(out@),
            sorted_files(orig) ==> out@ == orig.take(i as int),
            all_names(out@) == all_names(orig.take(i as int)),
            all_specs(out@) == all_specs(orig.take(i as int)),
            out@.to_multiset() == orig.take(i as int).to_multiset(),
        decreases rest@.len(),
    {
        let x = rest.remove(0);
        assert(orig[i as int] == x);
        assert(rest@ =~= orig.skip(i + 1));
        let mut p: usize = out.len();
        while p > 0 && key_less(&x, &out[p - 1])
            invariant
                p <= out@.len(),
                forall|j: int| p <= j < out@.len() ==> lex_lt(sort_key(x), sort_key(#[trigger] out@[j])),
            decreases p,
        {
            p = p - 1;
        }
        let ghost before = out@;
        proof {
            if sorted_files(orig) && out@.len() > 0 {
                assert(before[out@.len() - 1] == orig[out@.len() - 1]);
                assert(!lex_lt(sort_key(orig[i as int]), sort_key(orig[out@.len() - 1])));
            }
        }
        out.insert(p, x);
        proof {
            let t = out@;
            assert(t =~= before.insert(p as int, x));
            assert forall|a: int, b: int| 0 <= a < b < t.len() implies !lex_lt(
                sort_key(#[trigger] t[b]),
                sort_key(#[trigger] t[a]),
            ) by {
                if a < p && b == p {
                    assert(!lex_lt(sort_key(x), sort_key(before[p - 1])));
                    if a < p - 1 {
                        lemma_key_le_transitive(sort_key(before[a]), sort_key(before[p - 1]), sort_key(x));
                    }
                } else if a < p && b > p {
                    assert(t[b] == before[b - 1]);
                } else if a == p {
                    assert(t[b] == before[b - 1]);
                    assert(lex_lt(sort_key(x), sort_key(before[b - 1])));
                    crate::text::lemma_lex_asymmetric(sort_key(x), sort_key(before[b - 1]));
                } else if a > p {
                    assert(t[a] == before[a - 1]);
                    assert(t[b] == before[b - 1]);
                }
            }
            assert forall|a: int| 0 <= a < t.len() implies (#[trigger] t[a]).wf() by {
                if a < p {
                    assert(t[a] == before[a]);
                } else if a > p {
                    assert(t[a] == before[a - 1]);
                }
            }
            if sorted_files(orig) {
                assert(t =~= orig.take(i + 1));
            }
            lemma_all_names_insert(before, p as int, x);
            lemma_all_names_insert(orig.take(i as int), i as int, x);
            lemma_all_specs_insert(before, p as int, x);
            lemma_all_specs_insert(orig.take(i as int), i as int, x);
            vstd::seq_lib::to_multiset_insert(before, p as int, x);
            vstd::seq_lib::to_multiset_build(orig.take(i as int), x);
            assert(orig.take(i as int).push(x) =~= orig.take(i + 1));
            assert(orig.take(i as int).insert(i as int, x) =~= orig.take(i + 1));
        }
        i = i + 1;
    }
    assert(orig.take(n as int) =~= orig);
    out
}

/// Whether two manifests belong in one group.
pub fn is_related(g: GroupBy, a: &SumsFile, b: &SumsFile) -> (r: bool)
    requires
        a.wf(),
        b.wf(),
    ensures
        r == related(g, *a, *b),
{
    match g {
        GroupBy::Equality => a.is_same(b),
        GroupBy::Comparability => a.comparable(b),
    }
}

/// One pass of grouping over sorted manifests: each manifest, taken from
/// the end, is merged into the first remaining one that it is related to,
/// or else carried over. Returns the carried manifests, sorted, and whether
/// any merge happened.
fn merge_pass(files: Vec<SumsFile>, g: GroupBy, Ghost(inputs): Ghost<Seq<SumsFile>>) -> (r: (
    Vec<SumsFile>,
    bool,
))
    requires
        all_wf(files@),
        sorted_files(files@),
    ensures
        tracks(files@, inputs) ==> tracks(r.0@, inputs),
        grouped(files@, inputs, g) && distinct_bindings(inputs) ==> grouped(r.0@, inputs, g),
        r.0@.len() <= files@.len(),
        all_wf(r.0@),
        sorted_files(r.0@),
        r.1 ==> r.0@.len() < files@.len(),
        !r.1 ==> r.0@ == files@ && settled(g, files@),
        settled(g, files@) ==> !r.1,
        all_names(r.0@) == all_names(files@),
        all_specs(r.0@) == all_specs(files@),
{
    let ghost orig = files@;
    let n = files.len();
    let mut work = files;
    let mut carry: Vec<SumsFile> = Vec::new();
    let mut merges: usize = 0;
    while work.len() > 0
        invariant
            n == orig.len(),
            all_wf(work@),
            all_wf(carry@),
            work@.len() + carry@.len() + merges == n,
            merges == 0 ==> work@ == orig.take(work@.len() as int) && carry@ == orig.skip(
                work@.len() as int,
            ),
            merges == 0 ==> forall|i: int, j: int|
                0 <= i < j < n && j >= work@.len() ==> !related(g, #[trigger] orig[j], #[trigger] orig[i]),
            settled(g, orig) ==> merges == 0,
            all_names(work@).union(all_names(carry@)) == all_names(orig),
            all_specs(work@).union(all_specs(carry@)) == all_specs(orig),
            tracks(orig, inputs) ==> tracks(work@ + carry@, inputs),
            grouped(orig, inputs, g) && distinct_bindings(inputs) ==> grouped(work@ + carry@, inputs, g),
        decreases work@.len(),
    {
        let ghost w_full = work@;
        let a = work.pop().unwrap();
        let m = work.len();
        proof {
            assert(w_full =~= work@.push(a));
            lemma_all_names_remove(w_full, m as int);
            lemma_all_specs_remove(w_full, m as int);
            assert(w_full.remove(m as int) =~= work@);
            if merges == 0 {
                assert(a == orig[m as int]);
                assert(work@ =~= orig.take(m as int));
            }
        }
        let mut j: usize = 0;
        let mut found = false;
        while j < work.len() && !found
            invariant
                work@.len() == m,
                n == orig.len(),
                m < n,
                all_wf(work@),
                a.wf(),
                j <= m,
                found ==> j < m,
                found ==> related(g, a, work@[j as int]),
                !found ==> forall|k: int| 0 <= k < j ==> !related(g, a, #[trigger] work@[k]),
                merges == 0 ==> work@ == orig.take(m as int) && a == orig[m as int],
                settled(g, orig) ==> merges == 0,
                settled(g, orig) ==> !found,
            decreases m - j, (if found {
                0int
            } else {
                1int
            }),
        {
            if is_related(g, &a, &work[j]) {
                proof {
                    if settled(g, orig) {
                        assert(work@[j as int] == orig[j as int]);
                    }
                }
                found = true;
            } else {
                j = j + 1;
            }
        }
        if found {
            let ghost w_before = work@;
            let ghost a_names = a.name_set();
            let ghost a_specs = a.checksums_map().dom();
            let mut b = work.remove(j);
            let ghost w0 = work@;
            let ghost b_names = b.name_set();
            let ghost a_copy = a;
            assert(b.wf());
            assert(related(g, a, b));
            b.merge_mut(a);
            work.insert(j, b);
            proof {
                assert(work@ =~= w_before.update(j as int, b));
                if tracks(orig, inputs) {
                    lemma_tracks_merge(w_before, a_copy, carry@, j as int, b, inputs);
                }
                if grouped(orig, inputs, g) && distinct_bindings(inputs) {
                    lemma_grouped_merge(w_before, a_copy, carry@, j as int, b, inputs, g);
                }
                lemma_all_names_remove(w_before, j as int);
                lemma_all_names_insert(w0, j as int, work@[j as int]);
                assert(all_names(work@) =~= all_names(w_before).union(a_names));
                lemma_all_specs_remove(w_before, j as int);
                lemma_all_specs_insert(w0, j as int, work@[j as int]);
                assert(all_specs(work@) =~= all_specs(w_before).union(a_specs));
                assert forall|k: int| 0 <= k < work@.len() implies (#[trigger] work@[k]).wf() by {
                    if k < j {
                        assert(work@[k] == w0[k]);
                    } else if k > j {
                        assert(work@[k] == w0[k - 1]);
                    }
                }
            }
            merges = merges + 1;
        } else {
            let ghost c0 = carry@;
            proof {
                if merges == 0 {
                    assert(a == orig[m as int]);
                    assert forall|i: int, jj: int|
                        0 <= i < jj < n && jj >= m implies !related(g, #[trigger] orig[jj], #[trigger] orig[i]) by {
                        if jj == m {
                            assert(work@[i] == orig[i]);
                        }
                    }
                }
            }
            carry.insert(0, a);
            proof {
                lemma_all_names_insert(c0, 0, carry@[0]);
                lemma_all_specs_insert(c0, 0, carry@[0]);
                assert forall|k: int| 0 <= k < carry@.len() implies (#[trigger] carry@[k]).wf() by {
                    if k > 0 {
                        assert(carry@[k] == c0[k - 1]);
                    }
                }
                if merges == 0 {
                    assert(carry@ =~= orig.skip(m as int));
                    assert(work@ =~= orig.take(m as int));
                }
                assert(work@ + carry@ =~= work@.push(carry@[0]) + c0);
            }
        }
    }
    let merged = merges > 0;
    proof {
        if !merged {
            assert(carry@ =~= orig);
        }
    }
    assert(work@ + carry@ =~= carry@);
    let ghost c_final = carry@;
    let sorted = sort_files(carry);
    proof {
        if tracks(orig, inputs) {
            lemma_tracks_permute(c_final, sorted@, inputs);
        }
        if grouped(orig, inputs, g) && distinct_bindings(inputs) {
            lemma_grouped_permute(c_final, sorted@, inputs, g);
        }
    }
    (sorted, merged)
}

/// Every entry of every manifest has a cleared value.
pub open spec fn all_cleared(s: Seq<SumsFile>) -> bool {
    forall|i: int, k: int|
        0 <= i < s.len() && 0 <= k < s[i].entries().len() ==> (#[trigger] s[i].entries()[k]).1
            == crate::sums::empty_checksum()
}

/// Builds a check task.
pub struct CheckTaskBuilder {
    files: Vec<String>,
    group_by: GroupBy,
    update: bool,
}

impl Default for CheckTaskBuilder {
    fn default() -> (r: Self)
        ensures
            r.spec_files() == Seq::<String>::empty(),
            r.spec_group_by() == GroupBy::Equality,
            !r.spec_update(),
    {
        CheckTaskBuilder { files: Vec::new(), group_by: GroupBy::Equality, update: false }
    }
}

impl CheckTaskBuilder {
    /// The input names.
    pub closed spec fn spec_files(&self) -> Seq<String> {
        self.files@
    }

    /// The grouping.
    pub closed spec fn spec_group_by(&self) -> GroupBy {
        self.group_by
    }

    /// Whether groups are written back.
    pub closed spec fn spec_update(&self) -> bool {
        self.update
    }

    /// Sets the input names.
    pub fn with_input_files(self, files: Vec<String>) -> (r: Self)
        ensures
            r.spec_files() == files@,
            r.spec_group_by() == self.spec_group_by(),
            r.spec_update() == self.spec_update(),
    {
        CheckTaskBuilder { files, ..self }
    }

    /// Sets the grouping.
    pub fn with_group_by(self, group_by: GroupBy) -> (r: Self)
        ensures
            r.spec_files() == self.spec_files(),
            r.spec_group_by() == group_by,
            r.spec_update() == self.spec_update(),
    {
        CheckTaskBuilder { group_by, ..self }
    }

    /// Sets the grouping under which missing digests are to be generated.
    pub fn generate_missing(self, group_by: GroupBy) -> (r: Self)
        ensures
            r.spec_files() == self.spec_files(),
            r.spec_group_by() == group_by,
            r.spec_update() == self.spec_update(),
    {
        CheckTaskBuilder { group_by, ..self }
    }

    /// Asks for each group's merged manifest to be written back.
    pub fn update(self) -> (r: Self)
        ensures
            r.spec_files() == self.spec_files(),
            r.spec_group_by() == self.spec_group_by(),
            r.spec_update(),
    {
        CheckTaskBuilder { update: true, ..self }
    }

    /// The input names.
    pub fn input_files(&self) -> (r: &Vec<String>)
        ensures
            r@ == self.spec_files(),
    {
        &self.files
    }

    /// The grouping.
    pub fn group_by(&self) -> (r: GroupBy)
        ensures
            r == self.spec_group_by(),
    {
        self.group_by
    }

    /// Whether groups are written back.
    pub fn updates(&self) -> (r: bool)
        ensures
            r == self.spec_update(),
    {
        self.update
    }

    /// The task over the manifests loaded for the input names.
    pub fn build(self, files: Vec<SumsFile>) -> (r: CheckTask)
        requires
            all_wf(files@),
        ensures
            r.spec_files() == files@,
            r.spec_group_by() == self.spec_group_by(),
            r.spec_update() == self.spec_update(),
    {
        CheckTask { files, group_by: self.group_by, update: self.update }
    }
}

/// A check task: manifests and how to group them.
pub struct CheckTask {
    files: Vec<SumsFile>,
    group_by: GroupBy,
    update: bool,
}

impl CheckTask {
    /// The manifests.
    pub closed spec fn spec_files(&self) -> Seq<SumsFile> {
        self.files@
    }

    /// The grouping.
    pub closed spec fn spec_group_by(&self) -> GroupBy {
        self.group_by
    }

    /// Whether groups are written back.
    pub closed spec fn spec_update(&self) -> bool {
        self.update
    }

    /// Whether groups are written back.
    pub fn updates(&self) -> (r: bool)
        ensures
            r == self.spec_update(),
    {
        self.update
    }

    /// Sorts the manifests by their first name, then repeats passes of
    /// merging (see `merge_pass`) until a pass merges nothing. The result is
    /// sorted and no two of its manifests are related; manifests that are
    /// already so are kept as they are.
    fn merge_fn(self, g: GroupBy) -> (r: Self)
        requires
            all_wf(self.spec_files()),
        ensures
            all_wf(r.spec_files()),
            sorted_files(r.spec_files()),
            settled(g, r.spec_files()),
            sorted_files(self.spec_files()) && settled(g, self.spec_files()) ==> r.spec_files()
                == self.spec_files(),
            all_names(r.spec_files()) == all_names(self.spec_files()),
            all_specs(r.spec_files()) == all_specs(self.spec_files()),
            tracks(r.spec_files(), self.spec_files()),
            distinct_bindings(self.spec_files()) ==> grouped(r.spec_files(), self.spec_files(), g),
            r.spec_files().len() <= self.spec_files().len(),
            r.spec_group_by() == self.spec_group_by(),
            r.spec_update() == self.spec_update(),
    {
        let ghost input = self.files@;
        let CheckTask { files, group_by, update } = self;
        let mut files = sort_files(files);
        proof {
            lemma_tracks_self(input);
            lemma_tracks_permute(input, files@, input);
            if distinct_bindings(input) {
                lemma_grouped_self(input, g);
                lemma_grouped_permute(input, files@, input, g);
            }
        }
        let mut done = false;
        while !done
            invariant
                all_wf(files@),
                sorted_files(files@),
                done ==> settled(g, files@),
                sorted_files(input) && settled(g, input) ==> files@ == input,
                all_names(files@) == all_names(input),
                all_specs(files@) == all_specs(input),
                tracks(files@, input),
                distinct_bindings(input) ==> grouped(files@, input, g),
                files@.len() <= input.len(),
            decreases files@.len() + (if done {
                0int
            } else {
                1int
            }),
        {
            let (next, merged) = merge_pass(files, g, Ghost(input));
            files = next;
            if !merged {
                done = true;
            }
        }
        CheckTask { files, group_by, update }
    }

    /// Groups the manifests that describe the same object, also through
    /// others: when `a` and `b` share a digest and `b` and `c` share another,
    /// the three are merged.
    pub fn merge_same(self) -> (r: Self)
        requires
            all_wf(self.spec_files()),
        ensures
            all_wf(r.spec_files()),
            sorted_files(r.spec_files()),
            settled(GroupBy::Equality, r.spec_files()),
            sorted_files(self.spec_files()) && settled(GroupBy::Equality, self.spec_files())
                ==> r.spec_files() == self.spec_files(),
            all_names(r.spec_files()) == all_names(self.spec_files()),
            all_specs(r.spec_files()) == all_specs(self.spec_files()),
            tracks(r.spec_files(), self.spec_files()),
            distinct_bindings(self.spec_files()) ==> grouped(r.spec_files(), self.spec_files(), GroupBy::Equality),
            r.spec_files().len() <= self.spec_files().len(),
            r.spec_group_by() == self.spec_group_by(),
            r.spec_update() == self.spec_update(),
    {
        self.merge_fn(GroupBy::Equality)
    }

    /// Groups the manifests that share a spec, then clears every digest
    /// value, which no longer stands for one object.
    pub fn merge_comparable(self) -> (r: Self)
        requires
            all_wf(self.spec_files()),
        ensures
            all_wf(r.spec_files()),
            sorted_files(r.spec_files()),
            settled(GroupBy::Comparability, r.spec_files()),
            all_cleared(r.spec_files()),
            sorted_files(self.spec_files()) && settled(GroupBy::Comparability, self.spec_files())
                && all_cleared(self.spec_files()) ==> same_files(r.spec_files(), self.spec_files()),
            all_names(r.spec_files()) == all_names(self.spec_files()),
            all_specs(r.spec_files()) == all_specs(self.spec_files()),
            distinct_bindings(self.spec_files()) ==> grouped(r.spec_files(), self.spec_files(), GroupBy::Comparability),
            r.spec_files().len() <= self.spec_files().len(),
            r.spec_group_by() == self.spec_group_by(),
            r.spec_update() == self.spec_update(),
    {
        let ghost input = self.files@;
        let merged = self.merge_fn(GroupBy::Comparability);
        let ghost gs = merged.files@;
        let CheckTask { files, group_by, update } = merged;
        let mut rest = files;
        let mut out: Vec<SumsFile> = Vec::new();
        let n = rest.len();
        let mut i: usize = 0;
        while rest.len() > 0
            invariant
                n == gs.len(),
                i + rest@.len() == n,
                rest@ == gs.skip(i as int),
                all_wf(gs),
                out@.len() == i,
                forall|j: int|
                    0 <= j < i ==> {
                        &&& (#[trigger] out@[j]).wf()
                        &&& out@[j].spec_size() == gs[j].spec_size()
                        &&& out@[j].name_list() == gs[j].name_list()
                        &&& out@[j].entries().len() == gs[j].entries().len()
                        &&& forall|k: int|
                            0 <= k < out@[j].entries().len() ==> (#[trigger] out@[j].entries()[k]).0
                                == gs[j].entries()[k].0 && out@[j].entries()[k].1
                                == crate::sums::empty_checksum()
                        &&& out@[j].checksums_map().dom() == gs[j].checksums_map().dom()
                    },
            decreases rest@.len(),
        {
            let mut f = rest.remove(0);
            assert(gs[i as int] == f);
            f.clear_checksums();
            out.push(f);
            assert(rest@ =~= gs.skip(i + 1));
            i = i + 1;
        }
        proof {
            let o = out@;
            assert forall|a: int, b: int| 0 <= a < b < o.len() implies !lex_lt(
                sort_key(#[trigger] o[b]),
                sort_key(#[trigger] o[a]),
            ) by {
                assert(sort_key(o[a]) == sort_key(gs[a]));
                assert(sort_key(o[b]) == sort_key(gs[b]));
            }
            assert forall|a: int, b: int| 0 <= a < b < o.len() implies !related(
                GroupBy::Comparability,
                #[trigger] o[b],
                #[trigger] o[a],
            ) by {
                assert(!comparable_spec(gs[b], gs[a]));
                assert(o[b].checksums_map().dom() == gs[b].checksums_map().dom());
                assert(o[a].checksums_map().dom() == gs[a].checksums_map().dom());
                if comparable_spec(o[b], o[a]) {
                    let k = choose|k: Seq<char>|
                        o[b].checksums_map().contains_key(k) && o[a].checksums_map().contains_key(k);
                    assert(gs[b].checksums_map().contains_key(k));
                    assert(gs[a].checksums_map().contains_key(k));
                }
            }
            assert forall|a: int, k: int|
                0 <= a < o.len() && 0 <= k < o[a].entries().len() implies (#[trigger] o[a].entries()[k]).1
                == crate::sums::empty_checksum() by {}
            assert forall|nm: Seq<char>| #[trigger] all_names(o).contains(nm) == all_names(
                gs,
            ).contains(nm) by {
                if all_names(o).contains(nm) {
                    let x = choose|x: int| 0 <= x < o.len() && (#[trigger] o[x]).name_set().contains(nm);
                    assert(gs[x].name_set() == o[x].name_set());
                }
                if all_names(gs).contains(nm) {
                    let x = choose|x: int|
                        0 <= x < gs.len() && (#[trigger] gs[x]).name_set().contains(nm);
                    assert(gs[x].name_set() == o[x].name_set());
                }
            }
            assert(all_names(o) =~= all_names(gs));
            assert forall|k: Seq<char>| #[trigger] all_specs(o).contains(k) == all_specs(
                gs,
            ).contains(k) by {
                if all_specs(o).contains(k) {
                    let x = choose|x: int| 0 <= x < o.len() && (#[trigger] o[x]).checksums_map().contains_key(k);
                    assert(gs[x].checksums_map().dom() == o[x].checksums_map().dom());
                }
                if all_specs(gs).contains(k) {
                    let x = choose|x: int|
                        0 <= x < gs.len() && (#[trigger] gs[x]).checksums_map().contains_key(k);
                    assert(gs[x].checksums_map().dom() == o[x].checksums_map().dom());
                }
            }
            assert(all_specs(o) =~= all_specs(gs));
            if sorted_files(input) && settled(GroupBy::Comparability, input) && all_cleared(input) {
                assert forall|a: int| 0 <= a < o.len() implies file_view(#[trigger] o[a]) == file_view(
                    input[a],
                ) by {
                    assert(gs[a] == input[a]);
                    assert(o[a].entries() =~= input[a].entries()) by {
                        assert forall|k: int| 0 <= k < o[a].entries().len() implies o[a].entries()[k]
                            == input[a].entries()[k] by {
                            assert(input[a].entries()[k].1 == crate::sums::empty_checksum());
                        }
                    }
                }
            }
        }
        proof {
            if distinct_bindings(input) {
                lemma_grouped_cleared(gs, out@, input);
            }
        }
        CheckTask { files: out, group_by, update }
    }

    /// Runs the task: the groups under the task's grouping, each as one
    /// merged manifest.
    pub fn run(self) -> (r: Vec<SumsFile>)
        requires
            all_wf(self.spec_files()),
        ensures
            all_wf(r@),
            sorted_files(r@),
            settled(self.spec_group_by(), r@),
            self.spec_group_by() == GroupBy::Comparability ==> all_cleared(r@),
            sorted_files(self.spec_files()) && settled(self.spec_group_by(), self.spec_files()) && (
            self.spec_group_by() == GroupBy::Comparability ==> all_cleared(self.spec_files()))
                ==> same_files(r@, self.spec_files()),
            all_names(r@) == all_names(self.spec_files()),
            all_specs(r@) == all_specs(self.spec_files()),
            self.spec_group_by() == GroupBy::Equality ==> tracks(r@, self.spec_files()),
            distinct_bindings(self.spec_files()) ==> grouped(r@, self.spec_files(), self.spec_group_by()),
            r@.len() <= self.spec_files().len(),
    {
        let ghost input = self.files@;
        match self.group_by {
            GroupBy::Equality => {
                let r = self.merge_same();
                let files = r.files;
                assert(sorted_files(input) && settled(GroupBy::Equality, input) ==> same_files(files@, input));
                files
            },
            GroupBy::Comparability => self.merge_comparable().files,
        }
    }
}

/// The groups that a check found, as the names of each group.
pub struct CheckOutput {
    pub group_by: GroupBy,
    pub groups: Vec<Vec<String>>,
}

impl CheckOutput {
    /// The output of a check.
    pub fn new(groups: Vec<Vec<String>>, group_by: GroupBy) -> (r: Self)
        ensures
            r.groups == groups,
            r.group_by == group_by,
    {
        CheckOutput { groups, group_by }
    }
}

/// A name of some group, with a spec string that some group has and that
/// group lacks.
pub open spec fn pair_ok(g: Seq<SumsFile>, p: (String, String)) -> bool {
    exists|a: int|
        0 <= a < g.len() && (#[trigger] g[a]).name_set().contains(p.0@) && all_specs(g).contains(p.1@)
            && !g[a].checksums_map().contains_key(p.1@)
}

/// Whether `(n, k)` is among the pairs.
pub open spec fn has_pair(out: Seq<(String, String)>, n: Seq<char>, k: Seq<char>) -> bool {
    exists|x: int| 0 <= x < out.len() && (#[trigger] out[x]).0@ == n && out[x].1@ == k
}

/// Pushing keeps the pairs already there.
proof fn lemma_has_pair_push(out: Seq<(String, String)>, e: (String, String), n: Seq<char>, k: Seq<char>)
    requires
        has_pair(out, n, k),
    ensures
        has_pair(out.push(e), n, k),
{
    let x = choose|x: int| 0 <= x < out.len() && (#[trigger] out[x]).0@ == n && out[x].1@ == k;
    assert(out.push(e)[x] == out[x]);
}

/// The digests needed to connect groups of comparable manifests: for each
/// group, every spec string that some group has and it lacks, paired with
/// each of its names.
pub fn missing_specs(groups: &Vec<SumsFile>) -> (r: Vec<(String, String)>)
    requires
        all_wf(groups@),
    ensures
        forall|x: int| 0 <= x < r@.len() ==> pair_ok(groups@, #[trigger] r@[x]),
        forall|i: int, n: Seq<char>, k: Seq<char>|
            0 <= i < groups@.len() && #[trigger] groups@[i].name_set().contains(n) && #[trigger] all_specs(
                groups@,
            ).contains(k) && !groups@[i].checksums_map().contains_key(k) ==> has_pair(r@, n, k),
{
    let ghost g = groups@;
    let mut out: Vec<(String, String)> = Vec::new();
    let mut i: usize = 0;
    while i < groups.len()
        invariant
            g == groups@,
            all_wf(g),
            i <= g.len(),
            forall|x: int| 0 <= x < out@.len() ==> pair_ok(g, #[trigger] out@[x]),
            forall|a: int, n: Seq<char>, k: Seq<char>|
                0 <= a < i && #[trigger] g[a].name_set().contains(n) && #[trigger] all_specs(g).contains(k)
                    && !g[a].checksums_map().contains_key(k) ==> has_pair(out@, n, k),
        decreases g.len() - i,
    {
        let mut j: usize = 0;
        while j < groups.len()
            invariant
                g == groups@,
                all_wf(g),
                i < g.len(),
                j <= g.len(),
                forall|x: int| 0 <= x < out@.len() ==> pair_ok(g, #[trigger] out@[x]),
                forall|a: int, n: Seq<char>, k: Seq<char>|
                    0 <= a < i && #[trigger] g[a].name_set().contains(n) && #[trigger] all_specs(g).contains(k)
                        && !g[a].checksums_map().contains_key(k) ==> has_pair(out@, n, k),
                forall|b: int, n: Seq<char>, k: Seq<char>|
                    0 <= b < j && #[trigger] g[i as int].name_set().contains(n)
                        && #[trigger] g[b].checksums_map().contains_key(k)
                        && !g[i as int].checksums_map().contains_key(k) ==> has_pair(out@, n, k),
            decreases g.len() - j,
        {
            let keys = groups[j].checksums();
            let mut e: usize = 0;
            while e < keys.len()
                invariant
                    g == groups@,
                    all_wf(g),
                    i < g.len(),
                    j < g.len(),
                    crate::sums::entry_views(keys@) == g[j as int].entries(),
                    e <= keys@.len(),
                    forall|x: int| 0 <= x < out@.len() ==> pair_ok(g, #[trigger] out@[x]),
                    forall|a: int, n: Seq<char>, k: Seq<char>|
                        0 <= a < i && #[trigger] g[a].name_set().contains(n) && #[trigger] all_specs(g).contains(k)
                            && !g[a].checksums_map().contains_key(k) ==> has_pair(out@, n, k),
                    forall|b: int, n: Seq<char>, k: Seq<char>|
                        0 <= b < j && #[trigger] g[i as int].name_set().contains(n)
                            && #[trigger] g[b].checksums_map().contains_key(k)
                            && !g[i as int].checksums_map().contains_key(k) ==> has_pair(out@, n, k),
                    forall|y: int, n: Seq<char>|
                        0 <= y < e && #[trigger] g[i as int].name_set().contains(n)
                            && !g[i as int].checksums_map().contains_key(#[trigger] g[j as int].entries()[y].0)
                            ==> has_pair(out@, n, g[j as int].entries()[y].0),
                decreases keys@.len() - e,
            {
                let key = &keys[e].0;
                let ghost kv = g[j as int].entries()[e as int].0;
                assert(key@ == kv);
                if !groups[i].has_spec(key) {
                    proof {
                        assert(g[j as int].checksums_map().contains_key(kv));
                        assert(all_specs(g).contains(kv));
                    }
                    let names = groups[i].names();
                    let mut t: usize = 0;
                    while t < names.len()
                        invariant
                            g == groups@,
                            all_wf(g),
                            i < g.len(),
                            j < g.len(),
                            crate::sums::name_views(names@) == g[i as int].name_list(),
                            key@ == kv,
                            all_specs(g).contains(kv),
                            !g[i as int].checksums_map().contains_key(kv),
                            t <= names@.len(),
                            forall|x: int| 0 <= x < out@.len() ==> pair_ok(g, #[trigger] out@[x]),
                            forall|a: int, n: Seq<char>, k: Seq<char>|
                                0 <= a < i && #[trigger] g[a].name_set().contains(n) && #[trigger] all_specs(
                                    g,
                                ).contains(k) && !g[a].checksums_map().contains_key(k) ==> has_pair(out@, n, k),
                            forall|b: int, n: Seq<char>, k: Seq<char>|
                                0 <= b < j && #[trigger] g[i as int].name_set().contains(n)
                                    && #[trigger] g[b].checksums_map().contains_key(k)
                                    && !g[i as int].checksums_map().contains_key(k) ==> has_pair(out@, n, k),
                            forall|y: int, n: Seq<char>|
                                0 <= y < e && #[trigger] g[i as int].name_set().contains(n)
                                    && !g[i as int].checksums_map().contains_key(#[trigger] g[j as int].entries()[y].0)
                                    ==> has_pair(out@, n, g[j as int].entries()[y].0),
                            forall|z: int| 0 <= z < t ==> has_pair(out@, #[trigger] names@[z]@, kv),
                        decreases names@.len() - t,
                    {
                        let ghost before = out@;
                        let pair = (names[t].clone(), key.clone());
                        out.push(pair);
                        proof {
                            assert(out@[before.len() as int] == pair);
                            assert(g[i as int].name_list()[t as int] == names@[t as int]@);
                            assert(g[i as int].name_set().contains(names@[t as int]@));
                            assert forall|x: int| 0 <= x < out@.len() implies pair_ok(g, #[trigger] out@[x]) by {
                                if x < before.len() {
                                    assert(out@[x] == before[x]);
                                } else {
                                    assert(g[i as int].name_set().contains(out@[x].0@));
                                    assert(out@[x].1@ == kv);
                                }
                            }
                            assert forall|a: int, n: Seq<char>, k: Seq<char>|
                                0 <= a < i && #[trigger] g[a].name_set().contains(n) && #[trigger] all_specs(
                                    g,
                                ).contains(k) && !g[a].checksums_map().contains_key(k) implies has_pair(out@, n, k) by {
                                lemma_has_pair_push(before, pair, n, k);
                            }
                            assert forall|b: int, n: Seq<char>, k: Seq<char>|
                                0 <= b < j && #[trigger] g[i as int].name_set().contains(n)
                                    && #[trigger] g[b].checksums_map().contains_key(k)
                                    && !g[i as int].checksums_map().contains_key(k) implies has_pair(out@, n, k) by {
                                lemma_has_pair_push(before, pair, n, k);
                            }
                            assert forall|y: int, n: Seq<char>|
                                0 <= y < e && #[trigger] g[i as int].name_set().contains(n)
                                    && !g[i as int].checksums_map().contains_key(#[trigger] g[j as int].entries()[y].0)
                                    implies has_pair(out@, n, g[j as int].entries()[y].0) by {
                                lemma_has_pair_push(before, pair, n, g[j as int].entries()[y].0);
                            }
                            assert forall|z: int| 0 <= z < t + 1 implies has_pair(out@, #[trigger] names@[z]@, kv) by {
                                if z < t {
                                    lemma_has_pair_push(before, pair, names@[z]@, kv);
                                } else {
                                    assert(out@[before.len() as int].0@ == names@[z]@);
                                }
                            }
                        }
                        t = t + 1;
                    }
                    proof {
                        assert forall|n: Seq<char>| #[trigger] g[i as int].name_set().contains(n) implies has_pair(
                            out@,
                            n,
                            kv,
                        ) by {
                            let z = choose|z: int| 0 <= z < g[i as int].name_list().len() && g[i as int].name_list()[z] == n;
                            assert(names@[z]@ == n);
                        }
                    }
                }
                e = e + 1;
            }
            proof {
                assert forall|b: int, n: Seq<char>, k: Seq<char>|
                    0 <= b < j + 1 && #[trigger] g[i as int].name_set().contains(n)
                        && #[trigger] g[b].checksums_map().contains_key(k)
                        && !g[i as int].checksums_map().contains_key(k) implies has_pair(out@, n, k) by {
                    if b == j {
                        let es = g[j as int].entries();
                        let y = crate::sums::key_index(es, k);
                        assert(es[y].0 == k);
                    }
                }
            }
            j = j + 1;
        }
        proof {
            assert forall|a: int, n: Seq<char>, k: Seq<char>|
                0 <= a < i + 1 && #[trigger] g[a].name_set().contains(n) && #[trigger] all_specs(g).contains(k)
                    && !g[a].checksums_map().contains_key(k) implies has_pair(out@, n, k) by {
                if a == i {
                    let b = choose|b: int| 0 <= b < g.len() && (#[trigger] g[b]).checksums_map().contains_key(k);
                }
            }
        }
        i = i + 1;
    }
    out
}

} // verus!
