//! Manifests of digests ("sums files"): the object's size, a digest value
//! for each canonical spec string, and the names of the objects that the
//! manifest describes.

use crate::ctx::Ctx;
use crate::error::Error;
use crate::text::{lex_lt, lemma_lex_irreflexive, lemma_lex_total, lemma_lex_transitive, str_eq, str_less};
use vstd::prelude::*;

verus! {

/// The current version of the manifest format.
pub const OUTPUT_FILE_VERSION: &'static str = "1";

/// The file ending of a manifest.
pub const SUMS_FILE_ENDING: &'static str = ".sums";

/// An object that a manifest is bound to, by name.
#[derive(Debug, Clone, PartialEq, Eq)]
pub struct State {
    pub name: String,
}

impl State {
    /// The binding for a name.
    pub fn new(name: String) -> (r: Self)
        ensures
            r.name == name,
    {
        State { name }
    }

    /// The name.
    pub fn into_inner(self) -> (r: String)
        ensures
            r == self.name,
    {
        self.name
    }
}

/// A part's size and encoded digest.
#[derive(Debug, Clone, PartialEq, Eq)]
pub struct PartChecksum {
    pub part_size: Option<u64>,
    pub part_checksum: Option<String>,
}

impl View for PartChecksum {
    type V = (Option<u64>, Option<Seq<char>>);

    open spec fn view(&self) -> (Option<u64>, Option<Seq<char>>) {
        (
            self.part_size,
            match self.part_checksum {
                Some(s) => Some(s@),
                None => None,
            },
        )
    }
}

impl PartChecksum {
    /// A part checksum.
    pub fn new(part_size: Option<u64>, part_checksum: Option<String>) -> (r: Self)
        ensures
            r.part_size == part_size,
            r.part_checksum == part_checksum,
    {
        PartChecksum { part_size, part_checksum }
    }

    /// A copy with the same view.
    pub fn clone_value(&self) -> (r: Self)
        ensures
            r@ == self@,
    {
        let c = match &self.part_checksum {
            Some(s) => Some(s.clone()),
            None => None,
        };
        PartChecksum { part_size: self.part_size, part_checksum: c }
    }
}

/// The part checksums of a composite digest, in part order.
#[derive(Debug, Clone, PartialEq, Eq)]
pub struct PartChecksums(pub Vec<PartChecksum>);

impl View for PartChecksums {
    type V = Seq<(Option<u64>, Option<Seq<char>>)>;

    open spec fn view(&self) -> Seq<(Option<u64>, Option<Seq<char>>)> {
        self.0@.map_values(|p: PartChecksum| p@)
    }
}

impl PartChecksums {
    /// A list of part checksums.
    pub fn new(part_checksums: Vec<PartChecksum>) -> (r: Self)
        ensures
            r.0 == part_checksums,
    {
        PartChecksums(part_checksums)
    }

    /// The list.
    pub fn into_inner(self) -> (r: Vec<PartChecksum>)
        ensures
            r == self.0,
    {
        self.0
    }

    /// The list, borrowed.
    pub fn get_ref(&self) -> (r: &[PartChecksum])
        ensures
            r@ == self.0@,
    {
        self.0.as_slice()
    }

    /// Part checksums from pairs of size and encoded digest.
    pub fn from_pairs(pairs: Vec<(Option<u64>, Option<String>)>) -> (r: Self)
        ensures
            r.0@.len() == pairs@.len(),
            forall|i: int|
                0 <= i < pairs@.len() ==> (#[trigger] r.0@[i]).part_size == pairs@[i].0
                    && r.0@[i].part_checksum == pairs@[i].1,
    {
        let mut out: Vec<PartChecksum> = Vec::new();
        let mut rest = pairs;
        let ghost orig = rest@;
        let n = rest.len();
        let mut i: usize = 0;
        while rest.len() > 0
            invariant
                n == orig.len(),
                i + rest@.len() == orig.len(),
                rest@ == orig.skip(i as int),
                out@.len() == i,
                forall|j: int|
                    0 <= j < i ==> (#[trigger] out@[j]).part_size == orig[j].0
                        && out@[j].part_checksum == orig[j].1,
            decreases rest@.len(),
        {
            let (size, sum) = rest.remove(0);
            assert(orig[i as int] == (size, sum));
            out.push(PartChecksum::new(size, sum));
            assert(rest@ =~= orig.skip(i + 1));
            i = i + 1;
        }
        PartChecksums(out)
    }

    /// A copy with the same view.
    pub fn clone_value(&self) -> (r: Self)
        ensures
            r@ == self@,
    {
        let mut out: Vec<PartChecksum> = Vec::new();
        let mut i: usize = 0;
        while i < self.0.len()
            invariant
                i <= self.0@.len(),
                out@.len() == i,
                forall|j: int| 0 <= j < i ==> (#[trigger] out@[j])@ == self.0@[j]@,
            decreases self.0@.len() - i,
        {
            out.push(self.0[i].clone_value());
            i = i + 1;
        }
        let r = PartChecksums(out);
        assert(r@ =~= self@);
        r
    }
}

/// A digest value as it stands in a manifest.
pub struct ChecksumView {
    pub checksum: Seq<char>,
    pub part_checksums: Option<Seq<(Option<u64>, Option<Seq<char>>)>>,
}

/// The value of an entry whose digest has been cleared.
pub open spec fn empty_checksum() -> ChecksumView {
    ChecksumView { checksum: Seq::empty(), part_checksums: None }
}

/// The encoded top-level digest, with the part digests of a composite one.
#[derive(Debug, Clone, PartialEq, Eq)]
pub struct Checksum {
    pub checksum: String,
    pub part_checksums: Option<PartChecksums>,
}

impl View for Checksum {
    type V = ChecksumView;

    open spec fn view(&self) -> ChecksumView {
        ChecksumView {
            checksum: self.checksum@,
            part_checksums: match self.part_checksums {
                Some(p) => Some(p@),
                None => None,
            },
        }
    }
}

impl Default for Checksum {
    fn default() -> (r: Self)
        ensures
            r@ == empty_checksum(),
    {
        Checksum { checksum: String::new(), part_checksums: None }
    }
}

impl Checksum {
    /// A digest value.
    pub fn new(checksum: String, part_checksums: Option<PartChecksums>) -> (r: Self)
        ensures
            r.checksum == checksum,
            r.part_checksums == part_checksums,
    {
        Checksum { checksum, part_checksums }
    }

    /// A copy with the same view.
    pub fn clone_value(&self) -> (r: Self)
        ensures
            r@ == self@,
    {
        let p = match &self.part_checksums {
            Some(p) => Some(p.clone_value()),
            None => None,
        };
        Checksum { checksum: self.checksum.clone(), part_checksums: p }
    }
}

/// The entries of a manifest as values.
pub open spec fn entry_views(v: Seq<(String, Checksum)>) -> Seq<(Seq<char>, ChecksumView)> {
    v.map_values(|e: (String, Checksum)| (e.0@, e.1@))
}

/// Whether some entry has key `k`.
pub open spec fn has_key(s: Seq<(Seq<char>, ChecksumView)>, k: Seq<char>) -> bool {
    exists|i: int| 0 <= i < s.len() && (#[trigger] s[i]).0 == k
}

/// The index of an entry with key `k`, where there is one.
pub open spec fn key_index(s: Seq<(Seq<char>, ChecksumView)>, k: Seq<char>) -> int {
    choose|i: int| 0 <= i < s.len() && (#[trigger] s[i]).0 == k
}

/// The entries as a map from key to value.
pub open spec fn map_of(s: Seq<(Seq<char>, ChecksumView)>) -> Map<Seq<char>, ChecksumView> {
    Map::new(|k: Seq<char>| has_key(s, k), |k: Seq<char>| s[key_index(s, k)].1)
}

/// Keys in strictly increasing order.
pub open spec fn sorted_keys(s: Seq<(Seq<char>, ChecksumView)>) -> bool {
    forall|i: int, j: int| 0 <= i < j < s.len() ==> lex_lt(#[trigger] s[i].0, #[trigger] s[j].0)
}

/// Names in strictly increasing order.
pub open spec fn sorted_names(s: Seq<Seq<char>>) -> bool {
    forall|i: int, j: int| 0 <= i < j < s.len() ==> lex_lt(#[trigger] s[i], #[trigger] s[j])
}

/// The names as values.
pub open spec fn name_views(v: Seq<String>) -> Seq<Seq<char>> {
    v.map_values(|s: String| s@)
}

/// Entries inserted one after another into a map; a later key overwrites an
/// earlier one.
pub open spec fn insert_all(m: Map<Seq<char>, ChecksumView>, s: Seq<(Seq<char>, ChecksumView)>) -> Map<
    Seq<char>,
    ChecksumView,
>
    decreases s.len(),
{
    if s.len() == 0 {
        m
    } else {
        insert_all(m, s.drop_last()).insert(s.last().0, s.last().1)
    }
}

/// In sorted entries, each key maps to its own entry's value.
proof fn lemma_map_of_index(s: Seq<(Seq<char>, ChecksumView)>, idx: int)
    requires
        sorted_keys(s),
        0 <= idx < s.len(),
    ensures
        map_of(s).contains_key(s[idx].0),
        map_of(s)[s[idx].0] == s[idx].1,
{
    let i = idx;
    let k = s[i].0;
    assert(has_key(s, k));
    let j = key_index(s, k);
    if j != i {
        lemma_lex_irreflexive(k);
        if j < i {
            assert(lex_lt(s[j].0, s[i].0));
        } else {
            assert(lex_lt(s[i].0, s[j].0));
        }
    }
    assert(map_of(s).contains_key(k));
    assert(map_of(s)[k] == s[j].1);
}

/// Inserting a new key at its sorted place, or replacing the value of a
/// present key, keeps the entries sorted and inserts into the map.
proof fn lemma_insert_sorted(
    s: Seq<(Seq<char>, ChecksumView)>,
    p: int,
    k: Seq<char>,
    v: ChecksumView,
    replace: bool,
)
    requires
        sorted_keys(s),
        0 <= p <= s.len(),
        forall|j: int| 0 <= j < p ==> lex_lt(#[trigger] s[j].0, k),
        replace ==> p < s.len() && s[p].0 == k,
        !replace ==> forall|j: int| p <= j < s.len() ==> lex_lt(k, #[trigger] s[j].0),
    ensures
        ({
            let t = if replace {
                s.update(p, (k, v))
            } else {
                s.insert(p, (k, v))
            };
            sorted_keys(t) && map_of(t) == map_of(s).insert(k, v)
        }),
{
    let t = if replace {
        s.update(p, (k, v))
    } else {
        s.insert(p, (k, v))
    };
    assert forall|i: int, j: int| 0 <= i < j < t.len() implies lex_lt(
        #[trigger] t[i].0,
        #[trigger] t[j].0,
    ) by {
        if replace {
            if i == p {
                assert(lex_lt(s[i].0, s[j].0));
            } else if j == p {
                assert(lex_lt(s[i].0, s[j].0));
            }
        } else {
            if i < p && j == p {
            } else if i < p && j > p {
                assert(t[j] == s[j - 1]);
                assert(lex_lt(s[i].0, k));
                lemma_lex_transitive(s[i].0, k, s[j - 1].0);
            } else if i == p {
                assert(t[j] == s[j - 1]);
            } else if i > p {
                assert(t[i] == s[i - 1]);
                assert(t[j] == s[j - 1]);
            }
        }
    }
    let m1 = map_of(t);
    let m2 = map_of(s).insert(k, v);
    assert forall|key: Seq<char>| #[trigger] m1.contains_key(key) == m2.contains_key(key) by {
        if m1.contains_key(key) {
            let i = choose|i: int| 0 <= i < t.len() && (#[trigger] t[i]).0 == key;
            if key != k {
                let js = if replace || i < p {
                    i
                } else {
                    i - 1
                };
                assert(s[js].0 == key);
                assert(has_key(s, key));
            }
        }
        if m2.contains_key(key) && key != k {
            let i = choose|i: int| 0 <= i < s.len() && (#[trigger] s[i]).0 == key;
            let it = if replace || i < p {
                i
            } else {
                i + 1
            };
            assert(t[it].0 == key);
            assert(has_key(t, key));
        }
        if key == k {
            assert(t[p].0 == k);
            assert(has_key(t, k));
        }
    }
    assert forall|key: Seq<char>| #[trigger] m1.contains_key(key) implies m1[key] == m2[key] by {
        let i = choose|i: int| 0 <= i < t.len() && (#[trigger] t[i]).0 == key;
        lemma_map_of_index(t, i);
        if key != k {
            let js = if replace || i < p {
                i
            } else {
                i - 1
            };
            assert(s[js] == t[i]);
            lemma_map_of_index(s, js);
        } else {
            if i != p {
                lemma_map_of_index(t, p);
            }
        }
    }
    assert(m1 =~= m2);
}

/// Inserts an entry into sorted entries, replacing the value of a present
/// key.
fn insert_entry(v: &mut Vec<(String, Checksum)>, key: String, value: Checksum)
    requires
        sorted_keys(entry_views(old(v)@)),
    ensures
        sorted_keys(entry_views(final(v)@)),
        map_of(entry_views(final(v)@)) == map_of(entry_views(old(v)@)).insert(key@, value@),
{
    let ghost s = entry_views(v@);
    let mut p: usize = 0;
    while p < v.len() && str_less(v[p].0.as_str(), key.as_str())
        invariant
            s == entry_views(v@),
            p <= v@.len(),
            forall|j: int| 0 <= j < p ==> lex_lt(#[trigger] s[j].0, key@),
        decreases v@.len() - p,
    {
        p = p + 1;
    }
    let ghost kv = key@;
    let ghost vv = value@;
    if p < v.len() && str_eq(v[p].0.as_str(), key.as_str()) {
        proof {
            lemma_insert_sorted(s, p as int, kv, vv, true);
        }
        v.set(p, (key, value));
        assert(entry_views(v@) =~= s.update(p as int, (kv, vv)));
    } else {
        proof {
            assert forall|j: int| p <= j < s.len() implies lex_lt(kv, #[trigger] s[j].0) by {
                lemma_lex_total(kv, s[p as int].0);
                if j > p {
                    lemma_lex_transitive(kv, s[p as int].0, s[j].0);
                }
            }
            lemma_insert_sorted(s, p as int, kv, vv, false);
        }
        v.insert(p, (key, value));
        assert(entry_views(v@) =~= s.insert(p as int, (kv, vv)));
    }
}

/// Inserts a name into sorted names, unless it is present.
fn insert_name(v: &mut Vec<String>, name: String)
    requires
        sorted_names(name_views(old(v)@)),
    ensures
        sorted_names(name_views(final(v)@)),
        name_views(final(v)@).to_set() == name_views(old(v)@).to_set().insert(name@),
{
    let ghost s = name_views(v@);
    let mut p: usize = 0;
    while p < v.len() && str_less(v[p].as_str(), name.as_str())
        invariant
            s == name_views(v@),
            p <= v@.len(),
            forall|j: int| 0 <= j < p ==> lex_lt(#[trigger] s[j], name@),
        decreases v@.len() - p,
    {
        p = p + 1;
    }
    if p < v.len() && str_eq(v[p].as_str(), name.as_str()) {
        assert(s[p as int] == name@);
        assert(s.to_set().insert(name@) =~= s.to_set());
        return;
    }
    let ghost nv = name@;
    proof {
        assert forall|j: int| p <= j < s.len() implies lex_lt(nv, #[trigger] s[j]) by {
            lemma_lex_total(nv, s[p as int]);
            if j > p {
                lemma_lex_transitive(nv, s[p as int], s[j]);
            }
        }
    }
    v.insert(p, name);
    let ghost t = name_views(v@);
    assert(t =~= s.insert(p as int, nv));
    assert forall|i: int, j: int| 0 <= i < j < t.len() implies lex_lt(
        #[trigger] t[i],
        #[trigger] t[j],
    ) by {
        if i < p && j > p {
            lemma_lex_transitive(s[i], nv, s[j - 1]);
        } else if i > p {
            assert(t[i] == s[i - 1]);
            assert(t[j] == s[j - 1]);
        } else if i == p {
            assert(t[j] == s[j - 1]);
        }
    }
    assert forall|x: Seq<char>| #[trigger] t.to_set().contains(x) == s.to_set().insert(nv).contains(
        x,
    ) by {
        if t.to_set().contains(x) {
            let i = choose|i: int| 0 <= i < t.len() && t[i] == x;
            if i < p {
                assert(s[i] == x);
            } else if i > p {
                assert(s[i - 1] == x);
            }
        }
        if s.to_set().contains(x) {
            let i = choose|i: int| 0 <= i < s.len() && s[i] == x;
            if i < p {
                assert(t[i] == x);
            } else {
                assert(t[i + 1] == x);
            }
        }
        if x == nv {
            assert(t[p as int] == nv);
        }
    }
    assert(t.to_set() =~= s.to_set().insert(nv));
}

/// Entries in sorted order: the first `i` of them form the map with the
/// `i`-th inserted.
proof fn lemma_map_of_take(s: Seq<(Seq<char>, ChecksumView)>, i: int)
    requires
        sorted_keys(s),
        0 <= i < s.len(),
    ensures
        sorted_keys(s.take(i)),
        map_of(s.take(i + 1)) == map_of(s.take(i)).insert(s[i].0, s[i].1),
{
    let t = s.take(i);
    assert forall|j: int| 0 <= j < i implies lex_lt(#[trigger] t[j].0, s[i].0) by {
        assert(t[j] == s[j]);
    }
    lemma_insert_sorted(t, i, s[i].0, s[i].1, false);
    assert(t.insert(i, (s[i].0, s[i].1)) =~= s.take(i + 1));
}

/// Whether two optional sizes are equal.
fn same_size(a: Option<u64>, b: Option<u64>) -> (r: bool)
    ensures
        r == (a == b),
{
    match (a, b) {
        (Some(x), Some(y)) => x == y,
        (None, None) => true,
        _ => false,
    }
}

/// The index of the entry with key `k`, if any.
fn find_key(v: &Vec<(String, Checksum)>, k: &String) -> (r: Option<usize>)
    requires
        sorted_keys(entry_views(v@)),
    ensures
        match r {
            Some(j) => j < v@.len() && entry_views(v@)[j as int].0 == k@,
            None => !has_key(entry_views(v@), k@),
        },
{
    let ghost s = entry_views(v@);
    let mut j: usize = 0;
    while j < v.len()
        invariant
            s == entry_views(v@),
            j <= v@.len(),
            forall|x: int| 0 <= x < j ==> (#[trigger] s[x]).0 != k@,
        decreases v@.len() - j,
    {
        if str_eq(v[j].0.as_str(), k.as_str()) {
            return Some(j);
        }
        j = j + 1;
    }
    None
}

/// A manifest: the object's size, a digest value for each canonical spec
/// string (kept sorted by that string), and the sorted names of the objects
/// that it describes.
#[derive(Debug, Clone, PartialEq, Eq)]
pub struct SumsFile {
    pub(crate) version: String,
    pub(crate) size: Option<u64>,
    pub(crate) checksums: Vec<(String, Checksum)>,
    pub(crate) names: Vec<String>,
    pub(crate) extra: Vec<(String, String)>,
}

/// Whether `s` ends with `suffix`.
pub open spec fn ends_with(s: Seq<char>, suffix: Seq<char>) -> bool {
    suffix.len() <= s.len() && s.skip(s.len() - suffix.len()) == suffix
}

/// Whether two manifests describe the same object: equal sizes, and one
/// shared spec with the same encoded top-level digest.
pub open spec fn same_spec(a: SumsFile, b: SumsFile) -> bool {
    a.spec_size() == b.spec_size() && exists|k: Seq<char>|
        #![trigger a.checksums_map().contains_key(k), b.checksums_map().contains_key(k)]
        a.checksums_map().contains_key(k) && b.checksums_map().contains_key(k)
            && a.checksums_map()[k].checksum == b.checksums_map()[k].checksum
}

/// Whether two manifests can be compared: equal sizes and one shared spec.
pub open spec fn comparable_spec(a: SumsFile, b: SumsFile) -> bool {
    a.spec_size() == b.spec_size() && exists|k: Seq<char>|
        #![trigger a.checksums_map().contains_key(k), b.checksums_map().contains_key(k)]
        a.checksums_map().contains_key(k) && b.checksums_map().contains_key(k)
}

impl SumsFile {
    /// Keys sorted and unique, names sorted and unique.
    pub closed spec fn wf(&self) -> bool {
        &&& sorted_keys(entry_views(self.checksums@))
        &&& sorted_names(name_views(self.names@))
    }

    /// The format version.
    pub closed spec fn spec_version(&self) -> Seq<char> {
        self.version@
    }

    /// The object's size, if known.
    pub closed spec fn spec_size(&self) -> Option<u64> {
        self.size
    }

    /// The entries in key order.
    pub closed spec fn entries(&self) -> Seq<(Seq<char>, ChecksumView)> {
        entry_views(self.checksums@)
    }

    /// The names in order.
    pub closed spec fn name_list(&self) -> Seq<Seq<char>> {
        name_views(self.names@)
    }

    /// The digest values by spec string.
    pub open spec fn checksums_map(&self) -> Map<Seq<char>, ChecksumView> {
        map_of(self.entries())
    }

    /// The names of the described objects.
    pub open spec fn name_set(&self) -> Set<Seq<char>> {
        self.name_list().to_set()
    }

    /// An empty manifest.
    fn empty() -> (r: Self)
        ensures
            r.wf(),
            r.spec_size() is None,
            r.spec_version() == OUTPUT_FILE_VERSION@,
            r.entries() == Seq::<(Seq<char>, ChecksumView)>::empty(),
            r.name_list() == Seq::<Seq<char>>::empty(),
    {
        let r = SumsFile {
            version: String::from_str(OUTPUT_FILE_VERSION),
            size: None,
            checksums: Vec::new(),
            names: Vec::new(),
            extra: Vec::new(),
        };
        assert(r.entries() =~= Seq::<(Seq<char>, ChecksumView)>::empty());
        assert(r.name_list() =~= Seq::<Seq<char>>::empty());
        r
    }

    /// A manifest of the current version for the named objects; of entries
    /// with the same spec string the later one is kept.
    pub fn new(names: Vec<String>, size: Option<u64>, checksums: Vec<(String, Checksum)>) -> (r: Self)
        ensures
            r.wf(),
            r.spec_version() == OUTPUT_FILE_VERSION@,
            r.spec_size() == size,
            r.name_set() == name_views(names@).to_set(),
            r.checksums_map() == insert_all(Map::empty(), entry_views(checksums@)),
    {
        let mut r = Self::empty();
        r.size = size;
        let ghost es = entry_views(checksums@);
        let mut rest = checksums;
        let ghost orig = rest@;
        let n = rest.len();
        let mut i: usize = 0;
        assert(map_of(entry_views(r.checksums@)) =~= Map::<Seq<char>, ChecksumView>::empty());
        assert(es.take(0) =~= Seq::<(Seq<char>, ChecksumView)>::empty());
        while rest.len() > 0
            invariant
                r.wf(),
                r.version@ == OUTPUT_FILE_VERSION@,
                r.size == size,
                r.names@ == Seq::<String>::empty(),
                n == orig.len(),
                es == entry_views(orig),
                i + rest@.len() == n,
                rest@ == orig.skip(i as int),
                map_of(entry_views(r.checksums@)) == insert_all(Map::empty(), es.take(i as int)),
            decreases rest@.len(),
        {
            let (k, v) = rest.remove(0);
            assert(orig[i as int] == (k, v));
            insert_entry(&mut r.checksums, k, v);
            assert(rest@ =~= orig.skip(i + 1));
            assert(es.take(i + 1).drop_last() =~= es.take(i as int));
            i = i + 1;
        }
        assert(es.take(n as int) =~= es);
        let ghost nv = name_views(names@);
        let mut rest = names;
        let ghost orig = rest@;
        let n = rest.len();
        let mut i: usize = 0;
        assert(name_views(r.names@).to_set() =~= nv.take(0).to_set());
        while rest.len() > 0
            invariant
                r.wf(),
                r.version@ == OUTPUT_FILE_VERSION@,
                r.size == size,
                n == orig.len(),
                nv == name_views(orig),
                i + rest@.len() == n,
                rest@ == orig.skip(i as int),
                map_of(entry_views(r.checksums@)) == insert_all(Map::empty(), es),
                name_views(r.names@).to_set() == nv.take(i as int).to_set(),
            decreases rest@.len(),
        {
            let x = rest.remove(0);
            assert(orig[i as int] == x);
            insert_name(&mut r.names, x);
            assert(rest@ =~= orig.skip(i + 1));
            assert(nv.take(i + 1) =~= nv.take(i as int).push(nv[i as int]));
            assert(nv.take(i + 1).to_set() =~= nv.take(i as int).to_set().insert(nv[i as int]))
                by {
                nv.take(i as int).lemma_push_to_set_commute(nv[i as int]);
            }
            i = i + 1;
        }
        assert(nv.take(n as int) =~= nv);
        r
    }

    /// The manifest's file name for an object: the name with `.sums`
    /// appended, unless it has it already.
    pub fn format_sums_file(name: &str) -> (r: String)
        ensures
            r@ == if ends_with(name@, SUMS_FILE_ENDING@) {
                name@
            } else {
                name@ + SUMS_FILE_ENDING@
            },
    {
        let mut r = String::from_str(name);
        if !crate::text::str_ends_with(name, SUMS_FILE_ENDING) {
            r.append(SUMS_FILE_ENDING);
        }
        r
    }

    /// The object's name for a manifest's file name: without a trailing
    /// `.sums`.
    pub fn format_target_file(name: &str) -> (r: String)
        ensures
            r@ == if ends_with(name@, SUMS_FILE_ENDING@) {
                name@.take(name@.len() - SUMS_FILE_ENDING@.len())
            } else {
                name@
            },
    {
        if crate::text::str_ends_with(name, SUMS_FILE_ENDING) {
            let n = name.unicode_len();
            let e = SUMS_FILE_ENDING.unicode_len();
            String::from_str(name.substring_char(0, n - e))
        } else {
            String::from_str(name)
        }
    }

    /// Merges another manifest into this one: its entries overwrite those of
    /// the same spec string, and its names join these. The size is kept.
    pub fn merge_mut(&mut self, other: Self)
        requires
            old(self).wf(),
            other.wf(),
        ensures
            final(self).wf(),
            final(self).spec_size() == old(self).spec_size(),
            final(self).checksums_map() == old(self).checksums_map().union_prefer_right(
                other.checksums_map(),
            ),
            final(self).name_set() == old(self).name_set().union(other.name_set()),
    {
        let ghost base = map_of(entry_views(self.checksums@));
        let ghost es = entry_views(other.checksums@);
        let ghost names0 = name_views(self.names@).to_set();
        let ghost nv = name_views(other.names@);
        let SumsFile { version: _, size: _, checksums, names, extra: _ } = other;
        let mut rest = checksums;
        let ghost orig = rest@;
        let n = rest.len();
        let mut i: usize = 0;
        assert(map_of(es.take(0)) =~= Map::<Seq<char>, ChecksumView>::empty());
        assert(base.union_prefer_right(map_of(es.take(0))) =~= base);
        while rest.len() > 0
            invariant
                sorted_keys(entry_views(self.checksums@)),
                sorted_names(name_views(self.names@)),
                sorted_keys(es),
                self.size == old(self).size,
                self.names == old(self).names,
                n == orig.len(),
                es == entry_views(orig),
                i + rest@.len() == n,
                rest@ == orig.skip(i as int),
                map_of(entry_views(self.checksums@)) == base.union_prefer_right(
                    map_of(es.take(i as int)),
                ),
            decreases rest@.len(),
        {
            let (k, v) = rest.remove(0);
            assert(orig[i as int] == (k, v));
            proof {
                lemma_map_of_take(es, i as int);
            }
            insert_entry(&mut self.checksums, k, v);
            assert(rest@ =~= orig.skip(i + 1));
            assert(map_of(entry_views(self.checksums@)) =~= base.union_prefer_right(
                map_of(es.take(i + 1)),
            ));
            i = i + 1;
        }
        assert(es.take(n as int) =~= es);
        let mut rest = names;
        let ghost orig = rest@;
        let n = rest.len();
        let mut i: usize = 0;
        assert(names0.union(nv.take(0).to_set()) =~= names0);
        while rest.len() > 0
            invariant
                sorted_keys(entry_views(self.checksums@)),
                sorted_names(name_views(self.names@)),
                self.size == old(self).size,
                map_of(entry_views(self.checksums@)) == base.union_prefer_right(map_of(es)),
                n == orig.len(),
                nv == name_views(orig),
                i + rest@.len() == n,
                rest@ == orig.skip(i as int),
                name_views(self.names@).to_set() == names0.union(nv.take(i as int).to_set()),
            decreases rest@.len(),
        {
            let x = rest.remove(0);
            assert(orig[i as int] == x);
            insert_name(&mut self.names, x);
            assert(rest@ =~= orig.skip(i + 1));
            assert(nv.take(i + 1) =~= nv.take(i as int).push(nv[i as int]));
            proof {
                nv.take(i as int).lemma_push_to_set_commute(nv[i as int]);
            }
            assert(name_views(self.names@).to_set() =~= names0.union(nv.take(i + 1).to_set()));
            i = i + 1;
        }
        assert(nv.take(n as int) =~= nv);
    }

    /// Merges another manifest into this one, as `merge_mut` does. Fails
    /// when both have entries and their sizes differ.
    pub fn merge(self, other: Self) -> (r: Result<Self, Error>)
        requires
            self.wf(),
            other.wf(),
        ensures
            r is Err <==> (self.spec_size() != other.spec_size() && self.entries().len() > 0
                && other.entries().len() > 0),
            r is Err ==> r->Err_0 is SumsFileError,
            r is Ok ==> {
                &&& r->Ok_0.wf()
                &&& r->Ok_0.spec_size() == if self.spec_size() is Some {
                    self.spec_size()
                } else {
                    other.spec_size()
                }
                &&& r->Ok_0.checksums_map() == self.checksums_map().union_prefer_right(
                    other.checksums_map(),
                )
                &&& r->Ok_0.name_set() == self.name_set().union(other.name_set())
            },
    {
        if !same_size(self.size, other.size) && self.checksums.len() > 0 && other.checksums.len() > 0 {
            return Err(Error::SumsFileError(String::from_str("the size of output files do not match")));
        }
        let size = match self.size {
            Some(s) => Some(s),
            None => other.size,
        };
        let mut m = self;
        m.merge_mut(other);
        m.size = size;
        Ok(m)
    }

    /// One manifest per entry, each with this manifest's size and no names.
    pub fn split(self) -> (r: Vec<SumsFile>)
        requires
            self.wf(),
        ensures
            r@.len() == self.entries().len(),
            forall|i: int|
                0 <= i < r@.len() ==> {
                    &&& (#[trigger] r@[i]).wf()
                    &&& r@[i].spec_size() == self.spec_size()
                    &&& r@[i].checksums_map() == Map::<Seq<char>, ChecksumView>::empty().insert(
                        self.entries()[i].0,
                        self.entries()[i].1,
                    )
                    &&& r@[i].name_set() == Set::<Seq<char>>::empty()
                },
    {
        let ghost es = entry_views(self.checksums@);
        let mut out: Vec<SumsFile> = Vec::new();
        let mut i: usize = 0;
        while i < self.checksums.len()
            invariant
                es == entry_views(self.checksums@),
                i <= es.len(),
                out@.len() == i,
                forall|j: int|
                    0 <= j < i ==> {
                        &&& (#[trigger] out@[j]).wf()
                        &&& out@[j].spec_size() == self.size
                        &&& out@[j].checksums_map() == Map::<Seq<char>, ChecksumView>::empty().insert(
                            es[j].0,
                            es[j].1,
                        )
                        &&& out@[j].name_set() == Set::<Seq<char>>::empty()
                    },
            decreases es.len() - i,
        {
            let mut one = Self::empty();
            one.size = self.size;
            let e = &self.checksums[i];
            insert_entry(&mut one.checksums, e.0.clone(), e.1.clone_value());
            assert(map_of(Seq::<(Seq<char>, ChecksumView)>::empty()) =~= Map::<
                Seq<char>,
                ChecksumView,
            >::empty());
            assert(one.name_set() =~= Set::<Seq<char>>::empty());
            out.push(one);
            i = i + 1;
        }
        out
    }

    /// Whether two manifests describe the same object: equal sizes (or both
    /// unknown), and at least one shared spec whose encoded top-level digest
    /// is the same. Part digests are not compared.
    pub fn is_same(&self, other: &Self) -> (r: bool)
        requires
            self.wf(),
            other.wf(),
        ensures
            r == same_spec(*self, *other),
    {
        if !same_size(self.size, other.size) {
            return false;
        }
        let ghost a = entry_views(self.checksums@);
        let ghost b = entry_views(other.checksums@);
        let mut i: usize = 0;
        while i < self.checksums.len()
            invariant
                a == entry_views(self.checksums@),
                b == entry_views(other.checksums@),
                self.size == other.size,
                sorted_keys(a),
                sorted_keys(b),
                i <= a.len(),
                forall|x: int|
                    0 <= x < i ==> !(#[trigger] has_key(b, a[x].0)) || b[key_index(b, a[x].0)].1.checksum
                        != a[x].1.checksum,
            decreases a.len() - i,
        {
            let key = &self.checksums[i].0;
            match find_key(&other.checksums, key) {
                Some(j) => {
                    proof {
                        lemma_map_of_index(b, j as int);
                        lemma_map_of_index(a, i as int);
                    }
                    assert(b[j as int].0 == a[i as int].0);
                    if str_eq(self.checksums[i].1.checksum.as_str(), other.checksums[j].1.checksum.as_str()) {
                        let ghost k = a[i as int].0;
                        assert(self.checksums_map().contains_key(k));
                        assert(other.checksums_map().contains_key(k));
                        assert(self.checksums_map()[k] == a[i as int].1);
                        assert(other.checksums_map()[k] == b[j as int].1);
                        assert(self.checksums_map()[k].checksum == other.checksums_map()[k].checksum);
                        return true;
                    }
                    proof {
                        assert(has_key(b, a[i as int].0));
                    }
                },
                None => {},
            }
            i = i + 1;
        }
        proof {
            assert forall|k: Seq<char>|
                self.checksums_map().contains_key(k) && other.checksums_map().contains_key(
                    k,
                ) implies #[trigger] self.checksums_map()[k].checksum != other.checksums_map()[k].checksum by {
                let x = key_index(a, k);
                lemma_map_of_index(a, x);
                let y = key_index(b, k);
                lemma_map_of_index(b, y);
                assert(has_key(b, a[x].0));
            }
        }
        false
    }

    /// Whether the two manifests disagree: a spec string that both have,
    /// with different encoded digests.
    pub fn conflicts_with(&self, other: &Self) -> (r: bool)
        requires
            self.wf(),
            other.wf(),
        ensures
            r == exists|k: Seq<char>|
                #![trigger self.checksums_map().contains_key(k), other.checksums_map().contains_key(k)]
                self.checksums_map().contains_key(k) && other.checksums_map().contains_key(k)
                    && self.checksums_map()[k].checksum != other.checksums_map()[k].checksum,
    {
        let ghost a = entry_views(self.checksums@);
        let ghost b = entry_views(other.checksums@);
        let mut i: usize = 0;
        while i < self.checksums.len()
            invariant
                a == entry_views(self.checksums@),
                b == entry_views(other.checksums@),
                sorted_keys(a),
                sorted_keys(b),
                i <= a.len(),
                forall|x: int|
                    0 <= x < i ==> !(#[trigger] has_key(b, a[x].0)) || b[key_index(b, a[x].0)].1.checksum
                        == a[x].1.checksum,
            decreases a.len() - i,
        {
            match find_key(&other.checksums, &self.checksums[i].0) {
                Some(j) => {
                    proof {
                        lemma_map_of_index(b, j as int);
                        lemma_map_of_index(a, i as int);
                    }
                    assert(b[j as int].0 == a[i as int].0);
                    if !str_eq(self.checksums[i].1.checksum.as_str(), other.checksums[j].1.checksum.as_str()) {
                        let ghost k = a[i as int].0;
                        assert(self.checksums_map().contains_key(k));
                        assert(other.checksums_map().contains_key(k));
                        assert(self.checksums_map()[k] == a[i as int].1);
                        assert(other.checksums_map()[k] == b[j as int].1);
                        return true;
                    }
                    proof {
                        assert(has_key(b, a[i as int].0));
                    }
                },
                None => {},
            }
            i = i + 1;
        }
        proof {
            assert forall|k: Seq<char>|
                self.checksums_map().contains_key(k) && other.checksums_map().contains_key(
                    k,
                ) implies #[trigger] self.checksums_map()[k].checksum == other.checksums_map()[k].checksum by {
                let x = key_index(a, k);
                lemma_map_of_index(a, x);
                let y = key_index(b, k);
                lemma_map_of_index(b, y);
                assert(has_key(b, a[x].0));
            }
        }
        false
    }

    /// Whether two manifests can be compared: equal sizes (or both unknown)
    /// and at least one shared spec.
    pub fn comparable(&self, other: &Self) -> (r: bool)
        requires
            self.wf(),
            other.wf(),
        ensures
            r == comparable_spec(*self, *other),
    {
        if !same_size(self.size, other.size) {
            return false;
        }
        let ghost a = entry_views(self.checksums@);
        let ghost b = entry_views(other.checksums@);
        let mut i: usize = 0;
        while i < self.checksums.len()
            invariant
                a == entry_views(self.checksums@),
                b == entry_views(other.checksums@),
                self.size == other.size,
                sorted_keys(a),
                sorted_keys(b),
                i <= a.len(),
                forall|x: int| 0 <= x < i ==> !(#[trigger] has_key(b, a[x].0)),
            decreases a.len() - i,
        {
            match find_key(&other.checksums, &self.checksums[i].0) {
                Some(j) => {
                    proof {
                        lemma_map_of_index(b, j as int);
                        lemma_map_of_index(a, i as int);
                    }
                    assert(b[j as int].0 == a[i as int].0);
                    assert(self.checksums_map().contains_key(a[i as int].0));
                    assert(other.checksums_map().contains_key(a[i as int].0));
                    return true;
                },
                None => {},
            }
            i = i + 1;
        }
        proof {
            assert forall|k: Seq<char>|
                #[trigger] self.checksums_map().contains_key(k) implies !other.checksums_map().contains_key(
                k,
            ) by {
                let x = key_index(a, k);
                lemma_map_of_index(a, x);
            }
        }
        false
    }

    /// The manifest with another size.
    pub fn with_size(self, size: Option<u64>) -> (r: Self)
        requires
            self.wf(),
        ensures
            r.wf(),
            r.spec_size() == size,
            r.checksums_map() == self.checksums_map(),
            r.name_set() == self.name_set(),
    {
        let mut r = self;
        r.set_size(size);
        r
    }

    /// Sets the size.
    pub fn set_size(&mut self, size: Option<u64>)
        requires
            old(self).wf(),
        ensures
            final(self).wf(),
            final(self).spec_size() == size,
            final(self).entries() == old(self).entries(),
            final(self).name_set() == old(self).name_set(),
    {
        self.size = size;
    }

    /// Adds a digest value under a computation's canonical spec string,
    /// replacing any value under that string.
    pub fn add_checksum(&mut self, ctx: &Ctx, checksum: Checksum)
        requires
            old(self).wf(),
            ctx.wf(),
            ctx.can_format(),
        ensures
            final(self).wf(),
            final(self).spec_size() == old(self).spec_size(),
            final(self).name_set() == old(self).name_set(),
            final(self).checksums_map() == old(self).checksums_map().insert(
                crate::ctx::display_of(ctx.kind(), ctx.render_total()),
                checksum@,
            ),
    {
        insert_entry(&mut self.checksums, ctx.to_string(), checksum);
    }

    /// Clears every digest value, keeping the spec strings.
    pub fn clear_checksums(&mut self)
        requires
            old(self).wf(),
        ensures
            final(self).wf(),
            final(self).spec_size() == old(self).spec_size(),
            final(self).name_list() == old(self).name_list(),
            final(self).entries().len() == old(self).entries().len(),
            forall|i: int|
                0 <= i < final(self).entries().len() ==> (#[trigger] final(self).entries()[i]).0 == old(
                    self,
                ).entries()[i].0 && final(self).entries()[i].1 == empty_checksum(),
            final(self).checksums_map().dom() == old(self).checksums_map().dom(),
    {
        let ghost s = entry_views(self.checksums@);
        let mut i: usize = 0;
        while i < self.checksums.len()
            invariant
                sorted_names(name_views(self.names@)),
                self.size == old(self).size,
                self.names == old(self).names,
                s == entry_views(old(self).checksums@),
                entry_views(self.checksums@).len() == s.len(),
                i <= s.len(),
                forall|j: int|
                    0 <= j < s.len() ==> (#[trigger] entry_views(self.checksums@)[j]).0 == s[j].0,
                forall|j: int|
                    0 <= j < i ==> (#[trigger] entry_views(self.checksums@)[j]).1 == empty_checksum(),
            decreases s.len() - i,
        {
            let ghost prev = entry_views(self.checksums@);
            let k = self.checksums[i].0.clone();
            let d = Checksum::default();
            assert(d@ == empty_checksum());
            assert(entry_views(self.checksums@)[i as int].0 == s[i as int].0);
            assert(k@ == s[i as int].0);
            self.checksums.set(i, (k, d));
            assert(entry_views(self.checksums@) =~= prev.update(
                i as int,
                (s[i as int].0, empty_checksum()),
            ));
            i = i + 1;
        }
        let ghost t = entry_views(self.checksums@);
        assert forall|x: int, y: int| 0 <= x < y < t.len() implies lex_lt(
            #[trigger] t[x].0,
            #[trigger] t[y].0,
        ) by {
            assert(lex_lt(s[x].0, s[y].0));
        }
        assert forall|k: Seq<char>| #[trigger] has_key(t, k) == has_key(s, k) by {
            if has_key(t, k) {
                let x = choose|x: int| 0 <= x < t.len() && (#[trigger] t[x]).0 == k;
                assert(s[x].0 == k);
            }
            if has_key(s, k) {
                let x = choose|x: int| 0 <= x < s.len() && (#[trigger] s[x]).0 == k;
                assert(t[x].0 == k);
            }
        }
        assert(map_of(t).dom() =~= map_of(s).dom());
    }

    /// Whether the manifest has a digest under a spec string.
    pub fn has_spec(&self, key: &String) -> (r: bool)
        requires
            self.wf(),
        ensures
            r == self.checksums_map().contains_key(key@),
    {
        match find_key(&self.checksums, key) {
            Some(j) => {
                proof {
                    lemma_map_of_index(entry_views(self.checksums@), j as int);
                }
                true
            },
            None => false,
        }
    }

    /// Top-level fields of the stored form that are not digests, each as its
    /// key and its encoded value; they are kept so that they are written back
    /// unchanged.
    pub fn extra_fields(&self) -> (r: &Vec<(String, String)>) {
        &self.extra
    }

    /// Sets the top-level fields that are not digests.
    pub fn set_extra_fields(&mut self, extra: Vec<(String, String)>)
        requires
            old(self).wf(),
        ensures
            final(self).wf(),
            final(self).spec_size() == old(self).spec_size(),
            final(self).spec_version() == old(self).spec_version(),
            final(self).entries() == old(self).entries(),
            final(self).name_list() == old(self).name_list(),
    {
        self.extra = extra;
    }

    /// The manifest format version.
    pub fn version(&self) -> (r: &String)
        ensures
            r@ == self.spec_version(),
    {
        &self.version
    }

    /// The object's size, if known.
    pub fn size(&self) -> (r: Option<u64>)
        ensures
            r == self.spec_size(),
    {
        self.size
    }

    /// The entries, in spec-string order.
    pub fn checksums(&self) -> (r: &Vec<(String, Checksum)>)
        ensures
            entry_views(r@) == self.entries(),
    {
        &self.checksums
    }

    /// The names of the described objects, in order.
    pub fn names(&self) -> (r: &Vec<String>)
        ensures
            name_views(r@) == self.name_list(),
    {
        &self.names
    }
}

} // verus!
