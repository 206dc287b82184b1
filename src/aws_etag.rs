//! Composite (AWS ETag style) digests: the stream is cut into parts by a
//! part schedule, each part is digested, and the concatenated part digests
//! are digested once more.

use crate::digest::{algorithm_name, algorithm_named, chars_eq, digest_of, Algorithm, StandardCtx};
use crate::error::{parse_error, Error};
use crate::size_literal::{count_digits, parse_size_of, size_value};
use crate::schedule::{all_positive, iterate_part_sizes, normalized, remove_duplicates};
use crate::text::{
    last_match_before, chars_of, decimal, encode_hex, hex_of, last_match, last_match_exec,
    matches_at, matches_at_exec, parse_u64, parse_u64_spec, push_char, replace_all, replace_all_exec,
    split_on, split_on_exec, string_from_chars, strip_prefix, sub_chars, write_decimal,
};
use vstd::prelude::*;
use vstd::slice::slice_subrange;

verus! {

/// How a composite digest cuts the stream into parts: a number of equal
/// parts of an object of known size, or explicit part sizes of which the
/// last repeats.
#[derive(Debug, Clone, PartialEq, Eq)]
pub enum PartMode {
    PartNumber(u64),
    PartSizes(Vec<u64>),
}

/// `ceil(file_size / part_number)`.
pub open spec fn ceil_div(file_size: nat, part_number: nat) -> nat
    recommends
        part_number > 0,
{
    ((file_size + part_number - 1) as int / part_number as int) as nat
}

/// A part count is never zero.
pub open spec fn mode_valid(mode: PartMode) -> bool {
    match mode {
        PartMode::PartNumber(n) => n > 0,
        PartMode::PartSizes(_) => true,
    }
}

/// The size of part `k` (from zero) under a schedule; zero where the
/// schedule gives none.
pub open spec fn size_at(mode: PartMode, file_size: Option<u64>, k: nat) -> nat {
    match mode {
        PartMode::PartNumber(n) => match file_size {
            Some(fs) => if n > 0 {
                ceil_div(fs as nat, n as nat)
            } else {
                0
            },
            None => 0,
        },
        PartMode::PartSizes(v) => if v@.len() == 0 {
            0
        } else if k < v@.len() {
            v@[k as int] as nat
        } else {
            v@.last() as nat
        },
    }
}

/// The schedule gives a positive size to every part: a part count with a
/// known, non-zero object size, or a non-empty list of positive sizes.
pub open spec fn schedule_ok(mode: PartMode, file_size: Option<u64>) -> bool {
    match mode {
        PartMode::PartNumber(n) => n > 0 && file_size is Some && file_size->0 > 0,
        PartMode::PartSizes(v) => v@.len() > 0 && all_positive(v@),
    }
}

/// The bytes of a list of parts, in order.
pub open spec fn concat_all(s: Seq<Seq<u8>>) -> Seq<u8>
    decreases s.len(),
{
    if s.len() == 0 {
        Seq::empty()
    } else {
        s[0] + concat_all(s.drop_first())
    }
}

/// The parts that a schedule cuts `data` into, starting at part `k`: each
/// part holds its scheduled size, except the last, which holds what is left
/// (at most its scheduled size).
pub open spec fn parts_of(data: Seq<u8>, mode: PartMode, file_size: Option<u64>, k: nat) -> Seq<
    Seq<u8>,
>
    decreases data.len(),
{
    let s = size_at(mode, file_size, k);
    if data.len() == 0 {
        Seq::empty()
    } else if s == 0 || data.len() <= s {
        seq![data]
    } else {
        seq![data.take(s as int)] + parts_of(data.skip(s as int), mode, file_size, k + 1)
    }
}

/// A list without its last element; the empty list stays empty.
pub open spec fn all_but_last<T>(s: Seq<T>) -> Seq<T> {
    if s.len() == 0 {
        s
    } else {
        s.drop_last()
    }
}

/// The digests of a list of parts.
pub open spec fn digests_of(alg: Algorithm, parts: Seq<Seq<u8>>) -> Seq<Seq<u8>> {
    parts.map_values(|p: Seq<u8>| digest_of(alg, p))
}

/// Each part's length with its digest.
pub open spec fn part_entries(alg: Algorithm, parts: Seq<Seq<u8>>) -> Seq<(u64, Seq<u8>)> {
    parts.map_values(|p: Seq<u8>| (p.len() as u64, digest_of(alg, p)))
}

/// The composite digest of `data`: the digest of the concatenated digests
/// of its parts.
pub open spec fn etag_of(alg: Algorithm, mode: PartMode, file_size: Option<u64>, data: Seq<u8>) -> Seq<
    u8,
> {
    digest_of(alg, concat_all(digests_of(alg, parts_of(data, mode, file_size, 0))))
}

/// A found last occurrence is an occurrence.
proof fn lemma_last_match_found(s: Seq<char>, pat: Seq<char>, end: int)
    requires
        last_match_before(s, pat, end) >= 0,
    ensures
        matches_at(s, pat, last_match_before(s, pat, end)),
    decreases end,
{
    if end > 0 && !matches_at(s, pat, end - 1) {
        lemma_last_match_found(s, pat, end - 1);
    }
}

/// Appending one more list to the parts appends its bytes.
pub proof fn lemma_concat_push(s: Seq<Seq<u8>>, x: Seq<u8>)
    ensures
        concat_all(s.push(x)) == concat_all(s) + x,
    decreases s.len(),
{
    if s.len() == 0 {
        assert(s.push(x).drop_first() =~= Seq::<Seq<u8>>::empty());
        assert(concat_all(s.push(x)) == s.push(x)[0] + concat_all(s.push(x).drop_first()));
        assert(concat_all(s.push(x)) =~= x);
    } else {
        lemma_concat_push(s.drop_first(), x);
        assert(s.push(x).drop_first() =~= s.drop_first().push(x));
        assert(concat_all(s.push(x)) =~= concat_all(s) + x);
    }
}

/// Parts that follow the schedule from part `k` (all but the last full, the
/// last non-empty and within its size) are exactly how the schedule cuts
/// their bytes.
proof fn lemma_parts_of_closed(closed: Seq<Seq<u8>>, mode: PartMode, fs: Option<u64>, k: nat)
    requires
        forall|i: int| 0 <= i < closed.len() - 1 ==> #[trigger] closed[i].len() == size_at(
            mode,
            fs,
            (k + i) as nat,
        ),
        forall|i: int| 0 <= i < closed.len() ==> #[trigger] closed[i].len() > 0,
        closed.len() > 0 ==> closed.last().len() <= size_at(mode, fs, (k + closed.len() - 1) as nat),
    ensures
        parts_of(concat_all(closed), mode, fs, k) == closed,
    decreases closed.len(),
{
    let data = concat_all(closed);
    if closed.len() == 0 {
        assert(parts_of(data, mode, fs, k) =~= closed);
    } else {
        let rest = closed.drop_first();
        let c0 = closed[0];
        assert(data == c0 + concat_all(rest));
        if rest.len() == 0 {
            assert(concat_all(rest) =~= Seq::<u8>::empty());
            assert(data =~= c0);
            assert(parts_of(data, mode, fs, k) =~= closed);
        } else {
            assert forall|i: int| 0 <= i < rest.len() - 1 implies #[trigger] rest[i].len()
                == size_at(mode, fs, (k + 1 + i) as nat) by {
                assert(rest[i] == closed[i + 1]);
                assert(closed[i + 1].len() == size_at(mode, fs, (k + (i + 1)) as nat));
            }
            assert forall|i: int| 0 <= i < rest.len() implies #[trigger] rest[i].len() > 0 by {
                assert(rest[i] == closed[i + 1]);
            }
            lemma_parts_of_closed(rest, mode, fs, k + 1);
            let s = size_at(mode, fs, k);
            assert(c0.len() == s);
            assert(concat_all(rest).len() > 0) by {
                assert(concat_all(rest) == rest[0] + concat_all(rest.drop_first()));
            }
            assert(data.take(s as int) =~= c0);
            assert(data.skip(s as int) =~= concat_all(rest));
            assert(parts_of(data, mode, fs, k) =~= closed);
        }
    }
}

/// A part schedule as a value.
pub enum Schedule {
    Count(u64),
    Sizes(Seq<u64>),
}

impl View for PartMode {
    type V = Schedule;

    open spec fn view(&self) -> Schedule {
        match self {
            PartMode::PartNumber(n) => Schedule::Count(*n),
            PartMode::PartSizes(v) => Schedule::Sizes(v@),
        }
    }
}

/// The sizes of a list of size literals, if every one parses.
pub open spec fn sizes_of(pieces: Seq<Seq<char>>) -> Option<Seq<u64>>
    decreases pieces.len(),
{
    if pieces.len() == 0 {
        Some(Seq::empty())
    } else {
        match (sizes_of(pieces.drop_last()), size_value(pieces.last())) {
            (Some(v), Some(x)) => Some(v.push(x)),
            _ => None,
        }
    }
}

/// `etag-`
pub open spec fn etag_prefix() -> Seq<char> {
    seq!['e', 't', 'a', 'g', '-']
}

/// `-aws-`
pub open spec fn aws_separator() -> Seq<char> {
    seq!['-', 'a', 'w', 's', '-']
}

/// `aws-etag`, the alias of `md5-aws`.
pub open spec fn etag_alias() -> Seq<char> {
    seq!['a', 'w', 's', '-', 'e', 't', 'a', 'g']
}

/// `md5-aws`
pub open spec fn md5_aws() -> Seq<char> {
    seq!['m', 'd', '5', '-', 'a', 'w', 's']
}

/// The schedule that the text after `-aws-` denotes: after an optional
/// `etag-`, a positive part count, or size literals joined by `-`.
pub open spec fn schedule_of(t: Seq<char>) -> Option<Schedule> {
    let u = strip_prefix(t, etag_prefix());
    match parse_u64_spec(u) {
        Some(n) => if n == 0 {
            None
        } else {
            Some(Schedule::Count(n))
        },
        None => match sizes_of(split_on(u, '-')) {
            Some(v) => Some(Schedule::Sizes(v)),
            None => None,
        },
    }
}

/// A spec string with its alias resolved: `aws-etag` becomes `md5-aws`, and
/// a bare `md5-aws` means one part.
pub open spec fn resolve_alias(s: Seq<char>) -> Seq<char> {
    let t = replace_all(s, etag_alias(), md5_aws());
    if t == md5_aws() {
        md5_aws() + seq!['-', '1']
    } else {
        t
    }
}

/// A composite spec string split at its last `-aws-` into the base name and
/// the schedule, if both are well formed.
pub open spec fn split_composite(s: Seq<char>) -> Option<(Seq<char>, Schedule)> {
    let t = resolve_alias(s);
    let i = last_match(t, aws_separator());
    if i < 0 {
        None
    } else {
        match schedule_of(t.skip(i + 5)) {
            Some(m) => Some((t.take(i), m)),
            None => None,
        }
    }
}

/// The algorithm and schedule of a composite spec string, if it is one.
pub open spec fn composite_of(s: Seq<char>) -> Option<(Algorithm, Schedule)> {
    match split_composite(s) {
        Some((b, m)) => match algorithm_named(b) {
            Some(a) => Some((a, m)),
            None => None,
        },
        None => None,
    }
}

/// Explicit part sizes from size literals joined by `-`.
fn parse_sizes(u: &Vec<char>) -> (r: Result<Vec<u64>, Error>)
    ensures
        match sizes_of(split_on(u@, '-')) {
            Some(v) => r is Ok && r->Ok_0@ == v,
            None => r is Err && r->Err_0 is ParseError,
        },
{
    let pieces = split_on_exec(u, '-');
    let ghost ps = split_on(u@, '-');
    let mut out: Vec<u64> = Vec::new();
    let mut i: usize = 0;
    assert(ps.take(0) =~= Seq::<Seq<char>>::empty());
    while i < pieces.len()
        invariant
            ps == split_on(u@, '-'),
            pieces@.len() == ps.len(),
            forall|j: int| 0 <= j < pieces@.len() ==> (#[trigger] pieces@[j])@ == ps[j],
            i <= ps.len(),
            sizes_of(ps.take(i as int)) == Some(out@),
        decreases pieces.len() - i,
    {
        let ghost t = ps.take(i + 1);
        assert(t.drop_last() =~= ps.take(i as int));
        assert(t.last() == ps[i as int]);
        if count_digits(&pieces[i]) > 20 {
            proof {
                lemma_sizes_of_prefix(ps, (i + 1) as int);
            }
            return Err(parse_error("part size has too many digits"));
        }
        let text = string_from_chars(&pieces[i]);
        match parse_size_of(text.as_str()) {
            Some(v) => {
                out.push(v);
            },
            None => {
                proof {
                    lemma_sizes_of_prefix(ps, (i + 1) as int);
                }
                return Err(parse_error("invalid part size"));
            },
        }
        i = i + 1;
    }
    assert(ps.take(i as int) =~= ps);
    Ok(out)
}

/// A list of literals fails to parse when one of its prefixes does.
proof fn lemma_sizes_of_prefix(ps: Seq<Seq<char>>, k: int)
    requires
        0 <= k <= ps.len(),
        sizes_of(ps.take(k)) is None,
    ensures
        sizes_of(ps) is None,
    decreases ps.len() - k,
{
    if k < ps.len() {
        let t = ps.take(k + 1);
        assert(t.drop_last() =~= ps.take(k));
        lemma_sizes_of_prefix(ps, k + 1);
    } else {
        assert(ps.take(k) =~= ps);
    }
}

/// Explicit part sizes as text: each size in bytes with a `b` suffix,
/// joined by `-`.
pub open spec fn sizes_text(v: Seq<u64>) -> Seq<char>
    decreases v.len(),
{
    if v.len() == 0 {
        Seq::empty()
    } else if v.len() == 1 {
        decimal(v[0] as nat).push('b')
    } else {
        sizes_text(v.drop_last()).push('-') + decimal(v.last() as nat).push('b')
    }
}

/// The schedule as text: a part count is shown as the part size it implies
/// for `total` bytes.
pub open spec fn parts_text(mode: Schedule, total: nat) -> Seq<char> {
    match mode {
        Schedule::Count(n) => decimal(ceil_div(total, n as nat)).push('b'),
        Schedule::Sizes(v) => sizes_text(v),
    }
}

/// The byte count that a computation's schedule is rendered against: the
/// declared size, else the bytes seen.
pub open spec fn effective_total(file_size: Option<u64>, seen: nat) -> nat {
    match file_size {
        Some(fs) => fs as nat,
        None => seen,
    }
}

/// Appends bytes to a vector.
fn append_bytes(out: &mut Vec<u8>, b: &Vec<u8>)
    ensures
        final(out)@ == old(out)@ + b@,
{
    let mut i: usize = 0;
    while i < b.len()
        invariant
            i <= b@.len(),
            out@ == old(out)@ + b@.take(i as int),
        decreases b.len() - i,
    {
        out.push(b[i]);
        i = i + 1;
        assert(out@ =~= old(out)@ + b@.take(i as int));
    }
    assert(b@.take(i as int) =~= b@);
}

/// Appends explicit part sizes as text.
fn write_sizes(s: &mut String, v: &Vec<u64>)
    ensures
        final(s)@ == old(s)@ + sizes_text(v@),
{
    let mut i: usize = 0;
    assert(v@.take(0) =~= Seq::<u64>::empty());
    while i < v.len()
        invariant
            i <= v@.len(),
            s@ == old(s)@ + sizes_text(v@.take(i as int)),
        decreases v.len() - i,
    {
        let ghost before = s@;
        if i > 0 {
            push_char(s, '-');
        }
        write_decimal(s, v[i]);
        push_char(s, 'b');
        let ghost t = v@.take(i + 1);
        assert(t.drop_last() =~= v@.take(i as int));
        i = i + 1;
        if i == 1 {
            assert(s@ =~= old(s)@ + sizes_text(v@.take(i as int)));
        } else {
            assert(s@ =~= old(s)@ + sizes_text(v@.take(i as int)));
        }
    }
    assert(v@.take(i as int) =~= v@);
}

/// Whether a list of declared sizes is non-empty and all positive.
fn sizes_usable(v: &Vec<u64>) -> (r: bool)
    ensures
        r == (v@.len() > 0 && all_positive(v@)),
{
    if v.len() == 0 {
        return false;
    }
    let mut i: usize = 0;
    while i < v.len()
        invariant
            i <= v@.len(),
            forall|j: int| 0 <= j < i ==> #[trigger] v@[j] > 0,
        decreases v.len() - i,
    {
        if v[i] == 0 {
            assert(v@[i as int] == 0);
            return false;
        }
        i = i + 1;
    }
    true
}

/// A composite digest computation.
pub struct AWSETagCtx {
    part_mode: PartMode,
    part_size_index: usize,
    current_part_size: u64,
    current_bytes: u64,
    total_bytes: u64,
    part_checksums: Vec<(u64, Vec<u8>)>,
    n_checksums: u64,
    ctx: StandardCtx,
    file_size: Option<u64>,
    cut_size: Option<u64>,
    finalized: bool,
    parts: Ghost<Seq<Seq<u8>>>,
}

impl AWSETagCtx {
    /// The digest algorithm of the parts and of the top level.
    pub closed spec fn algorithm(&self) -> Algorithm {
        self.ctx.algorithm()
    }

    /// The part schedule.
    pub closed spec fn mode(&self) -> PartMode {
        self.part_mode
    }

    /// The declared size of the object, if known.
    pub closed spec fn declared_size(&self) -> Option<u64> {
        self.file_size
    }

    /// The object size that the schedule cuts parts against: the declared
    /// size as it stood when the first byte arrived (a part count needs it).
    pub closed spec fn cut_size(&self) -> Option<u64> {
        self.cut_size
    }

    /// All bytes absorbed so far.
    pub closed spec fn stream(&self) -> Seq<u8> {
        concat_all(self.parts@) + self.ctx.absorbed()
    }

    /// The index of the next declared size that `next_part_size` gives.
    pub closed spec fn cursor(&self) -> usize {
        self.part_size_index
    }

    /// Whether `finalize` has run.
    pub closed spec fn is_finalized(&self) -> bool {
        self.finalized
    }

    /// The total byte count that the computation knows of.
    pub closed spec fn total(&self) -> u64 {
        self.total_bytes
    }

    /// The finished parts, each as its length and digest.
    pub closed spec fn part_list(&self) -> Seq<(u64, Seq<u8>)> {
        self.part_checksums@.map_values(|e: (u64, Vec<u8>)| (e.0, e.1@))
    }

    /// The state's internal invariant.
    pub closed spec fn wf(&self) -> bool {
        &&& self.core_wf()
        &&& !self.finalized && self.parts@.len() > 0 ==> self.current_bytes > 0
        &&& !self.finalized && self.stream().len() == 0 ==> self.current_part_size == 0
    }

    /// The invariant, but for an open part that may be empty.
    pub closed spec fn core_wf(&self) -> bool {
        let m = self.parts@.len();
        let alg = self.ctx.algorithm();
        &&& self.ctx.wf()
        &&& mode_valid(self.part_mode)
        &&& self.part_checksums@.len() == m
        &&& forall|i: int|
            0 <= i < m ==> (#[trigger] self.part_checksums@[i]).0 == self.parts@[i].len()
                && self.part_checksums@[i].1@ == digest_of(alg, self.parts@[i])
        &&& forall|i: int| 0 <= i < m ==> #[trigger] self.parts@[i].len() > 0
        &&& self.total_bytes == self.stream().len()
        &&& self.current_bytes == self.ctx.absorbed().len()
        &&& self.stream().len() == 0 ==> self.cut_size == self.file_size
        &&& !self.finalized ==> {
            &&& self.stream().len() > 0 ==> schedule_ok(self.part_mode, self.cut_size)
            &&& forall|i: int|
                0 <= i < m ==> #[trigger] self.parts@[i].len() == size_at(
                    self.part_mode,
                    self.cut_size,
                    i as nat,
                )
            &&& self.current_part_size == 0 ==> m == 0 && self.current_bytes == 0
            &&& self.current_part_size != 0 ==> self.current_part_size == size_at(
                self.part_mode,
                self.cut_size,
                m,
            )
            &&& self.current_bytes <= self.current_part_size
        }
        &&& self.finalized ==> self.current_bytes == 0 && self.n_checksums as nat == m
    }

    /// A computation that digests parts with `ctx`'s algorithm under a part
    /// schedule, for an object of `file_size` bytes if that is known.
    pub fn new(ctx: StandardCtx, part_mode: PartMode, file_size: Option<u64>) -> (r: Self)
        requires
            ctx.wf(),
            mode_valid(part_mode),
        ensures
            r.wf(),
            r.algorithm() == ctx.algorithm(),
            r.mode() == part_mode,
            r.declared_size() == file_size,
            r.cut_size() == file_size,
            r.stream() == Seq::<u8>::empty(),
            r.part_list() == Seq::<(u64, Seq<u8>)>::empty(),
            r.cursor() == 0,
            r.total() == 0,
            !r.is_finalized(),
    {
        let fresh = StandardCtx::new(ctx.kind());
        let r = AWSETagCtx {
            part_mode,
            part_size_index: 0,
            current_part_size: 0,
            current_bytes: 0,
            total_bytes: 0,
            part_checksums: Vec::new(),
            n_checksums: 0,
            ctx: fresh,
            file_size,
            cut_size: file_size,
            finalized: false,
            parts: Ghost(Seq::empty()),
        };
        assert(r.stream() =~= Seq::<u8>::empty());
        assert(r.part_list() =~= Seq::<(u64, Seq<u8>)>::empty());
        r
    }

    /// Converts a part count into a part size, rounding up.
    pub fn part_number_to_size(part_number: u64, file_size: u64) -> (r: u64)
        requires
            part_number > 0,
        ensures
            r as nat == ceil_div(file_size as nat, part_number as nat),
    {
        let q = file_size / part_number;
        proof {
            let f = file_size as int;
            let n = part_number as int;
            vstd::arithmetic::div_mod::lemma_fundamental_div_mod(f, n);
            if f % n == 0 {
                vstd::arithmetic::div_mod::lemma_fundamental_div_mod_converse(
                    f + n - 1,
                    n,
                    f / n,
                    n - 1,
                );
            } else {
                assert(f + n - 1 == (f / n + 1) * n + (f % n - 1)) by (nonlinear_arith)
                    requires
                        f == n * (f / n) + f % n,
                ;
                vstd::arithmetic::div_mod::lemma_fundamental_div_mod_converse(
                    f + n - 1,
                    n,
                    f / n + 1,
                    f % n - 1,
                );
            }
            if n == 1 {
                assert(f % n == 0);
            } else {
                assert(f / n < f || f == 0) by (nonlinear_arith)
                    requires
                        n > 1,
                        f >= 0,
                        f == n * (f / n) + f % n,
                        0 <= f % n < n,
                ;
            }
        }
        if file_size % part_number == 0 {
            q
        } else {
            q + 1
        }
    }

    /// Whether the schedule gives a positive size to every part.
    fn schedule_ready(&self) -> (r: bool)
        ensures
            r == schedule_ok(self.part_mode, self.cut_size),
    {
        match &self.part_mode {
            PartMode::PartNumber(n) => match self.cut_size {
                Some(fs) => *n > 0 && fs > 0,
                None => false,
            },
            PartMode::PartSizes(v) => sizes_usable(v),
        }
    }

    /// The size of the part at the schedule's cursor, advancing the cursor
    /// unless it is at the last declared size; a cursor past the declared
    /// sizes gives a parse error. A part count needs the object's size.
    pub fn next_part_size(&mut self) -> (r: Result<u64, Error>)
        requires
            old(self).wf(),
        ensures
            final(self).wf(),
            final(self).algorithm() == old(self).algorithm(),
            final(self).mode() == old(self).mode(),
            final(self).declared_size() == old(self).declared_size(),
            final(self).stream() == old(self).stream(),
            final(self).is_finalized() == old(self).is_finalized(),
            final(self).part_list() == old(self).part_list(),
            final(self).total() == old(self).total(),
            final(self).cut_size() == old(self).cut_size(),
            r is Err ==> *final(self) == *old(self),
            match old(self).mode() {
                PartMode::PartNumber(n) => {
                    &&& *final(self) == *old(self)
                    &&& match old(self).declared_size() {
                        Some(fs) => r == Ok::<u64, Error>(ceil_div(fs as nat, n as nat) as u64),
                        None => r is Err && r->Err_0 is ParseError,
                    }
                },
                PartMode::PartSizes(v) => if old(self).cursor() >= v@.len() {
                    r is Err && r->Err_0 is ParseError
                } else {
                    &&& r == Ok::<u64, Error>(v@[old(self).cursor() as int])
                    &&& final(self).cursor() == if old(self).cursor() + 1 < v@.len() {
                        old(self).cursor() + 1
                    } else {
                        old(self).cursor() as int
                    }
                },
            },
    {
        match &self.part_mode {
            PartMode::PartSizes(v) => {
                if self.part_size_index >= v.len() {
                    return Err(parse_error("expected part size"));
                }
                let s = v[self.part_size_index];
                if self.part_size_index + 1 < v.len() {
                    self.part_size_index = self.part_size_index + 1;
                }
                Ok(s)
            },
            PartMode::PartNumber(n) => match self.file_size {
                Some(fs) => Ok(Self::part_number_to_size(*n, fs)),
                None => Err(parse_error("cannot use part number syntax without file size")),
            },
        }
    }

    /// The size that the schedule gives part `k`, where it gives a positive
    /// one to every part.
    fn scheduled_size(&self, k: usize) -> (r: u64)
        requires
            mode_valid(self.part_mode),
            schedule_ok(self.part_mode, self.cut_size),
        ensures
            r as nat == size_at(self.part_mode, self.cut_size, k as nat),
            r > 0,
    {
        match &self.part_mode {
            PartMode::PartSizes(v) => {
                let i = if k < v.len() { k } else { v.len() - 1 };
                assert(v@[i as int] > 0);
                v[i]
            },
            PartMode::PartNumber(n) => {
                let fs = self.cut_size.unwrap();
                let r = Self::part_number_to_size(*n, fs);
                assert(r > 0) by (nonlinear_arith)
                    requires
                        r as nat == ceil_div(fs as nat, *n as nat),
                        fs > 0,
                        *n > 0,
                ;
                r
            },
        }
    }

    /// Sets the declared size of the object. Before the first byte it is
    /// also the size that the schedule cuts parts against; after, the parts
    /// already cut and the cut size stay as they are.
    pub fn set_file_size(&mut self, file_size: Option<u64>)
        requires
            old(self).wf(),
        ensures
            final(self).wf(),
            final(self).declared_size() == file_size,
            final(self).cut_size() == if old(self).stream().len() == 0 {
                file_size
            } else {
                old(self).cut_size()
            },
            final(self).algorithm() == old(self).algorithm(),
            final(self).mode() == old(self).mode(),
            final(self).stream() == old(self).stream(),
            final(self).is_finalized() == old(self).is_finalized(),
            final(self).part_list() == old(self).part_list(),
            final(self).cursor() == old(self).cursor(),
            final(self).total() == old(self).total(),
    {
        proof {
            if self.parts@.len() > 0 {
                assert(self.parts@[0].len() > 0);
                assert(concat_all(self.parts@) == self.parts@[0] + concat_all(
                    self.parts@.drop_first(),
                ));
            }
        }
        if self.total_bytes == 0 {
            self.cut_size = file_size;
        }
        self.file_size = file_size;
    }

    /// While the stream is open, the recorded parts are all the parts that
    /// the schedule cuts the stream into but the last, open one.
    proof fn lemma_part_list_closed(&self)
        requires
            self.wf(),
            !self.is_finalized(),
        ensures
            self.part_list() == part_entries(
                self.algorithm(),
                all_but_last(parts_of(self.stream(), self.mode(), self.cut_size(), 0)),
            ),
    {
        let parts = self.parts@;
        let open = self.ctx.absorbed();
        let alg = self.ctx.algorithm();
        let all = parts.push(open);
        lemma_concat_push(parts, open);
        if parts.len() == 0 {
            assert(concat_all(parts) =~= Seq::<u8>::empty());
            assert(self.stream() =~= open);
            if open.len() > 0 {
                assert(parts_of(open, self.part_mode, self.cut_size, 0) =~= seq![open]);
                assert(all_but_last(seq![open]) =~= Seq::<Seq<u8>>::empty());
            }
        } else {
            assert forall|i: int| 0 <= i < all.len() - 1 implies #[trigger] all[i].len() == size_at(
                self.part_mode,
                self.cut_size,
                (0 + i) as nat,
            ) by {
                assert(all[i] == parts[i]);
            }
            assert forall|i: int| 0 <= i < all.len() implies #[trigger] all[i].len() > 0 by {
                if i < parts.len() {
                    assert(all[i] == parts[i]);
                }
            }
            lemma_parts_of_closed(all, self.part_mode, self.cut_size, 0);
            assert(all_but_last(all) =~= parts);
        }
        assert(self.part_list() =~= part_entries(alg, parts));
    }

    /// The schedule, as it stands.
    pub fn part_mode(&self) -> (r: &PartMode)
        ensures
            *r == self.mode(),
    {
        &self.part_mode
    }

    /// Absorbs a chunk of the stream, closing a part as soon as a byte beyond
    /// it arrives. Fails, absorbing nothing, when the schedule does not give
    /// every part a positive size (a part count needs the object's size), or
    /// when the byte count would overflow.
    pub fn update(&mut self, data: &[u8]) -> (r: Result<(), Error>)
        requires
            old(self).wf(),
            !old(self).is_finalized(),
        ensures
            final(self).wf(),
            !final(self).is_finalized(),
            final(self).algorithm() == old(self).algorithm(),
            final(self).mode() == old(self).mode(),
            final(self).declared_size() == old(self).declared_size(),
            final(self).cut_size() == old(self).cut_size(),
            final(self).cursor() == old(self).cursor(),
            r is Ok <==> schedule_ok(old(self).mode(), old(self).cut_size())
                && old(self).stream().len() + data@.len() <= u64::MAX,
            r is Ok ==> final(self).stream() == old(self).stream() + data@,
            r is Ok ==> final(self).stream().len() <= u64::MAX,
            r is Ok ==> final(self).total() == final(self).stream().len(),
            r is Ok ==> final(self).part_list() == part_entries(
                old(self).algorithm(),
                all_but_last(parts_of(final(self).stream(), old(self).mode(), old(self).cut_size(), 0)),
            ),
            r is Err ==> *final(self) == *old(self),
            !schedule_ok(old(self).mode(), old(self).cut_size()) ==> r is Err
                && r->Err_0 is ParseError,
            r is Err && schedule_ok(old(self).mode(), old(self).cut_size()) ==> r->Err_0 is OverflowError,
    {
        if !self.schedule_ready() {
            return Err(parse_error("the part schedule gives an empty part"));
        }
        let len = data.len() as u64;
        if self.total_bytes > u64::MAX - len {
            return Err(Error::OverflowError(String::from_str("the byte count overflows")));
        }
        if data.len() == 0 {
            proof {
                assert(data@ =~= Seq::<u8>::empty());
                assert(self.stream() + data@ =~= self.stream());
                self.lemma_part_list_closed();
            }
            return Ok(());
        }
        let ghost start = self.stream();
        let ghost mode = self.part_mode;
        let ghost fs = self.cut_size;
        let ghost declared = self.file_size;
        let ghost cursor = self.part_size_index;
        let ghost alg = self.ctx.algorithm();
        if self.current_part_size == 0 {
            self.current_part_size = self.scheduled_size(self.part_checksums.len());
        }
        let mut pos: usize = 0;
        assert(data@.take(0) =~= Seq::<u8>::empty());
        assert(start + data@.take(0) =~= start);
        while pos < data.len()
            invariant
                self.core_wf(),
                self.parts@.len() > 0 && self.current_bytes == 0 ==> pos < data@.len(),
                !self.finalized,
                self.part_mode == mode,
                self.cut_size == fs,
                self.file_size == declared,
                self.part_size_index == cursor,
                start.len() > 0 || pos > 0 ==> self.stream().len() > 0,
                self.ctx.algorithm() == alg,
                schedule_ok(mode, fs),
                self.current_part_size != 0,
                pos <= data@.len(),
                self.stream() == start + data@.take(pos as int),
                start.len() + data@.len() <= u64::MAX,
            decreases data@.len() - pos, (if self.current_bytes == self.current_part_size {
                1int
            } else {
                0int
            }),
        {
            let room = self.current_part_size - self.current_bytes;
            let left = (data.len() - pos) as u64;
            let ghost prev_parts = self.parts@;
            let ghost prev_absorbed = self.ctx.absorbed();
            let ghost old_pos = pos;
            if left > room {
                let end = pos + room as usize;
                let head = slice_subrange(data, pos, end);
                assert(data@.take(end as int) =~= data@.take(pos as int) + head@);
                self.ctx.update(head);
                let ghost part = self.ctx.absorbed();
                let digest = self.ctx.finalize();
                self.part_checksums.push((self.current_part_size, digest));
                self.parts = Ghost(prev_parts.push(part));
                self.current_bytes = 0;
                self.total_bytes = self.total_bytes + room;
                pos = end;
                proof {
                    lemma_concat_push(prev_parts, part);
                    assert(part == prev_absorbed + head@);
                    assert(concat_all(prev_parts) + prev_absorbed == start + data@.take(old_pos as int));
                    assert(self.ctx.absorbed() =~= Seq::<u8>::empty());
                    assert(concat_all(self.parts@) == concat_all(prev_parts) + (prev_absorbed
                        + head@));
                    assert(concat_all(prev_parts) + (prev_absorbed + head@) =~= (concat_all(
                        prev_parts,
                    ) + prev_absorbed) + head@);
                    assert(self.stream() =~= start + data@.take(pos as int));
                    assert forall|i: int| 0 <= i < self.parts@.len() implies (
                    #[trigger] self.part_checksums@[i]).0 == self.parts@[i].len()
                        && self.part_checksums@[i].1@ == digest_of(alg, self.parts@[i])
                        && self.parts@[i].len() > 0 && self.parts@[i].len() == size_at(
                        mode,
                        fs,
                        i as nat,
                    ) by {
                        if i < prev_parts.len() {
                            assert(self.parts@[i] == prev_parts[i]);
                        }
                    }
                }
                self.current_part_size = self.scheduled_size(self.part_checksums.len());
            } else {
                let tail = slice_subrange(data, pos, data.len());
                assert(data@.take(data@.len() as int) =~= data@.take(pos as int) + tail@);
                self.ctx.update(tail);
                self.current_bytes = self.current_bytes + left;
                self.total_bytes = self.total_bytes + left;
                pos = data.len();
                assert(self.parts@ == prev_parts);
                assert(self.ctx.absorbed() == prev_absorbed + tail@);
                assert(concat_all(prev_parts) + (prev_absorbed + tail@) =~= (concat_all(prev_parts)
                    + prev_absorbed) + tail@);
                assert(self.stream() =~= start + data@.take(pos as int));
            }
        }
        assert(data@.take(data@.len() as int) =~= data@);
        proof {
            self.lemma_part_list_closed();
        }
        Ok(())
    }

    /// Normalizes explicit part sizes against the object's size (the declared
    /// size, else the bytes seen): the sizes that actually tiled the object,
    /// with a repeated tail collapsed. Nothing else changes (the cursor of
    /// `next_part_size` stays where it was), and a part count is left as it
    /// is.
    pub fn update_part_sizes(&mut self)
        requires
            old(self).wf(),
            old(self).is_finalized() || old(self).stream().len() == 0,
        ensures
            final(self).wf(),
            old(self).mode() is PartNumber ==> *final(self) == *old(self),
            old(self).mode() is PartSizes ==> {
                &&& final(self).mode() is PartSizes
                &&& final(self).mode()->PartSizes_0@ == normalized(
                    effective_total(old(self).declared_size(), old(self).stream().len()),
                    old(self).mode()->PartSizes_0@,
                )
                &&& final(self).cursor() == old(self).cursor()
                &&& final(self).algorithm() == old(self).algorithm()
                &&& final(self).declared_size() == old(self).declared_size()
                &&& final(self).cut_size() == old(self).cut_size()
                &&& final(self).stream() == old(self).stream()
                &&& final(self).is_finalized() == old(self).is_finalized()
                &&& final(self).part_list() == old(self).part_list()
                &&& final(self).total() == old(self).total()
            },
    {
        if let PartMode::PartNumber(_) = &self.part_mode {
            return;
        }
        let total = match self.file_size {
            Some(fs) => fs,
            None => self.total_bytes,
        };
        proof {
            if self.parts@.len() > 0 {
                assert(self.parts@[0].len() > 0);
                assert(concat_all(self.parts@) == self.parts@[0] + concat_all(
                    self.parts@.drop_first(),
                ));
            }
        }
        let mut mode = PartMode::PartNumber(1);
        std::mem::swap(&mut mode, &mut self.part_mode);
        let mode = match mode {
            PartMode::PartSizes(v) => {
                let mut v = v;
                iterate_part_sizes(total, &mut v);
                remove_duplicates(&mut v);
                PartMode::PartSizes(v)
            },
            other => other,
        };
        self.part_mode = mode;
    }

    /// Closes the last part, normalizes the schedule, and returns the digest
    /// of the concatenated part digests.
    pub fn finalize(&mut self) -> (r: Result<Vec<u8>, Error>)
        requires
            old(self).wf(),
            !old(self).is_finalized(),
        ensures
            final(self).wf(),
            final(self).is_finalized(),
            final(self).algorithm() == old(self).algorithm(),
            final(self).declared_size() == old(self).declared_size(),
            final(self).cut_size() == old(self).cut_size(),
            final(self).stream() == old(self).stream(),
            final(self).total() == old(self).stream().len(),
            r is Ok,
            r->Ok_0@ == etag_of(
                old(self).algorithm(),
                old(self).mode(),
                old(self).cut_size(),
                old(self).stream(),
            ),
            final(self).part_list() == part_entries(
                old(self).algorithm(),
                parts_of(old(self).stream(), old(self).mode(), old(self).cut_size(), 0),
            ),
            match old(self).mode() {
                PartMode::PartSizes(v) => final(self).mode() is PartSizes && final(self).mode()->PartSizes_0@ == normalized(
                    effective_total(old(self).declared_size(), old(self).stream().len()),
                    v@,
                ),
                PartMode::PartNumber(_) => final(self).mode() == old(self).mode(),
            },
    {
        let ghost mode = self.part_mode;
        let ghost fs = self.cut_size;
        let ghost alg = self.ctx.algorithm();
        let ghost data = self.stream();
        if self.current_bytes != 0 {
            let ghost prev_parts = self.parts@;
            let ghost part = self.ctx.absorbed();
            let digest = self.ctx.finalize();
            self.part_checksums.push((self.current_bytes, digest));
            self.parts = Ghost(prev_parts.push(part));
            self.current_bytes = 0;
            proof {
                lemma_concat_push(prev_parts, part);
                assert(self.stream() =~= data);
                assert forall|i: int| 0 <= i < self.parts@.len() implies (
                #[trigger] self.part_checksums@[i]).0 == self.parts@[i].len()
                    && self.part_checksums@[i].1@ == digest_of(alg, self.parts@[i])
                    && self.parts@[i].len() > 0 by {
                    if i < prev_parts.len() {
                        assert(self.parts@[i] == prev_parts[i]);
                    }
                }
                assert forall|i: int| 0 <= i < self.parts@.len() - 1 implies #[trigger] self.parts@[i].len()
                    == size_at(mode, fs, i as nat) by {
                    assert(self.parts@[i] == prev_parts[i]);
                }
            }
        } else {
            assert(self.ctx.absorbed() =~= Seq::<u8>::empty());
            assert(self.stream() =~= concat_all(self.parts@));
        }
        let ghost parts = self.parts@;
        proof {
            assert(concat_all(parts) =~= data);
            lemma_parts_of_closed(parts, mode, fs, 0);
            assert(parts_of(data, mode, fs, 0) == parts);
        }
        self.n_checksums = self.part_checksums.len() as u64;
        self.finalized = true;
        assert(self.part_list() =~= part_entries(alg, parts));
        self.update_part_sizes();
        assert(self.part_list().len() == parts.len());
        let mut concat: Vec<u8> = Vec::new();
        let mut i: usize = 0;
        let ghost ds = digests_of(alg, parts);
        assert(ds.take(0) =~= Seq::<Seq<u8>>::empty());
        while i < self.part_checksums.len()
            invariant
                self.wf(),
                self.finalized,
                self.part_list() == part_entries(alg, parts),
                self.part_checksums@.len() == parts.len(),
                self.stream() == data,
                self.ctx.algorithm() == alg,
                ds == digests_of(alg, parts),
                i <= parts.len(),
                concat@ == concat_all(ds.take(i as int)),
            decreases parts.len() - i,
        {
            append_bytes(&mut concat, &self.part_checksums[i].1);
            proof {
                assert(self.part_list()[i as int].1 == self.part_checksums@[i as int].1@);
                assert(ds[i as int] == part_entries(alg, parts)[i as int].1);
                assert(ds.take(i + 1) =~= ds.take(i as int).push(ds[i as int]));
                lemma_concat_push(ds.take(i as int), ds[i as int]);
            }
            i = i + 1;
        }
        assert(ds.take(i as int) =~= ds);
        let ghost before = self.stream();
        self.ctx.update(concat.as_slice());
        let top = self.ctx.finalize();
        assert(self.stream() =~= before);
        Ok(top)
    }

    /// Whether the schedule can be rendered: explicit sizes always; a part
    /// count once the object's size is declared or the stream is finished.
    pub open spec fn can_format(&self) -> bool {
        match self.mode() {
            PartMode::PartNumber(_) => self.declared_size() is Some || self.is_finalized(),
            PartMode::PartSizes(_) => true,
        }
    }

    /// Appends the schedule as text.
    fn write_parts(&self, s: &mut String)
        requires
            self.wf(),
            self.can_format(),
        ensures
            final(s)@ == old(s)@ + parts_text(self.mode()@,
                effective_total(self.declared_size(), self.stream().len()),
            ),
    {
        match &self.part_mode {
            PartMode::PartNumber(n) => {
                let total = match self.file_size {
                    Some(fs) => fs,
                    None => self.total_bytes,
                };
                write_decimal(s, Self::part_number_to_size(*n, total));
                push_char(s, 'b');
            },
            PartMode::PartSizes(v) => write_sizes(s, v),
        }
    }

    /// The schedule as text: each part size in bytes with a `b` suffix,
    /// joined by `-`; a part count shows the part size that it implies.
    pub fn format_parts(&self) -> (r: String)
        requires
            self.wf(),
            self.can_format(),
        ensures
            r@ == parts_text(self.mode()@, effective_total(self.declared_size(), self.stream().len())),
    {
        let mut s = String::new();
        self.write_parts(&mut s);
        assert(s@ =~= parts_text(self.mode()@,
            effective_total(self.declared_size(), self.stream().len()),
        ));
        s
    }

    /// A digest as text: its hexadecimal encoding, `-`, and the schedule.
    pub fn digest_to_string(&self, digest: &[u8]) -> (r: String)
        requires
            self.wf(),
            self.can_format(),
        ensures
            r@ == hex_of(digest@).push('-') + parts_text(self.mode()@,
                effective_total(self.declared_size(), self.stream().len()),
            ),
    {
        let mut s = encode_hex(digest);
        push_char(&mut s, '-');
        self.write_parts(&mut s);
        s
    }

    /// The canonical name of the digest: `<algorithm>-aws-<schedule>`.
    pub fn to_string(&self) -> (r: String)
        requires
            self.wf(),
            self.can_format(),
        ensures
            r@ == algorithm_name(self.algorithm()) + seq!['-', 'a', 'w', 's', '-'] + parts_text(self.mode()@,
                effective_total(self.declared_size(), self.stream().len()),
            ),
    {
        let mut s = String::new();
        self.ctx.kind().write_name(&mut s);
        push_char(&mut s, '-');
        push_char(&mut s, 'a');
        push_char(&mut s, 'w');
        push_char(&mut s, 's');
        push_char(&mut s, '-');
        self.write_parts(&mut s);
        assert(s@ =~= algorithm_name(self.algorithm()) + seq!['-', 'a', 'w', 's', '-'] + parts_text(self.mode()@,
            effective_total(self.declared_size(), self.stream().len()),
        ));
        s
    }

    /// The finished parts, each as its length and encoded digest.
    pub fn part_checksums(&self) -> (r: Vec<(u64, String)>)
        requires
            self.wf(),
        ensures
            r@.len() == self.part_list().len(),
            forall|i: int|
                0 <= i < r@.len() ==> (#[trigger] r@[i]).0 == self.part_list()[i].0 && r@[i].1@
                    == hex_of(self.part_list()[i].1),
    {
        let mut r: Vec<(u64, String)> = Vec::new();
        let mut i: usize = 0;
        while i < self.part_checksums.len()
            invariant
                i <= self.part_checksums@.len(),
                r@.len() == i,
                forall|j: int|
                    0 <= j < i ==> (#[trigger] r@[j]).0 == self.part_list()[j].0 && r@[j].1@
                        == hex_of(self.part_list()[j].1),
            decreases self.part_checksums@.len() - i,
        {
            let e = &self.part_checksums[i];
            r.push((e.0, encode_hex(e.1.as_slice())));
            i = i + 1;
        }
        r
    }
    /// Splits a composite spec string into its base name and schedule.
    /// `aws-etag` is an alias of `md5-aws`, and a bare `md5-aws` means one
    /// part. The string is split at its last `-aws-`; after it, an optional
    /// `etag-`, then a positive part count or size literals joined by `-`.
    pub fn parse_part_size(s: &str) -> (r: Result<(String, PartMode), Error>)
        ensures
            match split_composite(s@) {
                Some((b, m)) => r is Ok && r->Ok_0.0@ == b && r->Ok_0.1@ == m,
                None => r is Err && r->Err_0 is ParseError,
            },
    {
        proof {
            reveal_strlit("aws-etag");
            reveal_strlit("md5-aws");
            reveal_strlit("md5-aws-1");
            reveal_strlit("-aws-");
            reveal_strlit("etag-");
        }
        let cs = chars_of(s);
        let alias = chars_of("aws-etag");
        let target = chars_of("md5-aws");
        assert(alias@ =~= etag_alias());
        assert(target@ =~= md5_aws());
        let mut t = replace_all_exec(&cs, &alias, &target);
        if chars_eq(&t, "md5-aws") {
            t = chars_of("md5-aws-1");
            assert(t@ =~= md5_aws() + seq!['-', '1']);
        }
        assert(t@ == resolve_alias(s@));
        let sep = chars_of("-aws-");
        assert(sep@ =~= aws_separator());
        let i = match last_match_exec(&t, &sep) {
            Some(i) => i,
            None => {
                return Err(parse_error("expected part size"));
            },
        };
        assert(matches_at(t@, aws_separator(), i as int)) by {
            lemma_last_match_found(t@, aws_separator(), t@.len() as int);
        }
        assert(aws_separator().len() == 5);
        assert(i + 5 <= t@.len());
        let sched = sub_chars(&t, i + 5, t.len());
        assert(sched@ =~= t@.skip(i + 5));
        let etag = chars_of("etag-");
        assert(etag@ =~= etag_prefix());
        let u = if matches_at_exec(&sched, &etag, 0) {
            sub_chars(&sched, 5, sched.len())
        } else {
            sched
        };
        assert(u@ =~= strip_prefix(t@.skip(i + 5), etag_prefix()));
        let mode = match parse_u64(&u) {
            Some(n) => {
                if n == 0 {
                    return Err(parse_error("cannot use zero part number"));
                }
                PartMode::PartNumber(n)
            },
            None => match parse_sizes(&u) {
                Ok(v) => PartMode::PartSizes(v),
                Err(e) => {
                    return Err(e);
                },
            },
        };
        let base = sub_chars(&t, 0, i);
        assert(base@ =~= t@.take(i as int));
        Ok((string_from_chars(&base), mode))
    }

    /// Parses a composite spec string (`md5-aws-100mib`, `aws-etag-10`,
    /// `sha256-aws-8mib-16mib`) into a fresh computation without a declared
    /// object size.
    pub fn from_str(s: &str) -> (r: Result<AWSETagCtx, Error>)
        ensures
            match composite_of(s@) {
                Some((a, m)) => {
                    &&& r is Ok
                    &&& r->Ok_0.wf()
                    &&& !r->Ok_0.is_finalized()
                    &&& r->Ok_0.algorithm() == a
                    &&& r->Ok_0.mode()@ == m
                    &&& r->Ok_0.declared_size() is None
                    &&& r->Ok_0.stream() == Seq::<u8>::empty()
                },
                None => r is Err && r->Err_0 is ParseError,
            },
    {
        let (name, mode) = match Self::parse_part_size(s) {
            Ok(p) => p,
            Err(e) => {
                return Err(e);
            },
        };
        let alg = match Algorithm::from_name(&chars_of(name.as_str())) {
            Some(a) => a,
            None => {
                return Err(parse_error("unknown checksum algorithm"));
            },
        };
        Ok(AWSETagCtx::new(StandardCtx::new(alg), mode, None))
    }
    /// The size of the first part: the part size a part count implies, or
    /// the first declared size.
    pub fn first_part_size(&self) -> (r: Option<u64>)
        requires
            self.wf(),
            self.can_format(),
        ensures
            match self.mode()@ {
                Schedule::Count(n) => r == Some(
                    ceil_div(effective_total(self.declared_size(), self.stream().len()), n as nat)
                        as u64,
                ),
                Schedule::Sizes(v) => r == if v.len() == 0 {
                    None
                } else {
                    Some(v[0])
                },
            },
    {
        match &self.part_mode {
            PartMode::PartNumber(n) => {
                let total = match self.file_size {
                    Some(fs) => fs,
                    None => self.total_bytes,
                };
                Some(Self::part_number_to_size(*n, total))
            },
            PartMode::PartSizes(v) => if v.len() == 0 {
                None
            } else {
                Some(v[0])
            },
        }
    }
}

} // verus!
