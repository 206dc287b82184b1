//! Part schedules of composite digests, and their normalization against the
//! length of the object that they tiled.

use vstd::prelude::*;

verus! {

/// The sum of a list of part sizes.
pub open spec fn sum_of(p: Seq<u64>) -> nat
    decreases p.len(),
{
    if p.len() == 0 {
        0
    } else {
        p[0] as nat + sum_of(p.drop_first())
    }
}

/// The forward walk over declared sizes consuming `r` bytes: each size is
/// kept while more bytes remain than it holds; the size at which the bytes
/// run out is replaced by what is left, and the list ends there.
pub open spec fn fit_prefix(r: nat, p: Seq<u64>) -> Seq<u64>
    decreases p.len(),
{
    if p.len() == 0 {
        Seq::empty()
    } else if r <= p[0] {
        seq![r as u64]
    } else {
        seq![p[0]] + fit_prefix((r - p[0]) as nat, p.drop_first())
    }
}

/// The bytes left over after the forward walk.
pub open spec fn fit_rest(r: nat, p: Seq<u64>) -> nat
    decreases p.len(),
{
    if p.len() == 0 {
        r
    } else if r <= p[0] {
        0
    } else {
        fit_rest((r - p[0]) as nat, p.drop_first())
    }
}

/// Parts of size `last` (the final one shorter) covering `r` bytes; nothing
/// when `last` is zero.
pub open spec fn repeat_tail(r: nat, last: u64) -> Seq<u64>
    decreases r,
{
    if r == 0 || last == 0 {
        Seq::empty()
    } else if r < last {
        seq![r as u64]
    } else {
        seq![last] + repeat_tail((r - last) as nat, last)
    }
}

/// The last declared size, or zero for an empty list.
pub open spec fn last_or_zero(p: Seq<u64>) -> u64 {
    if p.len() == 0 {
        0
    } else {
        p.last()
    }
}

/// The sizes of the parts that the declared sizes cut `t` bytes into, the
/// last declared size repeating as often as needed.
pub open spec fn tile(t: nat, p: Seq<u64>) -> Seq<u64> {
    fit_prefix(t, p) + repeat_tail(fit_rest(t, p), last_or_zero(p))
}

/// `p` without its trailing run of `v`.
pub open spec fn trim_run(p: Seq<u64>, v: u64) -> Seq<u64>
    decreases p.len(),
{
    if p.len() > 0 && p.last() == v {
        trim_run(p.drop_last(), v)
    } else {
        p
    }
}

/// Where the last size is no larger than the one before it, drops the last
/// size and collapses the trailing run of the one before it to one copy.
pub open spec fn collapse_tail(p: Seq<u64>) -> Seq<u64> {
    if p.len() < 2 || p[p.len() - 1] > p[p.len() - 2] {
        p
    } else {
        trim_run(p.drop_last(), p[p.len() - 2]).push(p[p.len() - 2])
    }
}

/// The canonical schedule for declared sizes `p` over `t` bytes.
pub open spec fn normalized(t: nat, p: Seq<u64>) -> Seq<u64> {
    collapse_tail(tile(t, p))
}

/// Every size is positive.
pub open spec fn all_positive(p: Seq<u64>) -> bool {
    forall|i: int| 0 <= i < p.len() ==> #[trigger] p[i] > 0
}

/// Replaces `part_sizes` with the sizes that it cuts `file_size` bytes into.
pub fn iterate_part_sizes(file_size: u64, part_sizes: &mut Vec<u64>)
    ensures
        final(part_sizes)@ == tile(file_size as nat, old(part_sizes)@),
{
    let ghost p = part_sizes@;
    let mut out: Vec<u64> = Vec::new();
    let mut r: u64 = file_size;
    let mut i: usize = 0;
    let mut done = false;
    assert(p.skip(0) =~= p);
    assert(out@ + fit_prefix(r as nat, p.skip(0)) =~= fit_prefix(file_size as nat, p));
    while i < part_sizes.len() && !done
        invariant
            p == part_sizes@,
            i <= p.len(),
            !done ==> fit_prefix(file_size as nat, p) == out@ + fit_prefix(
                r as nat,
                p.skip(i as int),
            ),
            !done ==> fit_rest(file_size as nat, p) == fit_rest(r as nat, p.skip(i as int)),
            done ==> out@ == fit_prefix(file_size as nat, p),
            done ==> fit_rest(file_size as nat, p) == 0,
            done ==> r == 0,
        decreases p.len() - i,
    {
        let s = part_sizes[i];
        let ghost rest = p.skip(i as int);
        assert(rest.drop_first() =~= p.skip(i + 1));
        assert(rest[0] == s);
        if r <= s {
            assert(fit_prefix(r as nat, rest) == seq![r]);
            out.push(r);
            assert(out@ =~= fit_prefix(file_size as nat, p));
            r = 0;
            done = true;
        } else {
            let ghost before = out@;
            out.push(s);
            assert(fit_prefix(r as nat, rest) == seq![s] + fit_prefix(
                (r - s) as nat,
                p.skip(i + 1),
            ));
            assert(before + fit_prefix(r as nat, rest) =~= out@ + fit_prefix(
                (r - s) as nat,
                p.skip(i + 1),
            ));
            r = r - s;
        }
        i = i + 1;
    }
    if !done {
        assert(p.skip(i as int) =~= Seq::<u64>::empty());
        assert(out@ =~= fit_prefix(file_size as nat, p));
    }
    let last: u64 = if part_sizes.len() == 0 {
        0
    } else {
        part_sizes[part_sizes.len() - 1]
    };
    let ghost head = out@;
    while r > 0 && last > 0
        invariant
            last == last_or_zero(p),
            head == fit_prefix(file_size as nat, p),
            head + repeat_tail(fit_rest(file_size as nat, p), last) == out@ + repeat_tail(
                r as nat,
                last,
            ),
        decreases r,
    {
        let ghost before = out@;
        if r < last {
            out.push(r);
            assert(repeat_tail(r as nat, last) == seq![r]);
            assert(before + seq![r] =~= out@ + repeat_tail(0, last));
            r = 0;
        } else {
            out.push(last);
            assert(repeat_tail(r as nat, last) == seq![last] + repeat_tail(
                (r - last) as nat,
                last,
            ));
            assert(before + repeat_tail(r as nat, last) =~= out@ + repeat_tail(
                (r - last) as nat,
                last,
            ));
            r = r - last;
        }
    }
    assert(repeat_tail(r as nat, last) =~= Seq::<u64>::empty());
    assert(out@ =~= tile(file_size as nat, p));
    *part_sizes = out;
}

/// Drops the last size where it is no larger than the one before it, and
/// collapses the trailing run of the one before it to one copy.
pub fn remove_duplicates(part_sizes: &mut Vec<u64>)
    ensures
        final(part_sizes)@ == collapse_tail(old(part_sizes)@),
{
    let n = part_sizes.len();
    if n < 2 {
        return;
    }
    let last = part_sizes[n - 1];
    let second_last = part_sizes[n - 2];
    if last > second_last {
        return;
    }
    let ghost p = part_sizes@;
    part_sizes.pop();
    assert(part_sizes@ == p.drop_last());
    while part_sizes.len() > 0 && part_sizes[part_sizes.len() - 1] == second_last
        invariant
            trim_run(part_sizes@, second_last) == trim_run(p.drop_last(), second_last),
        decreases part_sizes.len(),
    {
        let ghost before = part_sizes@;
        part_sizes.pop();
        assert(part_sizes@ == before.drop_last());
    }
    part_sizes.push(second_last);
}

/// The forward walk and its tail cover exactly the bytes walked over, when
/// every declared size is positive.
pub proof fn lemma_tile_sum(t: nat, p: Seq<u64>)
    requires
        p.len() > 0,
        all_positive(p),
    ensures
        sum_of(tile(t, p)) == t,
{
    lemma_fit_sum(t, p);
    lemma_repeat_sum(fit_rest(t, p), last_or_zero(p));
    lemma_sum_concat(fit_prefix(t, p), repeat_tail(fit_rest(t, p), last_or_zero(p)));
}

proof fn lemma_fit_sum(r: nat, p: Seq<u64>)
    requires
        p.len() > 0,
        all_positive(p),
    ensures
        sum_of(fit_prefix(r, p)) + fit_rest(r, p) == r,
    decreases p.len(),
{
    let q = fit_prefix(r, p);
    assert(sum_of(q) == q[0] as nat + sum_of(q.drop_first()));
    if r <= p[0] {
        assert(q == seq![r as u64]);
        lemma_sum_single(r as u64);
    } else {
        let tail = p.drop_first();
        if tail.len() > 0 {
            assert forall|i: int| 0 <= i < tail.len() implies #[trigger] tail[i] > 0 by {
                assert(tail[i] == p[i + 1]);
            }
            lemma_fit_sum((r - p[0]) as nat, tail);
        } else {
            assert(fit_prefix((r - p[0]) as nat, tail) =~= Seq::<u64>::empty());
        }
        assert(q.drop_first() =~= fit_prefix((r - p[0]) as nat, tail));
    }
}

proof fn lemma_repeat_sum(r: nat, last: u64)
    requires
        last > 0,
    ensures
        sum_of(repeat_tail(r, last)) == r,
    decreases r,
{
    let q = repeat_tail(r, last);
    if r == 0 {
    } else if r < last {
        assert(q.drop_first() =~= Seq::<u64>::empty());
        assert(sum_of(q) == q[0] as nat + sum_of(q.drop_first()));
        assert(sum_of(q.drop_first()) == 0);
    } else {
        assert(sum_of(q) == q[0] as nat + sum_of(q.drop_first()));
        lemma_repeat_sum((r - last) as nat, last);
        assert(q.drop_first() =~= repeat_tail((r - last) as nat, last));
    }
}

proof fn lemma_sum_concat(a: Seq<u64>, b: Seq<u64>)
    ensures
        sum_of(a + b) == sum_of(a) + sum_of(b),
    decreases a.len(),
{
    if a.len() > 0 {
        lemma_sum_concat(a.drop_first(), b);
        assert((a + b).drop_first() =~= a.drop_first() + b);
    } else {
        assert(a + b =~= b);
    }
}

proof fn lemma_sum_single(x: u64)
    ensures
        sum_of(seq![x]) == x,
{
    assert(seq![x].drop_first() =~= Seq::<u64>::empty());
    assert(sum_of(seq![x]) == seq![x][0] as nat + sum_of(seq![x].drop_first()));
}

/// `m` parts of size `u`.
pub open spec fn reps(u: u64, m: nat) -> Seq<u64> {
    Seq::new(m, |i: int| u)
}

proof fn lemma_reps_sum(u: u64, m: nat)
    ensures
        sum_of(reps(u, m)) == m * u,
    decreases m,
{
    if m > 0 {
        lemma_reps_sum(u, (m - 1) as nat);
        assert(reps(u, m).drop_first() =~= reps(u, (m - 1) as nat));
        assert(sum_of(reps(u, m)) == reps(u, m)[0] as nat + sum_of(reps(u, m).drop_first()));
        assert(m * u == u + (m - 1) * u) by (nonlinear_arith)
            requires
                m > 0,
        ;
    } else {
        assert(reps(u, m).len() == 0);
        assert(m * u == 0) by (nonlinear_arith)
            requires
                m == 0,
        ;
    }
}

/// Repeating `u` over `m` whole parts and a shorter rest gives those parts.
proof fn lemma_repeat_reps(u: u64, m: nat, w: nat)
    requires
        u > 0,
        w < u,
    ensures
        repeat_tail((m * u + w) as nat, u) == reps(u, m) + (if w == 0 {
            Seq::<u64>::empty()
        } else {
            seq![w as u64]
        }),
    decreases m,
{
    let tail = if w == 0 {
        Seq::<u64>::empty()
    } else {
        seq![w as u64]
    };
    if m == 0 {
        assert(reps(u, 0) =~= Seq::<u64>::empty());
        assert(reps(u, 0) + tail =~= tail);
        assert(0 * u + w == w) by (nonlinear_arith);
        if w == 0 {
            assert(repeat_tail(0, u) =~= Seq::<u64>::empty());
        } else {
            assert(repeat_tail(w, u) == seq![w as u64]);
        }
    } else {
        lemma_repeat_reps(u, (m - 1) as nat, w);
        assert(m * u + w == u + ((m - 1) * u + w)) by (nonlinear_arith)
            requires
                m > 0,
        ;
        assert((m * u + w) as nat >= u);
        assert(repeat_tail((m * u + w) as nat, u) == seq![u] + repeat_tail(((m - 1) * u + w) as nat, u));
        assert(reps(u, m) =~= seq![u] + reps(u, (m - 1) as nat));
        assert(reps(u, m) + tail =~= seq![u] + (reps(u, (m - 1) as nat) + tail));
    }
}

/// A walk with more bytes than the sizes hold keeps every size.
proof fn lemma_fit_exceeds(r: nat, s: Seq<u64>)
    requires
        r > sum_of(s),
    ensures
        fit_prefix(r, s) == s,
        fit_rest(r, s) == r - sum_of(s),
    decreases s.len(),
{
    if s.len() > 0 {
        lemma_fit_exceeds((r - s[0]) as nat, s.drop_first());
        assert(seq![s[0]] + s.drop_first() =~= s);
    }
}

/// Positive sizes that add up to the bytes walked over are kept as they
/// are.
proof fn lemma_fit_exact(t: nat, q: Seq<u64>)
    requires
        q.len() > 0,
        all_positive(q),
        sum_of(q) == t,
    ensures
        fit_prefix(t, q) == q,
        fit_rest(t, q) == 0,
    decreases q.len(),
{
    if q.len() == 1 {
        assert(q.drop_first() =~= Seq::<u64>::empty());
        assert(sum_of(q) == q[0] as nat + sum_of(q.drop_first()));
        assert(t == q[0]);
        assert(seq![q[0]] =~= q);
    } else {
        let rest = q.drop_first();
        assert forall|i: int| 0 <= i < rest.len() implies #[trigger] rest[i] > 0 by {
            assert(rest[i] == q[i + 1]);
        }
        assert(sum_of(rest) > 0) by {
            assert(sum_of(rest) == rest[0] as nat + sum_of(rest.drop_first()));
        }
        lemma_fit_exact((t - q[0]) as nat, rest);
        assert(seq![q[0]] + rest =~= q);
    }
}

/// The walk over positive sizes gives positive sizes, when there are bytes.
proof fn lemma_tile_positive(t: nat, p: Seq<u64>)
    requires
        t > 0,
        p.len() > 0,
        all_positive(p),
    ensures
        all_positive(tile(t, p)),
        tile(t, p).len() > 0,
{
    lemma_fit_positive(t, p);
    lemma_repeat_positive(fit_rest(t, p), last_or_zero(p));
    let a = fit_prefix(t, p);
    let b = repeat_tail(fit_rest(t, p), last_or_zero(p));
    assert forall|i: int| 0 <= i < (a + b).len() implies #[trigger] (a + b)[i] > 0 by {
        if i < a.len() {
            assert((a + b)[i] == a[i]);
        } else {
            assert((a + b)[i] == b[i - a.len()]);
        }
    }
}

proof fn lemma_fit_positive(r: nat, p: Seq<u64>)
    requires
        r > 0,
        p.len() > 0,
        all_positive(p),
    ensures
        all_positive(fit_prefix(r, p)),
        fit_prefix(r, p).len() > 0,
    decreases p.len(),
{
    let q = fit_prefix(r, p);
    if r > p[0] && p.len() > 1 {
        let rest = p.drop_first();
        assert forall|i: int| 0 <= i < rest.len() implies #[trigger] rest[i] > 0 by {
            assert(rest[i] == p[i + 1]);
        }
        lemma_fit_positive((r - p[0]) as nat, rest);
        assert forall|i: int| 0 <= i < q.len() implies #[trigger] q[i] > 0 by {
            if i > 0 {
                assert(q[i] == fit_prefix((r - p[0]) as nat, rest)[i - 1]);
            }
        }
    } else if r > p[0] {
        assert(p.drop_first() =~= Seq::<u64>::empty());
        assert(fit_prefix((r - p[0]) as nat, p.drop_first()) =~= Seq::<u64>::empty());
        assert(q =~= seq![p[0]]);
    }
}

proof fn lemma_repeat_positive(r: nat, last: u64)
    ensures
        all_positive(repeat_tail(r, last)),
    decreases r,
{
    let q = repeat_tail(r, last);
    if r > 0 && last > 0 && r >= last {
        lemma_repeat_positive((r - last) as nat, last);
        assert forall|i: int| 0 <= i < q.len() implies #[trigger] q[i] > 0 by {
            if i > 0 {
                assert(q[i] == repeat_tail((r - last) as nat, last)[i - 1]);
            }
        }
    }
}

/// `trim_run` removes a run of `v` from the end: what it leaves, followed
/// by that many copies of `v`, is the list.
proof fn lemma_trim_run(s: Seq<u64>, v: u64)
    ensures
        trim_run(s, v).len() <= s.len(),
        s == trim_run(s, v) + reps(v, (s.len() - trim_run(s, v).len()) as nat),
    decreases s.len(),
{
    if s.len() > 0 && s.last() == v {
        lemma_trim_run(s.drop_last(), v);
        let t = trim_run(s, v);
        let k = (s.len() - t.len()) as nat;
        assert(t == trim_run(s.drop_last(), v));
        assert(reps(v, (k - 1) as nat).push(v) =~= reps(v, k));
        assert(s =~= s.drop_last().push(v));
        assert(s =~= t + reps(v, k));
    } else {
        assert(reps(v, 0) =~= Seq::<u64>::empty());
        assert(s =~= s + reps(v, 0));
    }
}

/// The canonical schedule, with its last size repeating, cuts the object
/// into the same parts as the declared sizes.
pub proof fn lemma_normalized_tiles(t: nat, p: Seq<u64>)
    requires
        p.len() > 0,
        all_positive(p),
    ensures
        tile(t, normalized(t, p)) == tile(t, p),
{
    let q = tile(t, p);
    if t == 0 {
        assert(fit_prefix(0, p) == seq![0u64]);
        assert(repeat_tail(0, last_or_zero(p)) =~= Seq::<u64>::empty());
        assert(q =~= seq![0u64]);
        let z = seq![0u64];
        assert(fit_prefix(0, z) == seq![0u64]);
        assert(z.drop_first() =~= Seq::<u64>::empty());
        assert(tile(0, z) =~= z);
        return;
    }
    lemma_tile_positive(t, p);
    lemma_tile_sum(t, p);
    let n = q.len();
    if n < 2 || q[n - 1] > q[n - 2] {
        lemma_fit_exact(t, q);
        assert(tile(t, q) =~= q + repeat_tail(0, last_or_zero(q)));
        return;
    }
    let u = q[n - 2];
    let w = q[n - 1];
    let d = q.drop_last();
    let c0 = trim_run(d, u);
    lemma_trim_run(d, u);
    let m = (d.len() - c0.len()) as nat;
    assert(m >= 1) by {
        if m == 0 {
            assert(c0 == d);
            assert(trim_run(d, u) == trim_run(d.drop_last(), u));
            lemma_trim_run(d.drop_last(), u);
        }
    }
    let c = c0.push(u);
    assert(normalized(t, p) == c);
    assert(q =~= c0 + reps(u, m) + seq![w]);
    lemma_sum_concat(c0 + reps(u, m), seq![w]);
    lemma_sum_concat(c0, reps(u, m));
    lemma_reps_sum(u, m);
    lemma_sum_single(w);
    lemma_sum_concat(c0, seq![u]);
    lemma_sum_single(u);
    assert(c =~= c0 + seq![u]);
    assert(w > 0) by {
        assert(q[n - 1] > 0);
    }
    assert(u > 0) by {
        assert(q[n - 2] > 0);
    }
    let rest = (t - sum_of(c)) as nat;
    assert(t > sum_of(c)) by (nonlinear_arith)
        requires
            t == sum_of(c0) + m * u + w,
            sum_of(c) == sum_of(c0) + u,
            m >= 1,
            w > 0,
    ;
    lemma_fit_exceeds(t, c);
    assert(last_or_zero(c) == u);
    if w < u {
        assert(rest == (m - 1) as nat * u + w) by (nonlinear_arith)
            requires
                t == sum_of(c0) + m * u + w,
                sum_of(c) == sum_of(c0) + u,
                rest == t - sum_of(c),
                m >= 1,
        ;
        lemma_repeat_reps(u, (m - 1) as nat, w as nat);
        assert(c + (reps(u, (m - 1) as nat) + seq![w]) =~= q);
    } else {
        assert(w == u);
        assert(rest == m * u + 0) by (nonlinear_arith)
            requires
                t == sum_of(c0) + m * u + w,
                sum_of(c) == sum_of(c0) + u,
                rest == t - sum_of(c),
                w == u,
        ;
        lemma_repeat_reps(u, m, 0);
        assert(c + (reps(u, m) + Seq::<u64>::empty()) =~= q);
    }
}

} // verus!
