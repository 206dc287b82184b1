//! Laws that relate several operations of the library.

use crate::aws_etag::{
    aws_separator, etag_alias, etag_prefix,
    md5_aws, resolve_alias, schedule_of, sizes_of, sizes_text, split_composite, Schedule,
};
use crate::ctx::{chunks_bytes, display_of, kind_of, result_of, Ctx, Kind};
use crate::digest::{algorithm_name, lemma_algorithm_named, Algorithm};
use crate::size_literal::{byte_count_literal, digit_count, lemma_digit_count_len, size_value};
use crate::sums::ChecksumView;
use crate::text::{
    all_digits, decimal, is_digit, last_match, lemma_decimal_value,
    lemma_last_match_at, lemma_no_match_before, lemma_replace_absent, lemma_split_append,
    lemma_split_no_sep, lemma_split_on_len, matches_at, parse_u64_spec, split_on, strip_prefix,
    unsigned_digits,
};
use vstd::prelude::*;

verus! {

/// Two chunkings of the same bytes give the same digest: `generate` (and
/// `update` chunk by chunk, then `finalize`) depends on the concatenated
/// bytes alone, for a whole-object digest and a composite one alike.
pub proof fn lemma_chunk_invariance(ctx: Ctx, c1: Seq<Vec<u8>>, c2: Seq<Vec<u8>>)
    requires
        chunks_bytes(c1) == chunks_bytes(c2),
    ensures
        result_of(ctx, ctx.stream() + chunks_bytes(c1)) == result_of(ctx, ctx.stream() + chunks_bytes(c2)),
{
}

/// Merging keeps every entry of the second manifest, and every entry of
/// the first whose spec the second does not have.
pub proof fn lemma_merge_keeps_entries(
    a: Map<Seq<char>, ChecksumView>,
    b: Map<Seq<char>, ChecksumView>,
)
    ensures
        forall|k: Seq<char>|
            #[trigger] b.contains_key(k) ==> a.union_prefer_right(b).contains_key(k)
                && a.union_prefer_right(b)[k] == b[k],
        forall|k: Seq<char>|
            #[trigger] a.contains_key(k) && !b.contains_key(k) ==> a.union_prefer_right(
                b,
            ).contains_key(k) && a.union_prefer_right(b)[k] == a[k],
        a.union_prefer_right(b).dom() == a.dom().union(b.dom()),
{
    assert(a.union_prefer_right(b).dom() =~= a.dom().union(b.dom()));
}

/// Merging is associative: `(a + b) + c` and `a + (b + c)` hold the same
/// entries, the later manifest winning on a shared spec.
pub proof fn lemma_merge_associative(
    a: Map<Seq<char>, ChecksumView>,
    b: Map<Seq<char>, ChecksumView>,
    c: Map<Seq<char>, ChecksumView>,
)
    ensures
        a.union_prefer_right(b).union_prefer_right(c) == a.union_prefer_right(
            b.union_prefer_right(c),
        ),
{
    assert(a.union_prefer_right(b).union_prefer_right(c) =~= a.union_prefer_right(
        b.union_prefer_right(c),
    ));
}

/// The text of one explicit part size: its decimal digits and `b`.
pub open spec fn size_piece(x: u64) -> Seq<char> {
    decimal(x as nat).push('b')
}

/// Algorithm names are three to six characters, none of them `w` or `-`.
proof fn lemma_name_shape(alg: Algorithm)
    ensures
        3 <= algorithm_name(alg).len() <= 6,
        algorithm_name(alg).len() != 7,
        forall|i: int|
            0 <= i < algorithm_name(alg).len() ==> #[trigger] algorithm_name(alg)[i] != 'w'
                && algorithm_name(alg)[i] != '-',
{
    let n = algorithm_name(alg);
    assert forall|i: int| 0 <= i < n.len() implies #[trigger] n[i] != 'w' && n[i] != '-' by {
        if i == 0 {
        } else if i == 1 {
        } else if i == 2 {
        } else if i == 3 {
        } else if i == 4 {
        } else {
        }
    }
}

/// Explicit sizes as text: digits, `b` and `-` only, starting with a digit
/// and ending with `b`.
proof fn lemma_sizes_text_shape(v: Seq<u64>)
    requires
        v.len() > 0,
    ensures
        sizes_text(v).len() >= 2,
        is_digit(sizes_text(v)[0]),
        sizes_text(v).last() == 'b',
        forall|i: int|
            0 <= i < sizes_text(v).len() ==> is_digit(#[trigger] sizes_text(v)[i]) || sizes_text(
                v,
            )[i] == 'b' || sizes_text(v)[i] == '-',
    decreases v.len(),
{
    let t = sizes_text(v);
    let p = size_piece(v.last());
    lemma_decimal_value(v.last() as nat);
    if v.len() == 1 {
        assert(t == size_piece(v[0]));
        assert forall|i: int| 0 <= i < t.len() implies is_digit(#[trigger] t[i]) || t[i] == 'b'
            || t[i] == '-' by {
            if i < t.len() - 1 {
                assert(t[i] == decimal(v[0] as nat)[i]);
            }
        }
        assert(t[0] == decimal(v[0] as nat)[0]);
    } else {
        let a = sizes_text(v.drop_last());
        lemma_sizes_text_shape(v.drop_last());
        assert(t == a.push('-') + p);
        assert forall|i: int| 0 <= i < t.len() implies is_digit(#[trigger] t[i]) || t[i] == 'b'
            || t[i] == '-' by {
            if i < a.len() {
                assert(t[i] == a[i]);
            } else if i > a.len() && i < t.len() - 1 {
                assert(t[i] == decimal(v.last() as nat)[i - a.len() - 1]);
            }
        }
        assert(t[0] == a[0]);
    }
}

/// Explicit sizes as text split at `-` give one piece per size.
proof fn lemma_split_sizes_text(v: Seq<u64>)
    requires
        v.len() > 0,
    ensures
        split_on(sizes_text(v), '-') == v.map_values(|x: u64| size_piece(x)),
    decreases v.len(),
{
    let p = size_piece(v.last());
    lemma_decimal_value(v.last() as nat);
    assert forall|i: int| 0 <= i < p.len() implies #[trigger] p[i] != '-' by {
        if i < p.len() - 1 {
            assert(p[i] == decimal(v.last() as nat)[i]);
        }
    }
    if v.len() == 1 {
        lemma_split_no_sep(p, '-');
        assert(v.map_values(|x: u64| size_piece(x)) =~= seq![p]);
    } else {
        lemma_split_sizes_text(v.drop_last());
        lemma_split_append(sizes_text(v.drop_last()), p, '-');
        assert(v.map_values(|x: u64| size_piece(x)) =~= v.drop_last().map_values(
            |x: u64| size_piece(x),
        ).push(p));
    }
}

/// Ten to the power `k`.
pub open spec fn pow10(k: nat) -> nat
    decreases k,
{
    if k == 0 {
        1
    } else {
        10 * pow10((k - 1) as nat)
    }
}

/// A number below `10^k` has at most `k` decimal digits.
proof fn lemma_decimal_len(n: nat, k: nat)
    requires
        k >= 1,
        n < pow10(k),
    ensures
        decimal(n).len() <= k,
    decreases k,
{
    if n >= 10 {
        let p = pow10((k - 1) as nat);
        assert(k >= 2) by {
            if k == 1 {
                assert(pow10(0) == 1);
            }
        }
        assert(n / 10 < p) by (nonlinear_arith)
            requires
                n < 10 * p,
        ;
        lemma_decimal_len(n / 10, (k - 1) as nat);
    }
}

/// A `u64` has at most twenty decimal digits.
proof fn lemma_u64_digits(x: u64)
    ensures
        decimal(x as nat).len() <= 20,
        digit_count(size_piece(x)) <= 20,
{
    reveal_with_fuel(pow10, 21);
    assert(pow10(20) == 100000000000000000000nat);
    lemma_decimal_len(x as nat, 20);
    let d = decimal(x as nat);
    assert(size_piece(x).drop_last() =~= d);
    lemma_digit_count_len(d);
}

/// Each piece reads back as its size.
proof fn lemma_sizes_of_pieces(v: Seq<u64>)
    ensures
        sizes_of(v.map_values(|x: u64| size_piece(x))) == Some(v),
    decreases v.len(),
{
    let m = v.map_values(|x: u64| size_piece(x));
    if v.len() == 0 {
        assert(m =~= Seq::<Seq<char>>::empty());
        assert(v =~= Seq::<u64>::empty());
    } else {
        lemma_sizes_of_pieces(v.drop_last());
        assert(m.drop_last() =~= v.drop_last().map_values(|x: u64| size_piece(x)));
        let p = m.last();
        assert(p == size_piece(v.last()));
        lemma_decimal_value(v.last() as nat);
        assert(p.drop_last() =~= decimal(v.last() as nat));
        assert(byte_count_literal(p) == Some(v.last()));
        lemma_u64_digits(v.last());
        assert(size_value(p) == Some(v.last()));
        assert(v.drop_last().push(v.last()) =~= v);
    }
}

/// An algorithm name reads back as that algorithm.
proof fn lemma_simple_round_trip(a: Algorithm)
    ensures
        kind_of(algorithm_name(a)) == Some(Kind::Simple(a)),
{
    let d = algorithm_name(a);
    lemma_name_shape(a);
    lemma_algorithm_named(a);
    assert forall|i: int| 0 <= i < d.len() implies !#[trigger] matches_at(d, etag_alias(), i) by {}
    lemma_replace_absent(d, etag_alias(), md5_aws());
    assert(resolve_alias(d) == d);
    assert forall|j: int| 0 <= j < d.len() implies !#[trigger] matches_at(d, aws_separator(), j) by {
        if matches_at(d, aws_separator(), j) {
            assert(d.subrange(j, j + 5)[0] == d[j]);
        }
    }
    lemma_no_match_before(d, aws_separator(), d.len() as int);
    assert(split_composite(d) is None);
}

/// The canonical string of a composite spec has no alias to resolve, and
/// its last `-aws-` follows the algorithm name.
proof fn lemma_composite_text(a: Algorithm, v: Seq<u64>)
    requires
        v.len() > 0,
    ensures
        ({
            let d = algorithm_name(a) + aws_separator() + sizes_text(v);
            &&& resolve_alias(d) == d
            &&& last_match(d, aws_separator()) == algorithm_name(a).len()
            &&& d.take(algorithm_name(a).len() as int) == algorithm_name(a)
            &&& d.skip(algorithm_name(a).len() as int + 5) == sizes_text(v)
        }),
{
    let name = algorithm_name(a);
    let sep = aws_separator();
    let st = sizes_text(v);
    let d = name + sep + st;
    let n = name.len() as int;
    lemma_name_shape(a);
    lemma_sizes_text_shape(v);
    assert forall|i: int| 0 <= i < d.len() && #[trigger] d[i] == 'w' implies i == n + 2 by {
        if i < n {
            assert(d[i] == name[i]);
        } else if i >= n + 5 {
            assert(d[i] == st[i - n - 5]);
        }
    }
    assert forall|i: int| n + 1 < i < d.len() implies #[trigger] d[i] != 'a' by {
        if i >= n + 5 {
            assert(d[i] == st[i - n - 5]);
        }
    }
    assert(d[n + 5] == st[0]);
    assert forall|i: int| 0 <= i < d.len() implies !#[trigger] matches_at(d, etag_alias(), i) by {
        if matches_at(d, etag_alias(), i) {
            assert(d.subrange(i, i + 8)[1] == d[i + 1]);
            assert(d.subrange(i, i + 8)[4] == d[i + 4]);
        }
    }
    lemma_replace_absent(d, etag_alias(), md5_aws());
    assert(d.len() != md5_aws().len());
    assert(d.subrange(n, n + 5) =~= sep);
    assert forall|j: int| n < j < d.len() implies !#[trigger] matches_at(d, sep, j) by {
        if matches_at(d, sep, j) {
            assert(d.subrange(j, j + 5)[1] == d[j + 1]);
        }
    }
    lemma_last_match_at(d, sep, n, d.len() as int);
    assert(d.take(n) =~= name);
    assert(d.skip(n + 5) =~= st);
}

/// Explicit sizes as text read back as those sizes.
proof fn lemma_schedule_of_sizes_text(v: Seq<u64>)
    requires
        v.len() > 0,
    ensures
        schedule_of(sizes_text(v)) == Some(Schedule::Sizes(v)),
{
    let st = sizes_text(v);
    lemma_sizes_text_shape(v);
    assert(!matches_at(st, etag_prefix(), 0)) by {
        if matches_at(st, etag_prefix(), 0) {
            assert(st.subrange(0, 5)[0] == st[0]);
        }
    }
    assert(strip_prefix(st, etag_prefix()) == st);
    assert(unsigned_digits(st) == st);
    assert(!all_digits(st)) by {
        assert(st[st.len() - 1] == 'b');
    }
    assert(parse_u64_spec(st) is None);
    lemma_split_sizes_text(v);
    lemma_sizes_of_pieces(v);
}

/// Parsing the canonical spec string of an algorithm, or of an algorithm
/// with explicit part sizes, gives that algorithm and those sizes back. (A
/// part count is rendered as the part size it implies, so it reads back as
/// explicit sizes.)
pub proof fn lemma_display_round_trip(k: Kind, total: nat)
    requires
        match k {
            Kind::Simple(_) => true,
            Kind::Composite(_, Schedule::Sizes(v)) => v.len() > 0,
            Kind::Composite(_, Schedule::Count(_)) => false,
        },
    ensures
        kind_of(display_of(k, total)) == Some(k),
{
    match k {
        Kind::Simple(a) => {
            lemma_simple_round_trip(a);
        },
        Kind::Composite(a, m) => {
            let v = m->Sizes_0;
            lemma_composite_text(a, v);
            lemma_schedule_of_sizes_text(v);
            lemma_algorithm_named(a);
            let d = algorithm_name(a) + aws_separator() + sizes_text(v);
            assert(display_of(k, total) == d);
            assert(split_composite(d) == Some((algorithm_name(a), Schedule::Sizes(v))));
        },
    }
}

/// Explicit sizes read from a spec string are never an empty list.
proof fn lemma_sizes_of_len(ps: Seq<Seq<char>>)
    requires
        sizes_of(ps) is Some,
    ensures
        sizes_of(ps)->Some_0.len() == ps.len(),
    decreases ps.len(),
{
    if ps.len() > 0 {
        lemma_sizes_of_len(ps.drop_last());
    }
}

/// Reading the canonical spec string of a parsed spec gives the same spec,
/// for every spec but a part count.
pub proof fn lemma_parse_display_parse(s: Seq<char>, total: nat)
    requires
        kind_of(s) is Some,
        !(kind_of(s)->Some_0 matches Kind::Composite(_, Schedule::Count(_))),
    ensures
        kind_of(display_of(kind_of(s)->Some_0, total)) == kind_of(s),
{
    let k = kind_of(s)->Some_0;
    if let Kind::Composite(_, Schedule::Sizes(v)) = k {
        let t = resolve_alias(s);
        let i = last_match(t, aws_separator());
        let u = strip_prefix(t.skip(i + 5), etag_prefix());
        lemma_split_on_len(u, '-');
        lemma_sizes_of_len(split_on(u, '-'));
    }
    lemma_display_round_trip(k, total);
}

} // verus!
