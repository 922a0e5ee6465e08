//! Boards as bit patterns: the positions of a board are the bits that are
//! set in a machine word, and the step from one board to the next is the
//! step to the next higher word with as many bits set.

use vstd::prelude::*;
use vstd::std_specs::bits::{axiom_u64_trailing_zeros, u64_trailing_zeros};
use crate::coding::{ascending, closed_gap};
use crate::order::{first_open, first_positions, lemma_first_open, lemma_run, stepped};
use crate::FPITS;

verus! {

/// Bit `p` of `x` is set.
pub open spec fn bit_at(x: u64, p: int) -> bool {
    0 <= p < 64 && (x >> (p as u64)) & 1 == 1
}

/// The word that follows `c` among the words with as many bits set, where
/// `a` is the number of zero bits at the low end of `c`.
pub open spec fn next_word(c: u64, a: u64) -> u64 {
    let t = c | ((c - 1) as u64);
    ((t + 1) as u64) | (((((!t) & ((t + 1) as u64)) - 1) as u64) >> ((a + 1) as u64))
}

/// A bit of the union of two words is set if it is set in one of them.
pub proof fn lemma_bit_or(a: u64, b: u64, p: u64)
    requires
        p < 64,
    ensures
        bit_at(a | b, p as int) == (bit_at(a, p as int) || bit_at(b, p as int)),
{
    assert((((a | b) >> p) & 1 == 1) == (((a >> p) & 1 == 1) || ((b >> p) & 1 == 1)))
        by (bit_vector);
}

/// The word `1 << t` has bit `t` set and no other.
pub proof fn lemma_bit_one(t: u64, p: u64)
    requires
        t < 64,
        p < 64,
    ensures
        bit_at(1u64 << t, p as int) == (p == t),
{
    assert(((((1u64 << t) >> p) & 1) == 1) == (p == t)) by (bit_vector)
        requires
            t < 64,
            p < 64,
    ;
}

/// Bit `p` of `x >> k` is bit `p + k` of `x`.
pub proof fn lemma_bit_shr(x: u64, k: u64, p: u64)
    requires
        k < 64,
        p < 64,
    ensures
        bit_at(x >> k, p as int) == bit_at(x, p + k),
{
    if p + k < 64 {
        assert((((x >> k) >> p) & 1) == ((x >> ((p + k) as u64)) & 1)) by (bit_vector)
            requires
                k < 64,
                p < 64,
                p + k < 64,
        ;
    } else {
        assert((((x >> k) >> p) & 1) == 0) by (bit_vector)
            requires
                k < 64,
                p < 64,
                p + k >= 64,
        ;
    }
}

/// A word below `1 << t` has no bit set from `t` on, and a word with bit
/// `t` set is not below `1 << t`.
pub proof fn lemma_bit_bound(x: u64, t: u64, p: u64)
    requires
        t < 64,
        p < 64,
    ensures
        x < (1u64 << t) && p >= t ==> !bit_at(x, p as int),
        bit_at(x, t as int) ==> x >= (1u64 << t),
{
    assert(x < (1u64 << t) && p >= t ==> ((x >> p) & 1) == 0) by (bit_vector)
        requires
            t < 64,
            p < 64,
    ;
    assert(((x >> t) & 1) == 1 ==> x >= (1u64 << t)) by (bit_vector)
        requires
            t < 64,
    ;
}

/// The bits of the word that follows `c`: where `c` has `a` zero bits at
/// its low end, then `m` bits set and a zero bit, the next word has the
/// bits of `c` above those, the bit on which the zero bit stood, and
/// `m - 1` bits at its low end.
pub proof fn lemma_next_bits(c: u64, a: u64, m: u64, p: u64)
    requires
        1 <= m,
        a + m < 63,
        p < 64,
        c & (((1u64 << a) - 1) as u64) == 0,
        (c >> a) & (((1u64 << m) - 1) as u64) == ((1u64 << m) - 1) as u64,
        (c >> ((a + m) as u64)) & 1 == 0,
        c < (1u64 << 62),
    ensures
        bit_at(next_word(c, a), p as int) == ((p > a + m && bit_at(c, p as int)) || p == a + m
            || p + 1 < m),
        c >= 1,
        (c | ((c - 1) as u64)) < u64::MAX,
        (!(c | ((c - 1) as u64))) & (((c | ((c - 1) as u64)) + 1) as u64) >= 1,
        next_word(c, a) > c,
        next_word(c, a) < (1u64 << 63),
{
    let am = (a + m) as u64;
    let low = ((1u64 << a) - 1) as u64;
    let run = ((1u64 << am) - 1) as u64;
    let hi = (c >> am) << am;
    let t = c | ((c - 1) as u64);
    let u = (t + 1) as u64;
    let z = (!t) & u;
    let w = (((z - 1) as u64) >> ((a + 1) as u64));
    let n = u | w;
    assert((c >> a) & 1 == 1 && c >= 1) by (bit_vector)
        requires
            1 <= m,
            a < 63,
            m < 63,
            (c >> a) & (((1u64 << m) - 1) as u64) == ((1u64 << m) - 1) as u64,
    ;
    assert(t == c | low) by (bit_vector)
        requires
            a < 63,
            low == ((1u64 << a) - 1) as u64,
            t == c | ((c - 1) as u64),
            c & low == 0,
            (c >> a) & 1 == 1,
    ;
    assert(t == hi | run && hi & run == 0 && (hi >> am) & 1 == 0) by (bit_vector)
        requires
            1 <= m,
            a < 63,
            m < 63,
            am == a + m,
            am < 63,
            low == ((1u64 << a) - 1) as u64,
            run == ((1u64 << am) - 1) as u64,
            hi == (c >> am) << am,
            t == c | low,
            c & low == 0,
            (c >> a) & (((1u64 << m) - 1) as u64) == ((1u64 << m) - 1) as u64,
            (c >> am) & 1 == 0,
    ;
    assert(t < 0xffff_ffff_ffff_ffffu64 && hi < (1u64 << 62)) by (bit_vector)
        requires
            am < 63,
            run == ((1u64 << am) - 1) as u64,
            hi == (c >> am) << am,
            t == hi | run,
            c < (1u64 << 62),
    ;
    assert(u == hi | (1u64 << am) && z == (1u64 << am) && z >= 1) by (bit_vector)
        requires
            am < 63,
            run == ((1u64 << am) - 1) as u64,
            t == hi | run,
            hi & run == 0,
            (hi >> am) & 1 == 0,
            u == (t + 1) as u64,
            z == (!t) & u,
            t < 0xffff_ffff_ffff_ffffu64,
    ;
    assert(w == ((1u64 << ((m - 1) as u64)) - 1) as u64) by (bit_vector)
        requires
            1 <= m,
            a < 63,
            m < 63,
            am == a + m,
            am < 63,
            z == (1u64 << am),
            w == (((z - 1) as u64) >> ((a + 1) as u64)),
    ;
    assert(((n >> p) & 1 == 1) == ((p > am && (c >> p) & 1 == 1) || p == am || p + 1 < m))
        by (bit_vector)
        requires
            1 <= m,
            m < 63,
            am < 63,
            m <= am,
            p < 64,
            hi == (c >> am) << am,
            (c >> am) & 1 == 0,
            w == ((1u64 << ((m - 1) as u64)) - 1) as u64,
            n == (hi | (1u64 << am)) | w,
    ;
    assert(n > c && n < (1u64 << 63)) by (bit_vector)
        requires
            1 <= m,
            m < 63,
            am < 63,
            m <= am,
            hi == (c >> am) << am,
            (c >> am) & 1 == 0,
            hi < (1u64 << 62),
            w == ((1u64 << ((m - 1) as u64)) - 1) as u64,
            n == (hi | (1u64 << am)) | w,
    ;
}

/// A word with no bit set below bit `a` has nothing in common with the
/// word of `a` low bits.
pub proof fn lemma_low_clear(c: u64, a: u64)
    requires
        a < 64,
        forall|j: int| 0 <= j < a ==> !#[trigger] bit_at(c, j),
    ensures
        c & (((1u64 << a) - 1) as u64) == 0,
    decreases a,
{
    if a == 0 {
        assert(c & (((1u64 << 0u64) - 1) as u64) == 0) by (bit_vector);
    } else {
        let k = (a - 1) as u64;
        lemma_low_clear(c, k);
        assert(!bit_at(c, k as int));
        assert(c & (((1u64 << a) - 1) as u64) == 0) by (bit_vector)
            requires
                a < 64,
                a >= 1,
                k == a - 1,
                c & (((1u64 << k) - 1) as u64) == 0,
                (c >> k) & 1 != 1,
        ;
    }
}

/// A word with the `m` bits from bit `a` on set holds the word of `m` low
/// bits, shifted.
pub proof fn lemma_run_set(c: u64, a: u64, m: u64)
    requires
        a + m < 64,
        forall|q: int| a <= q < a + m ==> #[trigger] bit_at(c, q),
    ensures
        (c >> a) & (((1u64 << m) - 1) as u64) == ((1u64 << m) - 1) as u64,
    decreases m,
{
    if m == 0 {
        assert((c >> a) & (((1u64 << 0u64) - 1) as u64) == ((1u64 << 0u64) - 1) as u64)
            by (bit_vector);
    } else {
        let k = (m - 1) as u64;
        lemma_run_set(c, a, k);
        assert(bit_at(c, a + k));
        let q = (a + k) as u64;
        assert((c >> a) & (((1u64 << m) - 1) as u64) == ((1u64 << m) - 1) as u64) by (bit_vector)
            requires
                a + m < 64,
                m >= 1,
                k == m - 1,
                q == a + k,
                (c >> a) & (((1u64 << k) - 1) as u64) == ((1u64 << k) - 1) as u64,
                (c >> q) & 1 == 1,
        ;
    }
}

/// One of the positions from `lo` up to `hi` is `q`.
pub open spec fn hits(ps: Seq<int>, lo: int, hi: int, q: int) -> bool {
    exists|i: int| lo <= i < hi && #[trigger] ps[i] == q
}

/// The bits set in `c` are the positions from `lo` up to `hi`, counted
/// from `base`.
pub open spec fn holds(c: u64, ps: Seq<int>, lo: int, hi: int, base: int) -> bool {
    forall|p: int| 0 <= p < 64 ==> (#[trigger] bit_at(c, p) <==> hits(ps, lo, hi, p + base))
}

/// Unpacking one pit: the zero bits at the low end of the word are the
/// seeds in the pit, and what is left after them and the bit that follows
/// holds the rest of the positions.
pub proof fn lemma_unpack(x: u64, ps: Seq<int>, j: int, base: int)
    requires
        ascending(ps),
        0 <= j < FPITS,
        0 <= base <= ps[j],
        j > 0 ==> base == ps[j - 1] + 1,
        ps[FPITS - 1] - base < 63,
        holds(x, ps, j, FPITS as int, base),
    ensures
        u64_trailing_zeros(x) == ps[j] - base,
        holds(
            x >> ((u64_trailing_zeros(x) + 1) as u64),
            ps,
            j + 1,
            FPITS as int,
            ps[j] + 1,
        ),
{
    let tz = u64_trailing_zeros(x);
    axiom_u64_trailing_zeros(x);
    let d = ps[j] - base;
    crate::awari::lemma_ascending_le(ps, j, FPITS - 1);
    assert(bit_at(x, d)) by {
        assert(hits(ps, j, FPITS as int, d + base));
    }
    if x == 0 {
        let dd = d as u64;
        assert((0u64 >> dd) & 1 == 0) by (bit_vector);
    }
    assert(tz < 64);
    assert(bit_at(x, tz as int));
    assert(hits(ps, j, FPITS as int, tz + base));
    let i = choose|i: int| j <= i < FPITS && #[trigger] ps[i] == tz + base;
    crate::awari::lemma_ascending_le(ps, j, i);
    if tz < d {
    } else if tz > d {
        assert(!bit_at(x, d)) by {
            assert((x >> (d as u64)) & 1 == 0);
        }
    }
    assert(tz == d);
    let k = (tz + 1) as u64;
    let y = x >> k;
    assert forall|p: int| 0 <= p < 64 implies (#[trigger] bit_at(y, p) <==> hits(
        ps,
        j + 1,
        FPITS as int,
        p + ps[j] + 1,
    )) by {
        lemma_bit_shr(x, k, p as u64);
        if hits(ps, j + 1, FPITS as int, p + ps[j] + 1) {
            let i2 = choose|i2: int| j + 1 <= i2 < FPITS && #[trigger] ps[i2] == p + ps[j] + 1;
            crate::awari::lemma_ascending_le(ps, i2, FPITS - 1);
            assert(hits(ps, j, FPITS as int, (p + k) + base));
            assert(bit_at(x, p + k));
        }
        if bit_at(y, p) {
            assert(bit_at(x, p + k));
            assert(hits(ps, j, FPITS as int, (p + k) + base));
            let i2 = choose|i2: int| j <= i2 < FPITS && #[trigger] ps[i2] == (p + k) + base;
            assert(i2 != j);
        }
    }
}

/// A word with no bit set from bit `t` on is below `1 << t`.
pub proof fn lemma_high_clear(x: u64, t: u64, k: u64)
    requires
        t <= k <= 63,
        x < (1u64 << k),
        forall|p: int| t <= p < 64 ==> !#[trigger] bit_at(x, p),
    ensures
        x < (1u64 << t),
    decreases k - t,
{
    if k > t {
        let j = (k - 1) as u64;
        assert(!bit_at(x, j as int));
        assert(x < (1u64 << j)) by (bit_vector)
            requires
                1 <= k <= 63,
                j == k - 1,
                x < (1u64 << k),
                (x >> j) & 1 != 1,
        ;
        lemma_high_clear(x, t, j);
    }
}

/// The zero bits at the low end of a word are as many as its first
/// position tells.
pub proof fn lemma_lowest(x: u64, ps: Seq<int>, hi: int)
    requires
        ascending(ps),
        0 < hi <= FPITS,
        ps[hi - 1] < 64,
        holds(x, ps, 0, hi, 0),
    ensures
        u64_trailing_zeros(x) == ps[0],
{
    let tz = u64_trailing_zeros(x);
    axiom_u64_trailing_zeros(x);
    let d = ps[0];
    crate::awari::lemma_ascending_le(ps, 0, hi - 1);
    assert(bit_at(x, d)) by {
        assert(hits(ps, 0, hi, d + 0));
    }
    if x == 0 {
        let dd = d as u64;
        assert((0u64 >> dd) & 1 == 0) by (bit_vector);
    }
    assert(bit_at(x, tz as int));
    assert(hits(ps, 0, hi, tz + 0));
    let i = choose|i: int| 0 <= i < hi && #[trigger] ps[i] == tz + 0;
    crate::awari::lemma_ascending_le(ps, 0, i);
    if tz > d {
        assert((x >> (d as u64)) & 1 == 0);
    }
}

/// A pattern with the bit of the last position added holds all positions.
pub proof fn lemma_with_mask(c: u64, ps: Seq<int>)
    requires
        ascending(ps),
        ps[FPITS - 1] < 64,
        holds(c, ps, 0, FPITS - 1, 0),
    ensures
        holds(c | (1u64 << (ps[FPITS - 1] as u64)), ps, 0, FPITS as int, 0),
{
    let top = ps[FPITS - 1] as u64;
    let x = c | (1u64 << top);
    assert forall|p: int| 0 <= p < 64 implies (#[trigger] bit_at(x, p) <==> hits(
        ps,
        0,
        FPITS as int,
        p + 0,
    )) by {
        lemma_bit_or(c, 1u64 << top, p as u64);
        lemma_bit_one(top, p as u64);
        if hits(ps, 0, FPITS as int, p) {
            let i = choose|i: int| 0 <= i < FPITS && #[trigger] ps[i] == p;
            if i < FPITS - 1 {
                assert(hits(ps, 0, FPITS - 1, p + 0));
            }
        }
        if bit_at(c, p) {
            assert(hits(ps, 0, FPITS - 1, p + 0));
            let i = choose|i: int| 0 <= i < FPITS - 1 && #[trigger] ps[i] == p + 0;
            assert(hits(ps, 0, FPITS as int, p));
        }
        if p == top {
            assert(ps[FPITS - 1] == p);
            assert(hits(ps, 0, FPITS as int, p));
        }
    }
}

/// The pattern with which a walk starts holds the first positions of a
/// class.
pub proof fn lemma_first_pattern(c: u64, n: int)
    requires
        c == ((1u64 << ((FPITS - 1) as u64)) - 1) as u64,
    ensures
        holds(c, first_positions(n), 0, FPITS - 1, 0),
        c < (1u64 << ((FPITS - 1) as u64)),
{
    let ps = first_positions(n);
    let f = (FPITS - 1) as u64;
    assert(c < (1u64 << f)) by (bit_vector)
        requires
            f < 64,
            c == ((1u64 << f) - 1) as u64,
    ;
    assert forall|p: int| 0 <= p < 64 implies (#[trigger] bit_at(c, p) <==> hits(
        ps,
        0,
        FPITS - 1,
        p + 0,
    )) by {
        let q = p as u64;
        assert(((c >> q) & 1 == 1) == (q < f)) by (bit_vector)
            requires
                f < 64,
                q < 64,
                c == ((1u64 << f) - 1) as u64,
        ;
        if p < FPITS - 1 {
            assert(ps[p] == p);
            assert(hits(ps, 0, FPITS - 1, p));
        }
        if hits(ps, 0, FPITS - 1, p) {
            let i = choose|i: int| 0 <= i < FPITS - 1 && #[trigger] ps[i] == p;
        }
    }
}

/// The step to the next word is the step to the next positions: the word
/// that follows a pattern holds the positions that follow its positions,
/// or, after the last positions of a class, has the bit of the last
/// position set.
pub proof fn lemma_next_pattern(c: u64, ps: Seq<int>)
    requires
        ascending(ps),
        ps[FPITS - 1] <= 61,
        holds(c, ps, 0, FPITS - 1, 0),
        c < (1u64 << (ps[FPITS - 1] as u64)),
    ensures
        u64_trailing_zeros(c) == ps[0],
        c >= 1,
        (c | ((c - 1) as u64)) < u64::MAX,
        (!(c | ((c - 1) as u64))) & (((c | ((c - 1) as u64)) + 1) as u64) >= 1,
        next_word(c, ps[0] as u64) > c,
        first_open(ps, 1) < FPITS ==> holds(
            next_word(c, ps[0] as u64),
            stepped(ps),
            0,
            FPITS - 1,
            0,
        ) && next_word(c, ps[0] as u64) < (1u64 << (ps[FPITS - 1] as u64)),
        first_open(ps, 1) >= FPITS ==> next_word(c, ps[0] as u64) >= (1u64 << (ps[FPITS - 1]
            as u64)),
{
    let top = ps[FPITS - 1] as u64;
    let a = ps[0] as u64;
    let fo = first_open(ps, 1);
    lemma_first_open(ps, 1);
    let m = (if fo < FPITS - 1 {
        fo
    } else {
        FPITS - 1
    }) as u64;
    crate::awari::lemma_ascending_le(ps, 0, FPITS - 2);
    assert(ps[FPITS - 2] < ps[FPITS - 1]);
    lemma_lowest(c, ps, FPITS - 1);
    lemma_run(ps, m - 1);
    crate::awari::lemma_ascending_le(ps, m - 1, FPITS - 2);
    assert(a + m <= top);
    // the run of bits from bit a on
    assert forall|q: int| a <= q < a + m implies #[trigger] bit_at(c, q) by {
        lemma_run(ps, q - a);
        assert(hits(ps, 0, FPITS - 1, q + 0));
    }
    assert forall|j: int| 0 <= j < a implies !#[trigger] bit_at(c, j) by {
        if hits(ps, 0, FPITS - 1, j + 0) {
            let i = choose|i: int| 0 <= i < FPITS - 1 && #[trigger] ps[i] == j + 0;
            crate::awari::lemma_ascending_le(ps, 0, i);
        }
    }
    assert(!bit_at(c, a + m)) by {
        if hits(ps, 0, FPITS - 1, (a + m) + 0) {
            let i = choose|i: int| 0 <= i < FPITS - 1 && #[trigger] ps[i] == (a + m) + 0;
            if i < m {
                lemma_run(ps, i);
            } else {
                assert(!closed_gap(ps, m as int));
                assert(ps[m - 1] < ps[m as int]);
                crate::awari::lemma_ascending_le(ps, m as int, i);
            }
        }
    }
    lemma_low_clear(c, a);
    lemma_run_set(c, a, m);
    let am = (a + m) as u64;
    assert((c >> am) & 1 == 0) by {
        assert((c >> am) & 1 == 0 || (c >> am) & 1 == 1) by (bit_vector);
    }
    assert(c < (1u64 << 62)) by (bit_vector)
        requires
            top <= 61,
            c < (1u64 << top),
    ;
    let n = next_word(c, a);
    lemma_next_bits(c, a, m, 0);
    if fo < FPITS {
        let ts = stepped(ps);
        assert(a + m < top) by {
            if m < FPITS - 1 {
                assert(!closed_gap(ps, m as int));
                crate::awari::lemma_ascending_le(ps, m as int, FPITS - 1);
            } else {
                assert(!closed_gap(ps, FPITS - 1));
            }
        }
        assert forall|p: int| 0 <= p < 64 implies (#[trigger] bit_at(n, p) <==> hits(
            ts,
            0,
            FPITS - 1,
            p + 0,
        )) by {
            lemma_next_bits(c, a, m, p as u64);
            if p + 1 < m {
                assert(ts[p] == p);
                assert(hits(ts, 0, FPITS - 1, p));
            }
            if p == a + m {
                assert(ts[m - 1] == p);
                assert(hits(ts, 0, FPITS - 1, p));
            }
            if p > a + m && bit_at(c, p) {
                assert(hits(ps, 0, FPITS - 1, p + 0));
                let i = choose|i: int| 0 <= i < FPITS - 1 && #[trigger] ps[i] == p + 0;
                if i < m {
                    lemma_run(ps, i);
                }
                assert(ts[i] == p);
                assert(hits(ts, 0, FPITS - 1, p));
            }
            if hits(ts, 0, FPITS - 1, p) {
                let i = choose|i: int| 0 <= i < FPITS - 1 && #[trigger] ts[i] == p;
                if i >= m {
                    assert(!closed_gap(ps, m as int));
                    assert(ps[m - 1] < ps[m as int]);
                    crate::awari::lemma_ascending_le(ps, m as int, i);
                    assert(hits(ps, 0, FPITS - 1, p + 0));
                }
            }
        }
        assert forall|p: int| top <= p < 64 implies !#[trigger] bit_at(n, p) by {
            lemma_next_bits(c, a, m, p as u64);
            lemma_bit_bound(c, top, p as u64);
        }
        lemma_high_clear(n, top, 63);
    } else {
        lemma_run(ps, FPITS - 1);
        assert(a + m == top);
        lemma_next_bits(c, a, m, top);
        lemma_bit_bound(n, top, top);
    }
}

} // verus!
