use vstd::prelude::*;

verus! {

/// Strict lexicographic order on byte strings: the order in which an ordered
/// key-value storage keeps and scans its keys.
pub open spec fn lex_lt(a: Seq<u8>, b: Seq<u8>) -> bool
    decreases a.len(),
{
    if b.len() == 0 {
        false
    } else if a.len() == 0 {
        true
    } else if a[0] != b[0] {
        a[0] < b[0]
    } else {
        lex_lt(a.drop_first(), b.drop_first())
    }
}

pub open spec fn pow256(k: nat) -> nat
    decreases k,
{
    if k == 0 {
        1
    } else {
        256 * pow256((k - 1) as nat)
    }
}

/// The `len` low-order bytes of `n`, most significant first.
pub open spec fn be_bytes(n: nat, len: nat) -> Seq<u8>
    decreases len,
{
    if len == 0 {
        Seq::empty()
    } else {
        be_bytes(n / 256, (len - 1) as nat).push((n % 256) as u8)
    }
}

/// The number that a big-endian byte string denotes.
pub open spec fn from_be(s: Seq<u8>) -> nat
    decreases s.len(),
{
    if s.len() == 0 {
        0
    } else {
        from_be(s.drop_last()) * 256 + s.last() as nat
    }
}

pub proof fn lemma_pow256_pos(k: nat)
    ensures
        pow256(k) > 0,
    decreases k,
{
    if k > 0 {
        lemma_pow256_pos((k - 1) as nat);
    }
}

pub proof fn lemma_pow256_mono(j: nat, k: nat)
    requires
        j <= k,
    ensures
        pow256(j) <= pow256(k),
    decreases k,
{
    if j < k {
        lemma_pow256_mono(j, (k - 1) as nat);
    }
}

pub proof fn lemma_pow256_16()
    ensures
        pow256(16) == 0x1_0000_0000_0000_0000_0000_0000_0000_0000,
        pow256(8) == 0x1_0000_0000_0000_0000,
{
    reveal_with_fuel(pow256, 17);
}

pub proof fn lemma_be_len(n: nat, len: nat)
    ensures
        be_bytes(n, len).len() == len,
    decreases len,
{
    if len > 0 {
        lemma_be_len(n / 256, (len - 1) as nat);
    }
}

pub proof fn lemma_from_be_bound(s: Seq<u8>)
    ensures
        from_be(s) < pow256(s.len()),
    decreases s.len(),
{
    if s.len() > 0 {
        lemma_from_be_bound(s.drop_last());
        let a = from_be(s.drop_last());
        let p = pow256((s.len() - 1) as nat);
        assert(a * 256 + (s.last() as nat) < 256 * p) by (nonlinear_arith)
            requires a < p, s.last() < 256;
    }
}

/// Decoding the big-endian bytes of a number that fits gives the number back.
pub proof fn lemma_be_round_trip(n: nat, len: nat)
    requires
        n < pow256(len),
    ensures
        from_be(be_bytes(n, len)) == n,
    decreases len,
{
    if len > 0 {
        let p = pow256((len - 1) as nat);
        assert(n / 256 < p) by (nonlinear_arith)
            requires n < 256 * p;
        lemma_be_round_trip(n / 256, (len - 1) as nat);
        let s = be_bytes(n, len);
        assert(s.drop_last() =~= be_bytes(n / 256, (len - 1) as nat));
        assert(n == (n / 256) * 256 + n % 256) by (nonlinear_arith);
    }
}

pub proof fn lemma_lex_irreflexive(a: Seq<u8>)
    ensures
        !lex_lt(a, a),
    decreases a.len(),
{
    if a.len() > 0 {
        lemma_lex_irreflexive(a.drop_first());
    }
}

pub proof fn lemma_lex_asymmetric(a: Seq<u8>, b: Seq<u8>)
    requires
        lex_lt(a, b),
    ensures
        !lex_lt(b, a),
    decreases a.len(),
{
    if a.len() > 0 && b.len() > 0 && a[0] == b[0] {
        lemma_lex_asymmetric(a.drop_first(), b.drop_first());
    }
}

pub proof fn lemma_lex_push_same(a: Seq<u8>, x: u8, y: u8)
    requires
        x < y,
    ensures
        lex_lt(a.push(x), a.push(y)),
    decreases a.len(),
{
    if a.len() > 0 {
        lemma_lex_push_same(a.drop_first(), x, y);
        assert(a.push(x).drop_first() =~= a.drop_first().push(x));
        assert(a.push(y).drop_first() =~= a.drop_first().push(y));
    }
}

pub proof fn lemma_lex_push(a: Seq<u8>, b: Seq<u8>, x: u8, y: u8)
    requires
        a.len() == b.len(),
        lex_lt(a, b),
    ensures
        lex_lt(a.push(x), b.push(y)),
    decreases a.len(),
{
    if a[0] == b[0] {
        lemma_lex_push(a.drop_first(), b.drop_first(), x, y);
        assert(a.push(x).drop_first() =~= a.drop_first().push(x));
        assert(b.push(y).drop_first() =~= b.drop_first().push(y));
    }
}

/// Big-endian encoding of equal width is monotone.
pub proof fn lemma_be_order(n: nat, m: nat, len: nat)
    requires
        n < m,
        m < pow256(len),
    ensures
        lex_lt(be_bytes(n, len), be_bytes(m, len)),
    decreases len,
{
    let p = pow256((len - 1) as nat);
    assert(len > 0) by {
        if len == 0 {
            assert(m < 1);
        }
    }
    assert(m / 256 < p) by (nonlinear_arith)
        requires m < 256 * p;
    assert(n / 256 <= m / 256) by (nonlinear_arith)
        requires n < m;
    lemma_be_len(n / 256, (len - 1) as nat);
    lemma_be_len(m / 256, (len - 1) as nat);
    if n / 256 < m / 256 {
        lemma_be_order(n / 256, m / 256, (len - 1) as nat);
        lemma_lex_push(be_bytes(n / 256, (len - 1) as nat), be_bytes(m / 256, (len - 1) as nat),
            (n % 256) as u8, (m % 256) as u8);
    } else {
        assert(n % 256 < m % 256) by (nonlinear_arith)
            requires n < m, n / 256 == m / 256;
        lemma_lex_push_same(be_bytes(n / 256, (len - 1) as nat), (n % 256) as u8, (m % 256) as u8);
    }
}

/// Big-endian encoding of equal width is injective and order-reflecting.
pub proof fn lemma_be_order_iff(n: nat, m: nat, len: nat)
    requires
        n < pow256(len),
        m < pow256(len),
    ensures
        lex_lt(be_bytes(n, len), be_bytes(m, len)) <==> n < m,
        be_bytes(n, len) == be_bytes(m, len) <==> n == m,
{
    if n < m {
        lemma_be_order(n, m, len);
    } else if m < n {
        lemma_be_order(m, n, len);
        lemma_lex_asymmetric(be_bytes(m, len), be_bytes(n, len));
        lemma_lex_irreflexive(be_bytes(n, len));
    } else {
        lemma_lex_irreflexive(be_bytes(n, len));
    }
    if be_bytes(n, len) == be_bytes(m, len) {
        lemma_be_round_trip(n, len);
        lemma_be_round_trip(m, len);
    }
}

/// A common prefix does not change the order.
pub proof fn lemma_lex_prefix(p: Seq<u8>, a: Seq<u8>, b: Seq<u8>)
    ensures
        lex_lt(p + a, p + b) == lex_lt(a, b),
    decreases p.len(),
{
    if p.len() == 0 {
        assert(p + a =~= a);
        assert(p + b =~= b);
    } else {
        lemma_lex_prefix(p.drop_first(), a, b);
        assert((p + a).drop_first() =~= p.drop_first() + a);
        assert((p + b).drop_first() =~= p.drop_first() + b);
    }
}

/// `c` followed by a zero byte is the least byte string above `c`.
pub proof fn lemma_lex_successor(c: Seq<u8>, x: Seq<u8>)
    ensures
        lex_lt(c, x) == !lex_lt(x, c.push(0)),
    decreases c.len(),
{
    let d = c.push(0);
    assert(d.len() > 0 && d[0] == if c.len() == 0 { 0 } else { c[0] });
    if x.len() == 0 {
        assert(!lex_lt(c, x));
        assert(lex_lt(x, d));
    } else if c.len() == 0 {
        assert(lex_lt(c, x));
        assert(d.drop_first().len() == 0);
        assert(!lex_lt(x.drop_first(), d.drop_first()));
        assert(!lex_lt(x, d));
    } else if c[0] == x[0] {
        lemma_lex_successor(c.drop_first(), x.drop_first());
        assert(d.drop_first() =~= c.drop_first().push(0));
        assert(lex_lt(c, x) == lex_lt(c.drop_first(), x.drop_first()));
        assert(lex_lt(x, d) == lex_lt(x.drop_first(), d.drop_first()));
    } else {
        assert(lex_lt(c, x) == (c[0] < x[0]));
        assert(lex_lt(x, d) == (x[0] < c[0]));
    }
}

/// Appends the `len` low-order bytes of `n` to `out`, most significant first.
pub fn push_be(out: &mut Vec<u8>, n: u128, len: usize)
    ensures
        final(out)@ == old(out)@ + be_bytes(n as nat, len as nat),
    decreases len,
{
    if len > 0 {
        push_be(out, n / 256, len - 1);
        out.push((n % 256) as u8);
        assert(final(out)@ =~= old(out)@ + be_bytes(n as nat, len as nat));
    }
}

/// The number denoted by `len` bytes of `s` from `start`, read big-endian.
pub fn read_be(s: &Vec<u8>, start: usize, len: usize) -> (r: u128)
    requires
        len <= 16,
        start + len <= s@.len(),
    ensures
        r as nat == from_be(s@.subrange(start as int, start + len)),
{
    let mut acc: u128 = 0;
    let mut i: usize = start;
    proof {
        assert(s@.subrange(start as int, start as int) =~= Seq::<u8>::empty());
    }
    let n: usize = s.len();
    let end: usize = start + len;
    while i < end
        invariant
            start <= i <= end,
            end == start + len,
            end <= s@.len(),
            len <= 16,
            acc as nat == from_be(s@.subrange(start as int, i as int)),
        decreases end - i,
    {
        proof {
            lemma_from_be_bound(s@.subrange(start as int, i as int));
            lemma_pow256_mono((i - start) as nat, 15);
            lemma_pow256_16();
            reveal_with_fuel(pow256, 2);
            assert(pow256(16) == 256 * pow256(15));
            assert(s@.subrange(start as int, i + 1).drop_last() =~= s@.subrange(start as int, i as int));
        }
        acc = acc * 256 + s[i] as u128;
        i = i + 1;
    }
    acc
}

} // verus!
