//! Big-endian integer encoding and the byte-lexicographic order of the store.
use vstd::arithmetic::div_mod::lemma_mod_breakdown;
use vstd::prelude::*;

verus! {

/// 256 to the power `k`.
pub open spec fn pow256(k: nat) -> nat
    decreases k,
{
    if k == 0 {
        1
    } else {
        256 * pow256((k - 1) as nat)
    }
}

/// The `k` low-order bytes of `n`, most significant first.
pub open spec fn be_bytes(n: nat, k: nat) -> Seq<u8>
    decreases k,
{
    if k == 0 {
        Seq::empty()
    } else {
        be_bytes(n / 256, (k - 1) as nat).push((n % 256) as u8)
    }
}

/// The eight-byte big-endian form of `n`.
pub open spec fn be64(n: u64) -> Seq<u8> {
    be_bytes(n as nat, 8)
}

/// The number that a big-endian byte string stands for.
pub open spec fn be_value(b: Seq<u8>) -> nat
    decreases b.len(),
{
    if b.len() == 0 {
        0
    } else {
        be_value(b.drop_last()) * 256 + b.last() as nat
    }
}

/// Byte-lexicographic order, a proper prefix before its extensions: the order
/// in which the store keeps and scans its keys.
pub open spec fn lex_lt(x: Seq<u8>, y: Seq<u8>) -> bool
    decreases x.len(),
{
    if x.len() == 0 {
        y.len() > 0
    } else if y.len() == 0 {
        false
    } else if x[0] != y[0] {
        x[0] < y[0]
    } else {
        lex_lt(x.drop_first(), y.drop_first())
    }
}

pub proof fn lemma_pow256_8()
    ensures
        pow256(8) == 0x1_0000_0000_0000_0000,
{
    reveal_with_fuel(pow256, 9);
}

pub proof fn lemma_pow256_pos(k: nat)
    ensures
        pow256(k) > 0,
    decreases k,
{
    if k > 0 {
        lemma_pow256_pos((k - 1) as nat);
    }
}

pub proof fn lemma_be_bytes_len(n: nat, k: nat)
    ensures
        be_bytes(n, k).len() == k,
    decreases k,
{
    if k > 0 {
        lemma_be_bytes_len(n / 256, (k - 1) as nat);
    }
}

pub proof fn lemma_be_value_bound(b: Seq<u8>)
    ensures
        be_value(b) < pow256(b.len()),
    decreases b.len(),
{
    if b.len() > 0 {
        let p = b.drop_last();
        lemma_be_value_bound(p);
        let v = be_value(p);
        let q = pow256(p.len());
        assert(v * 256 + (b.last() as nat) < 256 * q) by (nonlinear_arith)
            requires
                v < q,
                b.last() < 256,
        ;
    }
}

/// Reading back `k` encoded bytes gives the number modulo 256^k.
pub proof fn lemma_be_round_trip(n: nat, k: nat)
    ensures
        be_value(be_bytes(n, k)) == n % pow256(k),
    decreases k,
{
    if k == 0 {
    } else {
        let k1 = (k - 1) as nat;
        lemma_be_round_trip(n / 256, k1);
        lemma_pow256_pos(k1);
        let b = be_bytes(n, k);
        assert(b.drop_last() == be_bytes(n / 256, k1));
        lemma_mod_breakdown(n as int, 256, pow256(k1) as int);
        assert(be_value(b) == ((n / 256) % pow256(k1)) * 256 + n % 256);
    }
}

/// An eight-byte encoding reads back as the same number.
pub proof fn lemma_be64_round_trip(n: u64)
    ensures
        be_value(be64(n)) == n as nat,
        be64(n).len() == 8,
{
    lemma_be_round_trip(n as nat, 8);
    lemma_be_bytes_len(n as nat, 8);
    lemma_pow256_8();
}

proof fn lemma_eq_by_head_tail(x: Seq<u8>, y: Seq<u8>)
    requires
        x.len() > 0,
        y.len() > 0,
        x[0] == y[0],
        x.drop_first() == y.drop_first(),
    ensures
        x == y,
{
    assert(x.len() == x.drop_first().len() + 1 && y.len() == y.drop_first().len() + 1);
    assert forall|i: int| 0 <= i < x.len() implies x[i] == y[i] by {
        if i > 0 {
            assert(x[i] == x.drop_first()[i - 1]);
            assert(y[i] == y.drop_first()[i - 1]);
        }
    }
    assert(x =~= y);
}

proof fn lemma_lex_push(x: Seq<u8>, y: Seq<u8>, a: u8, b: u8)
    requires
        x.len() == y.len(),
    ensures
        lex_lt(x.push(a), y.push(b)) == (lex_lt(x, y) || (x == y && a < b)),
    decreases x.len(),
{
    if x.len() == 0 {
        assert(x.push(a).drop_first() =~= Seq::<u8>::empty());
        assert(y.push(b).drop_first() =~= Seq::<u8>::empty());
        assert(x =~= y);
        assert(!lex_lt(Seq::<u8>::empty(), Seq::<u8>::empty()));
    } else {
        assert(x.push(a).drop_first() =~= x.drop_first().push(a));
        assert(y.push(b).drop_first() =~= y.drop_first().push(b));
        lemma_lex_push(x.drop_first(), y.drop_first(), a, b);
        if x[0] == y[0] && x.drop_first() == y.drop_first() {
            lemma_eq_by_head_tail(x, y);
        }
        assert(x.push(a)[0] == x[0] && y.push(b)[0] == y[0]);
        if x == y {
            assert(x.drop_first() == y.drop_first());
        }
    }
}

proof fn lemma_lex_be(a: nat, b: nat, k: nat)
    requires
        a < b < pow256(k),
    ensures
        lex_lt(be_bytes(a, k), be_bytes(b, k)),
    decreases k,
{
    let k1 = (k - 1) as nat;
    if k == 0 {
    } else {
        lemma_be_bytes_len(a / 256, k1);
        lemma_be_bytes_len(b / 256, k1);
        lemma_lex_push(be_bytes(a / 256, k1), be_bytes(b / 256, k1), (a % 256) as u8, (b % 256) as u8);
        let p = pow256(k1);
        assert(a / 256 <= b / 256 && b / 256 < p) by (nonlinear_arith)
            requires
                a < b,
                b < 256 * p,
        ;
        if a / 256 < b / 256 {
            lemma_lex_be(a / 256, b / 256, k1);
        } else {
            assert(a % 256 < b % 256) by (nonlinear_arith)
                requires
                    a < b,
                    a / 256 == b / 256,
            ;
        }
    }
}

pub proof fn lemma_lex_irreflexive(x: Seq<u8>)
    ensures
        !lex_lt(x, x),
    decreases x.len(),
{
    if x.len() > 0 {
        lemma_lex_irreflexive(x.drop_first());
    }
}

pub proof fn lemma_lex_asymmetric(x: Seq<u8>, y: Seq<u8>)
    ensures
        !(lex_lt(x, y) && lex_lt(y, x)),
    decreases x.len(),
{
    if x.len() > 0 && y.len() > 0 {
        lemma_lex_asymmetric(x.drop_first(), y.drop_first());
    }
}

/// Any two distinct byte strings are ordered one way or the other.
pub proof fn lemma_lex_total(x: Seq<u8>, y: Seq<u8>)
    ensures
        x == y || lex_lt(x, y) || lex_lt(y, x),
    decreases x.len(),
{
    if x.len() > 0 && y.len() > 0 {
        lemma_lex_total(x.drop_first(), y.drop_first());
        if x[0] == y[0] && x.drop_first() == y.drop_first() {
            lemma_eq_by_head_tail(x, y);
        }
    } else if x.len() == 0 && y.len() == 0 {
        assert(x =~= y);
    }
}

pub proof fn lemma_lex_transitive(x: Seq<u8>, y: Seq<u8>, z: Seq<u8>)
    requires
        lex_lt(x, y),
        lex_lt(y, z),
    ensures
        lex_lt(x, z),
    decreases x.len(),
{
    if x.len() > 0 && x[0] == y[0] && y[0] == z[0] {
        lemma_lex_transitive(x.drop_first(), y.drop_first(), z.drop_first());
    }
}

/// A common prefix does not change the order of two byte strings.
pub proof fn lemma_lex_prefix(p: Seq<u8>, x: Seq<u8>, y: Seq<u8>)
    ensures
        lex_lt(p + x, p + y) == lex_lt(x, y),
    decreases p.len(),
{
    if p.len() > 0 {
        assert((p + x).drop_first() =~= p.drop_first() + x);
        assert((p + y).drop_first() =~= p.drop_first() + y);
        lemma_lex_prefix(p.drop_first(), x, y);
    } else {
        assert(p + x =~= x);
        assert(p + y =~= y);
    }
}

/// Big-endian encoding keeps numeric order as byte order.
pub proof fn lemma_be64_order(a: u64, b: u64)
    ensures
        a < b <==> lex_lt(be64(a), be64(b)),
{
    lemma_pow256_8();
    if a < b {
        lemma_lex_be(a as nat, b as nat, 8);
    } else if b < a {
        lemma_lex_be(b as nat, a as nat, 8);
        lemma_lex_asymmetric(be64(a), be64(b));
    } else {
        lemma_lex_irreflexive(be64(a));
    }
}

/// The eight-byte big-endian form of `n`.
pub fn encode_be64(n: u64) -> (r: Vec<u8>)
    ensures
        r@ == be64(n),
{
    let mut r: Vec<u8> = Vec::new();
    let mut x: u64 = n;
    let mut j: usize = 0;
    while j < 8
        invariant
            j <= 8,
            be64(n) == be_bytes(x as nat, (8 - j) as nat) + r@,
        decreases 8 - j,
    {
        let ghost k = (8 - j) as nat;
        let ghost old_r = r@;
        r.insert(0, (x % 256) as u8);
        proof {
            assert(be_bytes(x as nat, k) == be_bytes((x / 256) as nat, (k - 1) as nat).push(
                (x % 256) as u8,
            ));
            assert(be_bytes((x / 256) as nat, (k - 1) as nat).push((x % 256) as u8) + old_r
                =~= be_bytes((x / 256) as nat, (k - 1) as nat) + r@);
        }
        x = x / 256;
        j = j + 1;
    }
    assert(be_bytes(x as nat, 0) + r@ =~= r@);
    r
}

/// The number held in `b` when it is exactly eight bytes long.
pub fn decode_be64(b: &[u8]) -> (r: Option<u64>)
    ensures
        r == (if b@.len() == 8 {
            Some(be_value(b@) as u64)
        } else {
            None::<u64>
        }),
        r matches Some(v) ==> v as nat == be_value(b@),
{
    if b.len() != 8 {
        return None;
    }
    let mut acc: u64 = 0;
    let mut i: usize = 0;
    while i < 8
        invariant
            i <= 8,
            b@.len() == 8,
            acc as nat == be_value(b@.subrange(0, i as int)),
        decreases 8 - i,
    {
        let ghost s = b@.subrange(0, i as int);
        proof {
            lemma_be_value_bound(s);
            assert(pow256(i as nat) * 256 == pow256((i + 1) as nat));
            assert(pow256((i + 1) as nat) <= pow256(8)) by {
                lemma_pow256_mono((i + 1) as nat, 8);
            }
            lemma_pow256_8();
            let ghost a = acc as nat;
            let ghost q = pow256(i as nat);
            assert(a * 256 + 255 < q * 256) by (nonlinear_arith)
                requires
                    a < q,
            ;
            assert(b@.subrange(0, i + 1).drop_last() =~= s);
        }
        acc = acc * 256 + b[i] as u64;
        i = i + 1;
    }
    assert(b@.subrange(0, 8) =~= b@);
    proof {
        lemma_be_value_bound(b@);
        lemma_pow256_8();
    }
    Some(acc)
}

proof fn lemma_pow256_mono(i: nat, j: nat)
    requires
        i <= j,
    ensures
        pow256(i) <= pow256(j),
    decreases j,
{
    if i < j {
        lemma_pow256_mono(i, (j - 1) as nat);
        lemma_pow256_pos((j - 1) as nat);
    }
}

/// Whether `x` comes before `y` in the store's byte order.
pub fn lex_less(x: &[u8], y: &[u8]) -> (r: bool)
    ensures
        r == lex_lt(x@, y@),
{
    let mut i: usize = 0;
    assert(x@.subrange(0, x@.len() as int) =~= x@);
    assert(y@.subrange(0, y@.len() as int) =~= y@);
    while i < x.len() && i < y.len() && x[i] == y[i]
        invariant
            i <= x@.len(),
            i <= y@.len(),
            lex_lt(x@, y@) == lex_lt(x@.subrange(i as int, x@.len() as int), y@.subrange(i as int, y@.len() as int)),
        decreases x@.len() - i,
    {
        let ghost xs = x@.subrange(i as int, x@.len() as int);
        let ghost ys = y@.subrange(i as int, y@.len() as int);
        assert(xs.drop_first() =~= x@.subrange(i + 1, x@.len() as int));
        assert(ys.drop_first() =~= y@.subrange(i + 1, y@.len() as int));
        i = i + 1;
    }
    if i == x.len() {
        i < y.len()
    } else if i == y.len() {
        false
    } else {
        x[i] < y[i]
    }
}

} // verus!
