//! Bit sequences read and written most-significant bit first.
use vstd::arithmetic::power2::{lemma_pow2_unfold, pow2};
use vstd::prelude::*;

verus! {

/// Every element of `b` is a binary digit.
pub open spec fn is_bit_seq(b: Seq<u8>) -> bool {
    forall|i: int| 0 <= i < b.len() ==> #[trigger] b[i] <= 1
}

/// The number that `b` denotes when read most-significant bit first.
pub open spec fn bits_value(b: Seq<u8>) -> nat
    decreases b.len(),
{
    if b.len() == 0 {
        0
    } else {
        2 * bits_value(b.drop_last()) + b.last() as nat
    }
}

/// The `n` lowest bits of `v`, most-significant bit first.
pub open spec fn to_bits(v: nat, n: nat) -> Seq<u8>
    decreases n,
{
    if n == 0 {
        seq![]
    } else {
        to_bits(v / 2, (n - 1) as nat).push((v % 2) as u8)
    }
}

/// The values of the successive `w`-bit groups of `b`; a shorter last group is read as it stands.
pub open spec fn group_values(b: Seq<u8>, w: nat) -> Seq<nat>
    decreases b.len(),
{
    if b.len() == 0 || w == 0 {
        seq![]
    } else if b.len() <= w {
        seq![bits_value(b)]
    } else {
        seq![bits_value(b.take(w as int))] + group_values(b.skip(w as int), w)
    }
}

/// The `w`-bit representations of `vals`, one after the other.
pub open spec fn concat_bits(vals: Seq<nat>, w: nat) -> Seq<u8>
    decreases vals.len(),
{
    if vals.len() == 0 {
        seq![]
    } else {
        to_bits(vals[0], w) + concat_bits(vals.drop_first(), w)
    }
}

/// What remains of `b` after its last element that is not a binary digit.
pub open spec fn after_last_invalid(b: Seq<u8>) -> Seq<u8>
    decreases b.len(),
{
    if b.len() == 0 {
        seq![]
    } else if b.last() > 1 {
        seq![]
    } else {
        after_last_invalid(b.drop_last()).push(b.last())
    }
}

pub proof fn lemma_to_bits(v: nat, n: nat)
    ensures
        to_bits(v, n).len() == n,
        is_bit_seq(to_bits(v, n)),
        v < pow2(n) ==> bits_value(to_bits(v, n)) == v,
    decreases n,
{
    if n == 0 {
        vstd::arithmetic::power2::lemma2_to64();
    } else {
        lemma_to_bits(v / 2, (n - 1) as nat);
        lemma_pow2_unfold(n);
        let t = to_bits(v, n);
        assert(t.drop_last() =~= to_bits(v / 2, (n - 1) as nat));
        assert(v % 2 <= 1);
        assert(v == 2 * (v / 2) + v % 2);
        if v < pow2(n) {
            assert(v / 2 < pow2((n - 1) as nat));
        }
        assert(is_bit_seq(t)) by {
            assert forall|i: int| 0 <= i < t.len() implies #[trigger] t[i] <= 1 by {
                if i < n - 1 {
                    assert(t[i] == to_bits(v / 2, (n - 1) as nat)[i]);
                }
            }
        }
    }
}

pub proof fn lemma_bits_value_bound(b: Seq<u8>)
    requires
        is_bit_seq(b),
    ensures
        bits_value(b) < pow2(b.len()),
    decreases b.len(),
{
    if b.len() == 0 {
        vstd::arithmetic::power2::lemma2_to64();
    } else {
        assert(is_bit_seq(b.drop_last()));
        assert(b.last() <= 1);
        lemma_bits_value_bound(b.drop_last());
        lemma_pow2_unfold(b.len());
    }
}

pub proof fn lemma_after_last_invalid(b: Seq<u8>)
    ensures
        is_bit_seq(after_last_invalid(b)),
        after_last_invalid(b).len() <= b.len(),
        is_bit_seq(b) ==> after_last_invalid(b) == b,
    decreases b.len(),
{
    if b.len() > 0 {
        lemma_after_last_invalid(b.drop_last());
        if is_bit_seq(b) {
            assert(is_bit_seq(b.drop_last()));
            assert(b.drop_last().push(b.last()) =~= b);
        }
    }
}

pub proof fn lemma_concat_bits_len(vals: Seq<nat>, w: nat)
    ensures
        concat_bits(vals, w).len() == vals.len() * w,
        is_bit_seq(concat_bits(vals, w)),
    decreases vals.len(),
{
    if vals.len() > 0 {
        lemma_concat_bits_len(vals.drop_first(), w);
        lemma_to_bits(vals[0], w);
        let a = to_bits(vals[0], w);
        let r = concat_bits(vals.drop_first(), w);
        assert forall|i: int| 0 <= i < (a + r).len() implies #[trigger] (a + r)[i] <= 1 by {
            if i >= a.len() {
                assert((a + r)[i] == r[i - a.len()]);
            }
        }
        assert(vals.len() * w == w + (vals.len() - 1) * w) by (nonlinear_arith);
    }
}

/// Reading fixed-width groups back from their concatenated representations gives the values.
pub proof fn lemma_group_values_concat(vals: Seq<nat>, w: nat)
    requires
        w > 0,
        forall|i: int| 0 <= i < vals.len() ==> #[trigger] vals[i] < pow2(w),
    ensures
        group_values(concat_bits(vals, w), w) == vals,
    decreases vals.len(),
{
    let b = concat_bits(vals, w);
    if vals.len() == 0 {
        assert(group_values(b, w) =~= vals);
    } else {
        let a = to_bits(vals[0], w);
        let r = concat_bits(vals.drop_first(), w);
        lemma_to_bits(vals[0], w);
        lemma_concat_bits_len(vals.drop_first(), w);
        lemma_group_values_concat(vals.drop_first(), w);
        if r.len() == 0 {
            assert(b =~= a);
            assert(vals.drop_first().len() * w == 0);
            assert(vals.drop_first().len() == 0) by (nonlinear_arith)
                requires
                    vals.drop_first().len() * w == 0,
                    w > 0,
            ;
            assert(group_values(b, w) =~= vals);
        } else {
            assert(b.take(w as int) =~= a);
            assert(b.skip(w as int) =~= r);
            assert(group_values(b, w) =~= vals);
        }
    }
}

/// Groups of a sequence whose first part is a whole number of groups.
pub proof fn lemma_group_values_append(x: Seq<u8>, y: Seq<u8>, w: nat)
    requires
        w > 0,
        x.len() as int % (w as int) == 0,
    ensures
        group_values(x + y, w) == group_values(x, w) + group_values(y, w),
    decreases x.len(),
{
    if x.len() == 0 {
        assert(x + y =~= y);
        assert(group_values(x, w) + group_values(y, w) =~= group_values(y, w));
    } else {
        assert(x.len() >= w) by {
            vstd::arithmetic::div_mod::lemma_mod_self_0(w as int);
            if x.len() < w {
                vstd::arithmetic::div_mod::lemma_small_mod(x.len() as nat, w);
            }
        }
        let xs = x.skip(w as int);
        assert(xs.len() as int % (w as int) == 0) by {
            vstd::arithmetic::div_mod::lemma_mod_sub_multiples_vanish(x.len() as int, w as int);
        }
        lemma_group_values_append(xs, y, w);
        assert((x + y).take(w as int) =~= x.take(w as int));
        assert((x + y).skip(w as int) =~= xs + y);
        if x.len() == w {
            assert(xs.len() == 0);
            assert(group_values(xs, w) =~= seq![]);
            assert(x.take(w as int) =~= x);
            if y.len() == 0 {
                assert(x + y =~= x);
                assert(group_values(x, w) + group_values(y, w) =~= group_values(x, w));
            } else {
                assert(group_values(x + y, w) =~= group_values(x, w) + group_values(y, w));
            }
        } else {
            assert(group_values(x + y, w) =~= group_values(x, w) + group_values(y, w));
        }
    }
}

/// Appends the `n` lowest bits of `v` to `out`, most-significant bit first.
pub fn push_bits(out: &mut Vec<u8>, v: u32, n: usize)
    requires
        n <= 32,
    ensures
        final(out)@ == old(out)@ + to_bits(v as nat, n as nat),
    decreases n,
{
    if n > 0 {
        push_bits(out, v / 2, n - 1);
        out.push((v % 2) as u8);
        assert(final(out)@ =~= old(out)@ + to_bits(v as nat, n as nat));
    }
}

/// The value of `b[start..end]` read most-significant bit first.
pub fn read_value(b: &Vec<u8>, start: usize, end: usize) -> (r: u32)
    requires
        start <= end <= b@.len(),
        end - start <= 32,
        is_bit_seq(b@),
    ensures
        r == bits_value(b@.subrange(start as int, end as int)),
{
    let mut v: u32 = 0;
    let mut k: usize = start;
    while k < end
        invariant
            start <= k <= end <= b@.len(),
            end - start <= 32,
            is_bit_seq(b@),
            v == bits_value(b@.subrange(start as int, k as int)),
        decreases end - k,
    {
        let ghost next = b@.subrange(start as int, k + 1);
        proof {
            assert(next.drop_last() =~= b@.subrange(start as int, k as int));
            assert(is_bit_seq(next));
            lemma_bits_value_bound(next);
            vstd::arithmetic::power2::lemma_pow2_strictly_increases(next.len(), 33);
            assert(pow2(32) == 0x1_0000_0000) by {
                vstd::arithmetic::power2::lemma2_to64();
            }
            if next.len() < 32 {
                vstd::arithmetic::power2::lemma_pow2_strictly_increases(next.len(), 32);
            }
        }
        v = v * 2 + b[k] as u32;
        k = k + 1;
    }
    v
}

/// The values of the successive `w`-bit groups of `b[start..end]`.
pub fn read_groups(b: &Vec<u8>, start: usize, end: usize, w: usize) -> (r: Vec<u32>)
    requires
        start <= end <= b@.len(),
        0 < w <= 32,
        is_bit_seq(b@),
    ensures
        r@.map_values(|x: u32| x as nat) == group_values(b@.subrange(start as int, end as int), w as nat),
{
    let mut out: Vec<u32> = Vec::new();
    let mut k: usize = start;
    proof {
        vstd::arithmetic::div_mod::lemma_small_mod(0, w as nat);
        assert(group_values(b@.subrange(start as int, start as int), w as nat) =~= seq![]);
    }
    while k < end
        invariant
            start <= k <= end <= b@.len(),
            0 < w <= 32,
            is_bit_seq(b@),
            k == end || (k - start) % (w as int) == 0,
            out@.map_values(|x: u32| x as nat) == group_values(b@.subrange(start as int, k as int), w as nat),
        decreases end - k,
    {
        let stop: usize = if end - k <= w { end } else { k + w };
        let v = read_value(b, k, stop);
        proof {
            let g = b@.subrange(k as int, stop as int);
            let x = b@.subrange(start as int, k as int);
            assert(group_values(g, w as nat) =~= seq![v as nat]) by {
                assert(g.len() <= w);
                if g.len() > 0 {
                } else {
                    assert(false);
                }
            }
            lemma_group_values_append(x, g, w as nat);
            assert(x + g =~= b@.subrange(start as int, stop as int));
            if stop < end {
                assert((stop - start) % (w as int) == 0) by {
                    vstd::arithmetic::div_mod::lemma_mod_add_multiples_vanish((k - start) as int, w as int);
                }
            }
        }
        let ghost prev = out@;
        out.push(v);
        proof {
            assert(out@.map_values(|x: u32| x as nat) =~= prev.map_values(|x: u32| x as nat) + seq![v as nat]);
        }
        k = stop;
    }
    out
}

/// Packs up to eight bits into a byte, the first bit in the highest position.
///
/// With `no_panic` set, an element that is not a binary digit clears what was gathered
/// before it, and the bits after it are kept in their places.
pub fn bits_to_u8(bits: Vec<u8>, no_panic: bool) -> (r: u8)
    requires
        bits@.len() <= 8,
        !no_panic ==> is_bit_seq(bits@),
    ensures
        r == bits_value(after_last_invalid(bits@)) * pow2((8 - bits@.len()) as nat),
        is_bit_seq(bits@) ==> r == bits_value(bits@) * pow2((8 - bits@.len()) as nat),
{
    let n: usize = bits.len();
    let mut v: u8 = 0;
    let mut i: usize = 0;
    proof {
        vstd::arithmetic::power2::lemma2_to64();
    }
    while i < n
        invariant
            n == bits@.len() <= 8,
            i <= n,
            v == bits_value(after_last_invalid(bits@.take(i as int))),
            after_last_invalid(bits@.take(i as int)).len() <= i,
            pow2(8) == 256,
        decreases n - i,
    {
        let b = bits[i];
        let ghost pre = bits@.take(i as int);
        let ghost cur = bits@.take(i + 1);
        proof {
            assert(cur.drop_last() =~= pre);
        }
        if b > 1 {
            v = 0;
        } else {
            proof {
                lemma_after_last_invalid(pre);
                lemma_bits_value_bound(after_last_invalid(pre));
                let m = after_last_invalid(pre).len();
                vstd::arithmetic::power2::lemma_pow2_strictly_increases(m, 8);
                if m < 7 {
                    vstd::arithmetic::power2::lemma_pow2_strictly_increases(m, 7);
                }
                assert(pow2(7) == 128) by {
                    vstd::arithmetic::power2::lemma2_to64();
                }
                assert(after_last_invalid(cur).drop_last() == after_last_invalid(pre));
            }
            v = v * 2 + b;
        }
        i = i + 1;
    }
    proof {
        assert(bits@.take(n as int) =~= bits@);
        lemma_after_last_invalid(bits@);
        lemma_bits_value_bound(after_last_invalid(bits@));
        vstd::arithmetic::power2::lemma2_to64();
        if after_last_invalid(bits@).len() < n {
            vstd::arithmetic::power2::lemma_pow2_strictly_increases(after_last_invalid(bits@).len(), n as nat);
        }
    }
    let mut k: usize = n;
    let ghost base = v as nat;
    proof {
        assert(pow2(0) == 1);
        assert(base * pow2(0) == base);
    }
    while k < 8
        invariant
            n <= k <= 8,
            n == bits@.len(),
            base == bits_value(after_last_invalid(bits@)),
            base < pow2(after_last_invalid(bits@).len()),
            after_last_invalid(bits@).len() <= n,
            v == base * pow2((k - n) as nat),
            v < pow2(k as nat),
            pow2(8) == 256,
        decreases 8 - k,
    {
        proof {
            lemma_pow2_unfold((k + 1 - n) as nat);
            lemma_pow2_unfold((k + 1) as nat);
            vstd::arithmetic::power2::lemma_pow2_strictly_increases(k as nat, 8);
            if k + 1 < 8 {
                vstd::arithmetic::power2::lemma_pow2_strictly_increases((k + 1) as nat, 8);
            }
            assert(base * pow2((k + 1 - n) as nat) == 2 * (base * pow2((k - n) as nat))) by (nonlinear_arith)
                requires
                    pow2((k + 1 - n) as nat) == 2 * pow2((k - n) as nat),
            ;
        }
        v = v * 2;
        k = k + 1;
    }
    proof {
        lemma_after_last_invalid(bits@);
    }
    v
}

/// Reads exactly thirty-two bits as an unsigned number, the first bit being the highest.
///
/// With `no_panic` set, a sequence of another length, or one with an element that is not
/// a binary digit, gives 0.
pub fn bits_to_u32(bits: Vec<u8>, no_panic: bool) -> (r: u32)
    requires
        !no_panic ==> bits@.len() == 32 && is_bit_seq(bits@),
    ensures
        r == (if bits@.len() == 32 && is_bit_seq(bits@) {
            bits_value(bits@)
        } else {
            0
        }),
{
    if bits.len() != 32 {
        return 0;
    }
    let mut i: usize = 0;
    while i < 32
        invariant
            bits@.len() == 32,
            i <= 32,
            forall|j: int| 0 <= j < i ==> #[trigger] bits@[j] <= 1,
        decreases 32 - i,
    {
        if bits[i] > 1 {
            return 0;
        }
        i = i + 1;
    }
    proof {
        assert(bits@.subrange(0, 32) =~= bits@);
    }
    read_value(&bits, 0, 32)
}

} // verus!
