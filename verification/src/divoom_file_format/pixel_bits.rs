use vstd::prelude::*;

verus! {

/// 2 to the power `n`.
pub open spec fn two_to(n: nat) -> nat
    decreases n,
{
    if n == 0 {
        1
    } else {
        2 * two_to((n - 1) as nat)
    }
}

/// The number whose bits, from the least significant on, are `bit(k)`,
/// `bit(k + 1)`, ..., `bit(k + n - 1)`.
pub open spec fn bits_value(bit: spec_fn(int) -> u8, k: int, n: nat) -> nat
    decreases n,
{
    if n == 0 {
        0
    } else {
        bit(k) as nat + 2 * bits_value(bit, k + 1, (n - 1) as nat)
    }
}

/// Bit `k` of a byte stream read least significant bit first: bit `k % 8` of
/// byte `k / 8`.
pub open spec fn stream_bit(bytes: Seq<u8>, k: int) -> u8 {
    (bytes[k / 8] >> ((k % 8) as u8)) & 1
}

/// The `n`-bit number that starts at bit `k` of the stream.
pub open spec fn read_bits(bytes: Seq<u8>, k: int, n: nat) -> nat {
    bits_value(|j: int| stream_bit(bytes, j), k, n)
}

/// Bit `k` of the stream in which every value takes `width` bits, least
/// significant bit first.
pub open spec fn value_bit(values: Seq<u8>, width: nat, k: int) -> u8 {
    (values[k / (width as int)] >> ((k % (width as int)) as u8)) & 1
}

/// The values packed `width` bits each, least significant bit first, into
/// whole bytes.
pub open spec fn pack_bits(values: Seq<u8>, width: nat) -> Seq<u8> {
    Seq::new(
        values.len() * width / 8,
        |m: int| bits_value(|k: int| value_bit(values, width, k), 8 * m, 8) as u8,
    )
}

proof fn lemma_bit_is_bit(x: u8, s: u8)
    ensures
        (x >> s) & 1 <= 1,
{
    assert((x >> s) & 1 <= 1) by (bit_vector);
}

pub proof fn lemma_two_to_monotone(a: nat, b: nat)
    requires
        a <= b,
    ensures
        two_to(a) <= two_to(b),
    decreases b,
{
    if a < b {
        lemma_two_to_monotone(a, (b - 1) as nat);
    }
}

pub proof fn lemma_two_to_8()
    ensures
        two_to(8) == 256,
{
    reveal_with_fuel(two_to, 9);
}

/// A number of `n` bits stays below `2^n`.
pub proof fn lemma_bits_value_bound(bit: spec_fn(int) -> u8, k: int, n: nat)
    requires
        forall|j: int| k <= j < k + n ==> #[trigger] bit(j) <= 1,
    ensures
        bits_value(bit, k, n) < two_to(n),
    decreases n,
{
    if n > 0 {
        lemma_bits_value_bound(bit, k + 1, (n - 1) as nat);
    }
}

/// The number depends on the bits in its range only.
pub proof fn lemma_bits_value_ext(f: spec_fn(int) -> u8, g: spec_fn(int) -> u8, k: int, n: nat)
    requires
        forall|j: int| k <= j < k + n ==> #[trigger] f(j) == g(j),
    ensures
        bits_value(f, k, n) == bits_value(g, k, n),
    decreases n,
{
    if n > 0 {
        lemma_bits_value_ext(f, g, k + 1, (n - 1) as nat);
    }
}

/// Bit `t` of a number built from bits is the bit it was built from.
pub proof fn lemma_bits_value_bit(bit: spec_fn(int) -> u8, k: int, n: nat, t: nat)
    requires
        n <= 8,
        t < n,
        forall|j: int| k <= j < k + n ==> #[trigger] bit(j) <= 1,
    ensures
        ((bits_value(bit, k, n) as u8) >> (t as u8)) & 1 == bit(k + t),
    decreases t,
{
    let b = bit(k);
    let rest = bits_value(bit, k + 1, (n - 1) as nat);
    lemma_bits_value_bound(bit, k + 1, (n - 1) as nat);
    lemma_two_to_monotone((n - 1) as nat, 7);
    reveal_with_fuel(two_to, 8);
    assert(rest < 128);
    let r = rest as u8;
    let x = (b + 2 * rest) as u8;
    assert(bits_value(bit, k, n) == b + 2 * rest);
    assert(x == b + 2 * r);
    assert(bits_value(bit, k, n) as u8 == x);
    if t == 0 {
        assert(x >> 0u8 == x) by (bit_vector);
        assert(x & 1 == b) by (bit_vector)
            requires
                x == b + 2 * r,
                b <= 1,
                r < 128,
        ;
    } else {
        lemma_bits_value_bit(bit, k + 1, (n - 1) as nat, (t - 1) as nat);
        let tt = t as u8;
        assert((tt - 1) as u8 == (t - 1) as u8);
        assert(k + 1 + (t - 1) == k + t);
        assert((x >> tt) & 1 == (r >> ((tt - 1) as u8)) & 1) by (bit_vector)
            requires
                x == b + 2 * r,
                b <= 1,
                r < 128,
                1 <= tt < 8,
        ;
    }
}

/// The bits of a number below `2^n` give it back.
pub proof fn lemma_bits_of_value(v: u8, k0: int, n: nat)
    requires
        n <= 8,
        v < two_to(n),
    ensures
        bits_value(|j: int| (v >> ((j - k0) as u8)) & 1, k0, n) == v,
    decreases n,
{
    let f = |j: int| (v >> ((j - k0) as u8)) & 1;
    if n == 0 {
    } else {
        let h: u8 = v >> 1;
        let g = |j: int| (h >> ((j - (k0 + 1)) as u8)) & 1;
        assert forall|j: int| k0 + 1 <= j < k0 + 1 + (n - 1) implies #[trigger] f(j) == g(j) by {
            let s = (j - (k0 + 1)) as u8;
            assert(s < 7);
            let s1 = (s + 1) as u8;
            assert((v >> s1) & 1 == ((v >> 1) >> s) & 1) by (bit_vector)
                requires
                    s < 7,
                    s1 == s + 1,
            ;
            assert((j - k0) as u8 == s1);
        }
        lemma_bits_value_ext(f, g, k0 + 1, (n - 1) as nat);
        reveal_with_fuel(two_to, 2);
        assert(h < two_to((n - 1) as nat)) by {
            assert(two_to(n) == 2 * two_to((n - 1) as nat));
            assert(v >> 1 == v / 2) by (bit_vector);
        }
        lemma_bits_of_value(h, k0 + 1, (n - 1) as nat);
        assert(v >> 0u8 == v) by (bit_vector);
        assert(f(k0) == v & 1);
        assert(v == (v & 1) + 2 * (v >> 1)) by (bit_vector);
    }
}

/// Unpacking the `i`-th value of packed values gives the value back.
pub proof fn lemma_pack_then_read(values: Seq<u8>, width: nat, i: int)
    requires
        1 <= width <= 8,
        (values.len() * width) % 8 == 0,
        0 <= i < values.len(),
        forall|j: int| 0 <= j < values.len() ==> values[j] < two_to(width),
    ensures
        read_bits(pack_bits(values, width), i * width, width) == values[i],
{
    let packed = pack_bits(values, width);
    let vb = |k: int| value_bit(values, width, k);
    let sb = |j: int| stream_bit(packed, j);
    let total = values.len() * width;
    assert(i * width + width <= total) by (nonlinear_arith)
        requires
            0 <= i < values.len(),
            total == values.len() * width,
    ;
    assert forall|k: int| 0 <= k < total implies #[trigger] sb(k) == vb(k) by {
        let m = k / 8;
        let t = k % 8;
        assert(0 <= m < packed.len()) by {
            assert(total / 8 * 8 == total);
        }
        assert forall|j: int| 8 * m <= j < 8 * m + 8 implies #[trigger] vb(j) <= 1 by {
            lemma_bit_is_bit(values[j / (width as int)], (j % (width as int)) as u8);
            assert(0 <= j / (width as int) < values.len()) by {
                assert(j < total);
                assert(j / (width as int) < values.len()) by (nonlinear_arith)
                    requires
                        0 <= j < values.len() * width,
                        width >= 1,
                ;
            }
        }
        lemma_bits_value_bit(vb, 8 * m, 8, t as nat);
        assert(k == 8 * m + t);
    }
    let v = values[i];
    let own = |j: int| (v >> ((j - i * width) as u8)) & 1;
    assert forall|j: int| i * width <= j < i * width + width implies #[trigger] sb(j) == own(j) by {
        let q = j - i * width;
        assert(j / (width as int) == i && j % (width as int) == q) by {
            vstd::arithmetic::div_mod::lemma_fundamental_div_mod_converse(j, width as int, i, q);
        }
        assert(sb(j) == vb(j));
    }
    lemma_bits_value_ext(sb, own, i * width, width);
    lemma_bits_of_value(v, i * width, width);
}

/// Reads the `n`-bit number that starts at bit `k` of the stream held by
/// `input[base..base + avail]`.
pub(crate) fn read_bits_at(input: &[u8], base: usize, avail: usize, k: usize, n: u32) -> (v: u32)
    requires
        n <= 8,
        base + avail <= input@.len(),
        k + n <= 8 * avail,
        k + n <= usize::MAX,
    ensures
        v == read_bits(input@.subrange(base as int, base + avail), k as int, n as nat),
        v < two_to(n as nat),
{
    let ghost data = input@.subrange(base as int, base + avail);
    let ghost f = |j: int| stream_bit(data, j);
    let len = input.len();
    let mut v: u32 = 0;
    let mut j: u32 = n;
    proof {
        assert forall|i: int| k <= i < k + n implies #[trigger] f(i) <= 1 by {
            lemma_bit_is_bit(data[i / 8], (i % 8) as u8);
        }
    }
    while j > 0
        invariant
            j <= n <= 8,
            len == input@.len(),
            base + avail <= input@.len(),
            k + n <= 8 * avail,
            k + n <= usize::MAX,
            data == input@.subrange(base as int, base + avail),
            f == (|j: int| stream_bit(data, j)),
            forall|i: int| k <= i < k + n ==> #[trigger] f(i) <= 1,
            v == bits_value(f, k + j, (n - j) as nat),
        decreases j,
    {
        j = j - 1;
        let pos: usize = k + j as usize;
        assert(pos / 8 < avail);
        let byte = input[base + pos / 8];
        let bit: u8 = (byte >> ((pos % 8) as u8)) & 1;
        proof {
            assert(data[(pos / 8) as int] == byte);
            assert(f(pos as int) == bit);
            lemma_bits_value_bound(f, k + j + 1, (n - j - 1) as nat);
            lemma_two_to_monotone((n - j - 1) as nat, 8);
            lemma_two_to_8();
        }
        v = bit as u32 + 2 * v;
    }
    proof {
        lemma_bits_value_bound(f, k as int, n as nat);
    }
    v
}

/// Packs `values`, `width` bits each, least significant bit first.
pub(crate) fn pack_values(values: &[u8], width: u32) -> (packed: Vec<u8>)
    requires
        1 <= width <= 8,
        values@.len() * 8 <= usize::MAX,
    ensures
        packed@ == pack_bits(values@, width as nat),
{
    let ghost vb = |k: int| value_bit(values@, width as nat, k);
    assert(values@.len() * width <= values@.len() * 8) by (nonlinear_arith)
        requires
            width <= 8,
    ;
    let total: usize = values.len() * width as usize;
    let count: usize = total / 8;
    let mut packed: Vec<u8> = Vec::new();
    let mut m: usize = 0;
    while m < count
        invariant
            1 <= width <= 8,
            total == values@.len() * width,
            count == total / 8,
            m <= count,
            vb == (|k: int| value_bit(values@, width as nat, k)),
            packed@.len() == m,
            forall|i: int| 0 <= i < m ==> packed@[i] == pack_bits(values@, width as nat)[i],
        decreases count - m,
    {
        let mut byte: u32 = 0;
        let mut t: usize = 8;
        assert(8 * m + 8 <= total) by (nonlinear_arith)
            requires
                m < count,
                count == total / 8,
        ;
        proof {
            assert forall|k: int| 8 * m <= k < 8 * m + 8 implies #[trigger] vb(k) <= 1 by {
                assert(k / (width as int) < values@.len()) by (nonlinear_arith)
                    requires
                        0 <= k < values@.len() * width,
                        width >= 1,
                ;
                lemma_bit_is_bit(values@[k / (width as int)], (k % (width as int)) as u8);
            }
        }
        while t > 0
            invariant
                1 <= width <= 8,
                t <= 8,
                8 * m + 8 <= total,
                total == values@.len() * width,
                vb == (|k: int| value_bit(values@, width as nat, k)),
                forall|k: int| 8 * m <= k < 8 * m + 8 ==> #[trigger] vb(k) <= 1,
                byte == bits_value(vb, 8 * m + t, (8 - t) as nat),
            decreases t,
        {
            t = t - 1;
            let k: usize = 8 * m + t;
            assert((k as int) / (width as int) < values@.len()) by (nonlinear_arith)
                requires
                    k < values@.len() * width,
                    width >= 1,
            ;
            let bit: u8 = (values[k / width as usize] >> ((k % width as usize) as u8)) & 1;
            proof {
                assert(vb(k as int) == bit);
                lemma_bits_value_bound(vb, 8 * m + t + 1, (7 - t) as nat);
                lemma_two_to_monotone((7 - t) as nat, 8);
                lemma_two_to_8();
            }
            byte = bit as u32 + 2 * byte;
        }
        proof {
            lemma_bits_value_bound(vb, 8 * m, 8);
            lemma_two_to_8();
        }
        packed.push(byte as u8);
        m = m + 1;
    }
    assert(packed@ =~= pack_bits(values@, width as nat));
    packed
}

} // verus!

verus! {

/// Reading every `width`-bit value of a byte stream and packing the values
/// again gives the stream back.
pub proof fn lemma_read_then_pack(data: Seq<u8>, width: nat)
    requires
        1 <= width <= 8,
        (data.len() * 8) % width == 0,
    ensures
        pack_bits(
            Seq::new((data.len() * 8 / width) as nat, |i: int| read_bits(data, i * width, width) as u8),
            width,
        ) == data,
{
    let count = (data.len() * 8 / width) as nat;
    let values = Seq::new(count, |i: int| read_bits(data, i * width, width) as u8);
    let sb = |j: int| stream_bit(data, j);
    let vb = |k: int| value_bit(values, width, k);
    let total: int = (data.len() * 8) as int;
    assert(count * width == total) by (nonlinear_arith)
        requires
            total % (width as int) == 0,
            count == total / (width as int),
            width >= 1,
    ;
    assert forall|j: int| 0 <= j < total implies #[trigger] sb(j) <= 1 by {
        lemma_bit_is_bit(data[j / 8], (j % 8) as u8);
    }
    assert forall|k: int| 0 <= k < total implies #[trigger] vb(k) == sb(k) by {
        let i = k / (width as int);
        let t = k % (width as int);
        assert(0 <= i < count && k == i * width + t) by (nonlinear_arith)
            requires
                0 <= k < total,
                count * width == total,
                width >= 1,
                i == k / (width as int),
                t == k % (width as int),
        ;
        assert(i * width + width <= total) by (nonlinear_arith)
            requires
                0 <= i < count,
                count * width == total,
        ;
        assert forall|j: int| i * width <= j < i * width + width implies #[trigger] sb(j) <= 1 by {
            lemma_bit_is_bit(data[j / 8], (j % 8) as u8);
        }
        lemma_bits_value_bound(sb, i * width, width);
        lemma_two_to_monotone(width, 8);
        lemma_two_to_8();
        assert(values[i] as nat == read_bits(data, i * width, width));
        lemma_bits_value_bit(sb, i * width, width, t as nat);
    }
    let packed = pack_bits(values, width);
    assert(packed.len() == data.len());
    assert forall|m: int| 0 <= m < data.len() implies #[trigger] packed[m] == data[m] by {
        let own = |j: int| (data[m] >> ((j - 8 * m) as u8)) & 1;
        assert forall|j: int| 8 * m <= j < 8 * m + 8 implies #[trigger] vb(j) == own(j) by {
            assert(j / 8 == m && j % 8 == j - 8 * m);
        }
        lemma_bits_value_ext(vb, own, 8 * m, 8);
        lemma_two_to_8();
        lemma_bits_of_value(data[m], 8 * m, 8);
    }
    assert(packed =~= data);
}

} // verus!
