use vstd::prelude::*;

verus! {

/// `v` shifted right by `k` places.
pub open spec fn shr(v: nat, k: nat) -> nat
    decreases k,
{
    if k == 0 {
        v
    } else {
        shr(v / 2, (k - 1) as nat)
    }
}

/// Bit `j` of `v`, where bit 0 is the least significant one.
pub open spec fn bit_at(v: nat, j: nat) -> bool {
    shr(v, j) % 2 == 1
}

/// The `n` low bits of `v`, most significant first.
pub open spec fn low_bits(v: nat, n: nat) -> Seq<bool>
    decreases n,
{
    if n == 0 {
        Seq::empty()
    } else {
        low_bits(v / 2, (n - 1) as nat).push(v % 2 == 1)
    }
}

/// The bits of `v` up to its highest set bit, least significant first.
pub open spec fn lsb_bits(v: nat) -> Seq<bool>
    decreases v,
{
    if v == 0 {
        Seq::empty()
    } else {
        seq![v % 2 == 1] + lsb_bits(v / 2)
    }
}

/// The number a sequence of bits stands for, read most significant first.
pub open spec fn bits_value(b: Seq<bool>) -> nat
    decreases b.len(),
{
    if b.len() == 0 {
        0
    } else {
        2 * bits_value(b.drop_last()) + (if b.last() {
            1nat
        } else {
            0nat
        })
    }
}

/// `2` to the power `n`.
pub open spec fn pow2(n: nat) -> nat
    decreases n,
{
    if n == 0 {
        1
    } else {
        2 * pow2((n - 1) as nat)
    }
}

/// One byte from at most eight bits: the bits fill the byte from its most
/// significant end and the remaining low bits are zero.
pub open spec fn pack_byte(b: Seq<bool>) -> u8 {
    (bits_value(b) * pow2((8 - b.len()) as nat)) as u8
}

/// The bytes of a bit sequence, most significant bit first, the last byte
/// padded with zero bits; with `stuffing`, every full byte `0xFF` is
/// followed by a `0x00`.
pub open spec fn pack_bytes(bits: Seq<bool>, stuffing: bool) -> Seq<u8>
    decreases bits.len(),
{
    if bits.len() == 0 {
        Seq::empty()
    } else if bits.len() < 8 {
        seq![pack_byte(bits)]
    } else {
        let b = pack_byte(bits.take(8));
        let stuffed = if stuffing && b == 0xFF {
            seq![b, 0u8]
        } else {
            seq![b]
        };
        stuffed + pack_bytes(bits.skip(8), stuffing)
    }
}

/// Shifting one place further halves.
pub proof fn lemma_shr_step(v: nat, k: nat)
    ensures
        shr(v, k + 1) == shr(v, k) / 2,
    decreases k,
{
    if k > 0 {
        lemma_shr_step(v / 2, (k - 1) as nat);
        assert(shr(v, k + 1) == shr(v / 2, k));
        assert(shr(v, k) == shr(v / 2, (k - 1) as nat));
    } else {
        assert(shr(v, 1) == shr(v / 2, 0));
        assert(shr(v, 0) == v);
    }
}

/// Once shifted down to zero, a value stays zero.
pub proof fn lemma_shr_zero(v: nat, k: nat, j: nat)
    requires
        shr(v, k) == 0,
        k <= j,
    ensures
        shr(v, j) == 0,
    decreases j - k,
{
    if k < j {
        lemma_shr_step(v, k);
        lemma_shr_zero(v, k + 1, j);
    }
}

/// Each of the low bits is the bit of the matching weight.
pub proof fn lemma_low_bits_index(v: nat, n: nat, i: int)
    requires
        0 <= i < n,
    ensures
        low_bits(v, n).len() == n,
        low_bits(v, n)[i] == bit_at(v, (n - 1 - i) as nat),
    decreases n,
{
    lemma_low_bits_len(v, n);
    if i < n - 1 {
        lemma_low_bits_index(v / 2, (n - 1) as nat, i);
    }
}

/// The `n` low bits are `n` bits.
pub proof fn lemma_low_bits_len(v: nat, n: nat)
    ensures
        low_bits(v, n).len() == n,
    decreases n,
{
    if n > 0 {
        lemma_low_bits_len(v / 2, (n - 1) as nat);
    }
}

/// Powers of two are positive.
pub proof fn lemma_pow2_pos(n: nat)
    ensures
        pow2(n) >= 1,
    decreases n,
{
    if n > 0 {
        lemma_pow2_pos((n - 1) as nat);
    }
}

/// The n low bits of v read back give v itself when v is below 2^n.
pub proof fn lemma_low_bits_value(v: nat, n: nat)
    requires
        v < pow2(n),
    ensures
        bits_value(low_bits(v, n)) == v,
    decreases n,
{
    if n > 0 {
        let s = low_bits(v, n);
        assert(s.drop_last() == low_bits(v / 2, (n - 1) as nat));
        lemma_low_bits_value(v / 2, (n - 1) as nat);
    }
}

/// A sequence of bits, most significant first, as a whole stream.
#[derive(Clone, Debug)]
pub struct BitStream {
    pub stream: Vec<bool>,
}

impl View for BitStream {
    type V = Seq<bool>;

    open spec fn view(&self) -> Seq<bool> {
        self.stream@
    }
}

/// The `size` low bits of `v`, most significant first.
pub fn msb_bits(v: u16, size: usize) -> (res: Vec<bool>)
    ensures
        res@ == low_bits(v as nat, size as nat),
{
    let mut lsb: Vec<bool> = Vec::new();
    let mut val: u16 = v;
    let mut count: usize = 0;
    while val != 0 && count < size
        invariant
            count <= size,
            lsb.len() == count,
            val as nat == shr(v as nat, count as nat),
            forall|j: int| 0 <= j < count ==> lsb@[j] == bit_at(v as nat, j as nat),
        decreases size - count,
    {
        assert(val & 1 == val % 2) by (bit_vector);
        assert(val >> 1 == val / 2) by (bit_vector);
        lsb.push((val & 1) != 0);
        proof {
            lemma_shr_step(v as nat, count as nat);
        }
        val = val >> 1;
        count = count + 1;
    }
    let ghost stop = count;
    while count < size
        invariant
            stop <= count <= size,
            lsb.len() == count,
            stop < size ==> shr(v as nat, stop as nat) == 0,
            forall|j: int| 0 <= j < count ==> lsb@[j] == bit_at(v as nat, j as nat),
        decreases size - count,
    {
        proof {
            lemma_shr_zero(v as nat, stop as nat, count as nat);
        }
        lsb.push(false);
        count = count + 1;
    }
    let mut res: Vec<bool> = Vec::new();
    let mut i: usize = 0;
    while i < size
        invariant
            i <= size,
            lsb.len() == size,
            res.len() == i,
            forall|j: int| 0 <= j < i ==> res@[j] == lsb@[size - 1 - j],
            forall|j: int| 0 <= j < size ==> lsb@[j] == bit_at(v as nat, j as nat),
        decreases size - i,
    {
        res.push(lsb[size - 1 - i]);
        i = i + 1;
    }
    proof {
        lemma_low_bits_len(v as nat, size as nat);
        assert forall|j: int| 0 <= j < size implies res@[j] == low_bits(v as nat, size as nat)[j] by {
            lemma_low_bits_index(v as nat, size as nat, j);
        }
        assert(res@ =~= low_bits(v as nat, size as nat));
    }
    res
}

impl BitStream {
    /// A copy of this stream.
    pub fn duplicate(&self) -> (res: Self)
        ensures
            res@ == self@,
    {
        let stream = self.stream.clone();
        proof {
            assert forall|i: int| 0 <= i < stream@.len() implies stream@[i] == self@[i] by {
                assert(cloned::<bool>(self.stream[i], stream[i]));
            }
            assert(stream@ =~= self@);
        }
        BitStream { stream }
    }

    /// The `size` low bits of `val`, most significant first.
    pub fn new(val: u8, size: usize) -> (res: Self)
        ensures
            res@ == low_bits(val as nat, size as nat),
            res@.len() == size,
    {
        proof {
            lemma_low_bits_len(val as nat, size as nat);
        }
        BitStream { stream: msb_bits(val as u16, size) }
    }

    /// Appends the bits of `nb` up to its highest set bit, least significant first.
    pub fn _add(&mut self, nb: u16)
        ensures
            final(self)@ == old(self)@ + lsb_bits(nb as nat),
    {
        let mut nb = nb;
        let ghost start = self@;
        let ghost orig = nb as nat;
        assert(lsb_bits(orig) == Seq::<bool>::empty() + lsb_bits(orig));
        while nb != 0
            invariant
                start + lsb_bits(orig) == self@ + lsb_bits(nb as nat),
            decreases nb,
        {
            assert(nb & 1 == nb % 2) by (bit_vector);
            assert(nb >> 1 == nb / 2) by (bit_vector);
            let ghost before = self@;
            self.stream.push((nb & 1) != 0);
            assert(lsb_bits(nb as nat) == seq![nb % 2 == 1] + lsb_bits((nb / 2) as nat));
            assert(before + lsb_bits(nb as nat) == self@ + lsb_bits((nb / 2) as nat));
            nb = nb >> 1;
        }
        assert(self@ + lsb_bits(0) == self@);
    }

    /// Appends one bit.
    pub fn push_single(&mut self, val: bool)
        ensures
            final(self)@ == old(self)@.push(val),
    {
        self.stream.push(val);
    }

    /// Appends all the bits of `stream`.
    pub fn add_stream(&mut self, stream: &BitStream)
        ensures
            final(self)@ == old(self)@ + stream@,
    {
        let ghost start = self@;
        let mut i: usize = 0;
        while i < stream.stream.len()
            invariant
                i <= stream@.len(),
                self@ == start + stream@.take(i as int),
            decreases stream@.len() - i,
        {
            self.stream.push(stream.stream[i]);
            i = i + 1;
            assert(self@ =~= start + stream@.take(i as int));
        }
        assert(stream@.take(i as int) =~= stream@);
    }

    /// Packs the bits into bytes, most significant bit first, the last byte
    /// padded with zero bits; with `stuffing`, every full byte `0xFF` is
    /// followed by a `0x00`.
    pub fn to_byte(&self, stuffing: bool) -> (res: Vec<u8>)
        ensures
            res@ == pack_bytes(self@, stuffing),
    {
        let bits = &self.stream;
        let mut res: Vec<u8> = Vec::new();
        let mut nb: u8 = 0;
        let mut count: u8 = 0;
        let mut i: usize = 0;
        while i < bits.len()
            invariant
                i <= bits@.len(),
                count < 8,
                count <= i,
                (i - count) % 8 == 0,
                nb as nat == bits_value(bits@.subrange(i - count, i as int)),
                nb < pow2(count as nat),
                res@ == pack_bytes(bits@.take(i - count), stuffing),
            decreases bits@.len() - i,
        {
            let ghost start = (i - count) as int;
            proof {
                let s = bits@.subrange(start, i + 1);
                assert(s.drop_last() == bits@.subrange(start, i as int));
            }
            assert(nb < 128) by {
                lemma_pow2_le7(count as nat);
            }
            nb = nb * 2;
            if bits[i] {
                nb = nb + 1;
            }
            count = count + 1;
            i = i + 1;
            if count == 8 {
                proof {
                    lemma_pack_bytes_split(bits@.take(i as int), start, stuffing);
                    assert(bits@.take(i as int).take(start) == bits@.take(start));
                    assert(bits@.take(i as int).skip(start) == bits@.subrange(start, i as int));
                    lemma_pack_bytes_chunk(bits@.subrange(start, i as int), stuffing);
                    assert(bits@.subrange(start, i as int).take(8) == bits@.subrange(start, i as int));
                    assert(pow2(0) == 1);
                }
                res.push(nb);
                if stuffing && nb == 0xFF {
                    res.push(0x00);
                }
                count = 0;
                nb = 0;
                proof {
                    assert(bits@.subrange(i as int, i as int) == Seq::<bool>::empty());
                }
            } else {
                proof {
                    assert(pow2(count as nat) == 2 * pow2((count - 1) as nat));
                }
            }
        }
        proof {
            lemma_pack_bytes_split(bits@, i - count, stuffing);
            assert(bits@.take(i as int) == bits@);
        }
        if count != 0 {
            proof {
                lemma_pow2_le8(count as nat);
                lemma_pow2_le8((8 - count) as nat);
                lemma_pow2_add(count as nat, (8 - count) as nat);
                lemma_mul_lt(nb as nat, pow2(count as nat), pow2((8 - count) as nat));
                lemma_pow2_values();
                lemma_pow2_pos((8 - count) as nat);
                assert(count as nat + (8 - count) as nat == 8);
                let tail = bits@.skip(i - count);
                assert(tail == bits@.subrange(i - count, i as int));
            }
            let shift: u8 = 8 - count;
            assert(nb * pow2(shift as nat) < 256);
            let padded: u8 = shift_left(nb, shift);
            res.push(padded);
        } else {
            proof {
                assert(bits@.skip(i as int) == Seq::<bool>::empty());
                assert(res@ + Seq::<u8>::empty() == res@);
            }
        }
        res
    }
}

/// `x << s` when no bit is shifted out.
fn shift_left(x: u8, s: u8) -> (res: u8)
    requires
        s < 8,
        x * pow2(s as nat) < 256,
    ensures
        res == x * pow2(s as nat),
{
    proof {
        lemma_pow2_matches(s as nat);
        vstd::bits::lemma_u8_shl_is_mul(x, s);
    }
    x << s
}

/// `pow2` agrees with vstd's power of two.
pub proof fn lemma_pow2_matches(n: nat)
    ensures
        pow2(n) == vstd::arithmetic::power2::pow2(n),
    decreases n,
{
    if n > 0 {
        vstd::arithmetic::power2::lemma_pow2_unfold(n);
        lemma_pow2_matches((n - 1) as nat);
    } else {
        vstd::arithmetic::power2::lemma2_to64();
    }
}

proof fn lemma_pow2_values()
    ensures
        pow2(0) == 1,
        pow2(1) == 2,
        pow2(2) == 4,
        pow2(3) == 8,
        pow2(4) == 16,
        pow2(5) == 32,
        pow2(6) == 64,
        pow2(7) == 128,
        pow2(8) == 256,
{
    assert(pow2(0) == 1);
    assert(pow2(1) == 2);
    assert(pow2(2) == 4);
    assert(pow2(3) == 8);
    assert(pow2(4) == 16);
    assert(pow2(5) == 32);
    assert(pow2(6) == 64);
    assert(pow2(7) == 128);
    assert(pow2(8) == 256);
}

proof fn lemma_pow2_le7(n: nat)
    requires
        n < 8,
    ensures
        pow2(n) <= 128,
{
    assert(pow2(0) == 1);
    assert(pow2(1) == 2);
    assert(pow2(2) == 4);
    assert(pow2(3) == 8);
    assert(pow2(4) == 16);
    assert(pow2(5) == 32);
    assert(pow2(6) == 64);
    assert(pow2(7) == 128);
}

proof fn lemma_pow2_le8(n: nat)
    requires
        n <= 8,
    ensures
        pow2(n) <= 256,
{
    lemma_pow2_values();
    if n < 8 {
        lemma_pow2_le7(n);
    }
}

/// Powers of two grow with the exponent.
pub proof fn lemma_pow2_mono(a: nat, b: nat)
    requires
        a <= b,
    ensures
        pow2(a) <= pow2(b),
{
    lemma_pow2_add(a, (b - a) as nat);
    lemma_pow2_pos((b - a) as nat);
    lemma_pow2_pos(a);
    assert(pow2(a) * pow2((b - a) as nat) >= pow2(a)) by (nonlinear_arith)
        requires
            pow2((b - a) as nat) >= 1,
            pow2(a) >= 1,
    ;
}

/// `2^(a + b) == 2^a * 2^b`.
pub proof fn lemma_pow2_add(a: nat, b: nat)
    ensures
        pow2(a + b) == pow2(a) * pow2(b),
    decreases a,
{
    if a > 0 {
        let a1 = (a - 1) as nat;
        lemma_pow2_add(a1, b);
        assert((a + b - 1) as nat == a1 + b);
        assert(pow2(a + b) == 2 * pow2(a1 + b));
        assert(pow2(a) == 2 * pow2(a1));
        let x = pow2(a1);
        let y = pow2(b);
        assert(2 * (x * y) == (2 * x) * y) by (nonlinear_arith);
    } else {
        assert(a + b == b);
        assert(pow2(a) == 1);
    }
}

proof fn lemma_mul_lt(x: nat, p: nat, q: nat)
    requires
        x < p,
    ensures
        x * q <= (p - 1) * q,
        (p - 1) * q + q == p * q,
{
    assert(x * q <= (p - 1) * q) by (nonlinear_arith)
        requires
            x <= p - 1,
    ;
    assert((p - 1) * q + q == p * q) by (nonlinear_arith);
}

/// A full first byte of eight bits is packed on its own.
proof fn lemma_pack_bytes_chunk(chunk: Seq<bool>, stuffing: bool)
    requires
        chunk.len() == 8,
    ensures
        pack_bytes(chunk, stuffing) == (if stuffing && pack_byte(chunk) == 0xFF {
            seq![pack_byte(chunk), 0u8]
        } else {
            seq![pack_byte(chunk)]
        }),
{
    assert(chunk.take(8) == chunk);
    assert(chunk.skip(8) == Seq::<bool>::empty());
    assert(pack_bytes(chunk.skip(8), stuffing) == Seq::<u8>::empty());
}

/// Packing splits at any whole number of bytes.
pub proof fn lemma_pack_bytes_split(bits: Seq<bool>, j: int, stuffing: bool)
    requires
        0 <= j <= bits.len(),
        j % 8 == 0,
    ensures
        pack_bytes(bits, stuffing) == pack_bytes(bits.take(j), stuffing) + pack_bytes(
            bits.skip(j),
            stuffing,
        ),
    decreases j,
{
    if j == 0 {
        assert(bits.take(0) == Seq::<bool>::empty());
        assert(bits.skip(0) == bits);
    } else {
        let rest = bits.skip(8);
        lemma_pack_bytes_split(rest, j - 8, stuffing);
        assert(bits.take(j).take(8) == bits.take(8));
        assert(bits.take(j).skip(8) == rest.take(j - 8));
        assert(rest.skip(j - 8) == bits.skip(j));
    }
}

} // verus!
