//! Small verified utilities: perfect-measurement generation, strict median
//! lookup, and the fast position hasher.

use vstd::prelude::*;

verus! {

/// A square grid of X-type or Z-type error indicators, one per data qubit.
#[derive(Clone, Debug)]
pub struct ZxError {
    pub data: Vec<Vec<bool>>,
}

impl ZxError {
    /// Every row has the same length as the number of rows.
    pub open spec fn wf(self) -> bool {
        forall|k: int| 0 <= k < self.data@.len() ==> (#[trigger] self.data@[k])@.len()
            == self.data@.len()
    }

    pub open spec fn size(self) -> int {
        self.data@.len() as int
    }

    pub open spec fn at(self, i: int, j: int) -> bool {
        self.data@[i]@[j]
    }

    /// The side length of the grid.
    pub fn L(&self) -> (r: usize)
        ensures
            r == self.size(),
    {
        self.data.len()
    }
}

/// A square grid of measurement outcomes, one per potential stabilizer
/// location; its side is one longer than the error grid's.
#[derive(Clone, Debug)]
pub struct ZxMeasurement {
    pub data: Vec<Vec<bool>>,
}

impl ZxMeasurement {
    pub open spec fn wf(self) -> bool {
        forall|k: int| 0 <= k < self.data@.len() ==> (#[trigger] self.data@[k])@.len()
            == self.data@.len()
    }

    pub open spec fn size(self) -> int {
        self.data@.len() as int
    }

    pub open spec fn at(self, i: int, j: int) -> bool {
        self.data@[i]@[j]
    }
}

/// The outcome of the Z stabilizer at `(i, j)`: the parity of the X errors
/// on the up to four adjacent data qubits that exist.
pub open spec fn z_stabilizer_outcome(x_error: ZxError, i: int, j: int) -> bool {
    let l = x_error.size();
    (if i > 0 {
        x_error.at(i - 1, j - 1) ^ x_error.at(i - 1, j)
    } else {
        false
    }) ^ (if i < l {
        x_error.at(i, j - 1) ^ x_error.at(i, j)
    } else {
        false
    })
}

/// The outcome of the X stabilizer at `(i, j)`: the parity of the Z errors
/// on the up to four adjacent data qubits that exist.
pub open spec fn x_stabilizer_outcome(z_error: ZxError, i: int, j: int) -> bool {
    let l = z_error.size();
    (if j > 0 {
        z_error.at(i - 1, j - 1) ^ z_error.at(i, j - 1)
    } else {
        false
    }) ^ (if j < l {
        z_error.at(i - 1, j) ^ z_error.at(i, j)
    } else {
        false
    })
}

/// The noiseless measurement outcome at `(i, j)`: Z stabilizers sit where
/// `i + j` is even away from the vertical boundary, X stabilizers where
/// `i + j` is odd away from the horizontal boundary, and everything else
/// reads false.
pub open spec fn perfect_measurement_outcome(x_error: ZxError, z_error: ZxError, i: int, j: int) -> bool {
    let l = x_error.size();
    if j != 0 && j != l && (i + j) % 2 == 0 {
        z_stabilizer_outcome(x_error, i, j)
    } else if i != 0 && i != l && (i + j) % 2 == 1 {
        x_stabilizer_outcome(z_error, i, j)
    } else {
        false
    }
}

/// The measurement outcomes of a perfect (noiseless) measurement round: X
/// errors are detected only by Z stabilizers and Z errors only by X
/// stabilizers.
pub fn generate_perfect_measurements(x_error: &ZxError, z_error: &ZxError) -> (r: ZxMeasurement)
    requires
        x_error.wf(),
        z_error.wf(),
        x_error.size() == z_error.size(),
        2 * x_error.size() + 2 <= usize::MAX,
    ensures
        r.wf(),
        r.size() == x_error.size() + 1,
        forall|i: int, j: int|
            0 <= i < r.size() && 0 <= j < r.size() ==> #[trigger] r.at(i, j)
                == perfect_measurement_outcome(*x_error, *z_error, i, j),
{
    let l: usize = x_error.L();
    let mut data: Vec<Vec<bool>> = Vec::new();
    let mut i: usize = 0;
    while i < l + 1
        invariant
            i <= l + 1,
            l == x_error.size() == z_error.size(),
            2 * l + 2 <= usize::MAX,
            x_error.wf(),
            z_error.wf(),
            data@.len() == i,
            forall|a: int| 0 <= a < i ==> (#[trigger] data@[a])@.len() == l + 1,
            forall|a: int, b: int|
                0 <= a < i && 0 <= b < l + 1 ==> #[trigger] (data@[a])@[b]
                    == perfect_measurement_outcome(*x_error, *z_error, a, b),
        decreases l + 1 - i,
    {
        let mut row: Vec<bool> = Vec::new();
        let mut j: usize = 0;
        while j < l + 1
            invariant
                i < l + 1,
                j <= l + 1,
                l == x_error.size() == z_error.size(),
                2 * l + 2 <= usize::MAX,
                x_error.wf(),
                z_error.wf(),
                row@.len() == j,
                forall|b: int|
                    0 <= b < j ==> #[trigger] row@[b] == perfect_measurement_outcome(
                        *x_error,
                        *z_error,
                        i as int,
                        b,
                    ),
            decreases l + 1 - j,
        {
            let mut value: bool = false;
            if j != 0 && j != l && (i + j) % 2 == 0 {
                let mut outcome: bool = false;
                if i > 0 {
                    outcome = outcome ^ x_error.data[i - 1][j - 1] ^ x_error.data[i - 1][j];
                }
                if i < l {
                    outcome = outcome ^ x_error.data[i][j - 1] ^ x_error.data[i][j];
                }
                value = outcome;
            }
            if i != 0 && i != l && (i + j) % 2 == 1 {
                let mut outcome: bool = false;
                if j > 0 {
                    outcome = outcome ^ z_error.data[i - 1][j - 1] ^ z_error.data[i][j - 1];
                }
                if j < l {
                    outcome = outcome ^ z_error.data[i - 1][j] ^ z_error.data[i][j];
                }
                value = outcome;
            }
            row.push(value);
            j = j + 1;
        }
        data.push(row);
        i = i + 1;
    }
    ZxMeasurement { data }
}

/// Whether a sequence is sorted in nondecreasing order.
pub open spec fn sorted(s: Seq<usize>) -> bool {
    forall|a: int, b: int| 0 <= a < b < s.len() ==> s[a] <= s[b]
}

/// Swapping two entries of a sequence keeps its multiset of values.
proof fn lemma_swap_preserves_multiset(s: Seq<usize>, i: int, j: int)
    requires
        0 <= i <= j < s.len(),
    ensures
        s.update(i, s[j]).update(j, s[i]).to_multiset() == s.to_multiset(),
{
    broadcast use vstd::seq_lib::to_multiset_update;
    broadcast use vstd::seq_lib::group_to_multiset_ensures;

    if i == j {
        assert(s.update(i, s[j]).update(j, s[i]) =~= s);
    } else {
        let s1 = s.update(i, s[j]);
        assert(s1[j] == s[j]);
        assert(s.contains(s[i]) && s.contains(s[j]));
        assert(s1.contains(s[j]));
        assert(s1.update(j, s[i]).to_multiset() =~= s.to_multiset());
    }
}

/// Sorts a vector of numbers in place (selection sort).
fn sort_in_place(v: &mut Vec<usize>)
    ensures
        sorted(final(v)@),
        final(v)@.to_multiset() == old(v)@.to_multiset(),
        final(v)@.len() == old(v)@.len(),
{
    let n: usize = v.len();
    let mut i: usize = 0;
    while i < n
        invariant
            i <= n,
            n == v@.len(),
            v@.to_multiset() == old(v)@.to_multiset(),
            forall|a: int, b: int| 0 <= a < b < i ==> v@[a] <= v@[b],
            forall|a: int, b: int| 0 <= a < i <= b < n ==> v@[a] <= v@[b],
        decreases n - i,
    {
        let mut m: usize = i;
        let mut k: usize = i + 1;
        while k < n
            invariant
                i <= m < k <= n,
                n == v@.len(),
                forall|a: int| i <= a < k ==> v@[m as int] <= v@[a],
            decreases n - k,
        {
            if v[k] < v[m] {
                m = k;
            }
            k = k + 1;
        }
        let vi: usize = v[i];
        let vm: usize = v[m];
        proof {
            lemma_swap_preserves_multiset(v@, i as int, m as int);
        }
        v.set(i, vm);
        v.set(m, vi);
        i = i + 1;
    }
}

/// The strict single median of a sorted sequence: the middle value for an
/// odd length; for an even length, the lower middle value only when the two
/// middle values agree, and `None` otherwise.
pub open spec fn strict_one_median_of(s: Seq<usize>) -> Option<usize> {
    if s.len() % 2 == 0 {
        if s[s.len() as int / 2 - 1] != s[s.len() as int / 2] {
            Option::<usize>::None
        } else {
            Some(s[s.len() as int / 2 - 1])
        }
    } else {
        Some(s[s.len() as int / 2])
    }
}

/// Sorts the numbers in place, then returns their strict single median.
pub fn find_strict_one_median(numbers: &mut Vec<usize>) -> (r: Option<usize>)
    requires
        old(numbers)@.len() > 0,
    ensures
        sorted(final(numbers)@),
        final(numbers)@.to_multiset() == old(numbers)@.to_multiset(),
        final(numbers)@.len() == old(numbers)@.len(),
        r == strict_one_median_of(final(numbers)@),
{
    sort_in_place(numbers);
    if numbers.len() % 2 == 0 {
        let first: usize = numbers[numbers.len() / 2 - 1];
        let second: usize = numbers[numbers.len() / 2];
        if first != second {
            None
        } else {
            Some(first)
        }
    } else {
        Some(numbers[numbers.len() / 2])
    }
}

/// A value interpreted as a base-256 little-endian number.
pub open spec fn u64_from_le_bytes(s: Seq<u8>) -> int
    decreases s.len(),
{
    if s.len() == 0 {
        0
    } else {
        s[0] + 256 * u64_from_le_bytes(s.drop_first())
    }
}

/// `256^n`.
pub open spec fn pow256(n: nat) -> int
    decreases n,
{
    if n == 0 {
        1int
    } else {
        256 * pow256((n - 1) as nat)
    }
}

proof fn lemma_pow256_increases(a: nat, b: nat)
    requires
        a <= b,
    ensures
        pow256(a) <= pow256(b),
        1 <= pow256(a),
    decreases b,
{
    if b == 0 {
    } else if a == b {
        lemma_pow256_increases((a - 1) as nat, (b - 1) as nat);
    } else {
        lemma_pow256_increases(a, (b - 1) as nat);
    }
}

proof fn lemma_pow256_concrete()
    ensures
        pow256(7) == 0x100000000000000,
{
    assert(pow256(0) == 1);
    assert(pow256(1) == 256);
    assert(pow256(2) == 0x10000);
    assert(pow256(3) == 0x1000000);
    assert(pow256(4) == 0x100000000);
    assert(pow256(5) == 0x10000000000);
    assert(pow256(6) == 0x1000000000000);
}

/// Reads up to eight bytes as a little-endian 64-bit number.
pub fn load_u64_le(buf: &[u8], len: usize) -> (r: u64)
    requires
        len <= buf@.len(),
        len <= 8,
    ensures
        r as int == u64_from_le_bytes(buf@.subrange(0, len as int)),
{
    let mut data: u64 = 0;
    let mut idx: usize = len;
    while idx > 0
        invariant
            idx <= len <= buf@.len(),
            len <= 8,
            data as int == u64_from_le_bytes(buf@.subrange(idx as int, len as int)),
            (data as int) < pow256((len - idx) as nat),
        decreases idx,
    {
        idx = idx - 1;
        proof {
            lemma_pow256_increases((len - idx - 1) as nat, 7);
            lemma_pow256_concrete();
            assert(buf@.subrange(idx as int, len as int).drop_first() =~= buf@.subrange(
                idx as int + 1,
                len as int,
            ));
        }
        let b: u8 = buf[idx];
        data = (b as u64) + 256 * data;
    }
    proof {
        assert(buf@.subrange(0, len as int) =~= buf@.subrange(idx as int, len as int));
    }
    data
}

/// A fast single-shot hasher for small position-like keys: the first (at
/// most eight) bytes written become the hash value directly.
#[derive(Clone, Copy, Debug)]
pub struct SimpleHasher(pub u64);

impl Default for SimpleHasher {
    /// A fresh hasher with no bytes absorbed yet.
    fn default() -> (r: SimpleHasher)
        ensures
            r.0 == 0,
    {
        SimpleHasher(0)
    }
}

impl SimpleHasher {
    /// The absorbed value.
    pub fn finish(&self) -> (r: u64)
        ensures
            r == self.0,
    {
        self.0
    }

    /// Absorbs one key, read as a little-endian number. A hasher can absorb
    /// only one key over its lifetime, which suffices for position-like
    /// index types and keeps the hash as fast as a copy.
    pub fn write(&mut self, bytes: &[u8])
        requires
            old(self).0 == 0,
            bytes@.len() <= 8,
        ensures
            final(self).0 as int == u64_from_le_bytes(bytes@),
    {
        let value: u64 = load_u64_le(bytes, bytes.len());
        proof {
            assert(bytes@.subrange(0, bytes@.len() as int) =~= bytes@);
        }
        *self = SimpleHasher(value);
    }
}


/// `2^n`.
pub open spec fn pow2(n: nat) -> int
    decreases n,
{
    if n == 0 {
        1int
    } else {
        2 * pow2((n - 1) as nat)
    }
}

/// The `m`-th binary digit of a value.
pub open spec fn nth_bit_of(v: int, m: nat) -> bool {
    (v / pow2(m)) % 2 == 1
}

/// A bit sequence read as a little-endian binary number.
pub open spec fn bits_value(bits: Seq<bool>) -> int
    decreases bits.len(),
{
    if bits.len() == 0 {
        0
    } else {
        (if bits[0] {
            1int
        } else {
            0int
        }) + 2 * bits_value(bits.drop_first())
    }
}

/// The bit stored for one plane at flat row-major index `l`; reads past
/// the plane's end are the zero padding.
pub open spec fn plane_bit(data: Seq<Seq<Seq<bool>>>, l_side: int, i: int, l: int) -> bool {
    l < l_side * l_side && ((data[i])[l / l_side])[l % l_side]
}

/// The deep view of a batch of boolean planes.
pub open spec fn batch_view(data: Vec<Vec<Vec<bool>>>) -> Seq<Seq<Seq<bool>>> {
    data@.map_values(|plane: Vec<Vec<bool>>| plane@.map_values(|row: Vec<bool>| row@))
}

/// Whether a batch holds planes of `l_side` by `l_side` booleans.
pub open spec fn batch_wf(data: Vec<Vec<Vec<bool>>>, l_side: int) -> bool {
    forall|i: int|
        0 <= i < data@.len() ==> (#[trigger] data@[i])@.len() == l_side && forall|j: int|
            0 <= j < l_side ==> (#[trigger] data@[i]@[j])@.len() == l_side
}

/// The number of bytes a packed plane occupies.
pub open spec fn plane_cycle(l_side: int) -> int {
    (l_side * l_side + 7) / 8
}

proof fn lemma_pow2_pos(n: nat)
    ensures
        1 <= pow2(n),
    decreases n,
{
    if n > 0 {
        lemma_pow2_pos((n - 1) as nat);
    }
}

proof fn lemma_pow2_8()
    ensures
        pow2(0) == 1 && pow2(1) == 2 && pow2(2) == 4 && pow2(3) == 8 && pow2(4) == 16 && pow2(5)
            == 32 && pow2(6) == 64 && pow2(7) == 128 && pow2(8) == 256,
{
    assert(pow2(0) == 1);
    assert(pow2(1) == 2);
    assert(pow2(2) == 4);
    assert(pow2(3) == 8);
    assert(pow2(4) == 16);
    assert(pow2(5) == 32);
    assert(pow2(6) == 64);
    assert(pow2(7) == 128);
    assert(pow2(8) == 256);
}

/// Each binary digit of a bit sequence's value is the corresponding bit.
proof fn lemma_bits_value_bits(bits: Seq<bool>)
    ensures
        0 <= bits_value(bits) < pow2(bits.len()),
        forall|m: nat| m < bits.len() ==> #[trigger] nth_bit_of(bits_value(bits), m) == bits[
            m as int],
    decreases bits.len(),
{
    if bits.len() == 0 {
    } else {
        lemma_bits_value_bits(bits.drop_first());
        lemma_pow2_pos((bits.len() - 1) as nat);
        let b0: int = if bits[0] {
            1
        } else {
            0
        };
        let rest = bits_value(bits.drop_first());
        assert(bits_value(bits) == b0 + 2 * rest);
        assert(0 <= bits_value(bits) < pow2(bits.len())) by (nonlinear_arith)
            requires
                bits_value(bits) == b0 + 2 * rest,
                0 <= b0 <= 1,
                0 <= rest < pow2((bits.len() - 1) as nat),
                pow2(bits.len()) == 2 * pow2((bits.len() - 1) as nat),
        ;
        assert forall|m: nat| m < bits.len() implies #[trigger] nth_bit_of(
            bits_value(bits),
            m,
        ) == bits[m as int] by {
            if m == 0 {
                assert((b0 + 2 * rest) / 1 % 2 == b0 % 2) by (nonlinear_arith)
                    requires
                        0 <= b0 <= 1,
                        0 <= rest,
                ;
            } else {
                lemma_pow2_pos((m - 1) as nat);
                assert(nth_bit_of(rest, (m - 1) as nat) == bits.drop_first()[m - 1]);
                assert((b0 + 2 * rest) / pow2(m) == rest / pow2((m - 1) as nat))
                    by (nonlinear_arith)
                    requires
                        0 <= b0 <= 1,
                        0 <= rest,
                        pow2(m) == 2 * pow2((m - 1) as nat),
                        1 <= pow2((m - 1) as nat),
                ;
            }
        }
    }
}

/// Packs a batch of boolean planes into the row-major bit-packed byte
/// form: plane by plane, eight bits per byte, least significant bit
/// first, zero padding at the tail of each plane.
pub fn pack_measurement_batch(data: &Vec<Vec<Vec<bool>>>, l_side: usize) -> (r: Vec<u8>)
    requires
        1 <= l_side,
        batch_wf(*data, l_side as int),
        l_side * l_side + 7 <= usize::MAX,
        data@.len() * plane_cycle(l_side as int) <= usize::MAX,
    ensures
        r@.len() == data@.len() * plane_cycle(l_side as int),
        forall|x: int, m: nat|
            0 <= x < r@.len() && m < 8 ==> #[trigger] nth_bit_of(r@[x] as int, m) == plane_bit(
                batch_view(*data),
                l_side as int,
                x / plane_cycle(l_side as int),
                (x % plane_cycle(l_side as int)) * 8 + m,
            ),
{
    let cycle: usize = (l_side * l_side + 7) / 8;
    proof {
        assert(1 <= plane_cycle(l_side as int)) by (nonlinear_arith)
            requires
                1 <= l_side,
                plane_cycle(l_side as int) == (l_side * l_side + 7) / 8,
        ;
    }
    let n: usize = data.len();
    let mut r: Vec<u8> = Vec::new();
    let mut i: usize = 0;
    while i < n
        invariant
            i <= n,
            1 <= l_side,
            n == data@.len(),
            cycle == plane_cycle(l_side as int),
            1 <= cycle,
            l_side * l_side + 7 <= usize::MAX,
            n * plane_cycle(l_side as int) <= usize::MAX,
            batch_wf(*data, l_side as int),
            r@.len() == i * plane_cycle(l_side as int),
            forall|x: int, m: nat|
                0 <= x < r@.len() && m < 8 ==> #[trigger] nth_bit_of(r@[x] as int, m)
                    == plane_bit(
                    batch_view(*data),
                    l_side as int,
                    x / plane_cycle(l_side as int),
                    (x % plane_cycle(l_side as int)) * 8 + m,
                ),
        decreases n - i,
    {
        proof {
            assert((i + 1) * plane_cycle(l_side as int) <= n * plane_cycle(l_side as int)
                && i * plane_cycle(l_side as int) + plane_cycle(l_side as int) == (i + 1)
                * plane_cycle(l_side as int)) by (nonlinear_arith)
                requires
                    i < n,
                    0 <= plane_cycle(l_side as int),
            ;
        }
        let mut bidx: usize = 0;
        while bidx < cycle
            invariant
                i < n,
                bidx <= cycle,
                1 <= l_side,
                n == data@.len(),
                cycle == plane_cycle(l_side as int),
                1 <= cycle,
                l_side * l_side + 7 <= usize::MAX,
                n * plane_cycle(l_side as int) <= usize::MAX,
                i * plane_cycle(l_side as int) + plane_cycle(l_side as int) <= n * plane_cycle(
                    l_side as int,
                ),
                batch_wf(*data, l_side as int),
                r@.len() == i * plane_cycle(l_side as int) + bidx,
                forall|x: int, m: nat|
                    0 <= x < r@.len() && m < 8 ==> #[trigger] nth_bit_of(r@[x] as int, m)
                        == plane_bit(
                        batch_view(*data),
                        l_side as int,
                        x / plane_cycle(l_side as int),
                        (x % plane_cycle(l_side as int)) * 8 + m,
                    ),
            decreases cycle - bidx,
        {
            let mut byte: u8 = 0;
            let mut m: usize = 8;
            while m > 0
                invariant
                    i < n,
                    bidx < cycle,
                    m <= 8,
                    1 <= l_side,
                    n == data@.len(),
                    cycle == plane_cycle(l_side as int),
                    l_side * l_side + 7 <= usize::MAX,
                    batch_wf(*data, l_side as int),
                    byte as int == bits_value(
                        Seq::new(
                            (8 - m) as nat,
                            |mm: int|
                                plane_bit(
                                    batch_view(*data),
                                    l_side as int,
                                    i as int,
                                    bidx as int * 8 + m + mm,
                                ),
                        ),
                    ),
                    (byte as int) < pow2((8 - m) as nat),
                decreases m,
            {
                m = m - 1;
                proof {
                    assert(bidx * 8 + m < l_side * l_side + 7) by (nonlinear_arith)
                        requires
                            0 <= bidx < plane_cycle(l_side as int),
                            0 <= m < 8,
                            plane_cycle(l_side as int) == (l_side * l_side + 7) / 8,
                            0 <= l_side * l_side,
                    ;
                }
                let l: usize = bidx * 8 + m;
                let bit: bool = if l < l_side * l_side {
                    proof {
                        assert(l / l_side < l_side && l % l_side < l_side) by (nonlinear_arith)
                            requires
                                1 <= l_side,
                                0 <= l < l_side * l_side,
                        ;
                    }
                    data[i][l / l_side][l % l_side]
                } else {
                    false
                };
                proof {
                    lemma_pow2_8();
                    let old_bits = Seq::new(
                        (7 - m) as nat,
                        |mm: int|
                            plane_bit(
                                batch_view(*data),
                                l_side as int,
                                i as int,
                                bidx as int * 8 + m + 1 + mm,
                            ),
                    );
                    let new_bits = Seq::new(
                        (8 - m) as nat,
                        |mm: int|
                            plane_bit(
                                batch_view(*data),
                                l_side as int,
                                i as int,
                                bidx as int * 8 + m + mm,
                            ),
                    );
                    assert(new_bits.drop_first() =~= old_bits);
                    if l < l_side * l_side {
                        assert(batch_view(*data)[i as int][l as int / l_side as int][l as int
                            % l_side as int] == data@[i as int]@[l as int / l_side as int]@[
                            l as int % l_side as int]);
                    }
                    assert(bit == plane_bit(
                        batch_view(*data),
                        l_side as int,
                        i as int,
                        bidx as int * 8 + m,
                    ));
                    assert(new_bits[0] == plane_bit(
                        batch_view(*data),
                        l_side as int,
                        i as int,
                        bidx as int * 8 + m,
                    ));
                }
                byte = (if bit {
                    1u8
                } else {
                    0u8
                }) + 2 * byte;
            }
            let ghost oldlen = r@.len() as int;
            r.push(byte);
            proof {
                let full = Seq::new(
                    8,
                    |mm: int|
                        plane_bit(
                            batch_view(*data),
                            l_side as int,
                            i as int,
                            bidx as int * 8 + mm,
                        ),
                );
                assert(byte as int == bits_value(full)) by {
                    assert(Seq::new(
                        8,
                        |mm: int|
                            plane_bit(
                                batch_view(*data),
                                l_side as int,
                                i as int,
                                bidx as int * 8 + 0 + mm,
                            ),
                    ) =~= full);
                }
                lemma_bits_value_bits(full);
                vstd::arithmetic::div_mod::lemma_fundamental_div_mod_converse(
                    oldlen,
                    plane_cycle(l_side as int),
                    i as int,
                    bidx as int,
                );
                assert forall|x: int, m2: nat|
                    0 <= x < r@.len() && m2 < 8 implies #[trigger] nth_bit_of(r@[x] as int, m2)
                    == plane_bit(
                    batch_view(*data),
                    l_side as int,
                    x / plane_cycle(l_side as int),
                    (x % plane_cycle(l_side as int)) * 8 + m2,
                ) by {
                    if x == oldlen {
                        assert(r@[x] == byte);
                        assert(x / plane_cycle(l_side as int) == i as int && x % plane_cycle(
                            l_side as int,
                        ) == bidx as int);
                        assert(nth_bit_of(bits_value(full), m2) == full[m2 as int]);
                        assert(plane_bit(
                            batch_view(*data),
                            l_side as int,
                            i as int,
                            bidx as int * 8 + m2,
                        ) == full[m2 as int]);
                    }
                }
            }
            bidx = bidx + 1;
        }
        i = i + 1;
    }
    r
}


/// Unpacks the row-major bit-packed byte form back into boolean planes.
pub fn unpack_measurement_batch(bytes: &Vec<u8>, n: usize, l_side: usize) -> (r: Vec<
    Vec<Vec<bool>>,
>)
    requires
        1 <= l_side,
        l_side * l_side + 7 <= usize::MAX,
        bytes@.len() == n * plane_cycle(l_side as int),
    ensures
        r@.len() == n,
        batch_wf(r, l_side as int),
        forall|i: int, j: int, k: int|
            0 <= i < n && 0 <= j < l_side && 0 <= k < l_side ==> #[trigger] ((
            batch_view(r))[i][j])[k] == nth_bit_of(
                bytes@[i * plane_cycle(l_side as int) + (j * l_side + k) / 8] as int,
                ((j * l_side + k) % 8) as nat,
            ),
{
    let cycle: usize = (l_side * l_side + 7) / 8;
    let total: usize = bytes.len();
    proof {
        assert(n * plane_cycle(l_side as int) == total as int);
    }
    let mut r: Vec<Vec<Vec<bool>>> = Vec::new();
    let mut i: usize = 0;
    while i < n
        invariant
            i <= n,
            1 <= l_side,
            cycle == plane_cycle(l_side as int),
            l_side * l_side + 7 <= usize::MAX,
            n * plane_cycle(l_side as int) <= usize::MAX,
            bytes@.len() == n * plane_cycle(l_side as int),
            r@.len() == i,
            forall|i2: int|
                0 <= i2 < i ==> (#[trigger] r@[i2])@.len() == l_side && forall|j: int|
                    0 <= j < l_side ==> (#[trigger] r@[i2]@[j])@.len() == l_side,
            forall|i2: int, j: int, k: int|
                0 <= i2 < i && 0 <= j < l_side && 0 <= k < l_side ==> #[trigger] ((
                r@[i2])@[j])@[k] == nth_bit_of(
                    bytes@[i2 * plane_cycle(l_side as int) + (j * l_side + k) / 8] as int,
                    ((j * l_side + k) % 8) as nat,
                ),
        decreases n - i,
    {
        proof {
            assert((i + 1) * plane_cycle(l_side as int) <= n * plane_cycle(l_side as int) && i
                * plane_cycle(l_side as int) + plane_cycle(l_side as int) == (i + 1)
                * plane_cycle(l_side as int)) by (nonlinear_arith)
                requires
                    i < n,
                    0 <= plane_cycle(l_side as int),
            ;
        }
        let mut plane: Vec<Vec<bool>> = Vec::new();
        let mut j: usize = 0;
        while j < l_side
            invariant
                i < n,
                j <= l_side,
                1 <= l_side,
                cycle == plane_cycle(l_side as int),
                l_side * l_side + 7 <= usize::MAX,
                n * plane_cycle(l_side as int) <= usize::MAX,
                bytes@.len() == n * plane_cycle(l_side as int),
                (i + 1) * plane_cycle(l_side as int) <= n * plane_cycle(l_side as int),
                plane@.len() == j,
                forall|j2: int| 0 <= j2 < j ==> (#[trigger] plane@[j2])@.len() == l_side,
                forall|j2: int, k: int|
                    0 <= j2 < j && 0 <= k < l_side ==> #[trigger] (plane@[j2])@[k] == nth_bit_of(
                        bytes@[i * plane_cycle(l_side as int) + (j2 * l_side + k) / 8] as int,
                        ((j2 * l_side + k) % 8) as nat,
                    ),
            decreases l_side - j,
        {
            let mut row: Vec<bool> = Vec::new();
            let mut k: usize = 0;
            while k < l_side
                invariant
                    i < n,
                    j < l_side,
                    k <= l_side,
                    1 <= l_side,
                    cycle == plane_cycle(l_side as int),
                    l_side * l_side + 7 <= usize::MAX,
                    n * plane_cycle(l_side as int) <= usize::MAX,
                    bytes@.len() == n * plane_cycle(l_side as int),
                    (i + 1) * plane_cycle(l_side as int) <= n * plane_cycle(l_side as int),
                    row@.len() == k,
                    forall|k2: int|
                        0 <= k2 < k ==> #[trigger] row@[k2] == nth_bit_of(
                            bytes@[i * plane_cycle(l_side as int) + (j * l_side + k2) / 8] as int,
                            ((j * l_side + k2) % 8) as nat,
                        ),
                decreases l_side - k,
            {
                proof {
                    assert(j * l_side + k < l_side * l_side) by (nonlinear_arith)
                        requires
                            0 <= j < l_side,
                            0 <= k < l_side,
                    ;
                }
                let l: usize = j * l_side + k;
                proof {
                    assert(l as int / 8 < plane_cycle(l_side as int)) by (nonlinear_arith)
                        requires
                            0 <= l < l_side * l_side,
                            plane_cycle(l_side as int) == (l_side * l_side + 7) / 8,
                    ;
                    assert(i * plane_cycle(l_side as int) + l as int / 8 < n * plane_cycle(
                        l_side as int,
                    )) by (nonlinear_arith)
                        requires
                            (i + 1) * plane_cycle(l_side as int) <= n * plane_cycle(l_side as int),
                            0 <= l as int / 8 < plane_cycle(l_side as int),
                            0 <= i,
                    ;
                }
                let byte: u8 = bytes[i * cycle + l / 8];
                let shift: usize = l % 8;
                let divisor: u8 = if shift == 0 {
                    1
                } else if shift == 1 {
                    2
                } else if shift == 2 {
                    4
                } else if shift == 3 {
                    8
                } else if shift == 4 {
                    16
                } else if shift == 5 {
                    32
                } else if shift == 6 {
                    64
                } else {
                    128
                };
                let bit: bool = (byte / divisor) % 2 == 1;
                proof {
                    lemma_pow2_8();
                    assert(divisor as int == pow2((l as int % 8) as nat));
                }
                row.push(bit);
                k = k + 1;
            }
            plane.push(row);
            j = j + 1;
        }
        r.push(plane);
        proof {
            assert forall|i2: int, j2: int, k2: int|
                0 <= i2 < i + 1 && 0 <= j2 < l_side && 0 <= k2 < l_side implies #[trigger] ((
            r@[i2])@[j2])@[k2] == nth_bit_of(
                bytes@[i2 * plane_cycle(l_side as int) + (j2 * l_side + k2) / 8] as int,
                ((j2 * l_side + k2) % 8) as nat,
            ) by {
                if i2 == i {
                    assert(r@[i2] == plane);
                }
            }
        }
        i = i + 1;
    }
    proof {
        assert forall|i2: int, j2: int, k2: int|
            0 <= i2 < n && 0 <= j2 < l_side && 0 <= k2 < l_side implies #[trigger] ((batch_view(
            r,
        ))[i2][j2])[k2] == nth_bit_of(
            bytes@[i2 * plane_cycle(l_side as int) + (j2 * l_side + k2) / 8] as int,
            ((j2 * l_side + k2) % 8) as nat,
        ) by {
            assert((batch_view(r))[i2][j2][k2] == ((r@[i2])@[j2])@[k2]);
        }
    }
    r
}

} // verus!
