//! Fixed-width identifiers and the XOR distance between them.
use vstd::prelude::*;

verus! {

/// Length of an identifier, in bytes.
pub const ID_LEN: usize = 20;

/// Length of an identifier, in bits; also the number of buckets.
pub const ID_BITS: usize = 160;

/// Whether bit `p` (counted from the most significant bit of byte 0) is set.
pub open spec fn bit_set(d: Seq<u8>, p: int) -> bool {
    (d[p / 8] >> ((7 - p % 8) as u8)) & 1u8 == 1u8
}

/// The first set bit at or after `p`, or the last bit index when none is set
/// before it.
pub open spec fn first_set_from(d: Seq<u8>, p: int) -> int
    decreases ID_BITS - 1 - p,
{
    if p >= ID_BITS - 1 {
        ID_BITS - 1
    } else if bit_set(d, p) {
        p
    } else {
        first_set_from(d, p + 1)
    }
}

/// Number of leading zero bits, capped at the last bucket index.
pub open spec fn prefix_len(d: Seq<u8>) -> int {
    first_set_from(d, 0)
}

/// Bytewise exclusive or of two byte sequences of equal length.
pub open spec fn xor_seq(a: Seq<u8>, b: Seq<u8>) -> Seq<u8> {
    Seq::new(a.len(), |i: int| a[i] ^ b[i])
}

/// 256 to the power `n`.
pub open spec fn pow256(n: nat) -> nat
    decreases n,
{
    if n == 0 {
        1
    } else {
        256 * pow256((n - 1) as nat)
    }
}

/// The big-endian unsigned integer that a byte sequence denotes.
pub open spec fn be_value(s: Seq<u8>) -> nat
    decreases s.len(),
{
    if s.len() == 0 {
        0
    } else {
        s[0] as nat * pow256((s.len() - 1) as nat) + be_value(s.subrange(1, s.len() as int))
    }
}

/// A node or item identifier.
#[derive(Clone, Copy, Eq, Debug, Hash)]
pub struct Key(pub [u8; 20]);

impl View for Key {
    type V = Seq<u8>;

    open spec fn view(&self) -> Seq<u8> {
        self.0@
    }
}

/// The XOR of two identifiers, read as a big-endian unsigned integer.
#[derive(Clone, Copy, Eq, Debug, Hash)]
pub struct Distance(pub [u8; 20]);

impl View for Distance {
    type V = Seq<u8>;

    open spec fn view(&self) -> Seq<u8> {
        self.0@
    }
}

/// Whether two byte arrays hold the same bytes.
fn same_bytes(a: &[u8; 20], b: &[u8; 20]) -> (r: bool)
    ensures
        r == (a@ == b@),
{
    let mut i: usize = 0;
    while i < ID_LEN
        invariant
            0 <= i <= ID_LEN,
            a@.len() == ID_LEN,
            b@.len() == ID_LEN,
            forall|j: int| 0 <= j < i ==> a@[j] == b@[j],
        decreases ID_LEN - i,
    {
        if a[i] != b[i] {
            return false;
        }
        i = i + 1;
    }
    assert(a@ =~= b@);
    true
}

impl PartialEq for Key {
    fn eq(&self, other: &Key) -> (r: bool) {
        same_bytes(&self.0, &other.0)
    }
}

impl vstd::std_specs::cmp::PartialEqSpecImpl for Key {
    open spec fn obeys_eq_spec() -> bool {
        true
    }

    open spec fn eq_spec(&self, other: &Key) -> bool {
        self@ == other@
    }
}

impl PartialEq for Distance {
    fn eq(&self, other: &Distance) -> (r: bool) {
        same_bytes(&self.0, &other.0)
    }
}

impl vstd::std_specs::cmp::PartialEqSpecImpl for Distance {
    open spec fn obeys_eq_spec() -> bool {
        true
    }

    open spec fn eq_spec(&self, other: &Distance) -> bool {
        self@ == other@
    }
}

/// Relies on rand's `OsRng::try_fill_bytes` (rand_core's `getrandom` call):
/// it fills the buffer from the operating system's entropy source or reports
/// the source's failure, and does not panic. Nothing is known of the bytes.
#[verifier::external_body]
fn os_random_bytes() -> (r: Option<[u8; 20]>) {
    let mut b = [0u8; 20];
    match rand::RngCore::try_fill_bytes(&mut rand::rngs::OsRng, &mut b) {
        Ok(()) => Some(b),
        Err(_) => None,
    }
}

/// Longest text key, in bytes: one byte of the identifier holds the length.
pub const MAX_TEXT_KEY_LEN: usize = 19;

/// The identifier of a text key of at most `MAX_TEXT_KEY_LEN` bytes: its
/// length, then its bytes, then zeros.
pub open spec fn text_key(b: Seq<u8>) -> Seq<u8> {
    Seq::new(
        ID_LEN as nat,
        |i: int|
            if i == 0 {
                b.len() as u8
            } else if i - 1 < b.len() {
                b[i - 1]
            } else {
                0u8
            },
    )
}

/// Distinct text keys have distinct identifiers.
pub proof fn lemma_text_key_injective(a: Seq<u8>, b: Seq<u8>)
    requires
        a.len() <= MAX_TEXT_KEY_LEN,
        b.len() <= MAX_TEXT_KEY_LEN,
        text_key(a) == text_key(b),
    ensures
        a == b,
{
    assert(text_key(a)[0] == a.len() as u8);
    assert(text_key(b)[0] == b.len() as u8);
    assert(a.len() == b.len());
    assert forall|i: int| 0 <= i < a.len() implies a[i] == b[i] by {
        assert(text_key(a)[i + 1] == a[i]);
        assert(text_key(b)[i + 1] == b[i]);
    }
    assert(a =~= b);
}

impl Key {
    /// A uniformly drawn identifier, or `None` when the operating system's
    /// entropy source fails.
    pub fn random() -> (r: Option<Key>) {
        match os_random_bytes() {
            Some(b) => Some(Key(b)),
            None => None,
        }
    }

    /// The identifier that a text key of at most `MAX_TEXT_KEY_LEN` bytes is
    /// stored under; `None` for a longer key.
    pub fn from_text(text: &[u8]) -> (r: Option<Key>)
        ensures
            text@.len() <= MAX_TEXT_KEY_LEN ==> r is Some && r.unwrap()@ == text_key(text@),
            text@.len() > MAX_TEXT_KEY_LEN ==> r is None,
    {
        if text.len() > MAX_TEXT_KEY_LEN {
            return None;
        }
        let mut res = [0u8; 20];
        res[0] = text.len() as u8;
        let mut i: usize = 0;
        while i < text.len()
            invariant
                0 <= i <= text@.len(),
                text@.len() <= MAX_TEXT_KEY_LEN,
                res@.len() == ID_LEN,
                res@[0] == text@.len() as u8,
                forall|j: int| 1 <= j <= i ==> res@[j] == text@[j - 1],
                forall|j: int| i < j < ID_LEN ==> res@[j] == 0u8,
            decreases text@.len() - i,
        {
            res[i + 1] = text[i];
            i = i + 1;
        }
        assert(res@ =~= text_key(text@));
        Some(Key(res))
    }

    /// The identifier made of the given bytes, most significant first.
    pub fn from_bytes(bytes: [u8; 20]) -> (r: Key)
        ensures
            r@ == bytes@,
    {
        Key(bytes)
    }
}

impl Distance {
    /// Bytewise exclusive or of two identifiers.
    pub fn dist(x: Key, y: Key) -> (r: Distance)
        ensures
            r@ == xor_seq(x@, y@),
    {
        let mut res = [0u8; 20];
        let mut i: usize = 0;
        while i < ID_LEN
            invariant
                0 <= i <= ID_LEN,
                res@.len() == ID_LEN,
                x@.len() == ID_LEN,
                y@.len() == ID_LEN,
                forall|j: int| 0 <= j < i ==> res@[j] == x@[j] ^ y@[j],
            decreases ID_LEN - i,
        {
            res[i] = x.0[i] ^ y.0[i];
            i = i + 1;
        }
        assert(res@ =~= xor_seq(x@, y@));
        Distance(res)
    }

    /// Number of leading zero bits, used as a bucket index. A zero distance
    /// gives the last index, so the result is always a valid index.
    pub fn zeroes_in_prefix(&self) -> (r: usize)
        ensures
            r == prefix_len(self@),
            r < ID_BITS,
    {
        let mut p: usize = 0;
        while p < ID_BITS - 1
            invariant
                0 <= p <= ID_BITS - 1,
                self@.len() == ID_LEN,
                prefix_len(self@) == first_set_from(self@, p as int),
            decreases ID_BITS - 1 - p,
        {
            let b: u8 = self.0[p / 8];
            let sh: u8 = (7 - p % 8) as u8;
            if (b >> sh) & 1u8 == 1u8 {
                return p;
            }
            p = p + 1;
        }
        p
    }
}

impl Distance {
    /// Whether this distance is strictly smaller than `other`, both read as
    /// big-endian unsigned integers.
    pub fn closer_than(&self, other: &Distance) -> (r: bool)
        ensures
            r == (be_value(self@) < be_value(other@)),
    {
        let mut i: usize = 0;
        while i < ID_LEN
            invariant
                0 <= i <= ID_LEN,
                self@.len() == ID_LEN,
                other@.len() == ID_LEN,
                self@.subrange(0, i as int) == other@.subrange(0, i as int),
            decreases ID_LEN - i,
        {
            if self.0[i] != other.0[i] {
                proof {
                    if self@[i as int] < other@[i as int] {
                        lemma_first_difference(self@, other@, i as int);
                    } else {
                        lemma_first_difference(other@, self@, i as int);
                    }
                }
                return self.0[i] < other.0[i];
            }
            assert(self@.subrange(0, i + 1) =~= self@.subrange(0, i as int).push(self@[i as int]));
            assert(other@.subrange(0, i + 1) =~= other@.subrange(0, i as int).push(other@[i as int]));
            i = i + 1;
        }
        assert(self@ =~= self@.subrange(0, ID_LEN as int));
        assert(other@ =~= other@.subrange(0, ID_LEN as int));
        false
    }
}

/// A byte sequence of length `n` denotes a value below `256^n`.
pub proof fn lemma_be_value_bound(s: Seq<u8>)
    ensures
        be_value(s) < pow256(s.len()),
    decreases s.len(),
{
    if s.len() > 0 {
        let rest = s.subrange(1, s.len() as int);
        lemma_be_value_bound(rest);
        let p = pow256((s.len() - 1) as nat);
        let h = s[0] as nat;
        let v = be_value(rest);
        assert(h <= 255);
        assert(h * p + v < 256 * p) by (nonlinear_arith)
            requires
                h <= 255,
                v < p,
        ;
    }
}

/// Of two sequences of equal length that first differ at `i`, the one with
/// the smaller byte there denotes the smaller value.
pub proof fn lemma_first_difference(a: Seq<u8>, b: Seq<u8>, i: int)
    requires
        a.len() == b.len(),
        0 <= i < a.len(),
        a.subrange(0, i) == b.subrange(0, i),
        a[i] < b[i],
    ensures
        be_value(a) < be_value(b),
    decreases i,
{
    let ra = a.subrange(1, a.len() as int);
    let rb = b.subrange(1, b.len() as int);
    let p = pow256((a.len() - 1) as nat);
    if i == 0 {
        lemma_be_value_bound(ra);
        let ha = a[0] as nat;
        let hb = b[0] as nat;
        let va = be_value(ra);
        let vb = be_value(rb);
        assert(ha * p + va < hb * p + vb) by (nonlinear_arith)
            requires
                ha < hb,
                va < p,
        ;
    } else {
        assert(a[0] == a.subrange(0, i)[0]);
        assert(b[0] == b.subrange(0, i)[0]);
        assert(ra.subrange(0, i - 1) =~= a.subrange(0, i).subrange(1, i));
        assert(rb.subrange(0, i - 1) =~= b.subrange(0, i).subrange(1, i));
        lemma_first_difference(ra, rb, i - 1);
    }
}

/// Where each byte of `z` is at most the sum of the bytes of `x` and `y` at
/// the same place, the value of `z` is at most the sum of their values.
pub proof fn lemma_be_value_pointwise_le(z: Seq<u8>, x: Seq<u8>, y: Seq<u8>)
    requires
        z.len() == x.len(),
        z.len() == y.len(),
        forall|i: int| 0 <= i < z.len() ==> z[i] <= x[i] + y[i],
    ensures
        be_value(z) <= be_value(x) + be_value(y),
    decreases z.len(),
{
    if z.len() > 0 {
        let rz = z.subrange(1, z.len() as int);
        let rx = x.subrange(1, x.len() as int);
        let ry = y.subrange(1, y.len() as int);
        lemma_be_value_pointwise_le(rz, rx, ry);
        let p = pow256((z.len() - 1) as nat);
        let hz = z[0] as nat;
        let hx = x[0] as nat;
        let hy = y[0] as nat;
        assert(hz * p <= hx * p + hy * p) by (nonlinear_arith)
            requires
                hz <= hx + hy,
        ;
    }
}

/// The distance between two identifiers does not depend on their order.
pub proof fn lemma_distance_symmetric(a: Key, b: Key)
    ensures
        xor_seq(a@, b@) == xor_seq(b@, a@),
{
    assert forall|i: int| 0 <= i < a@.len() implies #[trigger] (a@[i] ^ b@[i]) == b@[i] ^ a@[i] by {
        let x = a@[i];
        let y = b@[i];
        assert(x ^ y == y ^ x) by (bit_vector);
    }
    assert(xor_seq(a@, b@) =~= xor_seq(b@, a@));
}

/// The XOR metric obeys the triangle inequality: the distance from `a` to `c`
/// is at most the distance from `a` to `b` plus that from `b` to `c`.
pub proof fn lemma_distance_triangle(a: Key, b: Key, c: Key)
    ensures
        be_value(xor_seq(a@, c@)) <= be_value(xor_seq(a@, b@)) + be_value(xor_seq(b@, c@)),
{
    let z = xor_seq(a@, c@);
    let x = xor_seq(a@, b@);
    let y = xor_seq(b@, c@);
    assert forall|i: int| 0 <= i < z.len() implies z[i] <= x[i] + y[i] by {
        let p = a@[i];
        let q = b@[i];
        let r = c@[i];
        assert(((p ^ r) as u16) <= ((p ^ q) as u16) + ((q ^ r) as u16)) by (bit_vector);
    }
    lemma_be_value_pointwise_le(z, x, y);
}

/// An identifier is at distance zero from itself, which falls in the last
/// bucket.
pub proof fn lemma_self_distance_last_bucket(a: Key)
    ensures
        prefix_len(xor_seq(a@, a@)) == ID_BITS - 1,
{
    let z = xor_seq(a@, a@);
    assert forall|i: int| 0 <= i < z.len() implies z[i] == 0 by {
        let x = a@[i];
        assert(x ^ x == 0) by (bit_vector);
    }
    lemma_zero_no_set_bit(z, 0);
}

proof fn lemma_zero_no_set_bit(z: Seq<u8>, p: int)
    requires
        z.len() == ID_LEN,
        0 <= p,
        forall|i: int| 0 <= i < z.len() ==> z[i] == 0,
    ensures
        first_set_from(z, p) == ID_BITS - 1,
    decreases ID_BITS - 1 - p,
{
    if p < ID_BITS - 1 {
        let b = z[p / 8];
        let sh = (7 - p % 8) as u8;
        assert(b == 0);
        assert((b >> sh) & 1u8 == 0u8) by (bit_vector)
            requires
                b == 0,
        ;
        lemma_zero_no_set_bit(z, p + 1);
    }
}

/// A bucket index is always in range.
pub proof fn lemma_prefix_len_range(d: Seq<u8>)
    ensures
        0 <= prefix_len(d) < ID_BITS,
{
    lemma_first_set_from_range(d, 0);
}

proof fn lemma_first_set_from_range(d: Seq<u8>, p: int)
    requires
        0 <= p,
    ensures
        p <= first_set_from(d, p) || first_set_from(d, p) == ID_BITS - 1,
        0 <= first_set_from(d, p) < ID_BITS,
    decreases ID_BITS - 1 - p,
{
    if p < ID_BITS - 1 && !bit_set(d, p) {
        lemma_first_set_from_range(d, p + 1);
    }
}

proof fn lemma_first_set_bits(d: Seq<u8>, p: int)
    requires
        0 <= p,
    ensures
        forall|q: int| p <= q < first_set_from(d, p) ==> !bit_set(d, q),
        first_set_from(d, p) < ID_BITS - 1 ==> bit_set(d, first_set_from(d, p)),
    decreases ID_BITS - 1 - p,
{
    if p < ID_BITS - 1 && !bit_set(d, p) {
        lemma_first_set_bits(d, p + 1);
    }
}

/// The bits before the prefix length are clear, and the bit at it is set
/// unless it is the last index.
pub proof fn lemma_prefix_bits(d: Seq<u8>)
    ensures
        forall|q: int| 0 <= q < prefix_len(d) ==> !bit_set(d, q),
        prefix_len(d) < ID_BITS - 1 ==> bit_set(d, prefix_len(d)),
{
    lemma_first_set_bits(d, 0);
}

/// The prefix length is the index of the first set bit, or the last index.
pub proof fn lemma_prefix_from_bits(d: Seq<u8>, m: int)
    requires
        0 <= m < ID_BITS,
        forall|q: int| 0 <= q < m ==> !bit_set(d, q),
        m == ID_BITS - 1 || bit_set(d, m),
    ensures
        prefix_len(d) == m,
{
    lemma_first_set_exact(d, 0, m);
}

proof fn lemma_first_set_exact(d: Seq<u8>, p: int, m: int)
    requires
        0 <= p <= m < ID_BITS,
        forall|q: int| p <= q < m ==> !bit_set(d, q),
        m == ID_BITS - 1 || bit_set(d, m),
    ensures
        first_set_from(d, p) == m,
    decreases m - p,
{
    if p < m {
        lemma_first_set_exact(d, p + 1, m);
    }
}

/// A bit of an exclusive or is set when exactly one of the two bits is.
pub proof fn lemma_xor_bit(x: Seq<u8>, y: Seq<u8>, p: int)
    requires
        x.len() == ID_LEN,
        y.len() == ID_LEN,
        0 <= p < ID_BITS,
    ensures
        bit_set(xor_seq(x, y), p) == (bit_set(x, p) != bit_set(y, p)),
{
    let a = x[p / 8];
    let b = y[p / 8];
    let sh = (7 - p % 8) as u8;
    assert(xor_seq(x, y)[p / 8] == a ^ b);
    assert((((a ^ b) >> sh) & 1u8 == 1u8) == (((a >> sh) & 1u8 == 1u8) != ((b >> sh) & 1u8 == 1u8)))
        by (bit_vector)
        requires
            sh < 8,
    ;
}

/// Seen from `local`, the distance from `n` to `t` has as many leading zero
/// bits as the smaller of the two bucket indices when they differ, and more
/// than either when they agree.
pub proof fn lemma_prefix_of_distance(local: Seq<u8>, n: Seq<u8>, t: Seq<u8>)
    requires
        local.len() == ID_LEN,
        n.len() == ID_LEN,
        t.len() == ID_LEN,
    ensures
        ({
            let j = prefix_len(xor_seq(local, n));
            let b = prefix_len(xor_seq(local, t));
            let e = prefix_len(xor_seq(n, t));
            &&& j < b ==> e == j
            &&& j > b ==> e == b
            &&& j == b ==> e > b || e == ID_BITS - 1
        }),
{
    let x = xor_seq(local, n);
    let y = xor_seq(local, t);
    let d = xor_seq(n, t);
    assert(d =~= xor_seq(x, y)) by {
        assert forall|i: int| 0 <= i < ID_LEN implies #[trigger] d[i] == xor_seq(x, y)[i] by {
            let l = local[i];
            let a = n[i];
            let c = t[i];
            assert(a ^ c == (l ^ a) ^ (l ^ c)) by (bit_vector);
        }
    }
    let j = prefix_len(x);
    let b = prefix_len(y);
    lemma_prefix_bits(x);
    lemma_prefix_bits(y);
    lemma_prefix_len_range(x);
    lemma_prefix_len_range(y);
    lemma_prefix_len_range(d);
    assert forall|q: int| 0 <= q < j && q < b implies !bit_set(d, q) by {
        lemma_xor_bit(x, y, q);
    }
    if j < b {
        lemma_xor_bit(x, y, j);
        lemma_prefix_from_bits(d, j);
    } else if j > b {
        lemma_xor_bit(x, y, b);
        lemma_prefix_from_bits(d, b);
    } else if b < ID_BITS - 1 {
        lemma_xor_bit(x, y, b);
        lemma_prefix_bits(d);
        if prefix_len(d) < b {
            lemma_xor_bit(x, y, prefix_len(d));
        }
    } else {
        lemma_prefix_from_bits(d, ID_BITS - 1);
    }
}

/// A distance with more leading zero bits is the smaller one.
pub proof fn lemma_longer_prefix_smaller(u: Seq<u8>, v: Seq<u8>)
    requires
        u.len() == ID_LEN,
        v.len() == ID_LEN,
        prefix_len(u) > prefix_len(v),
    ensures
        be_value(u) < be_value(v),
{
    let p = prefix_len(v);
    lemma_prefix_bits(u);
    lemma_prefix_bits(v);
    lemma_prefix_len_range(u);
    lemma_prefix_len_range(v);
    let q = p / 8;
    let r = p % 8;
    // Bytes before q are zero in both.
    assert forall|i: int| 0 <= i < q implies u[i] == 0 && v[i] == 0 by {
        lemma_byte_zero(u, i);
        lemma_byte_zero(v, i);
    }
    assert(u.subrange(0, q) =~= v.subrange(0, q)) by {
        assert forall|i: int| 0 <= i < q implies u.subrange(0, q)[i] == v.subrange(0, q)[i] by {
            assert(u[i] == 0 && v[i] == 0);
        }
    }
    lemma_byte_top_clear(u, q, r);
    lemma_byte_top_clear(v, q, r - 1);
    let a = u[q];
    let c = v[q];
    let sh = (7 - r) as u8;
    assert(bit_set(v, p));
    assert((c >> sh) & 1u8 == 1u8);
    assert(a >> sh == 0u8);
    if r > 0 {
        assert(c >> ((sh + 1) as u8) == 0u8);
        assert(a < c) by (bit_vector)
            requires
                sh < 7,
                a >> sh == 0u8,
                (c >> sh) & 1u8 == 1u8,
        ;
    } else {
        assert(a < c) by (bit_vector)
            requires
                sh == 7,
                a >> sh == 0u8,
                (c >> sh) & 1u8 == 1u8,
        ;
    }
    lemma_first_difference(u, v, q);
}

/// When bits `8i` to `8i + k` (from the top) of byte `i` are clear, the byte
/// shifted right by `7 - k` is zero.
proof fn lemma_byte_top_clear(d: Seq<u8>, i: int, k: int)
    requires
        d.len() == ID_LEN,
        0 <= i < ID_LEN,
        -1 <= k < 8,
        forall|q: int| 8 * i <= q <= 8 * i + k ==> !bit_set(d, q),
    ensures
        k >= 0 ==> d[i] >> ((7 - k) as u8) == 0u8,
        k == 7 ==> d[i] == 0,
    decreases k + 1,
{
    if k >= 0 {
        lemma_byte_top_clear(d, i, k - 1);
        let a = d[i];
        let p = 8 * i + k;
        assert(p / 8 == i && p % 8 == k);
        assert(!bit_set(d, p));
        let sh = (7 - k) as u8;
        assert((a >> sh) & 1u8 != 1u8);
        if k > 0 {
            assert(a >> ((sh + 1) as u8) == 0u8);
            assert(a >> sh == 0u8) by (bit_vector)
                requires
                    sh < 7,
                    a >> ((sh + 1) as u8) == 0u8,
                    (a >> sh) & 1u8 != 1u8,
            ;
        } else {
            assert(a >> sh == 0u8) by (bit_vector)
                requires
                    sh == 7,
                    (a >> sh) & 1u8 != 1u8,
            ;
        }
        if k == 7 {
            assert(a == 0) by (bit_vector)
                requires
                    a >> 0u8 == 0u8,
            ;
        }
    }
}

proof fn lemma_byte_zero(d: Seq<u8>, i: int)
    requires
        d.len() == ID_LEN,
        0 <= i < ID_LEN,
        forall|q: int| 0 <= q < prefix_len(d) ==> !bit_set(d, q),
        8 * i + 8 <= prefix_len(d),
    ensures
        d[i] == 0,
{
    lemma_byte_top_clear(d, i, 7);
}

/// Bytewise exclusive or of two identifiers.
pub fn dist(x: Key, y: Key) -> (r: Distance)
    ensures
        r@ == xor_seq(x@, y@),
{
    Distance::dist(x, y)
}

} // verus!
