//! Seeded random streams.
//!
//! Every stream is a function of a seed, a namespace and a list of numbers, and
//! of nothing else: the order in which streams are made does not matter.

use rand::rngs::StdRng;
use rand::Rng;
use rand::SeedableRng;
use vstd::prelude::*;
use vstd::utf8::encode_utf8;
use vstd::utf8::is_ascii_chars;
use vstd::utf8::is_ascii_chars_encode_utf8;

verus! {

/// `rand::rngs::StdRng`, the generator that every stream hands out. In the version
/// in use it is ChaCha with twelve rounds: integer arithmetic on its state, with
/// no other input once it is seeded.
#[verifier::external_type_specification]
#[verifier::external_body]
pub struct ExStdRng(StdRng);

/// What a generator holds: the words of its inner state.
pub uninterp spec fn generator_state(rng: StdRng) -> Seq<u32>;

/// The state of a generator that was just made from `seed`.
pub uninterp spec fn seeded_state(seed: u64) -> Seq<u32>;

/// The index that a generator in `state` draws below `bound`, and the state
/// that the draw leaves behind.
pub uninterp spec fn index_draw(state: Seq<u32>, bound: usize) -> (usize, Seq<u32>);

/// `StdRng::seed_from_u64`: the new generator's state is a function of the seed.
#[verifier::external_body]
fn seeded(seed: u64) -> (rng: StdRng)
    ensures
        generator_state(rng) == seeded_state(seed),
{
    StdRng::seed_from_u64(seed)
}

/// `Rng::random_range` on `0..bound`: the index lies below the bound, and both
/// the index and the state that is left are functions of the state before and
/// of the bound.
#[verifier::external_body]
pub(crate) fn draw_index(rng: &mut StdRng, bound: usize) -> (index: usize)
    requires
        0 < bound,
    ensures
        index < bound,
        (index, generator_state(*final(rng))) == index_draw(generator_state(*old(rng)), bound),
{
    rng.random_range(0..bound)
}

/// The first multiplier of the mixer; it also scatters each part.
pub const SCATTER: u64 = 0xbf58_476d_1ce4_e5b9;

/// The second multiplier of the mixer.
pub const FINISH: u64 = 0x94d0_49bb_1331_11eb;

/// What the mixer starts from.
pub const GOLDEN: u64 = 0x9e37_79b9_7f4a_7c15;

/// The splitmix64 finalizer.
pub open spec fn scramble(z: u64) -> u64 {
    let a = (z ^ (z >> 30)).wrapping_mul(SCATTER);
    let b = (a ^ (a >> 27)).wrapping_mul(FINISH);
    b ^ (b >> 31)
}

/// The hash of `parts`, each part folded into the hash of those before it.
pub open spec fn mixed(parts: Seq<u64>) -> u64
    decreases parts.len(),
{
    if parts.len() == 0 {
        GOLDEN
    } else {
        scramble(mixed(parts.drop_last()) ^ parts.last().wrapping_mul(SCATTER))
    }
}

/// Deterministic hash mixer (splitmix64).
pub fn mix(parts: &[u64]) -> (h: u64)
    ensures
        h == mixed(parts@),
{
    let mut h: u64 = GOLDEN;
    for i in 0..parts.len()
        invariant
            h == mixed(parts@.take(i as int)),
    {
        proof {
            assert(parts@.take(i + 1).drop_last() =~= parts@.take(i as int));
        }
        let mut z: u64 = h ^ parts[i].wrapping_mul(SCATTER);
        z = (z ^ (z >> 30)).wrapping_mul(SCATTER);
        z = (z ^ (z >> 27)).wrapping_mul(FINISH);
        h = z ^ (z >> 31);
    }
    proof {
        assert(parts@.take(parts@.len() as int) =~= parts@);
    }
    h
}

/// The inverse of `SCATTER` among the odd numbers below two to the 64th.
const GATHER: u64 = 0x96de_1b17_3f11_9089;

/// The inverse of `FINISH`.
const UNFINISH: u64 = 0x3196_42b2_d24d_8ec3;

/// Multiplying by a number that has an inverse can be undone.
proof fn lemma_product_undone(x: u64, c: u64, inverse: u64, k: int)
    requires
        c * inverse == 0x1_0000_0000_0000_0000 * k + 1,
    ensures
        x.wrapping_mul(c).wrapping_mul(inverse) == x,
{
    let m: int = 0x1_0000_0000_0000_0000;
    let y = x.wrapping_mul(c);
    assert(y == (x * c) % m);
    vstd::arithmetic::div_mod::lemma_mul_mod_noop_left(x * c, inverse as int, m);
    assert((x * c) * inverse == m * (x * k) + x) by (nonlinear_arith)
        requires
            c * inverse == m * k + 1,
    ;
    vstd::arithmetic::div_mod::lemma_mod_multiples_vanish(x * k, x as int, m);
    vstd::arithmetic::div_mod::lemma_small_mod(x as nat, m as nat);
}

proof fn lemma_scatter_tells_apart(x: u64, y: u64)
    requires
        x != y,
    ensures
        x.wrapping_mul(SCATTER) != y.wrapping_mul(SCATTER),
{
    lemma_product_undone(x, SCATTER, GATHER, 8125545580553827436);
    lemma_product_undone(y, SCATTER, GATHER, 8125545580553827436);
}

/// The finalizer can be undone: it tells all numbers apart.
proof fn lemma_scramble_tells_apart(x: u64, y: u64)
    requires
        x != y,
    ensures
        scramble(x) != scramble(y),
{
    assert(x != y ==> x ^ (x >> 30) != y ^ (y >> 30)) by (bit_vector);
    let (x1, y1) = (x ^ (x >> 30), y ^ (y >> 30));
    lemma_scatter_tells_apart(x1, y1);
    let (x2, y2) = (x1.wrapping_mul(SCATTER), y1.wrapping_mul(SCATTER));
    assert(x2 != y2 ==> x2 ^ (x2 >> 27) != y2 ^ (y2 >> 27)) by (bit_vector);
    let (x3, y3) = (x2 ^ (x2 >> 27), y2 ^ (y2 >> 27));
    lemma_product_undone(x3, FINISH, UNFINISH, 2077064247507883091);
    lemma_product_undone(y3, FINISH, UNFINISH, 2077064247507883091);
    let (x4, y4) = (x3.wrapping_mul(FINISH), y3.wrapping_mul(FINISH));
    assert(x4 != y4 ==> x4 ^ (x4 >> 31) != y4 ^ (y4 >> 31)) by (bit_vector);
}

/// The hash changes with any single part.
pub proof fn a_changed_part_changes_the_hash(a: Seq<u64>, b: Seq<u64>, k: int)
    requires
        a.len() == b.len(),
        0 <= k < a.len(),
        a[k] != b[k],
        forall|i: int| 0 <= i < a.len() && i != k ==> #[trigger] a[i] == b[i],
    ensures
        mixed(a) != mixed(b),
    decreases a.len(),
{
    let (p, q) = (a.last().wrapping_mul(SCATTER), b.last().wrapping_mul(SCATTER));
    let (g, h) = (mixed(a.drop_last()), mixed(b.drop_last()));
    if k == a.len() - 1 {
        assert(a.drop_last() =~= b.drop_last());
        lemma_scatter_tells_apart(a.last(), b.last());
        assert(p != q ==> g ^ p != g ^ q) by (bit_vector);
    } else {
        a_changed_part_changes_the_hash(a.drop_last(), b.drop_last(), k);
        assert(a[a.len() - 1] == b[a.len() - 1]);
        assert(g != h ==> g ^ p != h ^ p) by (bit_vector);
    }
    lemma_scramble_tells_apart(g ^ p, h ^ q);
}

/// A namespace as a number: its UTF-8 bytes read in base 31.
pub open spec fn namespace_number(bytes: Seq<u8>) -> nat
    decreases bytes.len(),
{
    if bytes.len() == 0 {
        0
    } else {
        namespace_number(bytes.drop_last()) * 31 + bytes.last() as nat
    }
}

/// A longer namespace never has a smaller number.
proof fn lemma_namespace_number_grows(bytes: Seq<u8>, k: int)
    requires
        0 <= k <= bytes.len(),
    ensures
        namespace_number(bytes.take(k)) <= namespace_number(bytes),
    decreases bytes.len() - k,
{
    if k == bytes.len() {
        assert(bytes.take(k) =~= bytes);
    } else {
        lemma_namespace_number_grows(bytes, k + 1);
        assert(bytes.take(k + 1).drop_last() =~= bytes.take(k));
    }
}

/// Nine more than the number of a namespace of `len` bytes is at most this.
spec fn number_bound(len: nat) -> nat
    decreases len,
{
    if len == 0 {
        9
    } else {
        31 * number_bound((len - 1) as nat)
    }
}

proof fn lemma_number_bound(bytes: Seq<u8>)
    ensures
        namespace_number(bytes) + 9 <= number_bound(bytes.len()),
    decreases bytes.len(),
{
    if bytes.len() > 0 {
        lemma_number_bound(bytes.drop_last());
    }
}

proof fn lemma_number_bound_grows(a: nat, b: nat)
    requires
        a <= b,
    ensures
        number_bound(a) <= number_bound(b),
    decreases b,
{
    if a < b {
        lemma_number_bound_grows(a, (b - 1) as nat);
    }
}

/// The number of a namespace of up to twelve ASCII characters fits in a `u64`.
pub proof fn short_namespaces_fit(ns: Seq<char>)
    requires
        is_ascii_chars(ns),
        ns.len() <= 12,
    ensures
        namespace_number(encode_utf8(ns)) <= u64::MAX,
{
    is_ascii_chars_encode_utf8(ns);
    lemma_number_bound(encode_utf8(ns));
    lemma_number_bound_grows(ns.len(), 12);
    reveal_with_fuel(number_bound, 13);
}

/// What seeds the stream of `seed`, `ns` and `parts`.
pub open spec fn stream_seed(seed: u64, ns: Seq<char>, parts: Seq<u64>) -> u64 {
    mixed(seq![seed, namespace_number(encode_utf8(ns)) as u64] + parts)
}

/// Streams of one namespace that differ in their seed, or in one of their parts,
/// are seeded differently.
pub proof fn streams_are_seeded_apart(seed: u64, other: u64, ns: Seq<char>, a: Seq<u64>, b: Seq<u64>)
    requires
        a.len() == b.len(),
        (seed != other && a == b) || (seed == other && exists|k: int|
            0 <= k < a.len() && #[trigger] a[k] != b[k] && (forall|i: int|
                0 <= i < a.len() && i != k ==> #[trigger] a[i] == b[i])),
    ensures
        stream_seed(seed, ns, a) != stream_seed(other, ns, b),
{
    let number = namespace_number(encode_utf8(ns)) as u64;
    let (x, y) = (seq![seed, number] + a, seq![other, number] + b);
    if seed != other {
        a_changed_part_changes_the_hash(x, y, 0);
    } else {
        let k = choose|k: int|
            0 <= k < a.len() && #[trigger] a[k] != b[k] && (forall|i: int|
                0 <= i < a.len() && i != k ==> #[trigger] a[i] == b[i]);
        assert(x[k + 2] == a[k] && y[k + 2] == b[k]);
        assert forall|i: int| 0 <= i < x.len() && i != k + 2 implies #[trigger] x[i] == y[i] by {
            if i >= 2 {
                assert(a[i - 2] == b[i - 2]);
            }
        }
        a_changed_part_changes_the_hash(x, y, k + 2);
    }
}

/// The generator of the stream that belongs to `seed`, `ns` and `parts`.
pub fn rng_for(seed: u64, ns: &str, parts: &[u64]) -> (rng: StdRng)
    requires
        namespace_number(encode_utf8(ns@)) <= u64::MAX,
    ensures
        generator_state(rng) == seeded_state(stream_seed(seed, ns@, parts@)),
{
    let bytes = ns.as_bytes();
    let mut number: u64 = 0;
    for i in 0..bytes.len()
        invariant
            bytes@ == encode_utf8(ns@),
            namespace_number(bytes@) <= u64::MAX,
            number == namespace_number(bytes@.take(i as int)),
    {
        proof {
            lemma_namespace_number_grows(bytes@, i + 1);
            assert(bytes@.take(i + 1).drop_last() =~= bytes@.take(i as int));
        }
        number = number * 31 + bytes[i] as u64;
    }
    proof {
        assert(bytes@.take(bytes@.len() as int) =~= bytes@);
    }
    let mut all: Vec<u64> = Vec::new();
    all.push(seed);
    all.push(number);
    for i in 0..parts.len()
        invariant
            all@ == seq![seed, number] + parts@.take(i as int),
    {
        all.push(parts[i]);
        proof {
            assert(parts@.take(i + 1) =~= parts@.take(i as int).push(parts@[i as int]));
        }
    }
    proof {
        assert(parts@.take(parts@.len() as int) =~= parts@);
    }
    seeded(mix(&all))
}

/// The hash of nothing is a fixed number, and a part more continues from the hash
/// before: what led to it plays no further part.
pub proof fn the_hash_continues_part_by_part(a: Seq<u64>, b: Seq<u64>, part: u64)
    ensures
        mixed(Seq::<u64>::empty()) == 0x9e37_79b9_7f4a_7c15,
        mixed(a) == mixed(b) <==> mixed(a.push(part)) == mixed(b.push(part)),
{
    assert(a.push(part).drop_last() =~= a);
    assert(b.push(part).drop_last() =~= b);
    let p = part.wrapping_mul(SCATTER);
    let (g, h) = (mixed(a), mixed(b));
    assert(g != h ==> g ^ p != h ^ p) by (bit_vector);
    if g != h {
        lemma_scramble_tells_apart(g ^ p, h ^ p);
    }
}

/// Streams of one seed and one list of parts are seeded apart where the numbers of
/// their namespaces differ.
pub proof fn namespaces_are_seeded_apart(seed: u64, ns: Seq<char>, other: Seq<char>, parts: Seq<u64>)
    requires
        namespace_number(encode_utf8(ns)) <= u64::MAX,
        namespace_number(encode_utf8(other)) <= u64::MAX,
        namespace_number(encode_utf8(ns)) != namespace_number(encode_utf8(other)),
    ensures
        stream_seed(seed, ns, parts) != stream_seed(seed, other, parts),
{
    let x = seq![seed, namespace_number(encode_utf8(ns)) as u64] + parts;
    let y = seq![seed, namespace_number(encode_utf8(other)) as u64] + parts;
    a_changed_part_changes_the_hash(x, y, 1);
}

/// The number of a namespace is read in base 31, byte by byte.
pub proof fn namespaces_are_read_byte_by_byte(bytes: Seq<u8>, b: u8)
    ensures
        namespace_number(Seq::<u8>::empty()) == 0,
        namespace_number(bytes.push(b)) == 31 * namespace_number(bytes) + b,
{
    assert(bytes.push(b).drop_last() =~= bytes);
}

} // verus!
