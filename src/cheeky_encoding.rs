//! Mixed-radix packing of a tuple of bounded integers into a single `u64`.
//!
//! Think of encoding as obtaining an *offset* into an `N`-dimensional array
//! whose shape is given by `cardinalities`, stored in row-major order with the
//! first digit as the outermost axis. Decoding is the reverse of that.
//!
//! A digit of cardinality `c` takes `log2(c)` bits, which need not be whole:
//! a digit of cardinality 3 takes about 1.585 bits.
use vstd::arithmetic::div_mod::lemma_fundamental_div_mod_converse;
use vstd::prelude::*;

verus! {

/// The number of tuples that a shape can describe: the product of its
/// cardinalities (1 for the empty shape).
pub open spec fn product(cardinalities: Seq<u64>) -> int
    decreases cardinalities.len(),
{
    if cardinalities.len() == 0 {
        1
    } else {
        product(cardinalities.drop_last()) * cardinalities.last()
    }
}

/// Every cardinality of the shape is at least 1.
pub open spec fn nonzero(cardinalities: Seq<u64>) -> bool {
    forall|i: int| 0 <= i < cardinalities.len() ==> cardinalities[i] >= 1
}

/// The shape is usable: no cardinality is zero and the tuples it describes
/// fit in a `u64` (their number is at most `2^64`).
pub open spec fn fits(cardinalities: Seq<u64>) -> bool {
    nonzero(cardinalities) && product(cardinalities) <= u64::MAX + 1
}

/// `data` is a tuple of the shape: one value per cardinality, each below it.
pub open spec fn in_range(data: Seq<u64>, cardinalities: Seq<u64>) -> bool {
    &&& data.len() == cardinalities.len()
    &&& forall|i: int| 0 <= i < data.len() ==> data[i] < cardinalities[i]
}

/// The packed value of a tuple: its row-major offset, first digit outermost.
pub open spec fn encoded(data: Seq<u64>, cardinalities: Seq<u64>) -> int
    decreases data.len(),
{
    if data.len() == 0 || cardinalities.len() == 0 {
        0
    } else {
        encoded(data.drop_last(), cardinalities.drop_last()) * cardinalities.last() + data.last()
    }
}

/// The tuple read back from a packed value: the last digit is the remainder
/// by the last cardinality, the rest is read from the quotient.
pub open spec fn decoded(state: int, cardinalities: Seq<u64>) -> Seq<u64>
    decreases cardinalities.len(),
{
    if cardinalities.len() == 0 {
        Seq::empty()
    } else {
        decoded(state / cardinalities.last() as int, cardinalities.drop_last()).push(
            (state % cardinalities.last() as int) as u64,
        )
    }
}

/// `x`, or `limit` where `x` exceeds it.
pub open spec fn saturated(x: int, limit: int) -> int {
    if x > limit {
        limit
    } else {
        x
    }
}

/// Whether the shape describes more tuples than a `u64` can tell apart, that
/// is more than `2^64`. The product is taken in 128 bits and saturates, so the
/// answer is exact for every shape.
pub fn too_big(cardinalities: &[u64]) -> (r: bool)
    ensures
        r == (product(cardinalities@) > u64::MAX + 1),
{
    let mut acc: u128 = 1;
    let mut i: usize = 0;
    while i < cardinalities.len()
        invariant
            0 <= i <= cardinalities@.len(),
            acc as int == saturated(product(cardinalities@.subrange(0, i as int)), u128::MAX as int),
        decreases cardinalities@.len() - i,
    {
        let cardinality = cardinalities[i];
        let ghost p = product(cardinalities@.subrange(0, i as int));
        proof {
            assert(cardinalities@.subrange(0, i + 1).drop_last() =~= cardinalities@.subrange(
                0,
                i as int,
            ));
            lemma_product_nonneg(cardinalities@.subrange(0, i as int));
        }
        let ghost before = acc as int;
        acc = acc.checked_mul(cardinality as u128).unwrap_or(u128::MAX);
        i = i + 1;
        proof {
            let (c, m) = (cardinality as int, u128::MAX as int);
            assert(acc as int == saturated(p * c, m)) by (nonlinear_arith)
                requires
                    p >= 0,
                    c >= 0,
                    m > 0,
                    before == (if p > m { m } else { p }),
                    acc as int == (if before * c > m { m } else { before * c }),
            ;
        }
    }
    assert(cardinalities@.subrange(0, i as int) =~= cardinalities@);
    acc > u64::MAX as u128 + 1
}

/// Appends a digit to a packed state: the state is multiplied by the digit's
/// cardinality and the value is added.
pub fn push(state: &mut u64, value: u64, cardinality: u64)
    requires
        value < cardinality,
        *old(state) * cardinality + value <= u64::MAX,
    ensures
        *final(state) == *old(state) * cardinality + value,
{
    *state = *state * cardinality;
    *state = *state + value;
}

/// Takes the last pushed digit off a packed state: it returns the remainder
/// by the cardinality and leaves the quotient.
pub fn pop(state: &mut u64, cardinality: u64) -> (r: u64)
    requires
        cardinality > 0,
    ensures
        r == *old(state) % cardinality,
        *final(state) == *old(state) / cardinality,
{
    let ret = *state % cardinality;
    *state = *state / cardinality;
    ret
}

/// Packs `data` under the shape `cardinalities`: digits are pushed in index
/// order, so the first one is the most significant.
pub fn encode<const N: usize>(data: &[u64; N], cardinalities: &[u64; N]) -> (r: u64)
    requires
        in_range(data@, cardinalities@),
        fits(cardinalities@),
    ensures
        r == encoded(data@, cardinalities@),
        decoded(r as int, cardinalities@) == data@,
{
    let mut state: u64 = 0;
    let mut i: usize = 0;
    while i < N
        invariant
            0 <= i <= N,
            data@.len() == N,
            cardinalities@.len() == N,
            in_range(data@, cardinalities@),
            fits(cardinalities@),
            state == encoded(data@.subrange(0, i as int), cardinalities@.subrange(0, i as int)),
        decreases N - i,
    {
        let ghost (d, c) = (data@.subrange(0, i + 1), cardinalities@.subrange(0, i + 1));
        proof {
            assert(d.drop_last() =~= data@.subrange(0, i as int));
            assert(c.drop_last() =~= cardinalities@.subrange(0, i as int));
            assert(in_range(d, c));
            lemma_encoded_below(d, c);
            lemma_prefix_product(cardinalities@, i + 1);
        }
        push(&mut state, data[i], cardinalities[i]);
        i = i + 1;
    }
    proof {
        assert(data@.subrange(0, N as int) =~= data@);
        assert(cardinalities@.subrange(0, N as int) =~= cardinalities@);
        lemma_round_trip(data@, cardinalities@);
    }
    state
}

/// Reads a tuple of the shape `cardinalities` back from a packed state:
/// digits are popped from the last to the first.
pub fn decode<const N: usize>(state: u64, cardinalities: &[u64; N]) -> (r: [u64; N])
    requires
        nonzero(cardinalities@),
    ensures
        r@ == decoded(state as int, cardinalities@),
        in_range(r@, cardinalities@),
{
    let mut result: [u64; N] = [0u64; N];
    let mut rest: u64 = state;
    let mut i: usize = N;
    proof {
        assert(cardinalities@.subrange(0, N as int) =~= cardinalities@);
        assert(decoded(state as int, cardinalities@) =~= decoded(state as int, cardinalities@)
            + result@.subrange(N as int, N as int));
    }
    while i > 0
        invariant
            0 <= i <= N,
            result@.len() == N,
            cardinalities@.len() == N,
            nonzero(cardinalities@),
            decoded(state as int, cardinalities@) == decoded(
                rest as int,
                cardinalities@.subrange(0, i as int),
            ) + result@.subrange(i as int, N as int),
        decreases i,
    {
        let ghost before = result@;
        let ghost c = cardinalities@.subrange(0, i as int);
        proof {
            assert(c.drop_last() =~= cardinalities@.subrange(0, i - 1));
        }
        let digit = pop(&mut rest, cardinalities[i - 1]);
        result[i - 1] = digit;
        i = i - 1;
        proof {
            assert(result@.subrange(i as int, N as int) =~= seq![digit] + before.subrange(
                i + 1,
                N as int,
            ));
            assert(decoded(state as int, cardinalities@) =~= decoded(
                rest as int,
                cardinalities@.subrange(0, i as int),
            ) + result@.subrange(i as int, N as int));
        }
    }
    proof {
        assert(result@.subrange(0, N as int) =~= result@);
        lemma_decoded_in_range(state, cardinalities@);
    }
    result
}

/// The largest tuple of a shape: each digit one below its cardinality.
pub open spec fn max_tuple(cardinalities: Seq<u64>) -> Seq<u64> {
    Seq::new(cardinalities.len(), |i: int| (cardinalities[i] - 1) as u64)
}

proof fn lemma_product_nonneg(cardinalities: Seq<u64>)
    ensures
        product(cardinalities) >= 0,
    decreases cardinalities.len(),
{
    if cardinalities.len() > 0 {
        let rest = cardinalities.drop_last();
        lemma_product_nonneg(rest);
        assert(product(rest) * cardinalities.last() >= 0) by (nonlinear_arith)
            requires
                product(rest) >= 0,
        ;
    }
}

/// A prefix of a shape without zero cardinalities describes no more tuples
/// than the whole shape.
proof fn lemma_prefix_product(cardinalities: Seq<u64>, i: int)
    requires
        nonzero(cardinalities),
        0 <= i <= cardinalities.len(),
    ensures
        1 <= product(cardinalities.subrange(0, i)) <= product(cardinalities),
    decreases cardinalities.len(),
{
    if cardinalities.len() == 0 {
        assert(cardinalities.subrange(0, i) =~= cardinalities);
    } else {
        let rest = cardinalities.drop_last();
        let last = cardinalities.last();
        if i == cardinalities.len() {
            assert(cardinalities.subrange(0, i) =~= cardinalities);
            lemma_prefix_product(rest, rest.len() as int);
            assert(rest.subrange(0, rest.len() as int) =~= rest);
        } else {
            assert(rest.subrange(0, i) =~= cardinalities.subrange(0, i));
            lemma_prefix_product(rest, i);
        }
        assert(1 <= product(rest) <= product(rest) * last) by (nonlinear_arith)
            requires
                product(rest) >= 1,
                last >= 1,
        ;
    }
}

/// Every tuple of a shape packs to a value below the number of tuples.
proof fn lemma_encoded_below(data: Seq<u64>, cardinalities: Seq<u64>)
    requires
        in_range(data, cardinalities),
    ensures
        0 <= encoded(data, cardinalities) < product(cardinalities),
    decreases data.len(),
{
    if data.len() > 0 {
        let (d, c) = (data.drop_last(), cardinalities.drop_last());
        lemma_encoded_below(d, c);
        let (e, p, v, n) = (encoded(d, c), product(c), data.last(), cardinalities.last());
        assert(0 <= e * n + v < p * n) by (nonlinear_arith)
            requires
                0 <= e < p,
                0 <= v < n,
        ;
    }
}

/// Popping a digit returns what the last push stored and restores the state
/// from before that push.
pub proof fn lemma_pop_undoes_push(state: u64, value: u64, cardinality: u64)
    requires
        value < cardinality,
    ensures
        (state * cardinality + value) % (cardinality as int) == value,
        (state * cardinality + value) / (cardinality as int) == state,
{
    lemma_fundamental_div_mod_converse(
        state * cardinality + value,
        cardinality as int,
        state as int,
        value as int,
    );
}

/// Decoding yields one digit per cardinality, each below its cardinality.
pub proof fn lemma_decoded_in_range(state: u64, cardinalities: Seq<u64>)
    requires
        nonzero(cardinalities),
    ensures
        in_range(decoded(state as int, cardinalities), cardinalities),
    decreases cardinalities.len(),
{
    if cardinalities.len() > 0 {
        let rest = cardinalities.drop_last();
        let n = cardinalities.last();
        assert(n >= 1);
        assert(0 <= state as int / n as int <= state) by (nonlinear_arith)
            requires
                n >= 1,
                state >= 0,
        ;
        lemma_decoded_in_range((state as int / n as int) as u64, rest);
        let out = decoded(state as int, cardinalities);
        assert forall|i: int| 0 <= i < out.len() implies out[i] < cardinalities[i] by {
            if i < out.len() - 1 {
                assert(out[i] == decoded(state as int / n as int, rest)[i]);
            }
        }
    }
}

/// Decoding the packed value of a tuple gives the tuple back, and the packed
/// value fits in a `u64` whenever the shape does.
pub proof fn lemma_round_trip(data: Seq<u64>, cardinalities: Seq<u64>)
    requires
        in_range(data, cardinalities),
        fits(cardinalities),
    ensures
        0 <= encoded(data, cardinalities) <= u64::MAX,
        decoded(encoded(data, cardinalities), cardinalities) == data,
{
    lemma_encoded_below(data, cardinalities);
    lemma_decode_encoded(data, cardinalities);
}

proof fn lemma_decode_encoded(data: Seq<u64>, cardinalities: Seq<u64>)
    requires
        in_range(data, cardinalities),
    ensures
        decoded(encoded(data, cardinalities), cardinalities) == data,
    decreases data.len(),
{
    if data.len() > 0 {
        let (d, c) = (data.drop_last(), cardinalities.drop_last());
        let (v, n) = (data.last(), cardinalities.last());
        lemma_encoded_below(d, c);
        lemma_decode_encoded(d, c);
        let e = encoded(d, c);
        lemma_fundamental_div_mod_converse(e * n + v, n as int, e, v as int);
        assert(decoded(encoded(data, cardinalities), cardinalities) =~= data);
    } else {
        assert(decoded(encoded(data, cardinalities), cardinalities) =~= data);
    }
}

/// A digit of cardinality 1 holds no information: it decodes to 0 from any
/// state, whatever the other digits are.
pub proof fn lemma_unit_digit_is_zero(state: u64, cardinalities: Seq<u64>, i: int)
    requires
        nonzero(cardinalities),
        0 <= i < cardinalities.len(),
        cardinalities[i] == 1,
    ensures
        decoded(state as int, cardinalities)[i] == 0,
    decreases cardinalities.len(),
{
    let rest = cardinalities.drop_last();
    let n = cardinalities.last() as int;
    assert(0 <= state as int / n <= u64::MAX) by (nonlinear_arith)
        requires
            n >= 1,
            0 <= state <= u64::MAX,
    ;
    let quotient = (state as int / n) as u64;
    lemma_decoded_in_range(quotient, rest);
    if i < cardinalities.len() - 1 {
        lemma_unit_digit_is_zero(quotient, rest, i);
    }
}

/// A digit of cardinality 2 holds one bit: it is 0 or 1, and it comes back
/// unchanged from packing, alone or among other digits.
pub proof fn lemma_single_bit_digit(data: Seq<u64>, cardinalities: Seq<u64>, i: int)
    requires
        in_range(data, cardinalities),
        fits(cardinalities),
        0 <= i < cardinalities.len(),
        cardinalities[i] == 2,
    ensures
        data[i] == 0 || data[i] == 1,
        decoded(encoded(data, cardinalities), cardinalities)[i] == data[i],
{
    lemma_round_trip(data, cardinalities);
}

/// The order of the digits is part of the format: `(a, b)` under `(ca, cb)`
/// packs to `a * cb + b`, `(b, a)` under `(cb, ca)` packs to `b * ca + a`, the
/// two agree exactly when `a * (cb - 1) == b * (ca - 1)`, and each decodes
/// back to its own pair.
pub proof fn lemma_order_sensitivity(a: u64, b: u64, ca: u64, cb: u64)
    requires
        a < ca,
        b < cb,
        ca * cb <= u64::MAX + 1,
    ensures
        encoded(seq![a, b], seq![ca, cb]) == a * cb + b,
        encoded(seq![b, a], seq![cb, ca]) == b * ca + a,
        (encoded(seq![a, b], seq![ca, cb]) == encoded(seq![b, a], seq![cb, ca])) <==> (a * (cb
            - 1) == b * (ca - 1)),
        decoded(encoded(seq![a, b], seq![ca, cb]), seq![ca, cb]) == seq![a, b],
        decoded(encoded(seq![b, a], seq![cb, ca]), seq![cb, ca]) == seq![b, a],
{
    let (x, y) = (seq![a, b], seq![b, a]);
    let (cx, cy) = (seq![ca, cb], seq![cb, ca]);
    reveal_with_fuel(encoded, 3);
    reveal_with_fuel(product, 3);
    assert(x.drop_last() =~= seq![a] && cx.drop_last() =~= seq![ca]);
    assert(y.drop_last() =~= seq![b] && cy.drop_last() =~= seq![cb]);
    assert(seq![a].drop_last() =~= Seq::<u64>::empty());
    assert(seq![b].drop_last() =~= Seq::<u64>::empty());
    assert(seq![ca].drop_last() =~= Seq::<u64>::empty());
    assert(seq![cb].drop_last() =~= Seq::<u64>::empty());
    assert((a * cb + b == b * ca + a) <==> (a * (cb - 1) == b * (ca - 1))) by (nonlinear_arith);
    assert(cb * ca == ca * cb) by (nonlinear_arith);
    lemma_round_trip(x, cx);
    lemma_round_trip(y, cy);
}

/// The largest tuple packs to the number of tuples minus one; so a shape that
/// fills the `2^64` values exactly packs its largest tuple to `u64::MAX`.
pub proof fn lemma_max_tuple_packs_to_top(cardinalities: Seq<u64>)
    requires
        nonzero(cardinalities),
    ensures
        encoded(max_tuple(cardinalities), cardinalities) == product(cardinalities) - 1,
        product(cardinalities) == u64::MAX + 1 ==> encoded(max_tuple(cardinalities), cardinalities)
            == u64::MAX,
    decreases cardinalities.len(),
{
    if cardinalities.len() > 0 {
        let rest = cardinalities.drop_last();
        assert(max_tuple(cardinalities).drop_last() =~= max_tuple(rest));
        lemma_max_tuple_packs_to_top(rest);
        let (p, n) = (product(rest), cardinalities.last() as int);
        assert((p - 1) * n + (n - 1) == p * n - 1) by (nonlinear_arith);
    }
}

} // verus!
