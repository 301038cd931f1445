//! Variable-byte codec: seven payload bits per byte, low group first, the
//! high bit set only on the terminating byte of a number.
use vstd::prelude::*;

use crate::storage::StorageError;

verus! {

/// The bytes that encode `n`.
pub open spec fn encoded(n: nat) -> Seq<u8>
    decreases n,
{
    if n < 128 {
        seq![(n + 128) as u8]
    } else {
        seq![(n % 128) as u8] + encoded(n / 128)
    }
}

/// The number of bytes that encode `n`: one per started group of seven bits,
/// and at least one.
pub open spec fn encoded_len(n: nat) -> nat
    decreases n,
{
    if n < 128 {
        1
    } else {
        1 + encoded_len(n / 128)
    }
}

/// The concatenated encodings of a sequence of numbers.
pub open spec fn encoded_all(xs: Seq<nat>) -> Seq<u8>
    decreases xs.len(),
{
    if xs.len() == 0 {
        seq![]
    } else {
        encoded(xs[0]) + encoded_all(xs.drop_first())
    }
}

/// The sum of the encoded lengths of a sequence of numbers.
pub open spec fn sum_encoded_len(xs: Seq<nat>) -> nat
    decreases xs.len(),
{
    if xs.len() == 0 {
        0
    } else {
        encoded_len(xs[0]) + sum_encoded_len(xs.drop_first())
    }
}

/// Decodes `bytes` after a number in progress: `pending` holds the groups
/// read so far, `scale` the weight of the next group, and `open` whether a
/// number has been started and not yet terminated.
pub open spec fn decode_from(bytes: Seq<u8>, pending: nat, scale: nat, open: bool) -> Option<Seq<nat>>
    decreases bytes.len(),
{
    if bytes.len() == 0 {
        if open {
            None
        } else {
            Some(seq![])
        }
    } else {
        let b = bytes[0] as nat;
        if b >= 128 {
            match decode_from(bytes.drop_first(), 0, 1, false) {
                Some(rest) => Some(seq![(pending + (b - 128) * scale) as nat] + rest),
                None => None,
            }
        } else {
            decode_from(bytes.drop_first(), (pending + b * scale) as nat, scale * 128, true)
        }
    }
}

/// The numbers that `bytes` encode, or `None` where the bytes end in the
/// middle of a number.
pub open spec fn decoded(bytes: Seq<u8>) -> Option<Seq<nat>> {
    decode_from(bytes, 0, 1, false)
}

/// Whether every number of `xs` fits in a `u64`.
pub open spec fn fits_u64(xs: Seq<nat>) -> bool {
    forall|i: int| 0 <= i < xs.len() ==> #[trigger] xs[i] <= u64::MAX
}

/// The numbers of a vector, as mathematical integers.
pub open spec fn nats_of(v: Seq<u64>) -> Seq<nat> {
    v.map_values(|x: u64| x as nat)
}

proof fn lemma_decode_encoded(n: nat, rest: Seq<u8>, pending: nat, scale: nat, open: bool)
    requires
        scale > 0,
    ensures
        decode_from(encoded(n) + rest, pending, scale, open) == match decode_from(
            rest,
            0,
            1,
            false,
        ) {
            Some(r) => Some(seq![(pending + n * scale) as nat] + r),
            None => None::<Seq<nat>>,
        },
    decreases n,
{
    let bytes = encoded(n) + rest;
    if n < 128 {
        assert(bytes[0] == (n + 128) as u8);
        assert(bytes.drop_first() =~= rest);
    } else {
        let low = n % 128;
        let high = n / 128;
        assert(bytes[0] == low as u8);
        assert(bytes.drop_first() =~= encoded(high) + rest);
        lemma_decode_encoded(high, rest, (pending + low * scale) as nat, scale * 128, true);
        assert(pending + low * scale + high * (scale * 128) == pending + n * scale) by (nonlinear_arith)
            requires
                n == 128 * high + low,
        ;
    }
}

proof fn lemma_decode_front(bytes: Seq<u8>, pending: nat, scale: nat)
    requires
        decode_from(bytes, pending, scale, true) is Some,
    ensures
        decode_from(bytes, pending, scale, true)->0.len() > 0,
        decode_from(bytes, pending, scale, true)->0[0] >= pending,
    decreases bytes.len(),
{
    if bytes.len() > 0 && (bytes[0] as nat) < 128 {
        lemma_decode_front(bytes.drop_first(), (pending + (bytes[0] as nat) * scale) as nat, scale * 128);
    }
}

proof fn lemma_encoded_len(n: nat)
    ensures
        encoded(n).len() == encoded_len(n),
    decreases n,
{
    if n >= 128 {
        lemma_encoded_len(n / 128);
    }
}

proof fn lemma_encoded_all_push(xs: Seq<nat>, x: nat)
    ensures
        encoded_all(xs.push(x)) == encoded_all(xs) + encoded(x),
    decreases xs.len(),
{
    if xs.len() == 0 {
        assert(xs.push(x).drop_first() =~= seq![]);
        assert(encoded_all(xs.push(x).drop_first()) == Seq::<u8>::empty());
        assert(encoded_all(xs.push(x)) =~= encoded(x));
    } else {
        assert(xs.push(x).drop_first() =~= xs.drop_first().push(x));
        lemma_encoded_all_push(xs.drop_first(), x);
        assert(encoded_all(xs.push(x)) =~= encoded_all(xs) + encoded(x));
    }
}

/// Decoding the encodings of any sequence of numbers gives that sequence back.
pub proof fn law_vbyte_round_trip(xs: Seq<nat>)
    ensures
        decoded(encoded_all(xs)) == Some(xs),
    decreases xs.len(),
{
    if xs.len() == 0 {
    } else {
        law_vbyte_round_trip(xs.drop_first());
        lemma_decode_encoded(xs[0], encoded_all(xs.drop_first()), 0, 1, false);
        assert(seq![xs[0]] + xs.drop_first() =~= xs);
    }
}

/// The encodings of a sequence of numbers take, together, the sum of their
/// encoded lengths; each is as long as `encoded_len` says.
pub proof fn law_vbyte_length(xs: Seq<nat>)
    ensures
        encoded_all(xs).len() == sum_encoded_len(xs),
        forall|i: int| 0 <= i < xs.len() ==> #[trigger] encoded(xs[i]).len() == encoded_len(xs[i]),
    decreases xs.len(),
{
    if xs.len() > 0 {
        law_vbyte_length(xs.drop_first());
        lemma_encoded_len(xs[0]);
        assert forall|i: int| 0 <= i < xs.len() implies #[trigger] encoded(xs[i]).len() == encoded_len(xs[i]) by {
            if i > 0 {
                assert(xs[i] == xs.drop_first()[i - 1]);
            }
        }
    }
}

/// Appends the encoding of `n` to `target`.
pub fn vbyte_write(n: u64, target: &mut Vec<u8>)
    ensures
        final(target)@ == old(target)@ + encoded(n as nat),
{
    let mut v: u64 = n;
    while v >= 128
        invariant
            old(target)@ + encoded(n as nat) == target@ + encoded(v as nat),
        decreases v,
    {
        let ghost before = target@;
        target.push((v % 128) as u8);
        assert(before + encoded(v as nat) =~= target@ + encoded((v / 128) as nat));
        v = v / 128;
    }
    let ghost before = target@;
    target.push((v + 128) as u8);
    assert(before + encoded(v as nat) =~= target@);
}

/// The encoding of `n`.
pub fn vbyte_encode(n: u64) -> (r: Vec<u8>)
    ensures
        r@ == encoded(n as nat),
{
    let mut r: Vec<u8> = Vec::new();
    vbyte_write(n, &mut r);
    assert(r@ =~= encoded(n as nat));
    r
}

/// Decodes a whole byte sequence into the numbers it encodes. Fails with
/// `ReadError` where the bytes end in the middle of a number, or where a
/// number does not fit in a `u64`.
pub fn vbyte_decode(bytes: &[u8]) -> (r: Result<Vec<u64>, StorageError>)
    ensures
        match r {
            Ok(v) => decoded(bytes@) == Some(nats_of(v@)),
            Err(e) => e == StorageError::ReadError && !(decoded(bytes@) is Some && fits_u64(
                decoded(bytes@)->0,
            )),
        },
{
    let mut out: Vec<u64> = Vec::new();
    let mut pending: u64 = 0;
    // the weight of the next group, saturated at 2^64
    let mut scale: u128 = 1;
    let ghost mut real_scale: nat = 1;
    let mut open = false;
    let mut i: usize = 0;
    let ghost whole = decoded(bytes@);
    assert(bytes@.skip(0) =~= bytes@);
    assert(forall|rest: Seq<nat>| nats_of(out@) + rest =~= rest);
    while i < bytes.len()
        invariant
            i <= bytes.len(),
            whole == decoded(bytes@),
            real_scale > 0,
            scale == if real_scale <= 0x1_0000_0000_0000_0000 { real_scale } else { 0x1_0000_0000_0000_0000 },
            !open ==> pending == 0 && real_scale == 1,
            whole == match decode_from(bytes@.skip(i as int), pending as nat, real_scale, open) {
                Some(rest) => Some(nats_of(out@) + rest),
                None => None::<Seq<nat>>,
            },
        decreases bytes.len() - i,
    {
        let b = bytes[i];
        let ghost tail = bytes@.skip(i as int);
        assert(tail[0] == b);
        assert(tail.drop_first() =~= bytes@.skip(i + 1));
        if b >= 128 {
            let group = (b - 128) as u128;
            assert(group * scale <= 127 * 0x1_0000_0000_0000_0000) by (nonlinear_arith)
                requires
                    group <= 127,
                    scale <= 0x1_0000_0000_0000_0000,
            ;
            let value = pending as u128 + group * scale;
            if value > u64::MAX as u128 {
                proof {
                    assert(pending + (b - 128) * real_scale > u64::MAX) by (nonlinear_arith)
                        requires
                            value == pending + (b - 128) * scale,
                            value > u64::MAX,
                            scale <= real_scale,
                    ;
                    match decode_from(bytes@.skip(i + 1), 0, 1, false) {
                        Some(rest) => {
                            let w = nats_of(out@) + (seq![(pending + (b - 128) * real_scale) as nat] + rest);
                            assert(w[out@.len() as int] > u64::MAX);
                        },
                        None => {},
                    }
                }
                return Err(StorageError::ReadError);
            }
            out.push(value as u64);
            proof {
                assert(value == pending + (b - 128) * real_scale) by (nonlinear_arith)
                    requires
                        value == pending + (b - 128) * scale,
                        value <= u64::MAX,
                        scale == real_scale || (scale == 0x1_0000_0000_0000_0000 && real_scale > scale),
                ;
                match decode_from(bytes@.skip(i + 1), 0, 1, false) {
                    Some(rest) => {
                        assert(nats_of(out@) =~= nats_of(out@.drop_last()).push(value as nat));
                        assert(nats_of(out@.drop_last()) + (seq![value as nat] + rest) =~= nats_of(out@) + rest);
                    },
                    None => {},
                }
            }
            pending = 0;
            scale = 1;
            proof { real_scale = 1; }
            open = false;
        } else {
            let group = b as u128;
            assert(group * scale <= 127 * 0x1_0000_0000_0000_0000) by (nonlinear_arith)
                requires
                    group <= 127,
                    scale <= 0x1_0000_0000_0000_0000,
            ;
            let value = pending as u128 + group * scale;
            if value > u64::MAX as u128 {
                proof {
                    assert(pending + b * real_scale > u64::MAX) by (nonlinear_arith)
                        requires
                            value == pending + b * scale,
                            value > u64::MAX,
                            scale <= real_scale,
                    ;
                    let p2 = (pending + b * real_scale) as nat;
                    if decode_from(bytes@.skip(i + 1), p2, real_scale * 128, true) is Some {
                        lemma_decode_front(bytes@.skip(i + 1), p2, real_scale * 128);
                        let rest = decode_from(bytes@.skip(i + 1), p2, real_scale * 128, true)->0;
                        let w = nats_of(out@) + rest;
                        assert(w[out@.len() as int] > u64::MAX);
                    }
                }
                return Err(StorageError::ReadError);
            }
            proof {
                assert(value == pending + b * real_scale) by (nonlinear_arith)
                    requires
                        value == pending + b * scale,
                        value <= u64::MAX,
                        scale == real_scale || (scale == 0x1_0000_0000_0000_0000 && real_scale > scale),
                ;
                real_scale = real_scale * 128;
            }
            pending = value as u64;
            scale = if scale >= 0x200_0000_0000_0000 { 0x1_0000_0000_0000_0000 } else { scale * 128 };
            open = true;
        }
        i = i + 1;
    }
    if open {
        return Err(StorageError::ReadError);
    }
    assert(bytes@.skip(i as int) =~= seq![]);
    assert(nats_of(out@) + seq![] =~= nats_of(out@));
    Ok(out)
}

} // verus!
