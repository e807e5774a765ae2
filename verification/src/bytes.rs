use vstd::prelude::*;

verus! {

/// The `n` low bytes of `x`, least significant first.
pub open spec fn le_bytes(x: nat, n: nat) -> Seq<u8>
    decreases n,
{
    if n == 0 {
        Seq::empty()
    } else {
        seq![(x % 256) as u8] + le_bytes(x / 256, (n - 1) as nat)
    }
}

/// The number that a little-endian byte sequence denotes.
pub open spec fn le_value(bytes: Seq<u8>) -> nat
    decreases bytes.len(),
{
    if bytes.len() == 0 {
        0
    } else {
        bytes[0] as nat + 256 * le_value(bytes.drop_first())
    }
}

/// 256 to the power `n`.
pub open spec fn pow256(n: nat) -> nat
    decreases n,
{
    if n == 0 {
        1
    } else {
        256 * pow256((n - 1) as nat)
    }
}

pub proof fn lemma_le_bytes_len(x: nat, n: nat)
    ensures
        le_bytes(x, n).len() == n,
    decreases n,
{
    if n > 0 {
        lemma_le_bytes_len(x / 256, (n - 1) as nat);
    }
}

/// Reading back the `n` bytes written for `x` gives `x` when it fits in `n` bytes.
pub proof fn lemma_le_round_trip(x: nat, n: nat)
    requires
        x < pow256(n),
    ensures
        le_value(le_bytes(x, n)) == x,
    decreases n,
{
    if n > 0 {
        let rest = le_bytes(x / 256, (n - 1) as nat);
        assert(x / 256 < pow256((n - 1) as nat)) by (nonlinear_arith)
            requires
                x < 256 * pow256((n - 1) as nat),
        ;
        lemma_le_round_trip(x / 256, (n - 1) as nat);
        let all = seq![(x % 256) as u8] + rest;
        assert(all.drop_first() =~= rest);
        assert(x == x % 256 + 256 * (x / 256)) by (nonlinear_arith);
    }
}

pub proof fn lemma_le_value_bound(bytes: Seq<u8>)
    ensures
        le_value(bytes) < pow256(bytes.len()),
    decreases bytes.len(),
{
    if bytes.len() > 0 {
        lemma_le_value_bound(bytes.drop_first());
        let r = le_value(bytes.drop_first());
        let p = pow256((bytes.len() - 1) as nat);
        assert(bytes[0] as nat + 256 * r < 256 * p) by (nonlinear_arith)
            requires
                r < p,
                bytes[0] < 256,
        ;
    }
}

pub proof fn lemma_pow256_values()
    ensures
        pow256(1) == 256,
        pow256(2) == 65536,
        pow256(4) == 0x1_0000_0000,
        pow256(8) == 0x1_0000_0000_0000_0000,
{
    reveal_with_fuel(pow256, 9);
}

/// Appends the `n` low bytes of `x` to `buffer`, least significant first.
pub fn push_le(buffer: &mut Vec<u8>, x: u64, n: usize)
    requires
        n <= 8,
    ensures
        final(buffer)@ == old(buffer)@ + le_bytes(x as nat, n as nat),
{
    let mut rest: u64 = x;
    let mut written: usize = 0;
    while written < n
        invariant
            written <= n,
            buffer@ + le_bytes(rest as nat, (n - written) as nat) == old(buffer)@ + le_bytes(
                x as nat,
                n as nat,
            ),
        decreases n - written,
    {
        let ghost before = buffer@;
        buffer.push((rest % 256) as u8);
        assert(le_bytes(rest as nat, (n - written) as nat) == seq![(rest % 256) as u8] + le_bytes(
            (rest / 256) as nat,
            (n - written - 1) as nat,
        ));
        assert(buffer@ + le_bytes((rest / 256) as nat, (n - written - 1) as nat) =~= before
            + le_bytes(rest as nat, (n - written) as nat));
        rest = rest / 256;
        written += 1;
    }
    assert(le_bytes(rest as nat, 0) =~= Seq::<u8>::empty());
    assert(buffer@ + Seq::<u8>::empty() =~= buffer@);
}

/// Reads `n` bytes at `start` as a little-endian number.
pub fn read_le(buffer: &Vec<u8>, start: usize, n: usize) -> (value: u64)
    requires
        n <= 8,
        start + n <= buffer@.len(),
    ensures
        value as nat == le_value(buffer@.subrange(start as int, start + n)),
{
    let mut value: u64 = 0;
    let mut index: usize = n;
    proof {
        lemma_pow256_values();
    }
    while index > 0
        invariant
            index <= n,
            n <= 8,
            start + n <= buffer@.len(),
            pow256(8) == 0x1_0000_0000_0000_0000,
            value as nat == le_value(buffer@.subrange(start + index, start + n)),
        decreases index,
    {
        let ghost tail = buffer@.subrange(start + index, start + n);
        proof {
            lemma_le_value_bound(tail);
            lemma_pow256_mono(tail.len(), 7);
        }
        index -= 1;
        assert(start + n <= buffer.len());
        let byte = buffer[start + index];
        assert(value < pow256(7));
        assert(value * 256 + byte < 0x1_0000_0000_0000_0000) by (nonlinear_arith)
            requires
                value < pow256(7),
                pow256(7) * 256 == 0x1_0000_0000_0000_0000int,
                byte < 256,
        ;
        value = byte as u64 + 256 * value;
        let ghost whole = buffer@.subrange(start + index, start + n);
        assert(whole.drop_first() =~= tail);
    }
    value
}

pub proof fn lemma_pow256_mono(a: nat, b: nat)
    requires
        a <= b,
    ensures
        pow256(a) <= pow256(b),
    decreases b,
{
    if a < b {
        lemma_pow256_mono(a, (b - 1) as nat);
    }
}

/// Appends `bytes` to `buffer`.
pub fn append_bytes(buffer: &mut Vec<u8>, bytes: &[u8])
    ensures
        final(buffer)@ == old(buffer)@ + bytes@,
{
    let mut index: usize = 0;
    while index < bytes.len()
        invariant
            index <= bytes@.len(),
            buffer@ == old(buffer)@ + bytes@.take(index as int),
        decreases bytes@.len() - index,
    {
        buffer.push(bytes[index]);
        index += 1;
        assert(buffer@ =~= old(buffer)@ + bytes@.take(index as int));
    }
    assert(bytes@.take(bytes@.len() as int) =~= bytes@);
}

} // verus!
