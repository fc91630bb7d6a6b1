//! Little-endian integers, as every structure a program shares with the
//! kernel carries them.

use vstd::prelude::*;

verus! {

/// The number the bytes of `s` spell, least significant byte first.
pub open spec fn le_value(s: Seq<u8>) -> nat
    decreases s.len(),
{
    if s.len() == 0 {
        0
    } else {
        s[0] as nat + 256 * le_value(s.skip(1))
    }
}

/// The low `n` bytes of `v`, least significant byte first.
pub open spec fn le_bytes(v: nat, n: nat) -> Seq<u8>
    decreases n,
{
    if n == 0 {
        Seq::empty()
    } else {
        seq![(v % 256) as u8] + le_bytes(v / 256, (n - 1) as nat)
    }
}

/// `256` to the power `n`: how many values `n` bytes can spell.
pub open spec fn byte_span(n: nat) -> nat
    decreases n,
{
    if n == 0 {
        1
    } else {
        256 * byte_span((n - 1) as nat)
    }
}

/// The spans of the widths the structures use.
pub proof fn lemma_byte_spans()
    ensures
        byte_span(0) == 1,
        byte_span(1) == 0x100,
        byte_span(2) == 0x1_0000,
        byte_span(4) == 0x1_0000_0000,
        byte_span(8) == 0x1_0000_0000_0000_0000,
{
    reveal_with_fuel(byte_span, 9);
}

/// Encoding gives as many bytes as asked for.
pub proof fn lemma_le_bytes_len(v: nat, n: nat)
    ensures
        le_bytes(v, n).len() == n,
    decreases n,
{
    if n > 0 {
        lemma_le_bytes_len(v / 256, (n - 1) as nat);
    }
}

/// Bytes spell a number below their span.
pub proof fn lemma_le_value_bound(s: Seq<u8>)
    ensures
        le_value(s) < byte_span(s.len()),
    decreases s.len(),
{
    if s.len() > 0 {
        lemma_le_value_bound(s.skip(1));
    }
}

/// A number that fits `n` bytes is read back from its encoding.
pub proof fn lemma_le_round_trip(v: nat, n: nat)
    requires
        v < byte_span(n),
    ensures
        le_bytes(v, n).len() == n,
        le_value(le_bytes(v, n)) == v,
    decreases n,
{
    lemma_le_bytes_len(v, n);
    if n > 0 {
        lemma_le_round_trip(v / 256, (n - 1) as nat);
        assert(le_bytes(v, n).skip(1) =~= le_bytes(v / 256, (n - 1) as nat));
    }
}

/// The low `n` bytes of `v`, least significant first.
pub fn le_encode(v: u64, n: usize) -> (out: Vec<u8>)
    ensures
        out@ == le_bytes(v as nat, n as nat),
        out@.len() == n,
{
    let mut out: Vec<u8> = Vec::new();
    let mut rest: u64 = v;
    let mut i: usize = 0;
    while i < n
        invariant
            i <= n,
            out@.len() == i,
            out@ + le_bytes(rest as nat, (n - i) as nat) == le_bytes(v as nat, n as nat),
        decreases n - i,
    {
        let ghost before = out@;
        out.push((rest % 256) as u8);
        proof {
            let tail = le_bytes(rest as nat / 256, (n - i - 1) as nat);
            assert(before + (seq![(rest as nat % 256) as u8] + tail) =~= out@ + tail);
        }
        rest = rest / 256;
        i = i + 1;
    }
    proof {
        assert(out@ + Seq::<u8>::empty() =~= out@);
    }
    out
}

/// What up to eight bytes spell, least significant first.
pub fn le_decode(s: &[u8]) -> (v: u64)
    requires
        s@.len() <= 8,
    ensures
        v == le_value(s@),
{
    let mut v: u64 = 0;
    let mut i: usize = s.len();
    proof {
        assert(s@.skip(s@.len() as int) =~= Seq::<u8>::empty());
    }
    while i > 0
        invariant
            i <= s@.len() <= 8,
            v == le_value(s@.skip(i as int)),
        decreases i,
    {
        i = i - 1;
        proof {
            let rest = s@.skip(i as int);
            assert(rest.skip(1) =~= s@.skip(i as int + 1));
            lemma_le_value_bound(rest);
            lemma_span_grows(rest.len(), 8);
            lemma_byte_spans();
        }
        v = v * 256 + s[i] as u64;
    }
    proof {
        assert(s@.skip(0) =~= s@);
    }
    v
}

/// More bytes spell at least as many values.
pub proof fn lemma_span_grows(a: nat, b: nat)
    requires
        a <= b,
    ensures
        1 <= byte_span(a) <= byte_span(b),
    decreases b,
{
    if a < b {
        lemma_span_grows(a, (b - 1) as nat);
    } else if a > 0 {
        lemma_span_grows((a - 1) as nat, (a - 1) as nat);
    }
}

/// `bytes` with `data` at `at`.
pub open spec fn overlaid(bytes: Seq<u8>, at: int, data: Seq<u8>) -> Seq<u8> {
    Seq::new(
        bytes.len(),
        |i: int|
            if at <= i < at + data.len() {
                data[i - at]
            } else {
                bytes[i]
            },
    )
}

/// What was laid over is found where it was laid, and nothing else changed.
pub proof fn lemma_overlaid(bytes: Seq<u8>, at: int, data: Seq<u8>, from: int, len: int)
    requires
        0 <= at,
        at + data.len() <= bytes.len(),
        0 <= from,
        0 <= len,
        from + len <= bytes.len(),
    ensures
        overlaid(bytes, at, data).len() == bytes.len(),
        from == at && len == data.len() ==> overlaid(bytes, at, data).subrange(from, from + len)
            == data,
        from + len <= at || at + data.len() <= from ==> overlaid(bytes, at, data).subrange(
            from,
            from + len,
        ) == bytes.subrange(from, from + len),
{
    if from == at && len == data.len() {
        assert(overlaid(bytes, at, data).subrange(from, from + len) =~= data);
    }
    if from + len <= at || at + data.len() <= from {
        assert(overlaid(bytes, at, data).subrange(from, from + len) =~= bytes.subrange(
            from,
            from + len,
        ));
    }
}

/// Lay `data` over `bytes` at `at`.
pub fn lay_over(bytes: &mut Vec<u8>, at: usize, data: &[u8])
    requires
        at + data@.len() <= old(bytes)@.len(),
    ensures
        final(bytes)@ == overlaid(old(bytes)@, at as int, data@),
{
    let ghost before = bytes@;
    let _fits: usize = bytes.len();
    let mut i: usize = 0;
    assert(bytes@ =~= overlaid(before, at as int, data@.take(0)));
    while i < data.len()
        invariant
            i <= data@.len(),
            at + data@.len() <= before.len() <= usize::MAX,
            bytes@.len() == before.len(),
            bytes@ == overlaid(before, at as int, data@.take(i as int)),
        decreases data@.len() - i,
    {
        bytes.set(at + i, data[i]);
        i = i + 1;
        assert(bytes@ =~= overlaid(before, at as int, data@.take(i as int)));
    }
    assert(data@.take(data@.len() as int) =~= data@);
}

/// A number's bytes are laid down lowest first.
pub proof fn law_the_lowest_byte_is_first(v: nat)
    ensures
        le_bytes(v, 4).len() == 4,
        le_bytes(v, 4)[0] == v % 256,
        le_bytes(v, 4)[1] == v / 256 % 256,
        le_bytes(v, 4)[2] == v / 65_536 % 256,
        le_bytes(v, 4)[3] == v / 16_777_216 % 256,
        le_bytes(v, 2).len() == 2,
        le_bytes(v, 2)[0] == v % 256,
        le_bytes(v, 2)[1] == v / 256 % 256,
{
    lemma_le_bytes_len(v, 4);
    lemma_le_bytes_len(v, 2);
    reveal_with_fuel(le_bytes, 5);
}

/// Bytes are worth a number lowest first.
pub proof fn law_bytes_are_worth_their_place(a: u8, b: u8, c: u8, d: u8)
    ensures
        le_value(seq![a, b]) == a + 256 * b,
        le_value(seq![a, b, c, d]) == a + 256 * b + 65_536 * c + 16_777_216 * d,
{
    reveal_with_fuel(le_value, 5);
    let four = seq![a, b, c, d];
    assert(four.skip(1) =~= seq![b, c, d]);
    assert(four.skip(1).skip(1) =~= seq![c, d]);
    assert(four.skip(1).skip(1).skip(1) =~= seq![d]);
    assert(four.skip(1).skip(1).skip(1).skip(1) =~= Seq::<u8>::empty());
    let two = seq![a, b];
    assert(two.skip(1) =~= seq![b]);
    assert(two.skip(1).skip(1) =~= Seq::<u8>::empty());
}

/// Laying bytes over others changes those, and no other.
pub proof fn law_laying_over_changes_its_own_place(bytes: Seq<u8>, at: int, data: Seq<u8>, i: int)
    requires
        0 <= at,
        at + data.len() <= bytes.len(),
    ensures
        overlaid(bytes, at, data).len() == bytes.len(),
        0 <= i < data.len() ==> overlaid(bytes, at, data)[at + i] == data[i],
        0 <= i < bytes.len() && (i < at || at + data.len() <= i) ==> overlaid(bytes, at, data)[i]
            == bytes[i],
{
}

} // verus!
