//! Little-endian numbers inside byte strings.
use vstd::prelude::*;

verus! {

/// How many numbers `width` bytes can tell apart.
pub open spec fn span(width: nat) -> nat
    decreases width,
{
    if width == 0 {
        1
    } else {
        256 * span((width - 1) as nat)
    }
}

/// The lowest `width` bytes of a number, the lowest first.
pub open spec fn le(n: nat, width: nat) -> Seq<u8>
    decreases width,
{
    if width == 0 {
        Seq::empty()
    } else {
        seq![(n % 256) as u8] + le(n / 256, (width - 1) as nat)
    }
}

/// The number that bytes spell, the lowest byte first.
pub open spec fn number(bytes: Seq<u8>) -> nat
    decreases bytes.len(),
{
    if bytes.len() == 0 {
        0
    } else {
        bytes[0] as nat + 256 * number(bytes.skip(1))
    }
}

/// The number that `width` bytes spell from `at` on.
pub open spec fn number_at(bytes: Seq<u8>, at: int, width: nat) -> nat {
    number(bytes.subrange(at, at + width))
}

/// A number takes as many bytes as asked for.
pub proof fn lemma_le_len(n: nat, width: nat)
    ensures
        le(n, width).len() == width,
    decreases width,
{
    if width > 0 {
        lemma_le_len(n / 256, (width - 1) as nat);
    }
}

/// What is written is what is read, of every number that fits.
pub proof fn written_number_is_read(n: nat, width: nat)
    requires
        n < span(width),
    ensures
        le(n, width).len() == width,
        number(le(n, width)) == n,
    decreases width,
{
    if width > 0 {
        written_number_is_read(n / 256, (width - 1) as nat);
        let rest = le(n / 256, (width - 1) as nat);
        assert(le(n, width).skip(1) =~= rest);
    }
}

/// A byte string spells a number that fits its width.
pub proof fn lemma_number_bound(bytes: Seq<u8>)
    ensures
        number(bytes) < span(bytes.len()),
    decreases bytes.len(),
{
    if bytes.len() > 0 {
        lemma_number_bound(bytes.skip(1));
    }
}

/// The spans the formats use.
pub proof fn lemma_spans()
    ensures
        span(1) == 0x100,
        span(4) == 0x1_0000_0000,
        span(8) == 0x1_0000_0000_0000_0000,
{
    reveal_with_fuel(span, 9);
}

/// A number written into the middle of a byte string is read from there.
pub proof fn lemma_number_inside(before: Seq<u8>, n: nat, width: nat, after: Seq<u8>)
    requires
        n < span(width),
    ensures
        number_at(before + le(n, width) + after, before.len() as int, width) == n,
{
    written_number_is_read(n, width);
    let all = before + le(n, width) + after;
    assert(all.subrange(before.len() as int, (before.len() + width) as int) =~= le(n, width));
}

/// Appends the lowest `width` bytes of `n`.
pub fn put(buf: &mut Vec<u8>, n: u64, width: usize)
    ensures
        final(buf)@ == old(buf)@ + le(n as nat, width as nat),
{
    let ghost start = buf@;
    let mut left: u64 = n;
    let mut i: usize = 0;
    while i < width
        invariant
            i <= width,
            buf@ + le(left as nat, (width - i) as nat) == start + le(n as nat, width as nat),
        decreases width - i,
    {
        let ghost before = buf@;
        let low: u8 = (left % 256) as u8;
        buf.push(low);
        proof {
            let w = (width - i) as nat;
            assert(le(left as nat, w) == seq![low] + le((left / 256) as nat, (w - 1) as nat));
            assert(buf@ + le((left / 256) as nat, (w - 1) as nat) =~= before + le(left as nat, w));
        }
        left = left / 256;
        i = i + 1;
    }
    assert(buf@ + le(left as nat, 0) =~= buf@);
}

/// Reads the number that `width` bytes spell from `at` on.
pub fn take(bytes: &Vec<u8>, at: usize, width: usize) -> (r: u64)
    requires
        at + width <= bytes@.len(),
        width <= 8,
    ensures
        r == number_at(bytes@, at as int, width as nat),
        r < span(width as nat),
{
    let ghost all = bytes@.subrange(at as int, at + width);
    proof {
        lemma_number_bound(all);
        lemma_spans();
    }
    let mut total: u64 = 0;
    let mut i: usize = width;
    assert(all.skip(width as int) =~= Seq::<u8>::empty());
    while i > 0
        invariant
            i <= width <= 8,
            at + width <= bytes.len(),
            all == bytes@.subrange(at as int, at + width),
            total == number(all.skip(i as int)),
        decreases i,
    {
        proof {
            lemma_number_bound(all.skip(i as int));
            lemma_number_bound(all.skip(i - 1));
            assert(all.skip(i - 1).skip(1) =~= all.skip(i as int));
            lemma_spans();
            lemma_span_grows(all.skip(i - 1).len(), 8);
        }
        i = i - 1;
        total = total * 256 + bytes[at + i] as u64;
    }
    assert(all.skip(0) =~= all);
    total
}

proof fn lemma_span_grows(a: nat, b: nat)
    requires
        a <= b,
    ensures
        1 <= span(a) <= span(b),
    decreases b,
{
    if a < b {
        lemma_span_grows(a, (b - 1) as nat);
    } else if b > 0 {
        lemma_span_grows((a - 1) as nat, (b - 1) as nat);
    }
}

/// Appends bytes.
pub fn append(buf: &mut Vec<u8>, more: &Vec<u8>)
    ensures
        final(buf)@ == old(buf)@ + more@,
{
    let ghost start = buf@;
    let mut i: usize = 0;
    while i < more.len()
        invariant
            i <= more@.len(),
            buf@ == start + more@.take(i as int),
        decreases more.len() - i,
    {
        buf.push(more[i]);
        assert(more@.take(i + 1) =~= more@.take(i as int).push(more@[i as int]));
        i = i + 1;
    }
    assert(more@.take(i as int) =~= more@);
}

/// The bytes of `bytes` from `at` up to `end`.
pub fn slice(bytes: &Vec<u8>, at: usize, end: usize) -> (r: Vec<u8>)
    requires
        at <= end <= bytes@.len(),
    ensures
        r@ == bytes@.subrange(at as int, end as int),
{
    let mut out: Vec<u8> = Vec::new();
    let mut i: usize = at;
    while i < end
        invariant
            at <= i <= end <= bytes@.len(),
            out@ == bytes@.subrange(at as int, i as int),
        decreases end - i,
    {
        out.push(bytes[i]);
        i = i + 1;
        assert(out@ =~= bytes@.subrange(at as int, i as int));
    }
    out
}

} // verus!
