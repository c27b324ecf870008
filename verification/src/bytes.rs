//! Little-endian integers inside a byte slice.
use vstd::prelude::*;

verus! {

/// The number that `s` spells, least significant byte first.
pub open spec fn le(s: Seq<u8>) -> nat
    decreases s.len(),
{
    if s.len() == 0 {
        0
    } else {
        s[0] as nat + 256 * le(s.drop_first())
    }
}

/// How many values fit in `width` bytes.
pub open spec fn span(width: nat) -> nat
    decreases width,
{
    if width == 0 {
        1
    } else {
        256 * span((width - 1) as nat)
    }
}

/// The number stored in the `width` bytes of `s` at `off`.
pub open spec fn field(s: Seq<u8>, off: int, width: int) -> nat {
    le(s.subrange(off, off + width))
}

/// `b` differs from `a` at most in the `width` bytes at `off`.
pub open spec fn differs_only_at(a: Seq<u8>, b: Seq<u8>, off: int, width: int) -> bool {
    &&& a.len() == b.len()
    &&& forall|i: int| 0 <= i < a.len() && !(off <= i < off + width) ==> #[trigger] b[i] == a[i]
}

pub proof fn lemma_spans()
    ensures
        span(1) == 0x100,
        span(2) == 0x1_0000,
        span(4) == 0x1_0000_0000,
        span(8) == 0x1_0000_0000_0000_0000,
        span(16) == 0x1_0000_0000_0000_0000_0000_0000_0000_0000,
{
    reveal_with_fuel(span, 17);
}

pub proof fn lemma_span_monotone(a: nat, b: nat)
    requires
        a <= b,
    ensures
        span(a) <= span(b),
    decreases b,
{
    if a < b {
        lemma_span_monotone(a, (b - 1) as nat);
    }
}

pub proof fn lemma_zeros(s: Seq<u8>)
    requires
        forall|i: int| 0 <= i < s.len() ==> #[trigger] s[i] == 0,
    ensures
        le(s) == 0,
    decreases s.len(),
{
    if s.len() > 0 {
        lemma_zeros(s.drop_first());
    }
}

/// Every number stored clear of the changed bytes is kept.
pub proof fn lemma_field_frame(a: Seq<u8>, b: Seq<u8>, off: int, width: int)
    requires
        differs_only_at(a, b, off, width),
    ensures
        forall|x: int, w: int|
            0 <= x && 0 <= w && x + w <= a.len() && (x + w <= off || off + width <= x)
                ==> #[trigger] field(b, x, w) == field(a, x, w),
{
    assert forall|x: int, w: int|
        0 <= x && 0 <= w && x + w <= a.len() && (x + w <= off || off + width <= x) implies
        #[trigger] field(b, x, w) == field(a, x, w) by {
        assert(b.subrange(x, x + w) =~= a.subrange(x, x + w));
    }
}

/// Reads the `width`-byte number at `off`.
pub fn load(s: &[u8], off: usize, width: usize) -> (r: u128)
    requires
        off + width <= s@.len(),
        width <= 16,
    ensures
        r == field(s@, off as int, width as int),
        r < span(width as nat),
    decreases width,
{
    if width == 0 {
        0
    } else {
        assert(s@.len() == s.len());
        let rest: u128 = load(s, off + 1, width - 1);
        proof {
            assert(s@.subrange(off as int, off + width).drop_first() =~= s@.subrange(
                off + 1,
                off + width,
            ));
            lemma_spans();
            lemma_span_monotone(width as nat, 16);
        }
        s[off] as u128 + 256 * rest
    }
}

/// Writes `v` into the `width` bytes at `off`.
pub fn store(s: &mut [u8], off: usize, width: usize, v: u128)
    requires
        off + width <= old(s)@.len(),
        v < span(width as nat),
    ensures
        field(final(s)@, off as int, width as int) == v,
        differs_only_at(old(s)@, final(s)@, off as int, width as int),
    decreases width,
{
    if width > 0 {
        s[off] = (v % 256) as u8;
        store(s, off + 1, width - 1, v / 256);
        proof {
            assert(s@.subrange(off as int, off + width).drop_first() =~= s@.subrange(
                off + 1,
                off + width,
            ));
        }
    }
}

} // verus!
