//! How the numbers and tags of HTTP messages are read and written.
use vstd::prelude::*;

use crate::key::Md5Digest;
use crate::s3;

verus! {

/// The number with the digits `ds`, the most significant first.
pub open spec fn numeral(ds: Seq<nat>, radix: nat) -> nat
    decreases ds.len(),
{
    if ds.len() == 0 {
        0
    } else {
        numeral(ds.drop_last(), radix) * radix + ds.last()
    }
}

/// The character for the digit `d`: `0` to `9`, then `a` to `f` or `A` to `F`.
pub open spec fn glyph(d: nat, upper: bool) -> int {
    if d < 10 {
        48 + d as int
    } else if upper {
        65 + (d - 10)
    } else {
        97 + (d - 10)
    }
}

/// `s` spells the digits `ds`, each in either case.
pub open spec fn spells(s: Seq<u8>, ds: Seq<nat>, radix: nat) -> bool {
    &&& s.len() == ds.len()
    &&& forall|k: int|
        #![trigger s[k]]
        #![trigger ds[k]]
        0 <= k < s.len() ==> ds[k] < radix && (s[k] == glyph(ds[k], true) || s[k] == glyph(
            ds[k],
            false,
        ))
}

/// `c` is the character of no digit.
pub open spec fn no_digit(c: u8, radix: nat) -> bool {
    forall|d: nat|
        #![trigger glyph(d, true)]
        d < radix ==> c != glyph(d, true) && c != glyph(d, false)
}

proof fn lemma_digits(s: Seq<u8>, ds: Seq<nat>, radix: nat)
    requires
        radix == 10 || radix == 16,
        spells(s, ds, radix),
    ensures
        s3::digits_value(s, radix) == Some(numeral(ds, radix)),
    decreases s.len(),
{
    if s.len() > 0 {
        let k = s.len() - 1;
        assert(ds[k] < radix);
        assert(s3::digit_value(s[k], radix) == Some(ds[k]));
        assert forall|j: int| 0 <= j < s.drop_last().len() implies ds.drop_last()[j] < radix && (
        #[trigger] s.drop_last()[j] == glyph(ds.drop_last()[j], true) || s.drop_last()[j] == glyph(
            ds.drop_last()[j],
            false,
        )) by {
            assert(s[j] == s.drop_last()[j]);
            assert(ds[j] < radix);
        }
        lemma_digits(s.drop_last(), ds.drop_last(), radix);
    }
}

proof fn lemma_bad_digit(s: Seq<u8>, radix: nat, k: int)
    requires
        radix == 10 || radix == 16,
        0 <= k < s.len(),
        no_digit(s[k], radix),
    ensures
        s3::digits_value(s, radix) is None,
    decreases s.len(),
{
    if k == s.len() - 1 {
        if let Some(d) = s3::digit_value(s[k], radix) {
            assert(s[k] == glyph(d, true) || s[k] == glyph(d, false));
        }
    } else {
        lemma_bad_digit(s.drop_last(), radix, k);
    }
}

/// Digits in either case, with as many zeros in front as one likes and a plus sign or none,
/// are read as the number that they spell, and as nothing if it is above the limit.
pub proof fn law_number(s: Seq<u8>, ds: Seq<nat>, radix: nat, max: nat)
    requires
        radix == 10 || radix == 16,
        spells(s, ds, radix),
        s.len() > 0,
    ensures
        numeral(ds, radix) <= max ==> s3::number(s, radix, max) == Some(numeral(ds, radix)),
        numeral(ds, radix) > max ==> s3::number(s, radix, max) is None,
        s3::number(seq![43u8] + s, radix, max) == s3::number(s, radix, max),
{
    lemma_digits(s, ds, radix);
    assert(ds[0] < radix);
    assert(s[0] == glyph(ds[0], true) || s[0] == glyph(ds[0], false));
    assert((seq![43u8] + s).drop_first() =~= s);
}

/// What holds a character that is no digit is not read as a number, be it a sign in another
/// place than the first; nor is nothing, or a sign alone.
pub proof fn law_no_number(s: Seq<u8>, radix: nat, max: nat, k: int)
    requires
        radix == 10 || radix == 16,
        0 <= k < s.len(),
        no_digit(s[k], radix),
        k > 0 || s[0] != 43,
    ensures
        s3::number(s, radix, max) is None,
        s3::number(seq![43u8] + s, radix, max) is None,
        s3::number(Seq::empty(), radix, max) is None,
        s3::number(seq![43u8], radix, max) is None,
{
    lemma_bad_digit(s, radix, k);
    if s[0] == 43 {
        assert(s.drop_first()[k - 1] == s[k]);
        lemma_bad_digit(s.drop_first(), radix, k - 1);
    }
    assert((seq![43u8] + s).drop_first() =~= s);
    assert(seq![43u8].drop_first() =~= Seq::<u8>::empty());
}

/// `n` quotes.
pub open spec fn quotes(n: nat) -> Seq<u8> {
    Seq::new(n, |i: int| 34u8)
}

/// `n` marks of a weak tag, each a `W` and a slash.
pub open spec fn weak_marks(n: nat) -> Seq<u8> {
    Seq::new(
        2 * n,
        |i: int|
            if i % 2 == 0 {
                87u8
            } else {
                47u8
            },
    )
}

proof fn lemma_strong(n: nat, t: Seq<u8>)
    requires
        !(t.len() >= 2 && t[0] == 87 && t[1] == 47),
    ensures
        s3::strong(weak_marks(n) + t) == t,
    decreases n,
{
    let s = weak_marks(n) + t;
    if n == 0 {
        assert(s =~= t);
    } else {
        assert(s.skip(2) =~= weak_marks((n - 1) as nat) + t);
        lemma_strong((n - 1) as nat, t);
    }
}

proof fn lemma_unquoted_start(n: nat, t: Seq<u8>)
    requires
        t.len() > 0 ==> t[0] != 34,
    ensures
        s3::unquoted_start(quotes(n) + t) == t,
    decreases n,
{
    let s = quotes(n) + t;
    if n == 0 {
        assert(s =~= t);
    } else {
        assert(s.drop_first() =~= quotes((n - 1) as nat) + t);
        lemma_unquoted_start((n - 1) as nat, t);
    }
}

proof fn lemma_unquoted_end(n: nat, t: Seq<u8>)
    requires
        t.len() > 0 ==> t.last() != 34,
    ensures
        s3::unquoted_end(t + quotes(n)) == t,
    decreases n,
{
    let s = t + quotes(n);
    if n == 0 {
        assert(s =~= t);
    } else {
        assert(s.drop_last() =~= t + quotes((n - 1) as nat));
        lemma_unquoted_end((n - 1) as nat, t);
    }
}

/// A tag is the text between its quotes, behind the marks of a weak tag.
pub proof fn law_tag_text(t: Seq<u8>, weak: nat, front: nat, back: nat)
    requires
        t.len() > 0,
        t[0] != 34,
        t.last() != 34,
        front > 0 || !(t.len() >= 2 && t[0] == 87 && t[1] == 47),
    ensures
        s3::opaque_tag(weak_marks(weak) + quotes(front) + t + quotes(back)) == t,
{
    let inner = quotes(front) + (t + quotes(back));
    assert(weak_marks(weak) + quotes(front) + t + quotes(back) =~= weak_marks(weak) + inner);
    if front > 0 {
        assert(inner[0] == 34);
    } else {
        assert(inner =~= t + quotes(back));
        if t.len() == 1 && back > 0 {
            assert(inner[1] == 34);
        }
    }
    lemma_strong(weak, inner);
    lemma_unquoted_start(front, t + quotes(back));
    lemma_unquoted_end(back, t);
}

/// The digest of a tag is the hexadecimal number that its text is read as, and zero if it is
/// none.
pub proof fn law_tag_number(t: Seq<u8>, weak: nat, front: nat, back: nat)
    requires
        t.len() > 0,
        t[0] != 34,
        t.last() != 34,
        front > 0 || !(t.len() >= 2 && t[0] == 87 && t[1] == 47),
    ensures
        s3::tag_digest(Some(weak_marks(weak) + quotes(front) + t + quotes(back))).0 == match s3::number(
            t,
            16,
            u128::MAX as nat,
        ) {
            Some(n) => n,
            None => 0,
        },
{
    law_tag_text(t, weak, front, back);
}

/// A digest in hexadecimal digits, in either case, with zeros in front or without, quoted or
/// not, weak or not, is read back; so that tags of different digests name different ones.
pub proof fn law_digest(s: Seq<u8>, ds: Seq<nat>, weak: nat, front: nat, back: nat)
    requires
        spells(s, ds, 16),
        s.len() > 0,
        numeral(ds, 16) <= u128::MAX,
    ensures
        s3::tag_digest(Some(weak_marks(weak) + quotes(front) + s + quotes(back))) == Md5Digest(
            numeral(ds, 16) as u128,
        ),
{
    assert(ds[0] < 16 && ds[s.len() - 1] < 16);
    assert(s[0] == glyph(ds[0], true) || s[0] == glyph(ds[0], false));
    let k = s.len() - 1;
    assert(s[k] == glyph(ds[k], true) || s[k] == glyph(ds[k], false));
    law_tag_text(s, weak, front, back);
    law_number(s, ds, 16, u128::MAX as nat);
}

/// A tag whose text is no number names the digest zero; so does an empty one, and none at all.
pub proof fn law_no_digest(t: Seq<u8>, weak: nat, front: nat, back: nat, k: int)
    requires
        t.len() > 0,
        t[0] != 34,
        t.last() != 34,
        front > 0 || !(t.len() >= 2 && t[0] == 87 && t[1] == 47),
        0 <= k < t.len(),
        no_digit(t[k], 16),
        k > 0 || t[0] != 43,
    ensures
        s3::tag_digest(Some(weak_marks(weak) + quotes(front) + t + quotes(back))) == Md5Digest(0),
        s3::tag_digest(Some(weak_marks(weak) + quotes(front))) == Md5Digest(0),
        s3::tag_digest(None) == Md5Digest(0),
{
    law_tag_text(t, weak, front, back);
    law_no_number(t, 16, u128::MAX as nat, k);
    let q = quotes(front);
    if front > 0 {
        assert(q[0] == 34);
    }
    lemma_strong(weak, q);
    assert(q =~= q + Seq::empty());
    lemma_unquoted_start(front, Seq::empty());
}

/// A tag that spells a number above every digest names the digest zero.
pub proof fn law_long_digest(s: Seq<u8>, ds: Seq<nat>, weak: nat, front: nat, back: nat)
    requires
        spells(s, ds, 16),
        s.len() > 0,
        numeral(ds, 16) > u128::MAX,
    ensures
        s3::tag_digest(Some(weak_marks(weak) + quotes(front) + s + quotes(back))) == Md5Digest(0),
{
    assert(ds[0] < 16 && ds[s.len() - 1] < 16);
    assert(s[0] == glyph(ds[0], true) || s[0] == glyph(ds[0], false));
    let k = s.len() - 1;
    assert(s[k] == glyph(ds[k], true) || s[k] == glyph(ds[k], false));
    law_tag_text(s, weak, front, back);
    law_number(s, ds, 16, u128::MAX as nat);
}

/// The digits that decimal characters stand for.
pub open spec fn digits_of(s: Seq<u8>) -> Seq<nat> {
    Seq::new(s.len(), |k: int| (s[k] - 48) as nat)
}

/// A number is written in the characters `0` to `9`, which spell it, without a zero in front.
pub proof fn law_written(n: nat)
    ensures
        s3::decimal(n).len() > 0,
        forall|k: int| 0 <= k < s3::decimal(n).len() ==> 48 <= #[trigger] s3::decimal(n)[k] <= 57,
        numeral(digits_of(s3::decimal(n)), 10) == n,
        n > 0 ==> s3::decimal(n)[0] != 48,
        n == 0 ==> s3::decimal(n).len() == 1,
    decreases n,
{
    let s = s3::decimal(n);
    let ds = digits_of(s);
    if n < 10 {
        assert(s =~= seq![(48 + n) as u8]);
        assert(ds.drop_last() =~= Seq::empty());
        assert(numeral(ds.drop_last(), 10) == 0);
    } else {
        law_written(n / 10);
        assert(ds.drop_last() =~= digits_of(s3::decimal(n / 10)));
        assert(s[0] == s3::decimal(n / 10)[0]);
        assert forall|k: int| 0 <= k < s.len() implies 48 <= #[trigger] s[k] <= 57 by {
            if k < s.len() - 1 {
                assert(s[k] == s3::decimal(n / 10)[k]);
            }
        }
    }
}

/// A range of bytes is asked for as `bytes=`, the first one, a dash and the last one, so that
/// different ranges are asked for differently.
pub proof fn law_range_text(first: nat, last: nat, header: Seq<u8>)
    requires
        header == s3::bytes_unit() + s3::decimal(first) + seq![s3::DASH] + s3::decimal(last),
    ensures
        header.take(6) == seq![98u8, 121u8, 116u8, 101u8, 115u8, 61u8],
        ({
            let dash = 6 + s3::decimal(first).len() as int;
            &&& header[dash] == 45
            &&& forall|k: int| 6 <= k < dash ==> 48 <= #[trigger] header[k] <= 57
            &&& forall|k: int| dash < k < header.len() ==> 48 <= #[trigger] header[k] <= 57
            &&& numeral(digits_of(header.subrange(6, dash)), 10) == first
            &&& numeral(digits_of(header.skip(dash + 1)), 10) == last
        }),
{
    law_written(first);
    law_written(last);
    let a = s3::decimal(first);
    let b = s3::decimal(last);
    let dash = 6 + a.len() as int;
    assert(header.take(6) =~= s3::bytes_unit());
    assert(header.subrange(6, dash) =~= a);
    assert(header.skip(dash + 1) =~= b);
    assert forall|k: int| 6 <= k < dash implies 48 <= #[trigger] header[k] <= 57 by {
        assert(header[k] == a[k - 6]);
    }
    assert forall|k: int| dash < k < header.len() implies 48 <= #[trigger] header[k] <= 57 by {
        assert(header[k] == b[k - dash - 1]);
    }
}

} // verus!
