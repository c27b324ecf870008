//! The parts of HTTP messages that describe an object and carry its bytes.
use vstd::prelude::*;

use crate::key::Md5Digest;

verus! {

pub const PLUS: u8 = 0x2b;

pub const DASH: u8 = 0x2d;

pub const SLASH: u8 = 0x2f;

pub const QUOTE: u8 = 0x22;

pub const ZERO: u8 = 0x30;

pub const NINE: u8 = 0x39;

pub const UPPER_A: u8 = 0x41;

pub const UPPER_F: u8 = 0x46;

pub const UPPER_W: u8 = 0x57;

pub const LOWER_A: u8 = 0x61;

pub const LOWER_F: u8 = 0x66;

/// The value of a digit in the given radix, ten at least and sixteen at most.
pub open spec fn digit_value(c: u8, radix: nat) -> Option<nat> {
    if ZERO <= c <= NINE {
        Some((c - ZERO) as nat)
    } else if radix == 16 && LOWER_A <= c <= LOWER_F {
        Some((c - LOWER_A + 10) as nat)
    } else if radix == 16 && UPPER_A <= c <= UPPER_F {
        Some((c - UPPER_A + 10) as nat)
    } else {
        None
    }
}

/// The number that the digits `s` spell, if they all are digits.
pub open spec fn digits_value(s: Seq<u8>, radix: nat) -> Option<nat>
    decreases s.len(),
{
    if s.len() == 0 {
        Some(0)
    } else {
        match (digits_value(s.drop_last(), radix), digit_value(s.last(), radix)) {
            (Some(v), Some(d)) => Some(v * radix + d),
            _ => None,
        }
    }
}

/// The number up to `max` that `s` spells: one digit at least, after a plus sign or not.
pub open spec fn number(s: Seq<u8>, radix: nat, max: nat) -> Option<nat> {
    let digits = if s.len() > 0 && s[0] == PLUS {
        s.drop_first()
    } else {
        s
    };
    if digits.len() == 0 {
        None
    } else {
        match digits_value(digits, radix) {
            Some(v) if v <= max => Some(v),
            _ => None,
        }
    }
}

/// More digits spell no smaller number.
proof fn lemma_prefix(s: Seq<u8>, k: int, radix: nat)
    requires
        0 <= k <= s.len(),
        radix > 0,
    ensures
        digits_value(s, radix) matches Some(v) ==> digits_value(s.take(k), radix) matches Some(u)
            && u <= v,
    decreases s.len(),
{
    if k == s.len() {
        assert(s.take(k) =~= s);
    } else {
        lemma_prefix(s.drop_last(), k, radix);
        assert(s.drop_last().take(k) =~= s.take(k));
        if let Some(v) = digits_value(s.drop_last(), radix) {
            assert(v <= v * radix) by (nonlinear_arith)
                requires
                    radix >= 1,
            ;
        }
    }
}

fn digit(c: u8, radix: u8) -> (r: Option<u8>)
    requires
        radix == 10 || radix == 16,
    ensures
        match r {
            Some(d) => digit_value(c, radix as nat) == Some(d as nat) && d < radix,
            None => digit_value(c, radix as nat) is None,
        },
{
    if ZERO <= c && c <= NINE {
        Some(c - ZERO)
    } else if radix == 16 && LOWER_A <= c && c <= LOWER_F {
        Some(c - LOWER_A + 10)
    } else if radix == 16 && UPPER_A <= c && c <= UPPER_F {
        Some(c - UPPER_A + 10)
    } else {
        None
    }
}

/// Reads a number of at most `max`.
fn parse(s: &[u8], radix: u8, max: u128) -> (r: Option<u128>)
    requires
        radix == 10 || radix == 16,
    ensures
        match number(s@, radix as nat, max as nat) {
            Some(v) => r matches Some(n) && n == v,
            None => r is None,
        },
{
    let skip: usize = if s.len() > 0 && s[0] == PLUS {
        1
    } else {
        0
    };
    let ghost digits = s@.skip(skip as int);
    proof {
        if skip == 0 {
            assert(digits =~= s@);
        } else {
            assert(digits =~= s@.drop_first());
        }
    }
    if skip == s.len() {
        return None;
    }
    let mut v: u128 = 0;
    let mut i: usize = skip;
    proof {
        assert(digits.take(0).len() == 0);
    }
    while i < s.len()
        invariant
            skip <= i <= s@.len(),
            radix == 10 || radix == 16,
            digits == s@.skip(skip as int),
            digits.len() > 0,
            number(s@, radix as nat, max as nat) == match digits_value(digits, radix as nat) {
                Some(v) if v <= max => Some(v),
                _ => None,
            },
            digits_value(digits.take(i - skip), radix as nat) == Some(v as nat),
            v <= max,
        decreases s@.len() - i,
    {
        proof {
            let t = digits.take(i - skip + 1);
            assert(t.drop_last() =~= digits.take(i - skip));
            assert(t.last() == s@[i as int]);
            lemma_prefix(digits, i - skip + 1, radix as nat);
        }
        let d: u8 = match digit(s[i], radix) {
            Some(d) => d,
            None => {
                return None;
            },
        };
        if d as u128 > max || v > (max - d as u128) / radix as u128 {
            proof {
                let room = max as int - d as int;
                if room >= 0 {
                    lemma_no_room(v as int, room, radix as int);
                } else {
                    assert(0 <= v * radix) by (nonlinear_arith);
                }
            }
            return None;
        }
        proof {
            lemma_room(v as int, max as int - d as int, radix as int);
        }
        v = v * radix as u128 + d as u128;
        i += 1;
    }
    assert(digits.take(i - skip) =~= digits);
    Some(v)
}

proof fn lemma_no_room(v: int, room: int, radix: int)
    requires
        radix > 0,
        room >= 0,
        v > room / radix,
    ensures
        v * radix > room,
{
    vstd::arithmetic::div_mod::lemma_fundamental_div_mod(room, radix);
    vstd::arithmetic::div_mod::lemma_mod_bound(room, radix);
    assert(v * radix >= (room / radix + 1) * radix) by (nonlinear_arith)
        requires
            v >= room / radix + 1,
            radix > 0,
    ;
    assert((room / radix + 1) * radix == radix * (room / radix) + radix) by (nonlinear_arith);
}

proof fn lemma_room(v: int, room: int, radix: int)
    requires
        radix > 0,
        room >= 0,
        0 <= v <= room / radix,
    ensures
        0 <= v * radix <= room,
{
    vstd::arithmetic::div_mod::lemma_fundamental_div_mod(room, radix);
    vstd::arithmetic::div_mod::lemma_mod_bound(room, radix);
    assert(v * radix <= (room / radix) * radix) by (nonlinear_arith)
        requires
            v <= room / radix,
            radix > 0,
    ;
    assert((room / radix) * radix == radix * (room / radix)) by (nonlinear_arith);
    assert(0 <= v * radix) by (nonlinear_arith)
        requires
            0 <= v,
            radix > 0,
    ;
}

/// `s` without the marks of a weak entity tag in front of it.
pub open spec fn strong(s: Seq<u8>) -> Seq<u8>
    decreases s.len(),
{
    if s.len() >= 2 && s[0] == UPPER_W && s[1] == SLASH {
        strong(s.skip(2))
    } else {
        s
    }
}

/// `s` without the quotes in front of it.
pub open spec fn unquoted_start(s: Seq<u8>) -> Seq<u8>
    decreases s.len(),
{
    if s.len() > 0 && s[0] == QUOTE {
        unquoted_start(s.drop_first())
    } else {
        s
    }
}

/// `s` without the quotes behind it.
pub open spec fn unquoted_end(s: Seq<u8>) -> Seq<u8>
    decreases s.len(),
{
    if s.len() > 0 && s.last() == QUOTE {
        unquoted_end(s.drop_last())
    } else {
        s
    }
}

/// The text of an entity tag.
pub open spec fn opaque_tag(s: Seq<u8>) -> Seq<u8> {
    unquoted_end(unquoted_start(strong(s)))
}

/// The digest that an entity tag names in hexadecimal digits, or zero.
pub open spec fn tag_digest(etag: Option<Seq<u8>>) -> Md5Digest {
    match etag {
        Some(s) => match number(opaque_tag(s), 16, u128::MAX as nat) {
            Some(n) => Md5Digest(n as u128),
            None => Md5Digest(0),
        },
        None => Md5Digest(0),
    }
}

/// The text of the entity tag `s`.
fn tag_text(s: &[u8]) -> (r: &[u8])
    ensures
        r@ == opaque_tag(s@),
{
    let mut lo: usize = 0;
    let mut hi: usize = s.len();
    proof {
        assert(s@.subrange(0, hi as int) =~= s@);
    }
    while hi - lo >= 2 && s[lo] == UPPER_W && s[lo + 1] == SLASH
        invariant
            lo <= hi == s@.len(),
            strong(s@.subrange(lo as int, hi as int)) == strong(s@),
        ensures
            lo <= hi == s@.len(),
            s@.subrange(lo as int, hi as int) == strong(s@),
        decreases hi - lo,
    {
        assert(s@.subrange(lo as int, hi as int).skip(2) =~= s@.subrange(lo + 2, hi as int));
        lo += 2;
    }
    while lo < hi && s[lo] == QUOTE
        invariant
            lo <= hi == s@.len(),
            unquoted_start(s@.subrange(lo as int, hi as int)) == unquoted_start(strong(s@)),
        ensures
            lo <= hi == s@.len(),
            s@.subrange(lo as int, hi as int) == unquoted_start(strong(s@)),
        decreases hi - lo,
    {
        assert(s@.subrange(lo as int, hi as int).drop_first() =~= s@.subrange(lo + 1, hi as int));
        lo += 1;
    }
    while lo < hi && s[hi - 1] == QUOTE
        invariant
            lo <= hi <= s@.len(),
            unquoted_end(s@.subrange(lo as int, hi as int)) == opaque_tag(s@),
        ensures
            lo <= hi <= s@.len(),
            s@.subrange(lo as int, hi as int) == opaque_tag(s@),
        decreases hi - lo,
    {
        assert(s@.subrange(lo as int, hi as int).drop_last() =~= s@.subrange(lo as int, hi - 1));
        hi -= 1;
    }
    vstd::slice::slice_subrange(s, lo, hi)
}

/// What a server says about an object.
#[derive(Copy, Clone, PartialEq, Eq, Structural, Debug)]
pub struct Object {
    /// Bytes of the object.
    pub size: usize,
    pub digest: Md5Digest,
}

/// The digest that the header `etag` names, or zero if it names none.
pub fn object_digest(etag: Option<&[u8]>) -> (r: Md5Digest)
    ensures
        r == tag_digest(
            match etag {
                Some(s) => Some(s@),
                None => None,
            },
        ),
{
    match etag {
        Some(s) => match parse(tag_text(s), 16, u128::MAX) {
            Some(n) => Md5Digest(n),
            None => Md5Digest(0),
        },
        None => Md5Digest(0),
    }
}

/// The object that the headers `content_length` and `etag` describe; there is none
/// without its length.
pub fn describe(content_length: Option<&[u8]>, etag: Option<&[u8]>) -> (r: Option<Object>)
    ensures
        match content_length {
            Some(s) => match number(s@, 10, usize::MAX as nat) {
                Some(n) => r matches Some(object) && object.size == n && object.digest
                    == tag_digest(
                    match etag {
                        Some(t) => Some(t@),
                        None => None,
                    },
                ),
                None => r is None,
            },
            None => r is None,
        },
{
    match content_length {
        Some(s) => match parse(s, 10, usize::MAX as u128) {
            Some(n) => Some(Object { size: n as usize, digest: object_digest(etag) }),
            None => None,
        },
        None => None,
    }
}

/// `n` in decimal digits.
pub open spec fn decimal(n: nat) -> Seq<u8>
    decreases n,
{
    if n < 10 {
        seq![(ZERO + n) as u8]
    } else {
        decimal(n / 10).push((ZERO + n % 10) as u8)
    }
}

/// The text `bytes=`.
pub open spec fn bytes_unit() -> Seq<u8> {
    seq![0x62u8, 0x79u8, 0x74u8, 0x65u8, 0x73u8, 0x3du8]
}

fn push_decimal(out: &mut Vec<u8>, n: usize)
    ensures
        final(out)@ == old(out)@ + decimal(n as nat),
    decreases n,
{
    if n >= 10 {
        push_decimal(out, n / 10);
    }
    out.push(ZERO + (n % 10) as u8);
    assert(out@ =~= old(out)@ + decimal(n as nat));
}

/// The value of a `Range` header that asks for the bytes from `first` to `last`, both included.
pub fn range_header(first: usize, last: usize) -> (r: Vec<u8>)
    ensures
        r@ == bytes_unit() + decimal(first as nat) + seq![DASH] + decimal(last as nat),
{
    let mut out: Vec<u8> = vec![0x62u8, 0x79u8, 0x74u8, 0x65u8, 0x73u8, 0x3du8];
    assert(out@ =~= bytes_unit());
    push_decimal(&mut out, first);
    out.push(DASH);
    push_decimal(&mut out, last);
    assert(out@ =~= bytes_unit() + decimal(first as nat) + seq![DASH] + decimal(last as nat));
    out
}

/// How far a buffer of `len` bytes is filled from the body of a response.
pub struct BodyFill {
    off: usize,
    len: usize,
    ended: bool,
}

impl BodyFill {
    /// Bytes filled.
    pub closed spec fn filled(&self) -> int {
        self.off as int
    }

    /// Bytes to fill.
    pub closed spec fn wanted(&self) -> int {
        self.len as int
    }

    /// The body has nothing more to give.
    pub closed spec fn has_ended(&self) -> bool {
        self.ended
    }

    pub open spec fn wf(&self) -> bool {
        0 <= self.filled() <= self.wanted() <= usize::MAX
    }

    pub fn new(len: usize) -> (r: BodyFill)
        ensures
            r.wf(),
            r.filled() == 0,
            r.wanted() == len,
            !r.has_ended(),
    {
        BodyFill { off: 0, len, ended: false }
    }

    /// Where the next bytes go.
    pub fn off(&self) -> (r: usize)
        ensures
            r == self.filled(),
    {
        self.off
    }

    /// Whether to read on.
    pub fn wants_more(&self) -> (r: bool)
        ensures
            r == (self.filled() < self.wanted() && !self.has_ended()),
    {
        self.off < self.len && !self.ended
    }

    /// Takes note of a read: of how many bytes it brought, or that it failed.
    pub fn take(&mut self, got: Option<usize>)
        requires
            old(self).wf(),
            got matches Some(n) ==> old(self).filled() + n <= old(self).wanted(),
        ensures
            final(self).wf(),
            final(self).wanted() == old(self).wanted(),
            match got {
                Some(n) => {
                    &&& final(self).filled() == old(self).filled() + n
                    &&& final(self).has_ended() == (old(self).has_ended() || n == 0)
                },
                None => {
                    &&& final(self).filled() == old(self).filled()
                    &&& final(self).has_ended()
                },
            },
    {
        match got {
            Some(n) => {
                if n == 0 {
                    self.ended = true;
                } else {
                    self.off = self.off + n;
                }
            },
            None => {
                self.ended = true;
            },
        }
    }

    /// Clears what was not filled.
    pub fn finish(&self, buf: &mut [u8])
        requires
            self.wf(),
            old(buf)@.len() == self.wanted(),
        ensures
            final(buf)@ == Seq::new(
                old(buf)@.len(),
                |i: int|
                    if i < self.filled() {
                        old(buf)@[i]
                    } else {
                        0u8
                    },
            ),
    {
        let mut i: usize = self.off;
        while i < self.len
            invariant
                self.off <= i <= self.len,
                buf@.len() == old(buf)@.len() == self.len,
                forall|j: int|
                    0 <= j < buf@.len() ==> #[trigger] buf@[j] == if self.off <= j < i {
                        0u8
                    } else {
                        old(buf)@[j]
                    },
            decreases self.len - i,
        {
            buf[i] = 0;
            i += 1;
        }
        assert(buf@ =~= Seq::new(
            old(buf)@.len(),
            |i: int|
                if i < self.filled() {
                    old(buf)@[i]
                } else {
                    0u8
                },
        ));
    }
}

} // verus!
