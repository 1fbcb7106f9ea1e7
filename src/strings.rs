//! String literals: their bytes read as a big-endian number, and numbers written
//! back as bytes.
use crate::number::{
    abs, be_value, big_from_bytes_be, big_to_bytes_be, big_is_zero, int_value, ratio_from_integer,
    ratio_parts, valid_q,
};
use num_bigint::BigInt;
use num_rational::BigRational;
use vstd::prelude::*;
use vstd::slice::slice_subrange;
use vstd::string::StringSliceAdditionalSpecFns;

verus! {

/// Value of an ASCII hexadecimal digit; other letters count on past `f` and `F`, and
/// anything else is zero.
pub open spec fn hex_value(b: u8) -> u8 {
    if 48 <= b && b <= 57 {
        (b - 48) as u8
    } else if 65 <= b && b <= 90 {
        (b - 55) as u8
    } else if 97 <= b && b <= 122 {
        (b - 87) as u8
    } else {
        0
    }
}

/// The byte that an escape `\c` stands for, for the one-letter escapes.
pub open spec fn short_escape(c: u8) -> Option<u8> {
    if c == 110 {
        Some(10u8)
    } else if c == 114 {
        Some(13u8)
    } else if c == 116 {
        Some(9u8)
    } else if c == 92 {
        Some(92u8)
    } else if c == 34 {
        Some(34u8)
    } else {
        None
    }
}

/// The byte of a two-digit hexadecimal escape.
pub open spec fn hex_byte(hi: u8, lo: u8) -> u8 {
    ((hex_value(hi) as int * 16 + hex_value(lo) as int) % 256) as u8
}

/// The raw bytes of a literal's body once its escapes are replaced: `\n`, `\r`, `\t`,
/// `\\` and `\"`, and `\HH` with two hexadecimal digits. An escape cut short by the
/// end of the body stands for nothing.
pub open spec fn unescape(b: Seq<u8>) -> Seq<u8>
    decreases b.len(),
{
    if b.len() == 0 {
        seq![]
    } else if b[0] != 92 {
        seq![b[0]] + unescape(b.skip(1))
    } else if b.len() < 2 {
        seq![]
    } else if short_escape(b[1]) is Some {
        seq![short_escape(b[1])->0] + unescape(b.skip(2))
    } else if b.len() < 3 {
        seq![]
    } else {
        seq![hex_byte(b[1], b[2])] + unescape(b.skip(3))
    }
}

/// The body of a quoted literal: its bytes without the first and the last.
pub open spec fn literal_body(b: Seq<u8>) -> Seq<u8> {
    b.subrange(1, b.len() - 1)
}

/// The number that the bytes of a quoted literal stand for; zero when there is no
/// body.
pub open spec fn string_value(b: Seq<u8>) -> nat {
    if b.len() < 2 {
        0
    } else {
        be_value(unescape(literal_body(b)))
    }
}

/// Value of an ASCII hexadecimal digit.
pub fn from_hex(hex: u8) -> (r: u8)
    ensures
        r == hex_value(hex),
{
    if hex >= 48 && hex <= 57 {
        hex - 48
    } else if hex >= 65 && hex <= 90 {
        hex - 55
    } else if hex >= 97 && hex <= 122 {
        hex - 87
    } else {
        0
    }
}

/// Replaces the escapes of a literal's body by the bytes they stand for.
pub fn unescape_bytes(b: &[u8]) -> (r: Vec<u8>)
    ensures
        r@ == unescape(b@),
{
    let mut out: Vec<u8> = Vec::new();
    let mut i: usize = 0;
    let n = b.len();
    assert(b@.skip(0) =~= b@);
    assert(out@ + unescape(b@) =~= unescape(b@));
    while i < n
        invariant
            n == b@.len(),
            i <= n,
            out@ + unescape(b@.skip(i as int)) == unescape(b@),
        decreases n - i,
    {
        let ghost rest = b@.skip(i as int);
        let c = b[i];
        if c != 92 {
            out.push(c);
            proof {
                assert(rest.skip(1) =~= b@.skip(i as int + 1));
                assert(out@ + unescape(b@.skip(i as int + 1)) =~= out@.drop_last() + unescape(rest));
            }
            i = i + 1;
        } else if i + 1 >= n {
            proof {
                assert(unescape(rest) =~= Seq::<u8>::empty());
                assert(b@.skip(n as int) =~= Seq::<u8>::empty());
            }
            i = n;
        } else {
            let d = b[i + 1];
            let e: Option<u8> = if d == 110 {
                Some(10u8)
            } else if d == 114 {
                Some(13u8)
            } else if d == 116 {
                Some(9u8)
            } else if d == 92 {
                Some(92u8)
            } else if d == 34 {
                Some(34u8)
            } else {
                None
            };
            assert(e == short_escape(rest[1]));
            match e {
                Some(x) => {
                    out.push(x);
                    proof {
                        assert(rest.skip(2) =~= b@.skip(i as int + 2));
                        assert(out@ + unescape(b@.skip(i as int + 2)) =~= out@.drop_last()
                            + unescape(rest));
                    }
                    i = i + 2;
                },
                None => {
                    if i + 2 >= n {
                        proof {
                            assert(unescape(rest) =~= Seq::<u8>::empty());
                            assert(b@.skip(n as int) =~= Seq::<u8>::empty());
                        }
                        i = n;
                    } else {
                        let hi = from_hex(d) as u32;
                        let lo = from_hex(b[i + 2]) as u32;
                        let x = ((hi * 16 + lo) % 256) as u8;
                        out.push(x);
                        proof {
                            assert(x == hex_byte(rest[1], rest[2]));
                            assert(rest.skip(3) =~= b@.skip(i as int + 3));
                            assert(out@ + unescape(b@.skip(i as int + 3)) =~= out@.drop_last()
                                + unescape(rest));
                        }
                        i = i + 3;
                    }
                },
            }
        }
    }
    proof {
        assert(b@.skip(n as int) =~= Seq::<u8>::empty());
        assert(out@ + Seq::<u8>::empty() =~= out@);
    }
    out
}

/// The number that a quoted string literal stands for: the bytes of its body, after
/// escapes, read as a big-endian base-256 integer (the leftmost byte is the most
/// significant).
pub fn from_string(literal: &str) -> (r: BigRational)
    ensures
        ratio_parts(r) == (string_value(literal.spec_bytes()) as int, 1int),
        valid_q(ratio_parts(r)),
{
    let bytes = literal.as_bytes();
    let n = bytes.len();
    if n < 2 {
        return ratio_from_integer(big_from_bytes_be(&[]));
    }
    let body = slice_subrange(bytes, 1, n - 1);
    let raw = unescape_bytes(body);
    let num = big_from_bytes_be(raw.as_slice());
    ratio_from_integer(num)
}

proof fn lemma_be_value_positive(b: Seq<u8>)
    requires
        b.len() > 0,
        b[0] != 0,
    ensures
        be_value(b) > 0,
    decreases b.len(),
{
    if b.len() == 1 {
        assert(b.drop_last() =~= Seq::<u8>::empty());
    } else {
        lemma_be_value_positive(b.drop_last());
    }
}

proof fn lemma_be_value_unique(x: Seq<u8>, y: Seq<u8>)
    requires
        be_value(x) == be_value(y),
        x.len() > 0 ==> x[0] != 0,
        y.len() > 0 ==> y[0] != 0,
    ensures
        x == y,
    decreases x.len() + y.len(),
{
    if x.len() == 0 {
        if y.len() > 0 {
            lemma_be_value_positive(y);
        }
        assert(x =~= y);
    } else if y.len() == 0 {
        lemma_be_value_positive(x);
    } else {
        let qx = be_value(x.drop_last()) as int;
        let qy = be_value(y.drop_last()) as int;
        let lx = x.last() as int;
        let ly = y.last() as int;
        assert(qx == qy && lx == ly) by (nonlinear_arith)
            requires
                qx * 256 + lx == qy * 256 + ly,
                0 <= lx < 256,
                0 <= ly < 256,
                qx >= 0,
                qy >= 0,
        ;
        lemma_be_value_unique(x.drop_last(), y.drop_last());
        assert(x =~= x.drop_last().push(x.last()));
        assert(y =~= y.drop_last().push(y.last()));
    }
}

/// `body` is a way of writing the bytes `s` in a literal: each byte as itself
/// (but a backslash, which always starts an escape), or as a one-letter escape, or
/// as a two-digit hexadecimal escape.
pub open spec fn escapes(body: Seq<u8>, s: Seq<u8>) -> bool
    decreases body.len(),
{
    if body.len() == 0 {
        s.len() == 0
    } else if s.len() == 0 {
        false
    } else if body[0] != 92 {
        body[0] == s[0] && escapes(body.skip(1), s.skip(1))
    } else if body.len() >= 2 && short_escape(body[1]) is Some {
        short_escape(body[1])->0 == s[0] && escapes(body.skip(2), s.skip(1))
    } else if body.len() >= 3 {
        hex_byte(body[1], body[2]) == s[0] && escapes(body.skip(3), s.skip(1))
    } else {
        false
    }
}

proof fn lemma_unescape_escapes(body: Seq<u8>, s: Seq<u8>)
    requires
        escapes(body, s),
    ensures
        unescape(body) == s,
    decreases body.len(),
{
    if body.len() > 0 {
        if body[0] != 92 {
            lemma_unescape_escapes(body.skip(1), s.skip(1));
        } else if body.len() >= 2 && short_escape(body[1]) is Some {
            lemma_unescape_escapes(body.skip(2), s.skip(1));
        } else {
            lemma_unescape_escapes(body.skip(3), s.skip(1));
        }
        assert(seq![s[0]] + s.skip(1) =~= s);
    }
}

/// A string literal comes back from `&`: whatever escapes its body uses, when the
/// bytes it stands for hold no NUL, the only big-endian base-256 digits without a
/// leading zero that have the literal's value are those bytes.
pub proof fn lemma_format_round_trip(body: Seq<u8>, s: Seq<u8>, digits: Seq<u8>)
    requires
        escapes(body, s),
        forall|i: int| 0 <= i < s.len() ==> s[i] != 0,
        be_value(digits) == be_value(unescape(body)),
        digits.len() > 0 ==> digits[0] != 0,
    ensures
        digits == s,
{
    lemma_unescape_escapes(body, s);
    lemma_be_value_unique(digits, s);
}

/// Bytes of the magnitude of a number, most significant first; none for zero.
pub struct Stringer {
    bytes: Vec<u8>,
    pos: usize,
}

impl Stringer {
    /// The bytes still to come.
    pub closed spec fn remaining(&self) -> Seq<u8> {
        self.bytes@.skip(self.pos as int)
    }

    pub closed spec fn wf(&self) -> bool {
        self.pos <= self.bytes@.len()
    }

    /// The base-256 digits of `|num|`, most significant first, with no leading zero.
    pub fn from(num: BigInt) -> (r: Stringer)
        ensures
            r.wf(),
            be_value(r.remaining()) == abs(int_value(num)),
            r.remaining().len() == 0 <==> int_value(num) == 0,
            r.remaining().len() > 0 ==> r.remaining()[0] != 0,
    {
        if big_is_zero(&num) {
            let r = Stringer { bytes: Vec::new(), pos: 0 };
            assert(r.remaining() =~= Seq::<u8>::empty());
            r
        } else {
            let r = Stringer { bytes: big_to_bytes_be(&num), pos: 0 };
            assert(r.remaining() =~= r.bytes@);
            r
        }
    }

    /// The next byte, if any.
    pub fn next(&mut self) -> (r: Option<u8>)
        requires
            old(self).wf(),
        ensures
            final(self).wf(),
            old(self).remaining().len() == 0 ==> r is None && final(self).remaining()
                == old(self).remaining(),
            old(self).remaining().len() > 0 ==> r == Some(old(self).remaining()[0])
                && final(self).remaining() == old(self).remaining().drop_first(),
    {
        if self.pos < self.bytes.len() {
            let b = self.bytes[self.pos];
            self.pos = self.pos + 1;
            assert(self.remaining() =~= old(self).remaining().drop_first());
            Some(b)
        } else {
            None
        }
    }

    /// All the bytes still to come.
    pub fn collect_bytes(&mut self) -> (r: Vec<u8>)
        requires
            old(self).wf(),
        ensures
            r@ == old(self).remaining(),
            final(self).wf(),
            final(self).remaining().len() == 0,
    {
        let mut out: Vec<u8> = Vec::new();
        while self.pos < self.bytes.len()
            invariant
                self.wf(),
                out@ + self.remaining() == old(self).remaining(),
            decreases self.bytes@.len() - self.pos,
        {
            let ghost before = self.remaining();
            let b = self.next();
            match b {
                Some(x) => {
                    out.push(x);
                    assert(out@ + self.remaining() =~= out@.drop_last() + before);
                },
                None => {},
            }
        }
        assert(self.remaining() =~= Seq::<u8>::empty());
        assert(out@ + Seq::<u8>::empty() =~= out@);
        out
    }
}

} // verus!
