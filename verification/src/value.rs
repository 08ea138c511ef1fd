//! Script values, each boxed in 64 bits.
//!
//! Finite numbers are stored as themselves. In the patterns whose exponent
//! bits are all set, four tag bits tell the other kinds apart and the bits
//! below hold their contents.
use crate::number::is_finite;
use crate::number::QNAN;
use crate::text::decode;
use vstd::prelude::*;
use vstd::utf8::decode_utf8;
use vstd::utf8::encode_utf8;
use vstd::utf8::valid_utf8;

verus! {

/// The bits that hold the tag of a boxed value.
pub const TAG_MASK: u64 = 0x000F000000000000;

/// The tag of a truth value.
pub const TAG_BOOL: u64 = 0x0001000000000000;

/// The tag of a reference to a heap object.
pub const TAG_OBJ: u64 = 0x0002000000000000;

/// The weight of the lowest tag bit.
pub const TAG_UNIT: u64 = 0x0001000000000000;

/// A value in its 64-bit form.
#[derive(Debug, Clone, Copy, PartialEq, Eq, Structural)]
pub struct Value(pub u64);

/// What a value stands for.
pub enum Kind {
    /// A finite number, by its bits.
    Number(u64),
    Bool(bool),
    /// A heap object, by its slot.
    Object(u32),
    /// A short text, by its bytes.
    Text(Seq<u8>),
    /// A pattern that stands for nothing.
    Other,
}

/// The tag of a boxed value.
pub open spec fn tag(bits: u64) -> int {
    (bits as int / 0x1_0000_0000_0000) % 16
}

/// The first `n` bytes of a number, the lowest first.
pub open spec fn low_bytes(bits: int, n: nat) -> Seq<u8>
    decreases n,
{
    if n == 0 {
        Seq::empty()
    } else {
        seq![(bits % 256) as u8] + low_bytes(bits / 256, (n - 1) as nat)
    }
}

/// The number whose bytes these are, the lowest first.
pub open spec fn from_low_bytes(s: Seq<u8>) -> int
    decreases s.len(),
{
    if s.len() == 0 {
        0
    } else {
        s[0] + 256 * from_low_bytes(s.skip(1))
    }
}

/// The truth value as a value.
pub open spec fn bool_value(b: bool) -> Value {
    Value(
        (QNAN + TAG_BOOL + (if b {
            1int
        } else {
            0int
        })) as u64,
    )
}

/// The reference to the heap object in slot `id`.
pub open spec fn object_value(id: u32) -> Value {
    Value((QNAN + TAG_OBJ + id) as u64)
}

/// The value that holds a text of no more than six bytes.
pub open spec fn text_value(bytes: Seq<u8>) -> Value {
    Value((QNAN + (3 + bytes.len()) * TAG_UNIT + from_low_bytes(bytes)) as u64)
}

impl Value {
    pub open spec fn kind(self) -> Kind {
        if is_finite(self.0) {
            Kind::Number(self.0)
        } else if tag(self.0) == 1 {
            Kind::Bool(self.0 % 2 == 1)
        } else if tag(self.0) == 2 {
            Kind::Object((self.0 % 0x1_0000_0000) as u32)
        } else if 3 <= tag(self.0) <= 9 {
            Kind::Text(low_bytes(self.0 as int, (tag(self.0) - 3) as nat))
        } else {
            Kind::Other
        }
    }

    /// Everything counts as true but the truth value false.
    pub open spec fn truthy(self) -> bool {
        self.kind() != Kind::Bool(false)
    }
}

/// The exponent bits read as a number.
proof fn lemma_finite(bits: u64)
    ensures
        is_finite(bits) <==> (bits as int / 0x10_0000_0000_0000) % 2048 != 2047,
{
    assert((bits & 0x7ff0000000000000u64 != 0x7ff0000000000000u64) <==> (bits
        / 0x10_0000_0000_0000u64) % 2048u64 != 2047u64) by (bit_vector);
}

proof fn lemma_from_low_bytes(s: Seq<u8>)
    ensures
        0 <= from_low_bytes(s),
        s.len() <= 6 ==> from_low_bytes(s) < 0x1_0000_0000_0000,
        s.len() <= 5 ==> from_low_bytes(s) < 0x100_0000_0000,
        s.len() <= 4 ==> from_low_bytes(s) < 0x1_0000_0000,
        s.len() <= 3 ==> from_low_bytes(s) < 0x100_0000,
        s.len() <= 2 ==> from_low_bytes(s) < 0x1_0000,
        s.len() <= 1 ==> from_low_bytes(s) < 0x100,
        s.len() == 0 ==> from_low_bytes(s) == 0,
    decreases s.len(),
{
    if s.len() > 0 {
        lemma_from_low_bytes(s.skip(1));
    }
}

/// Writing bytes into a number and reading them back, whatever stands above.
proof fn lemma_bytes_round_trip(s: Seq<u8>, rest: int, unit: int)
    requires
        unit == bytes_unit(s.len()),
    ensures
        low_bytes(from_low_bytes(s) + rest * unit, s.len()) == s,
    decreases s.len(),
{
    if s.len() == 0 {
        assert(low_bytes(from_low_bytes(s) + rest * unit, 0) =~= s);
    } else {
        let t = s.skip(1);
        let u = bytes_unit(t.len());
        lemma_bytes_round_trip(t, rest, u);
        let v = from_low_bytes(s) + rest * unit;
        assert(rest * unit == 256 * (rest * u)) by (nonlinear_arith)
            requires
                unit == 256 * u,
        ;
        assert(v == s[0] + 256 * (from_low_bytes(t) + rest * u));
        assert(v % 256 == s[0]);
        assert(v / 256 == from_low_bytes(t) + rest * u);
        assert(s =~= seq![s[0]] + t);
    }
}

/// `256` to the power of `n`.
spec fn bytes_unit(n: nat) -> int
    decreases n,
{
    if n == 0 {
        1
    } else {
        256 * bytes_unit((n - 1) as nat)
    }
}

impl Value {
    /// The number with the given bits.
    pub fn number(bits: u64) -> (res: Self)
        ensures
            res.0 == bits,
    {
        Self(bits)
    }

    pub fn bool(b: bool) -> (res: Self)
        ensures
            res.kind() == Kind::Bool(b),
            res == bool_value(b),
    {
        let low: u64 = if b {
            1
        } else {
            0
        };
        let bits: u64 = QNAN + TAG_BOOL + low;
        proof {
            lemma_finite(bits);
        }
        Self(bits)
    }

    /// The reference to the heap object in slot `id`.
    pub fn object(id: u32) -> (res: Self)
        ensures
            res.kind() == Kind::Object(id),
            res == object_value(id),
    {
        let bits: u64 = QNAN + TAG_OBJ + id as u64;
        proof {
            lemma_finite(bits);
        }
        Self(bits)
    }

    /// The text as a value of its own, where it takes no more than six bytes.
    pub fn sso(s: &str) -> (res: Option<Self>)
        ensures
            res is Some <==> encode_utf8(s@).len() <= 6,
            res matches Some(v) ==> v.kind() == Kind::Text(encode_utf8(s@)) && v == text_value(
                encode_utf8(s@),
            ),
    {
        let bytes = s.as_bytes();
        if bytes.len() > 6 {
            return None;
        }
        let mut payload: u64 = 0;
        let mut i: usize = bytes.len();
        assert(bytes@.skip(i as int) =~= Seq::<u8>::empty());
        while i > 0
            invariant
                i <= bytes@.len() <= 6,
                payload == from_low_bytes(bytes@.skip(i as int)),
            decreases i,
        {
            proof {
                lemma_from_low_bytes(bytes@.skip(i as int));
                assert(bytes@.skip(i - 1).skip(1) =~= bytes@.skip(i as int));
            }
            i = i - 1;
            payload = bytes[i] as u64 + 256 * payload;
        }
        assert(bytes@.skip(0) =~= bytes@);
        proof {
            lemma_from_low_bytes(bytes@);
        }
        let bits: u64 = QNAN + (3 + bytes.len() as u64) * TAG_UNIT + payload;
        proof {
            lemma_finite(bits);
            lemma_text_bits(bytes@);
        }
        Some(Self(bits))
    }

    /// The bits of the number, where the value is one.
    pub fn as_number(self) -> (res: Option<u64>)
        ensures
            match self.kind() {
                Kind::Number(bits) => res == Some(bits),
                _ => res is None,
            },
    {
        if self.0 & QNAN != QNAN {
            Some(self.0)
        } else {
            None
        }
    }

    pub fn as_bool(self) -> (res: Option<bool>)
        ensures
            match self.kind() {
                Kind::Bool(b) => res == Some(b),
                _ => res is None,
            },
    {
        if self.0 & QNAN == QNAN && (self.0 / TAG_UNIT) % 16 == 1 {
            Some(self.0 % 2 == 1)
        } else {
            None
        }
    }

    pub fn as_obj_id(self) -> (res: Option<u32>)
        ensures
            match self.kind() {
                Kind::Object(id) => res == Some(id),
                _ => res is None,
            },
    {
        if self.0 & QNAN == QNAN && (self.0 / TAG_UNIT) % 16 == 2 {
            Some((self.0 % 0x1_0000_0000) as u32)
        } else {
            None
        }
    }

    /// The text that the value itself holds, where it holds one.
    pub fn as_short_text(self) -> (res: Option<String>)
        ensures
            match self.kind() {
                Kind::Text(bytes) => (res is Some <==> valid_utf8(bytes)) && (res matches Some(s)
                    ==> s@ == decode_utf8(bytes)),
                _ => res is None,
            },
    {
        if self.0 & QNAN != QNAN {
            return None;
        }
        let t: u64 = (self.0 / TAG_UNIT) % 16;
        if t < 3 || t > 9 {
            return None;
        }
        let n: u64 = t - 3;
        let mut bytes: Vec<u8> = Vec::new();
        let mut rest: u64 = self.0;
        let mut i: u64 = 0;
        assert(bytes@ + low_bytes(rest as int, n as nat) =~= low_bytes(self.0 as int, n as nat));
        while i < n
            invariant
                i <= n,
                bytes@ + low_bytes(rest as int, (n - i) as nat) == low_bytes(
                    self.0 as int,
                    n as nat,
                ),
            decreases n - i,
        {
            let ghost before = bytes@;
            bytes.push((rest % 256) as u8);
            proof {
                let tail = low_bytes(rest as int / 256, (n - i - 1) as nat);
                assert(before.push((rest % 256) as u8) + tail =~= before + (seq![
                    (rest as int % 256) as u8,
                ] + tail));
            }
            rest = rest / 256;
            i = i + 1;
        }
        assert(bytes@ =~= low_bytes(self.0 as int, n as nat));
        decode(bytes.as_slice())
    }

    /// The value itself holds a text, or bytes in the place of one.
    pub fn is_short_text(self) -> (res: bool)
        ensures
            res == (self.kind() is Text),
    {
        self.0 & QNAN == QNAN && (self.0 / TAG_UNIT) % 16 >= 3 && (self.0 / TAG_UNIT) % 16 <= 9
    }

    /// Everything counts as true but the truth value false.
    pub fn is_truthy(self) -> (res: bool)
        ensures
            res == self.truthy(),
    {
        match self.as_bool() {
            Some(b) => b,
            None => true,
        }
    }

    pub fn to_bits(self) -> (res: u64)
        ensures
            res == self.0,
    {
        self.0
    }

    pub fn from_bits(bits: u64) -> (res: Self)
        ensures
            res.0 == bits,
    {
        Self(bits)
    }
}

/// The kind of a boxed short text.
#[verifier::spinoff_prover]
proof fn lemma_text_bits(b: Seq<u8>)
    requires
        b.len() <= 6,
    ensures
        ({
            let bits = QNAN + (3 + b.len()) * TAG_UNIT + from_low_bytes(b);
            &&& 0 <= bits <= u64::MAX
            &&& tag(bits as u64) == 3 + b.len()
            &&& (bits / 0x10_0000_0000_0000) % 2048 == 2047
            &&& low_bytes(bits, b.len()) == b
        }),
{
    lemma_from_low_bytes(b);
    let n = b.len();
    let top = QNAN + (3 + n) * TAG_UNIT;
    let u = bytes_unit(n);
    reveal_with_fuel(bytes_unit, 7);
    let (c, q): (int, int) = if n == 0 {
        (1, 0x1_0000_0000_0000)
    } else if n == 1 {
        (0x100, 0x100_0000_0000)
    } else if n == 2 {
        (0x1_0000, 0x1_0000_0000)
    } else if n == 3 {
        (0x100_0000, 0x100_0000)
    } else if n == 4 {
        (0x1_0000_0000, 0x1_0000)
    } else if n == 5 {
        (0x100_0000_0000, 0x100)
    } else {
        (0x1_0000_0000_0000, 1)
    };
    let rest = (0x7ff0 + 3 + n) * q;
    assert(top == (0x7ff0 + 3 + n) * 0x1_0000_0000_0000);
    assert(u == c);
    assert(q * c == 0x1_0000_0000_0000) by {
        if n == 0 {
        } else if n == 1 {
        } else if n == 2 {
        } else if n == 3 {
        } else if n == 4 {
        } else if n == 5 {
        }
    }
    assert(rest * u == top) by (nonlinear_arith)
        requires
            rest == (0x7ff0 + 3 + n) * q,
            top == (0x7ff0 + 3 + n) * 0x1_0000_0000_0000,
            u == c,
            q * c == 0x1_0000_0000_0000,
    ;
    lemma_bytes_round_trip(b, rest, u);
}

/// A text of no more than six bytes is stored in the value itself, and read
/// back from it unchanged.
pub proof fn law_short_text_round_trip(s: Seq<char>)
    requires
        encode_utf8(s).len() <= 6,
    ensures
        text_value(encode_utf8(s)).kind() == Kind::Text(encode_utf8(s)),
        valid_utf8(encode_utf8(s)),
        decode_utf8(encode_utf8(s)) == s,
{
    let bytes = encode_utf8(s);
    lemma_from_low_bytes(bytes);
    lemma_finite(text_value(bytes).0);
    lemma_text_bits(bytes);
    vstd::utf8::encode_utf8_valid_utf8(s);
    vstd::utf8::encode_utf8_decode_utf8(s);
}

/// Finite numbers, truth values and references are read back from their boxes
/// unchanged, and no box of one kind is one of another kind.
pub proof fn law_boxes_round_trip(bits: u64, b: bool, id: u32)
    ensures
        is_finite(bits) ==> Value(bits).kind() == Kind::Number(bits),
        bool_value(b).kind() == Kind::Bool(b),
        object_value(id).kind() == Kind::Object(id),
{
    lemma_finite(bool_value(b).0);
    lemma_finite(object_value(id).0);
}

} // verus!
