use vstd::prelude::*;

verus! {

/// `256^n`.
pub open spec fn pow256(n: nat) -> int
    decreases n,
{
    if n == 0 {
        1
    } else {
        256 * pow256((n - 1) as nat)
    }
}

/// The `n` low-order bytes of `x`, least significant first, in two's
/// complement (the Euclidean `%` and `/` make negative `x` wrap).
pub open spec fn le_bytes(x: int, n: nat) -> Seq<u8>
    decreases n,
{
    if n == 0 {
        Seq::empty()
    } else {
        seq![(x % 256) as u8] + le_bytes(x / 256, (n - 1) as nat)
    }
}

proof fn lemma_pow256_add(a: nat, b: nat)
    ensures
        pow256(a + b) == pow256(a) * pow256(b),
    decreases a,
{
    if a > 0 {
        lemma_pow256_add((a - 1) as nat, b);
        assert(pow256(a + b) == 256 * pow256((a - 1 + b) as nat));
        assert(256 * (pow256((a - 1) as nat) * pow256(b)) == (256 * pow256((a - 1) as nat)) * pow256(b))
            by (nonlinear_arith);
    }
}

proof fn lemma_pow256_8()
    ensures
        pow256(8) == 0x1_0000_0000_0000_0000,
{
    reveal_with_fuel(pow256, 9);
}

/// Adding a multiple of `256^n` leaves the `n` low-order bytes unchanged.
proof fn lemma_le_bytes_periodic(x: int, c: int, n: nat)
    ensures
        le_bytes(x + c * pow256(n), n) == le_bytes(x, n),
    decreases n,
{
    if n > 0 {
        let t = c * pow256((n - 1) as nat);
        assert(c * pow256(n) == 256 * t) by (nonlinear_arith)
            requires
                pow256(n) == 256 * pow256((n - 1) as nat),
                t == c * pow256((n - 1) as nat),
        ;
        assert((x + 256 * t) % 256 == x % 256) by (nonlinear_arith);
        assert((x + 256 * t) / 256 == x / 256 + t) by (nonlinear_arith);
        lemma_le_bytes_periodic(x / 256, c, (n - 1) as nat);
    }
}

/// The `n` low-order bytes of an unsigned value.
fn unsigned_le_bytes(x: u64, n: usize) -> (bytes: Vec<u8>)
    requires
        n <= 8,
    ensures
        bytes@ == le_bytes(x as int, n as nat),
{
    let mut bytes: Vec<u8> = Vec::new();
    let mut rest: u64 = x;
    let mut i: usize = 0;
    while i < n
        invariant
            i <= n,
            bytes@ + le_bytes(rest as int, (n - i) as nat) == le_bytes(x as int, n as nat),
        decreases n - i,
    {
        let b: u8 = (rest % 256) as u8;
        assert(le_bytes(rest as int, (n - i) as nat) == seq![b] + le_bytes(
            (rest / 256) as int,
            (n - i - 1) as nat,
        ));
        assert(bytes@.push(b) + le_bytes((rest / 256) as int, (n - i - 1) as nat) =~= bytes@ + (
        seq![b] + le_bytes((rest / 256) as int, (n - i - 1) as nat)));
        bytes.push(b);
        rest = rest / 256;
        i = i + 1;
    }
    assert(bytes@ =~= bytes@ + le_bytes(rest as int, 0));
    bytes
}

/// The `n` low-order bytes of a signed value in two's complement.
fn signed_le_bytes(v: i64, n: usize) -> (bytes: Vec<u8>)
    requires
        n <= 8,
    ensures
        bytes@ == le_bytes(v as int, n as nat),
{
    if v >= 0 {
        unsigned_le_bytes(v as u64, n)
    } else {
        let magnitude_minus_one: u64 = (-(v + 1)) as u64;
        let wrapped: u64 = u64::MAX - magnitude_minus_one;
        proof {
            lemma_pow256_8();
            lemma_pow256_add(n as nat, (8 - n) as nat);
            assert(wrapped as int == v as int + pow256(n as nat) * pow256((8 - n) as nat));
            assert(pow256(n as nat) * pow256((8 - n) as nat) == pow256((8 - n) as nat) * pow256(n as nat))
                by (nonlinear_arith);
            lemma_le_bytes_periodic(v as int, pow256((8 - n) as nat), n as nat);
        }
        unsigned_le_bytes(wrapped, n)
    }
}

/// The integer whose little-endian base-256 digits are `bytes`.
pub open spec fn le_value(bytes: Seq<u8>) -> int
    decreases bytes.len(),
{
    if bytes.len() == 0 {
        0
    } else {
        bytes[0] + 256 * le_value(bytes.drop_first())
    }
}

proof fn lemma_pow256_pos(n: nat)
    ensures
        pow256(n) > 0,
    decreases n,
{
    if n > 0 {
        lemma_pow256_pos((n - 1) as nat);
    }
}

/// The image of `x` has exactly `n` bytes.
pub proof fn lemma_le_bytes_len(x: int, n: nat)
    ensures
        le_bytes(x, n).len() == n,
    decreases n,
{
    if n > 0 {
        lemma_le_bytes_len(x / 256, (n - 1) as nat);
    }
}

proof fn lemma_le_bytes_roundtrip_nonneg(x: int, n: nat)
    requires
        x >= 0,
    ensures
        le_value(le_bytes(x, n)) == x % pow256(n),
    decreases n,
{
    if n > 0 {
        let rest = le_bytes(x / 256, (n - 1) as nat);
        assert(le_bytes(x, n).drop_first() =~= rest);
        lemma_le_bytes_roundtrip_nonneg(x / 256, (n - 1) as nat);
        lemma_pow256_pos((n - 1) as nat);
        vstd::arithmetic::div_mod::lemma_mod_breakdown(x, 256, pow256((n - 1) as nat));
    }
}

/// Reading back the image of `x` gives `x` modulo `256^n`: the image
/// determines every value that fits in `n` bytes, signed or unsigned.
pub proof fn lemma_le_bytes_roundtrip(x: int, n: nat)
    ensures
        le_value(le_bytes(x, n)) == x % pow256(n),
{
    lemma_pow256_pos(n);
    if x >= 0 {
        lemma_le_bytes_roundtrip_nonneg(x, n);
    } else {
        let c = -x;
        assert(x + c * pow256(n) >= 0) by (nonlinear_arith)
            requires
                x < 0,
                c == -x,
                pow256(n) >= 1,
        ;
        lemma_le_bytes_periodic(x, c, n);
        lemma_le_bytes_roundtrip_nonneg(x + c * pow256(n), n);
        vstd::arithmetic::div_mod::lemma_mod_multiples_vanish(c, x, pow256(n));
        assert(x + c * pow256(n) == pow256(n) * c + x) by (nonlinear_arith);
    }
}

/// An integer constant with its declared width and signedness.
#[derive(Debug, Clone, Copy, PartialEq, Eq)]
pub enum IntValue {
    I64(i64),
    I32(i32),
    I16(i16),
    I8(i8),
    ISize(isize),
    U64(u64),
    U32(u32),
    U16(u16),
    U8(u8),
    USize(usize),
}

impl IntValue {
    /// The integer denoted.
    pub open spec fn value(&self) -> int {
        match *self {
            IntValue::I64(v) => v as int,
            IntValue::I32(v) => v as int,
            IntValue::I16(v) => v as int,
            IntValue::I8(v) => v as int,
            IntValue::ISize(v) => v as int,
            IntValue::U64(v) => v as int,
            IntValue::U32(v) => v as int,
            IntValue::U16(v) => v as int,
            IntValue::U8(v) => v as int,
            IntValue::USize(v) => v as int,
        }
    }

    /// The size of the type in bytes (the platform word for `isize`/`usize`).
    pub open spec fn byte_width(&self) -> nat {
        match *self {
            IntValue::I64(_) | IntValue::U64(_) => 8,
            IntValue::I32(_) | IntValue::U32(_) => 4,
            IntValue::I16(_) | IntValue::U16(_) => 2,
            IntValue::I8(_) | IntValue::U8(_) => 1,
            IntValue::ISize(_) | IntValue::USize(_) => (usize::BITS / 8) as nat,
        }
    }

    /// The value's in-memory image: little-endian two's complement, as wide
    /// as its type.
    pub fn to_le_bytes(&self) -> (bytes: Vec<u8>)
        ensures
            bytes@ == le_bytes(self.value(), self.byte_width()),
    {
        match *self {
            IntValue::I64(v) => signed_le_bytes(v, 8),
            IntValue::I32(v) => signed_le_bytes(v as i64, 4),
            IntValue::I16(v) => signed_le_bytes(v as i64, 2),
            IntValue::I8(v) => signed_le_bytes(v as i64, 1),
            IntValue::ISize(v) => signed_le_bytes(v as i64, word_bytes()),
            IntValue::U64(v) => unsigned_le_bytes(v, 8),
            IntValue::U32(v) => unsigned_le_bytes(v as u64, 4),
            IntValue::U16(v) => unsigned_le_bytes(v as u64, 2),
            IntValue::U8(v) => unsigned_le_bytes(v as u64, 1),
            IntValue::USize(v) => unsigned_le_bytes(v as u64, word_bytes()),
        }
    }
}

/// The number of bytes in a machine word.
fn word_bytes() -> (n: usize)
    ensures
        n == usize::BITS / 8,
        n <= 8,
{
    (usize::BITS / 8) as usize
}

/// A compile-time constant.
#[derive(Clone, Debug)]
pub enum ConstVal {
    Int(IntValue),
    Str(String),
    Bool(bool),
}

/// The in-memory image of a constant: integers in little-endian two's
/// complement, strings as their UTF-8 bytes, booleans as one byte 1 or 0.
pub open spec fn const_bytes(c: ConstVal) -> Seq<u8> {
    match c {
        ConstVal::Int(v) => le_bytes(v.value(), v.byte_width()),
        ConstVal::Str(s) => vstd::utf8::encode_utf8(s@),
        ConstVal::Bool(b) => seq![if b { 1u8 } else { 0u8 }],
    }
}

impl ConstVal {
    pub fn to_le_bytes(&self) -> (bytes: Vec<u8>)
        ensures
            bytes@ == const_bytes(*self),
    {
        match self {
            ConstVal::Int(value) => value.to_le_bytes(),
            ConstVal::Str(value) => vstd::slice::slice_to_vec(value.as_str().as_bytes()),
            ConstVal::Bool(value) => {
                let mut bytes: Vec<u8> = Vec::new();
                bytes.push(if *value { 1u8 } else { 0u8 });
                assert(bytes@ =~= seq![if *value { 1u8 } else { 0u8 }]);
                bytes
            },
        }
    }
}

/// What constant folding reads of a typed expression: which literal it is,
/// if it is one of the literals that have a constant value.
#[allow(inconsistent_fields)]
#[derive(Clone, Debug)]
pub enum TypedExpression {
    Int { value: IntValue },
    StrLiteral { value: String },
    Bool { value: bool },
    /// Any other expression (including other literals).
    Other,
}

impl TypedExpression {
    /// The constant a literal denotes; `None` for anything else.
    pub fn to_const(&self) -> (c: Option<ConstVal>)
        ensures
            match *self {
                TypedExpression::Int { value } => c == Some(ConstVal::Int(value)),
                TypedExpression::StrLiteral { value } => c matches Some(ConstVal::Str(s)) && s@
                    == value@,
                TypedExpression::Bool { value } => c == Some(ConstVal::Bool(value)),
                TypedExpression::Other => c is None,
            },
    {
        match self {
            TypedExpression::Int { value } => Some(ConstVal::Int(*value)),
            TypedExpression::StrLiteral { value } => Some(ConstVal::Str(value.clone())),
            TypedExpression::Bool { value } => Some(ConstVal::Bool(*value)),
            TypedExpression::Other => None,
        }
    }
}

} // verus!
