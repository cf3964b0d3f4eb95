use vstd::prelude::*;

verus! {

/// The primitive types of the language.
#[derive(Debug, Clone, Copy, PartialEq, Eq, Structural)]
pub enum PrimitiveType {
    Bool,
    I8,
    U8,
    I16,
    U16,
    I32,
    U32,
    I64,
    U64,
    I128,
    U128,
    Usize,
    Isize,
    F32,
    F64,
}

impl PrimitiveType {
    pub open spec fn spec_is_float(self) -> bool {
        self is F32 || self is F64
    }

    pub open spec fn spec_is_integer(self) -> bool {
        !self.spec_is_float() && !(self is Bool)
    }

    pub open spec fn spec_is_signed(self) -> bool {
        self is I8 || self is I16 || self is I32 || self is I64 || self is I128 || self is Isize
    }

    pub open spec fn spec_is_unsigned(self) -> bool {
        self is U8 || self is U16 || self is U32 || self is U64 || self is U128 || self is Usize
    }

    pub open spec fn spec_width(self) -> nat {
        match self {
            PrimitiveType::Bool => 1,
            PrimitiveType::I8 | PrimitiveType::U8 => 8,
            PrimitiveType::I16 | PrimitiveType::U16 => 16,
            PrimitiveType::I32 | PrimitiveType::U32 => 32,
            PrimitiveType::I64 | PrimitiveType::U64 => 64,
            PrimitiveType::I128 | PrimitiveType::U128 => 128,
            PrimitiveType::Usize | PrimitiveType::Isize => 64,
            PrimitiveType::F32 => 32,
            PrimitiveType::F64 => 64,
        }
    }

    /// The lower-case name of the type, as it is printed (`i64`, `f32`, `bool`, ...).
    pub open spec fn spec_name(self) -> Seq<char> {
        match self {
            PrimitiveType::Bool => seq!['b', 'o', 'o', 'l'],
            PrimitiveType::I8 => seq!['i', '8'],
            PrimitiveType::U8 => seq!['u', '8'],
            PrimitiveType::I16 => seq!['i', '1', '6'],
            PrimitiveType::U16 => seq!['u', '1', '6'],
            PrimitiveType::I32 => seq!['i', '3', '2'],
            PrimitiveType::U32 => seq!['u', '3', '2'],
            PrimitiveType::I64 => seq!['i', '6', '4'],
            PrimitiveType::U64 => seq!['u', '6', '4'],
            PrimitiveType::I128 => seq!['i', '1', '2', '8'],
            PrimitiveType::U128 => seq!['u', '1', '2', '8'],
            PrimitiveType::Usize => seq!['u', 's', 'i', 'z', 'e'],
            PrimitiveType::Isize => seq!['i', 's', 'i', 'z', 'e'],
            PrimitiveType::F32 => seq!['f', '3', '2'],
            PrimitiveType::F64 => seq!['f', '6', '4'],
        }
    }

    /// The type that character literals have.
    pub fn char() -> (t: Self)
        ensures
            t == PrimitiveType::U32,
    {
        PrimitiveType::U32
    }

    pub fn is_float(&self) -> (b: bool)
        ensures
            b == self.spec_is_float(),
    {
        matches!(self, PrimitiveType::F32 | PrimitiveType::F64)
    }

    pub fn is_integer(&self) -> (b: bool)
        ensures
            b == self.spec_is_integer(),
    {
        !self.is_float() && !matches!(self, PrimitiveType::Bool)
    }

    pub fn is_signed(&self) -> (b: bool)
        ensures
            b == self.spec_is_signed(),
    {
        matches!(
            self,
            PrimitiveType::I8 | PrimitiveType::I16 | PrimitiveType::I32 | PrimitiveType::I64
                | PrimitiveType::I128 | PrimitiveType::Isize
        )
    }

    pub fn is_unsigned(&self) -> (b: bool)
        ensures
            b == self.spec_is_unsigned(),
    {
        matches!(
            self,
            PrimitiveType::U8 | PrimitiveType::U16 | PrimitiveType::U32 | PrimitiveType::U64
                | PrimitiveType::U128 | PrimitiveType::Usize
        )
    }

    /// Width in bits; `usize` and `isize` count as 64 bits.
    pub fn width(&self) -> (w: usize)
        ensures
            w == self.spec_width(),
    {
        match self {
            PrimitiveType::Bool => 1,
            PrimitiveType::I8 | PrimitiveType::U8 => 8,
            PrimitiveType::I16 | PrimitiveType::U16 => 16,
            PrimitiveType::I32 | PrimitiveType::U32 => 32,
            PrimitiveType::I64 | PrimitiveType::U64 => 64,
            PrimitiveType::I128 | PrimitiveType::U128 => 128,
            PrimitiveType::Usize | PrimitiveType::Isize => 64,
            PrimitiveType::F32 => 32,
            PrimitiveType::F64 => 64,
        }
    }
}


/// Decorations of a complex type.
#[derive(Debug, Clone, Copy, PartialEq, Eq, Structural)]
pub enum TypeDecorators {
    Const,
    Array,
    Reference,
    Pointer,
    SizedArray(usize),
}

/// A named type with its decorators, in order.
#[derive(Debug)]
pub struct ComplexType {
    pub decorators: Vec<TypeDecorators>,
    pub ty: String,
}

/// The abstract value of a [`TypeDefine`].
pub enum TypeDefineV {
    Primitive(PrimitiveType),
    Complex(Seq<TypeDecorators>, Seq<char>),
}

/// A type: either primitive or complex.
#[derive(Debug)]
pub enum TypeDefine {
    Primitive(PrimitiveType),
    Complex(ComplexType),
}

impl View for TypeDefine {
    type V = TypeDefineV;

    open spec fn view(&self) -> TypeDefineV {
        match self {
            TypeDefine::Primitive(p) => TypeDefineV::Primitive(*p),
            TypeDefine::Complex(c) => TypeDefineV::Complex(c.decorators@, c.ty@),
        }
    }
}

impl ComplexType {
    pub fn no_decorators(ty: String) -> (c: Self)
        ensures
            c.decorators@ == Seq::<TypeDecorators>::empty(),
            c.ty@ == ty@,
    {
        ComplexType { decorators: Vec::new(), ty }
    }

    /// The type of string values: an array of `u8`.
    pub fn string() -> (c: Self)
        ensures
            c.decorators@ == seq![TypeDecorators::Array],
            c.ty@ == seq!['u', '8'],
    {
        let mut decorators = Vec::new();
        decorators.push(TypeDecorators::Array);
        let mut ty = String::new();
        push_char(&mut ty, 'u');
        push_char(&mut ty, '8');
        ComplexType { decorators, ty }
    }

    pub fn clone_complex(&self) -> (c: Self)
        ensures
            c.decorators@ == self.decorators@,
            c.ty@ == self.ty@,
    {
        let mut decorators = Vec::new();
        let mut i: usize = 0;
        while i < self.decorators.len()
            invariant
                i <= self.decorators.len(),
                decorators@ == self.decorators@.take(i as int),
            decreases self.decorators.len() - i,
        {
            decorators.push(self.decorators[i]);
            i = i + 1;
            assert(decorators@ == self.decorators@.take(i as int));
        }
        assert(self.decorators@.take(i as int) == self.decorators@);
        ComplexType { decorators, ty: self.ty.clone() }
    }
}

/// The text of one decorator, as types are printed (`const `, `[] `, `& `, `* `, `[n] `).
pub open spec fn decorator_text(d: TypeDecorators) -> Seq<char> {
    match d {
        TypeDecorators::Const => seq!['c', 'o', 'n', 's', 't', ' '],
        TypeDecorators::Array => seq!['[', ']', ' '],
        TypeDecorators::Reference => seq!['&', ' '],
        TypeDecorators::Pointer => seq!['*', ' '],
        TypeDecorators::SizedArray(n) => seq!['['] + decimal(n as nat) + seq![']', ' '],
    }
}

/// The decimal digits of a natural number.
pub open spec fn decimal(n: nat) -> Seq<char>
    decreases n,
{
    if n < 10 {
        seq![digit_char(n)]
    } else {
        decimal(n / 10) + seq![digit_char(n % 10)]
    }
}

/// A primitive type's name says what it is: an integer type other than the pointer-sized
/// ones is `i` (or `u` when unsigned) and its width in bits; a float is `f` and its width;
/// and exactly one of signed, unsigned, float and `bool` holds of each type.
pub proof fn law_type_names_give_width(p: PrimitiveType)
    ensures
        p.spec_is_integer() && !(p is Usize) && !(p is Isize) ==>
            p.spec_name() == (if p.spec_is_signed() { seq!['i'] } else { seq!['u'] }) + decimal(p.spec_width()),
        p.spec_is_float() ==> p.spec_name() == seq!['f'] + decimal(p.spec_width()),
        p.spec_is_integer() <==> (p.spec_is_signed() != p.spec_is_unsigned()),
        !(p.spec_is_signed() && p.spec_is_unsigned()),
        (p is Usize || p is Isize) ==> p.spec_width() == 64 && (p is Usize <==> p.spec_is_unsigned()),
{
    reveal_with_fuel(decimal, 4);
    assert(decimal(8) =~= seq!['8']);
    assert(decimal(16) =~= seq!['1', '6']);
    assert(decimal(32) =~= seq!['3', '2']);
    assert(decimal(64) =~= seq!['6', '4']);
    assert(decimal(12) =~= seq!['1', '2']);
    assert(decimal(128) =~= seq!['1', '2', '8']);
    if p.spec_is_integer() && !(p is Usize) && !(p is Isize) {
        let pre = if p.spec_is_signed() { seq!['i'] } else { seq!['u'] };
        assert(p.spec_name() =~= pre + decimal(p.spec_width()));
    }
    if p.spec_is_float() {
        assert(p.spec_name() =~= seq!['f'] + decimal(p.spec_width()));
    }
}

pub open spec fn digit_char(d: nat) -> char {
    if d == 0 { '0' } else if d == 1 { '1' } else if d == 2 { '2' } else if d == 3 { '3' }
    else if d == 4 { '4' } else if d == 5 { '5' } else if d == 6 { '6' } else if d == 7 { '7' }
    else if d == 8 { '8' } else { '9' }
}

pub open spec fn decorators_text(ds: Seq<TypeDecorators>) -> Seq<char>
    decreases ds.len(),
{
    if ds.len() == 0 {
        Seq::empty()
    } else {
        decorators_text(ds.drop_last()) + decorator_text(ds.last())
    }
}

/// How a type is printed.
pub open spec fn type_text(t: TypeDefineV) -> Seq<char> {
    match t {
        TypeDefineV::Primitive(p) => p.spec_name(),
        TypeDefineV::Complex(ds, name) => decorators_text(ds) + name,
    }
}

impl TypeDefine {
    pub fn is_primitive(&self) -> (b: bool)
        ensures
            b == (self is Primitive),
    {
        matches!(self, TypeDefine::Primitive(..))
    }

    pub fn is_complex(&self) -> (b: bool)
        ensures
            b == (self is Complex),
    {
        matches!(self, TypeDefine::Complex(..))
    }

    pub fn as_primitive(&self) -> (p: Option<&PrimitiveType>)
        ensures
            p == (match self {
                TypeDefine::Primitive(t) => Some(t),
                TypeDefine::Complex(_) => None,
            }),
    {
        match self {
            TypeDefine::Primitive(t) => Some(t),
            TypeDefine::Complex(_) => None,
        }
    }

    pub fn clone_ty(&self) -> (t: Self)
        ensures
            t@ == self@,
    {
        match self {
            TypeDefine::Primitive(p) => TypeDefine::Primitive(*p),
            TypeDefine::Complex(c) => TypeDefine::Complex(c.clone_complex()),
        }
    }

    /// Structural equality of two types.
    pub fn same_as(&self, other: &TypeDefine) -> (b: bool)
        ensures
            b == (self@ == other@),
    {
        match self {
            TypeDefine::Primitive(a) => match other {
                TypeDefine::Primitive(b) => *a == *b,
                TypeDefine::Complex(_) => false,
            },
            TypeDefine::Complex(a) => match other {
                TypeDefine::Primitive(_) => false,
                TypeDefine::Complex(b) => {
                    if !(a.ty == b.ty) || a.decorators.len() != b.decorators.len() {
                        return false;
                    }
                    let mut i: usize = 0;
                    while i < a.decorators.len()
                        invariant
                            i <= a.decorators.len(),
                            a.decorators.len() == b.decorators.len(),
                            self@ == TypeDefineV::Complex(a.decorators@, a.ty@),
                            other@ == TypeDefineV::Complex(b.decorators@, b.ty@),
                            forall|j: int| 0 <= j < i ==> a.decorators@[j] == b.decorators@[j],
                        decreases a.decorators.len() - i,
                    {
                        if !(a.decorators[i] == b.decorators[i]) {
                            assert(a.decorators@[i as int] != b.decorators@[i as int]);
                            assert(a.decorators@ != b.decorators@);
                            return false;
                        }
                        i = i + 1;
                    }
                    assert(a.decorators@ == b.decorators@);
                    true
                },
            },
        }
    }

    /// The same type as another one, primitive or not.
    pub fn eq_primitive(&self, other: &PrimitiveType) -> (b: bool)
        ensures
            b == (self@ == TypeDefineV::Primitive(*other)),
    {
        match self {
            TypeDefine::Primitive(p) => *p == *other,
            TypeDefine::Complex(_) => false,
        }
    }
}

impl PrimitiveType {
    /// Writes the name of the type at the end of `out`.
    pub fn write_name(&self, out: &mut String)
        ensures
            final(out)@ == old(out)@ + self.spec_name(),
    {
        let s = match self {
            PrimitiveType::Bool => "bool",
            PrimitiveType::I8 => "i8",
            PrimitiveType::U8 => "u8",
            PrimitiveType::I16 => "i16",
            PrimitiveType::U16 => "u16",
            PrimitiveType::I32 => "i32",
            PrimitiveType::U32 => "u32",
            PrimitiveType::I64 => "i64",
            PrimitiveType::U64 => "u64",
            PrimitiveType::I128 => "i128",
            PrimitiveType::U128 => "u128",
            PrimitiveType::Usize => "usize",
            PrimitiveType::Isize => "isize",
            PrimitiveType::F32 => "f32",
            PrimitiveType::F64 => "f64",
        };
        proof {
            reveal_strlit("bool");
            reveal_strlit("i8");
            reveal_strlit("u8");
            reveal_strlit("i16");
            reveal_strlit("u16");
            reveal_strlit("i32");
            reveal_strlit("u32");
            reveal_strlit("i64");
            reveal_strlit("u64");
            reveal_strlit("i128");
            reveal_strlit("u128");
            reveal_strlit("usize");
            reveal_strlit("isize");
            reveal_strlit("f32");
            reveal_strlit("f64");
        }
        out.append(s);
    }

    /// The name of the type.
    pub fn name(&self) -> (s: String)
        ensures
            s@ == self.spec_name(),
    {
        let mut s = String::new();
        self.write_name(&mut s);
        s
    }
}

/// Appends one character to a string with `String::push`, which puts it at the end.
#[verifier::external_body]
pub(crate) fn push_char(s: &mut String, c: char)
    ensures
        final(s)@ == old(s)@.push(c),
{
    s.push(c);
}

} // verus!
