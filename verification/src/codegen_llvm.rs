use vstd::prelude::*;
use crate::ir::{ControlFlow, If, Literal, Statement, Statements, Value};
use crate::ops::{relation_holds, Operators};
use crate::types::{PrimitiveType, TypeDefine};

verus! {

/// The LLVM type that a primitive type is lowered to.
#[derive(Debug, Clone, Copy, PartialEq, Eq, Structural)]
pub enum LlvmType {
    /// An integer type of the given number of bits (`i1` for `bool`).
    Int(u32),
    F32,
    F64,
}

/// The lowering of a primitive type: `bool` and the integers to an integer
/// type of their width, the floats to `float` and `double`.
pub open spec fn spec_llvm_type(ty: PrimitiveType) -> LlvmType {
    match ty {
        PrimitiveType::F32 => LlvmType::F32,
        PrimitiveType::F64 => LlvmType::F64,
        _ => LlvmType::Int(ty.spec_width() as u32),
    }
}

/// A primitive type is lowered to an LLVM type of its own width: a float to the float of
/// that width, anything else to the integer of that width.
pub proof fn law_llvm_type_width(ty: PrimitiveType)
    ensures
        ty.spec_is_float() && ty.spec_width() == 32 ==> spec_llvm_type(ty) == LlvmType::F32,
        ty.spec_is_float() && ty.spec_width() == 64 ==> spec_llvm_type(ty) == LlvmType::F64,
        !ty.spec_is_float() ==> (spec_llvm_type(ty) matches LlvmType::Int(w) && w == ty.spec_width()),
{
}

/// The LLVM type of a primitive type.
pub fn llvm_type_of(ty: PrimitiveType) -> (t: LlvmType)
    ensures
        t == spec_llvm_type(ty),
{
    match ty {
        PrimitiveType::F32 => LlvmType::F32,
        PrimitiveType::F64 => LlvmType::F64,
        PrimitiveType::Bool => LlvmType::Int(1),
        PrimitiveType::I8 | PrimitiveType::U8 => LlvmType::Int(8),
        PrimitiveType::I16 | PrimitiveType::U16 => LlvmType::Int(16),
        PrimitiveType::I32 | PrimitiveType::U32 => LlvmType::Int(32),
        PrimitiveType::I64 | PrimitiveType::U64 => LlvmType::Int(64),
        PrimitiveType::I128 | PrimitiveType::U128 => LlvmType::Int(128),
        PrimitiveType::Usize | PrimitiveType::Isize => LlvmType::Int(64),
    }
}

/// The LLVM type of a type of the IR; only primitive types are lowered.
pub fn type_scast(ty: &TypeDefine) -> (t: LlvmType)
    requires
        ty is Primitive,
    ensures
        t == spec_llvm_type(ty->Primitive_0),
{
    let p = ty.as_primitive().unwrap();
    llvm_type_of(*p)
}

/// The predicates of an integer comparison.
#[derive(Debug, Clone, Copy, PartialEq, Eq, Structural)]
pub enum IntPredicate {
    EQ,
    NE,
    SGT,
    UGT,
    SLT,
    ULT,
    SGE,
    UGE,
    SLE,
    ULE,
}

/// The (ordered) predicates of a floating-point comparison.
#[derive(Debug, Clone, Copy, PartialEq, Eq, Structural)]
pub enum FloatPredicate {
    OEQ,
    ONE,
    OGT,
    OLT,
    OGE,
    OLE,
}

/// The instruction that a binary operation is built with.
#[derive(Debug, Clone, Copy, PartialEq, Eq, Structural)]
pub enum BinaryInst {
    IntAdd,
    IntSub,
    IntMul,
    IntSignedDiv,
    IntUnsignedDiv,
    IntSignedRem,
    IntUnsignedRem,
    IntCompare(IntPredicate),
    And,
    Or,
    Xor,
    LeftShift,
    /// A right shift, arithmetic where `signed` holds.
    RightShift { signed: bool },
    FloatAdd,
    FloatSub,
    FloatMul,
    FloatDiv,
    FloatRem,
    FloatCompare(FloatPredicate),
}

/// The instruction that a unary operation is built with.
#[derive(Debug, Clone, Copy, PartialEq, Eq, Structural)]
pub enum UnaryInst {
    Not,
}

pub open spec fn is_comparison(op: Operators) -> bool {
    op is Eq || op is Neq || op is Gt || op is Lt || op is Ge || op is Le
}

/// The binary operations that the backend lowers: on integers the arithmetic,
/// comparison, bitwise and shift operators; on floats the arithmetic and
/// comparison operators; on `bool` the logical `and` and `or`.
pub open spec fn binary_lowerable(ty: PrimitiveType, op: Operators) -> bool {
    if ty.spec_is_integer() {
        op is Add || op is Sub || op is Mul || op is Div || op is Mod || is_comparison(op)
            || op is Band || op is Bor || op is Xor || op is Shl || op is Shr
    } else if ty.spec_is_float() {
        op is Add || op is Sub || op is Mul || op is Div || op is Mod || is_comparison(op)
    } else {
        op is And || op is Or
    }
}

/// The predicate of an integer comparison; the ordering ones follow the sign.
pub open spec fn int_predicate(op: Operators, signed: bool) -> IntPredicate {
    match op {
        Operators::Eq => IntPredicate::EQ,
        Operators::Neq => IntPredicate::NE,
        Operators::Gt => if signed { IntPredicate::SGT } else { IntPredicate::UGT },
        Operators::Lt => if signed { IntPredicate::SLT } else { IntPredicate::ULT },
        Operators::Ge => if signed { IntPredicate::SGE } else { IntPredicate::UGE },
        _ => if signed { IntPredicate::SLE } else { IntPredicate::ULE },
    }
}

/// The predicate of a float comparison.
pub open spec fn float_predicate(op: Operators) -> FloatPredicate {
    match op {
        Operators::Eq => FloatPredicate::OEQ,
        Operators::Neq => FloatPredicate::ONE,
        Operators::Gt => FloatPredicate::OGT,
        Operators::Lt => FloatPredicate::OLT,
        Operators::Ge => FloatPredicate::OGE,
        _ => FloatPredicate::OLE,
    }
}

/// The instruction of a lowerable binary operation on values of type `ty`.
pub open spec fn spec_binary_inst(ty: PrimitiveType, op: Operators) -> BinaryInst {
    let signed = ty.spec_is_signed();
    if ty.spec_is_integer() {
        if is_comparison(op) {
            BinaryInst::IntCompare(int_predicate(op, signed))
        } else {
            match op {
                Operators::Add => BinaryInst::IntAdd,
                Operators::Sub => BinaryInst::IntSub,
                Operators::Mul => BinaryInst::IntMul,
                Operators::Div => if signed { BinaryInst::IntSignedDiv } else { BinaryInst::IntUnsignedDiv },
                Operators::Mod => if signed { BinaryInst::IntSignedRem } else { BinaryInst::IntUnsignedRem },
                Operators::Band => BinaryInst::And,
                Operators::Bor => BinaryInst::Or,
                Operators::Xor => BinaryInst::Xor,
                Operators::Shl => BinaryInst::LeftShift,
                _ => BinaryInst::RightShift { signed },
            }
        }
    } else if ty.spec_is_float() {
        if is_comparison(op) {
            BinaryInst::FloatCompare(float_predicate(op))
        } else {
            match op {
                Operators::Add => BinaryInst::FloatAdd,
                Operators::Sub => BinaryInst::FloatSub,
                Operators::Mul => BinaryInst::FloatMul,
                Operators::Div => BinaryInst::FloatDiv,
                _ => BinaryInst::FloatRem,
            }
        }
    } else if op is And {
        BinaryInst::And
    } else {
        BinaryInst::Or
    }
}

/// What an integer predicate states of two values, read as signed numbers when `signed`
/// and as unsigned ones otherwise; `None` where the predicate reads them the other way.
pub open spec fn int_predicate_holds(p: IntPredicate, signed: bool, x: int, y: int) -> Option<bool> {
    match p {
        IntPredicate::EQ => Some(x == y),
        IntPredicate::NE => Some(x != y),
        IntPredicate::SGT => if signed { Some(x > y) } else { None },
        IntPredicate::SLT => if signed { Some(x < y) } else { None },
        IntPredicate::SGE => if signed { Some(x >= y) } else { None },
        IntPredicate::SLE => if signed { Some(x <= y) } else { None },
        IntPredicate::UGT => if signed { None } else { Some(x > y) },
        IntPredicate::ULT => if signed { None } else { Some(x < y) },
        IntPredicate::UGE => if signed { None } else { Some(x >= y) },
        IntPredicate::ULE => if signed { None } else { Some(x <= y) },
    }
}

/// What an ordered float predicate states of two numbers.
pub open spec fn float_predicate_holds(p: FloatPredicate, x: int, y: int) -> bool {
    match p {
        FloatPredicate::OEQ => x == y,
        FloatPredicate::ONE => x != y,
        FloatPredicate::OGT => x > y,
        FloatPredicate::OLT => x < y,
        FloatPredicate::OGE => x >= y,
        FloatPredicate::OLE => x <= y,
    }
}

/// An instruction on integers computes the operator: the arithmetic, bitwise and shift
/// instructions stand for their operators, division, remainder and the right shift reading
/// values with the sign of the type, and a comparison's predicate holds exactly when the
/// operator's relation does.
pub open spec fn int_inst_computes(inst: BinaryInst, op: Operators, signed: bool) -> bool {
    match inst {
        BinaryInst::IntAdd => op is Add,
        BinaryInst::IntSub => op is Sub,
        BinaryInst::IntMul => op is Mul,
        BinaryInst::IntSignedDiv => op is Div && signed,
        BinaryInst::IntUnsignedDiv => op is Div && !signed,
        BinaryInst::IntSignedRem => op is Mod && signed,
        BinaryInst::IntUnsignedRem => op is Mod && !signed,
        BinaryInst::IntCompare(p) => forall|x: int, y: int| #[trigger] int_predicate_holds(p, signed, x, y) == relation_holds(op, x, y),
        BinaryInst::And => op is Band,
        BinaryInst::Or => op is Bor,
        BinaryInst::Xor => op is Xor,
        BinaryInst::LeftShift => op is Shl,
        BinaryInst::RightShift { signed: s } => op is Shr && s == signed,
        _ => false,
    }
}

/// An instruction on floats computes the operator; a comparison's predicate holds exactly
/// when the operator's relation does.
pub open spec fn float_inst_computes(inst: BinaryInst, op: Operators) -> bool {
    match inst {
        BinaryInst::FloatAdd => op is Add,
        BinaryInst::FloatSub => op is Sub,
        BinaryInst::FloatMul => op is Mul,
        BinaryInst::FloatDiv => op is Div,
        BinaryInst::FloatRem => op is Mod,
        BinaryInst::FloatCompare(p) => forall|x: int, y: int| relation_holds(op, x, y) == Some(#[trigger] float_predicate_holds(p, x, y)),
        _ => false,
    }
}

/// The instruction a binary operation is lowered to computes that operation: on integers
/// with the sign of the type, on floats, and on `bool` the logical `and` and `or`. So on
/// signed integers `da4deng3` is `SGE`, which holds of equal values, unlike `SGT`.
pub proof fn law_binary_computes(ty: PrimitiveType, op: Operators)
    requires
        binary_lowerable(ty, op),
    ensures
        ty.spec_is_integer() ==> int_inst_computes(spec_binary_inst(ty, op), op, ty.spec_is_signed()),
        ty.spec_is_float() ==> float_inst_computes(spec_binary_inst(ty, op), op),
        ty is Bool ==> (spec_binary_inst(ty, op) == BinaryInst::And <==> op is And)
            && (spec_binary_inst(ty, op) == BinaryInst::Or <==> op is Or),
{
}

fn int_compare(op: Operators, signed: bool) -> (p: IntPredicate)
    requires
        is_comparison(op),
    ensures
        p == int_predicate(op, signed),
{
    match op {
        Operators::Eq => IntPredicate::EQ,
        Operators::Neq => IntPredicate::NE,
        Operators::Gt => if signed { IntPredicate::SGT } else { IntPredicate::UGT },
        Operators::Lt => if signed { IntPredicate::SLT } else { IntPredicate::ULT },
        Operators::Ge => if signed { IntPredicate::SGE } else { IntPredicate::UGE },
        _ => if signed { IntPredicate::SLE } else { IntPredicate::ULE },
    }
}

fn float_compare(op: Operators) -> (p: FloatPredicate)
    requires
        is_comparison(op),
    ensures
        p == float_predicate(op),
{
    match op {
        Operators::Eq => FloatPredicate::OEQ,
        Operators::Neq => FloatPredicate::ONE,
        Operators::Gt => FloatPredicate::OGT,
        Operators::Lt => FloatPredicate::OLT,
        Operators::Ge => FloatPredicate::OGE,
        _ => FloatPredicate::OLE,
    }
}

fn comparison(op: Operators) -> (b: bool)
    ensures
        b == is_comparison(op),
{
    match op {
        Operators::Eq | Operators::Neq | Operators::Gt | Operators::Lt | Operators::Ge
        | Operators::Le => true,
        _ => false,
    }
}

/// Whether the backend lowers `op` on values of type `ty`.
pub fn is_binary_lowerable(ty: PrimitiveType, op: Operators) -> (b: bool)
    ensures
        b == binary_lowerable(ty, op),
{
    if ty.is_integer() {
        match op {
            Operators::Add | Operators::Sub | Operators::Mul | Operators::Div | Operators::Mod
            | Operators::Band | Operators::Bor | Operators::Xor | Operators::Shl
            | Operators::Shr => true,
            _ => comparison(op),
        }
    } else if ty.is_float() {
        match op {
            Operators::Add | Operators::Sub | Operators::Mul | Operators::Div
            | Operators::Mod => true,
            _ => comparison(op),
        }
    } else {
        match op {
            Operators::And | Operators::Or => true,
            _ => false,
        }
    }
}

/// The instruction that builds `op` on two values of type `ty`: integer division,
/// remainder, ordering comparisons and the right shift follow the sign of `ty`.
pub fn binary(ty: PrimitiveType, op: Operators) -> (inst: BinaryInst)
    requires
        binary_lowerable(ty, op),
    ensures
        inst == spec_binary_inst(ty, op),
{
    let signed = ty.is_signed();
    if ty.is_integer() {
        if comparison(op) {
            return BinaryInst::IntCompare(int_compare(op, signed));
        }
        match op {
            Operators::Add => BinaryInst::IntAdd,
            Operators::Sub => BinaryInst::IntSub,
            Operators::Mul => BinaryInst::IntMul,
            Operators::Div => if signed { BinaryInst::IntSignedDiv } else { BinaryInst::IntUnsignedDiv },
            Operators::Mod => if signed { BinaryInst::IntSignedRem } else { BinaryInst::IntUnsignedRem },
            Operators::Band => BinaryInst::And,
            Operators::Bor => BinaryInst::Or,
            Operators::Xor => BinaryInst::Xor,
            Operators::Shl => BinaryInst::LeftShift,
            _ => BinaryInst::RightShift { signed },
        }
    } else if ty.is_float() {
        if comparison(op) {
            return BinaryInst::FloatCompare(float_compare(op));
        }
        match op {
            Operators::Add => BinaryInst::FloatAdd,
            Operators::Sub => BinaryInst::FloatSub,
            Operators::Mul => BinaryInst::FloatMul,
            Operators::Div => BinaryInst::FloatDiv,
            _ => BinaryInst::FloatRem,
        }
    } else {
        match op {
            Operators::And => BinaryInst::And,
            _ => BinaryInst::Or,
        }
    }
}

/// The unary operations that the backend lowers: `not` on integers and on `bool`.
pub open spec fn unary_lowerable(ty: PrimitiveType, op: Operators) -> bool {
    !ty.spec_is_float() && op is Not
}

pub fn is_unary_lowerable(ty: PrimitiveType, op: Operators) -> (b: bool)
    ensures
        b == unary_lowerable(ty, op),
{
    !ty.is_float() && match op {
        Operators::Not => true,
        _ => false,
    }
}

/// The instruction that builds `op` on a value of type `ty`.
pub fn unary(ty: PrimitiveType, op: Operators) -> (inst: UnaryInst)
    requires
        unary_lowerable(ty, op),
    ensures
        inst == UnaryInst::Not,
{
    UnaryInst::Not
}

/// A constant of the lowered program.
#[derive(Debug, PartialEq, Eq)]
pub enum LlvmConst {
    /// An integer constant of `width` bits; `sign_extend` is the flag handed to
    /// LLVM with the value.
    Int { width: u32, value: u64, sign_extend: bool },
    /// A float constant of `width` bits, by its decimal text.
    Float { width: u32, text: String },
}

/// The literals that can be built at a type: an integer at an integer type, a
/// float at a float type, a character at `u32`.
pub open spec fn literal_lowerable(lit: Literal, ty: PrimitiveType) -> bool {
    match lit {
        Literal::Integer(_) => ty.spec_is_integer(),
        Literal::Float(_) => ty.spec_is_float(),
        Literal::Char(_) => ty == PrimitiveType::U32,
    }
}

pub fn is_literal_lowerable(lit: &Literal, ty: PrimitiveType) -> (b: bool)
    ensures
        b == literal_lowerable(*lit, ty),
{
    match lit {
        Literal::Integer(_) => ty.is_integer(),
        Literal::Float(_) => ty.is_float(),
        Literal::Char(_) => match ty {
            PrimitiveType::U32 => true,
            _ => false,
        },
    }
}

/// The constant that a literal of type `ty` is built as: an integer of the type's
/// width with the type's sign, a float of the type's width with the literal's
/// text, a character as the 32-bit integer of its code point.
pub fn literal(lit: &Literal, ty: PrimitiveType) -> (c: LlvmConst)
    requires
        literal_lowerable(*lit, ty),
    ensures
        match *lit {
            Literal::Integer(n) => c == LlvmConst::Int {
                width: ty.spec_width() as u32,
                value: n as u64,
                sign_extend: ty.spec_is_signed(),
            },
            Literal::Float(t) => c matches LlvmConst::Float { width, text }
                && width == ty.spec_width() && text@ == t@,
            Literal::Char(ch) => c == LlvmConst::Int {
                width: 32,
                value: ch as u64,
                sign_extend: false,
            },
        },
{
    match lit {
        Literal::Integer(n) => {
            let w = ty.width();
            LlvmConst::Int { width: w as u32, value: *n as u64, sign_extend: ty.is_signed() }
        },
        Literal::Float(t) => {
            let w = ty.width();
            LlvmConst::Float { width: w as u32, text: t.clone() }
        },
        Literal::Char(ch) => {
            let code: u32 = *ch as u32;
            LlvmConst::Int { width: 32, value: code as u64, sign_extend: false }
        },
    }
}

/// The blocks that an `if` is lowered to: one block per condition and one for
/// the `else`, one block per branch body, and a block after the `if` unless the
/// `if` surely returns; `jump_after[i]` tells whether branch `i` ends with a jump
/// to that block.
pub struct IfLayout {
    pub after_exists: bool,
    pub cond_blocks: usize,
    pub code_blocks: usize,
    pub jump_after: Vec<bool>,
}

/// The layout of the blocks of an `if`.
pub fn if_layout(cgu: &If<Value>) -> (l: IfLayout)
    requires
        cgu.branches@.len() < usize::MAX,
    ensures
        l.after_exists == !cgu.spec_returned(),
        l.cond_blocks == cgu.branches@.len() + 1,
        l.code_blocks == cgu.branches@.len() + if l.after_exists { 1int } else { 0int },
        l.jump_after@.len() == cgu.branches@.len(),
        forall|i: int| #![trigger l.jump_after@[i]] 0 <= i < cgu.branches@.len() ==>
            l.jump_after@[i] == (l.after_exists && !cgu.branches@[i].body.returned),
{
    let after_exists = !cgu.returned();
    let n = cgu.branches.len();
    let mut jump_after: Vec<bool> = Vec::new();
    let mut i: usize = 0;
    while i < n
        invariant
            i <= n,
            n == cgu.branches@.len(),
            jump_after@.len() == i,
            forall|k: int| #![trigger jump_after@[k]] 0 <= k < i ==>
                jump_after@[k] == (after_exists && !cgu.branches@[k].body.returned),
        decreases n - i,
    {
        let returned = cgu.branches[i].body.returned;
        jump_after.push(after_exists && !returned);
        i += 1;
    }
    let code_blocks = if after_exists { n + 1 } else { n };
    IfLayout { after_exists, cond_blocks: n + 1, code_blocks, jump_after }
}


/// A part of a statement whose own statements are lowered in turn.
#[derive(Debug, Clone, Copy, PartialEq, Eq, Structural)]
pub enum Part {
    /// The statements of a block statement.
    Block,
    /// The statements that compute the condition of branch `k` of an `if`.
    IfCond(usize),
    /// The body of branch `k` of an `if`.
    IfBody(usize),
    /// The `else` of an `if`.
    Else,
    /// The statements that compute the condition of a `while`.
    WhileCond,
    /// The body of a `while`.
    WhileBody,
}

/// One step of lowering a statement. Basic blocks are numbered in the order in
/// which the statement's `NewBlock` steps make them, from 0.
#[derive(Debug, Clone, Copy, PartialEq, Eq, Structural)]
pub enum LlvmAction {
    /// Allocate the variable that the statement defines, store its initial value, and bind it.
    Define,
    /// Store the value into the variable.
    Store,
    /// Return, with the value where there is one.
    Return,
    /// Append a new basic block to the function.
    NewBlock,
    /// Branch to the block unconditionally.
    Jump(usize),
    /// Go on emitting at the end of the block.
    PositionAt(usize),
    /// Lower the statements of the part in the current scope.
    Compute(Part),
    /// Lower the statements of the part in a scope of their own.
    Scoped(Part),
    /// Branch on the value of the part's condition: to the first block if it holds, else to the second.
    Branch(Part, usize, usize),
}

/// `m` new blocks.
pub open spec fn new_blocks(m: nat) -> Seq<LlvmAction> {
    Seq::new(m, |_i: int| LlvmAction::NewBlock)
}

/// The steps of branch `k` of an `if` with `n` branches: its condition block is
/// `k`, its body block `n + 1 + k`, the next condition block `k + 1` (block `n`
/// is the `else`), and it jumps to `after` when `jump` holds.
pub open spec fn if_branch_actions(k: nat, n: nat, jump: bool, after: nat) -> Seq<LlvmAction> {
    seq![
        LlvmAction::PositionAt(k as usize),
        LlvmAction::Compute(Part::IfCond(k as usize)),
        LlvmAction::Branch(Part::IfCond(k as usize), (n + 1 + k) as usize, (k + 1) as usize),
        LlvmAction::PositionAt((n + 1 + k) as usize),
        LlvmAction::Scoped(Part::IfBody(k as usize)),
    ] + if jump { seq![LlvmAction::Jump(after as usize)] } else { Seq::empty() }
}

/// Whether branch `k` of an `if` ends with a jump to the block after the `if`.
pub open spec fn if_jumps_after(i: If<Value>, k: int) -> bool {
    !i.spec_returned() && !i.branches@[k].body.returned
}

/// The steps of the first `m` branches of an `if`.
pub open spec fn if_branches_actions(i: If<Value>, m: nat) -> Seq<LlvmAction>
    decreases m,
{
    if m == 0 {
        Seq::empty()
    } else {
        let n = i.branches@.len();
        if_branches_actions(i, (m - 1) as nat)
            + if_branch_actions((m - 1) as nat, n, if_jumps_after(i, m - 1), 2 * n + 1)
    }
}

/// The steps of an `if` with `n` branches: its `2n + 1` blocks (and the block
/// after it, `2n + 1`, unless it surely returns), a jump to the first condition,
/// each branch, then the `else` in block `n`, and the jump to the block after.
pub open spec fn if_actions(i: If<Value>) -> Seq<LlvmAction> {
    let n = i.branches@.len();
    let after = !i.spec_returned();
    new_blocks(2 * n + 1 + if after { 1nat } else { 0nat })
        + seq![LlvmAction::Jump(0)]
        + if_branches_actions(i, n)
        + seq![LlvmAction::PositionAt(n as usize)]
        + if i.else_ is Some { seq![LlvmAction::Scoped(Part::Else)] } else { Seq::empty() }
        + if after {
            seq![LlvmAction::Jump((2 * n + 1) as usize), LlvmAction::PositionAt((2 * n + 1) as usize)]
        } else {
            Seq::empty()
        }
}

/// The steps of a `while`: condition block 0, body block 1, block 2 after the loop.
pub open spec fn while_actions() -> Seq<LlvmAction> {
    seq![
        LlvmAction::NewBlock,
        LlvmAction::NewBlock,
        LlvmAction::NewBlock,
        LlvmAction::Jump(0),
        LlvmAction::PositionAt(0),
        LlvmAction::Compute(Part::WhileCond),
        LlvmAction::Branch(Part::WhileCond, 1, 2),
        LlvmAction::PositionAt(1),
        LlvmAction::Scoped(Part::WhileBody),
        LlvmAction::Jump(0),
        LlvmAction::PositionAt(2),
    ]
}

/// The steps that lower a statement.
pub open spec fn stmt_actions(s: Statement<Value>) -> Seq<LlvmAction> {
    match s {
        Statement::VarDefine(_) => seq![LlvmAction::Define],
        Statement::VarStore(_) => seq![LlvmAction::Store],
        Statement::Block(_) => seq![LlvmAction::Scoped(Part::Block)],
        Statement::If(i) => if_actions(i),
        Statement::While(_) => while_actions(),
        Statement::Return(_) => seq![LlvmAction::Return],
    }
}

/// Whether the blocks of a statement can be numbered in a `usize`.
pub open spec fn lowerable(s: Statement<Value>) -> bool {
    s matches Statement::If(i) ==> 2 * i.branches@.len() + 2 <= usize::MAX
}

/// The steps that lower one statement.
pub fn lower_stmt(s: &Statement<Value>) -> (plan: Vec<LlvmAction>)
    requires
        lowerable(*s),
    ensures
        plan@ == stmt_actions(*s),
{
    match s {
        Statement::VarDefine(_) => vec![LlvmAction::Define],
        Statement::VarStore(_) => vec![LlvmAction::Store],
        Statement::Block(_) => vec![LlvmAction::Scoped(Part::Block)],
        Statement::Return(_) => vec![LlvmAction::Return],
        Statement::While(_) => {
            let plan = vec![
                LlvmAction::NewBlock,
                LlvmAction::NewBlock,
                LlvmAction::NewBlock,
                LlvmAction::Jump(0),
                LlvmAction::PositionAt(0),
                LlvmAction::Compute(Part::WhileCond),
                LlvmAction::Branch(Part::WhileCond, 1, 2),
                LlvmAction::PositionAt(1),
                LlvmAction::Scoped(Part::WhileBody),
                LlvmAction::Jump(0),
                LlvmAction::PositionAt(2),
            ];
            assert(plan@ =~= while_actions());
            plan
        },
        Statement::If(i) => lower_if(i),
    }
}

/// The steps that lower an `if`.
fn lower_if(i: &If<Value>) -> (plan: Vec<LlvmAction>)
    requires
        2 * i.branches@.len() + 2 <= usize::MAX,
    ensures
        plan@ == if_actions(*i),
{
    let layout = if_layout(i);
    let n = i.branches.len();
    let after_exists = layout.after_exists;
    let blocks = if after_exists { 2 * n + 2 } else { 2 * n + 1 };
    let after = 2 * n + 1;
    let mut plan: Vec<LlvmAction> = Vec::new();
    let mut b: usize = 0;
    while b < blocks
        invariant
            b <= blocks,
            plan@ =~= new_blocks(b as nat),
        decreases blocks - b,
    {
        plan.push(LlvmAction::NewBlock);
        b += 1;
    }
    plan.push(LlvmAction::Jump(0));
    let ghost head = plan@;
    let mut k: usize = 0;
    while k < n
        invariant
            k <= n,
            n == i.branches@.len(),
            2 * n + 2 <= usize::MAX,
            after == 2 * n + 1,
            layout.after_exists == !i.spec_returned(),
            layout.jump_after@.len() == n,
            forall|j: int| #![trigger layout.jump_after@[j]] 0 <= j < n ==>
                layout.jump_after@[j] == (layout.after_exists && !i.branches@[j].body.returned),
            plan@ == head + if_branches_actions(*i, k as nat),
        decreases n - k,
    {
        let ghost before = plan@;
        plan.push(LlvmAction::PositionAt(k));
        plan.push(LlvmAction::Compute(Part::IfCond(k)));
        plan.push(LlvmAction::Branch(Part::IfCond(k), n + 1 + k, k + 1));
        plan.push(LlvmAction::PositionAt(n + 1 + k));
        plan.push(LlvmAction::Scoped(Part::IfBody(k)));
        if layout.jump_after[k] {
            plan.push(LlvmAction::Jump(after));
        }
        proof {
            assert(layout.jump_after@[k as int] == if_jumps_after(*i, k as int));
            assert(plan@ =~= before + if_branch_actions(k as nat, n as nat, if_jumps_after(*i, k as int), after as nat));
            assert(if_branches_actions(*i, (k + 1) as nat)
                == if_branches_actions(*i, k as nat) + if_branch_actions(k as nat, n as nat, if_jumps_after(*i, k as int), after as nat));
            assert(plan@ =~= head + if_branches_actions(*i, (k + 1) as nat));
        }
        k += 1;
    }
    plan.push(LlvmAction::PositionAt(n));
    if i.else_.is_some() {
        plan.push(LlvmAction::Scoped(Part::Else));
    }
    if after_exists {
        plan.push(LlvmAction::Jump(after));
        plan.push(LlvmAction::PositionAt(after));
    }
    proof {
        assert(blocks == 2 * n + 1 + if !i.spec_returned() { 1nat } else { 0nat });
        assert(plan@ =~= if_actions(*i));
    }
    plan
}

/// The steps that lower each statement of a sequence, one plan per statement.
pub fn lower_stmts(s: &Statements<Value>) -> (plans: Vec<Vec<LlvmAction>>)
    requires
        forall|j: int| 0 <= j < s.stmts@.len() ==> lowerable(#[trigger] s.stmts@[j]),
    ensures
        plans@.len() == s.stmts@.len(),
        forall|j: int| 0 <= j < s.stmts@.len() ==> (#[trigger] plans@[j])@ == stmt_actions(s.stmts@[j]),
{
    let mut plans: Vec<Vec<LlvmAction>> = Vec::new();
    let mut j: usize = 0;
    while j < s.stmts.len()
        invariant
            j <= s.stmts@.len(),
            forall|m: int| 0 <= m < s.stmts@.len() ==> lowerable(#[trigger] s.stmts@[m]),
            plans@.len() == j,
            forall|m: int| 0 <= m < j ==> (#[trigger] plans@[m])@ == stmt_actions(s.stmts@[m]),
        decreases s.stmts@.len() - j,
    {
        let plan = lower_stmt(&s.stmts[j]);
        plans.push(plan);
        j += 1;
    }
    plans
}

} // verus!
