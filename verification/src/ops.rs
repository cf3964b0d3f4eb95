use vstd::prelude::*;

verus! {

/// How many operands an operator takes; brackets take none.
#[derive(Debug, Clone, Copy, PartialEq, Eq, Structural)]
pub enum OperatorAssociativity {
    Binary,
    Unary,
    Neither,
}

/// The families of operators.
#[derive(Debug, Clone, Copy, PartialEq, Eq, Structural)]
pub enum OperatorTypes {
    AlgebraOperator,
    CompareOperator,
    LogicalOperator,
    ArithmeticOperator,
    SpecialOperator,
    StructOperator,
}

/// The operators of the language, with their keywords.
#[derive(Debug, Clone, Copy, PartialEq, Eq, Structural)]
pub enum Operators {
    Add,
    Sub,
    Mul,
    Div,
    Mod,
    Pow,
    Log,
    Eq,
    Neq,
    Gt,
    Lt,
    Ge,
    Le,
    And,
    Or,
    Not,
    Band,
    Bor,
    Bnot,
    Xor,
    Shl,
    Shr,
    AddrOf,
    Deref,
    GetElement,
    Cast,
    SizeOf,
    BracketL,
    BracketR,
}

/// The keyword of each operator.
pub open spec fn op_keyword(op: Operators) -> Seq<char> {
    match op {
        Operators::Add => "jia1"@,
        Operators::Sub => "jian3"@,
        Operators::Mul => "cheng2"@,
        Operators::Div => "chu2"@,
        Operators::Mod => "mo2"@,
        Operators::Pow => "mi4"@,
        Operators::Log => "dui4"@,
        Operators::Eq => "tong2"@,
        Operators::Neq => "fei1tong2"@,
        Operators::Gt => "da4"@,
        Operators::Lt => "xiao3"@,
        Operators::Ge => "da4deng3"@,
        Operators::Le => "xiao3deng3"@,
        Operators::And => "yu3"@,
        Operators::Or => "huo4"@,
        Operators::Not => "fei1"@,
        Operators::Band => "wei4yu3"@,
        Operators::Bor => "wei4huo4"@,
        Operators::Bnot => "wei4fei1"@,
        Operators::Xor => "wei4yi4huo4"@,
        Operators::Shl => "zuo3yi2"@,
        Operators::Shr => "you4yi2"@,
        Operators::AddrOf => "qu3zhi3"@,
        Operators::Deref => "fang3zhi3"@,
        Operators::GetElement => "fang3su4"@,
        Operators::Cast => "zhuan3"@,
        Operators::SizeOf => "chang2du4"@,
        Operators::BracketL => "jie2"@,
        Operators::BracketR => "he2"@,
    }
}

impl Operators {
    pub open spec fn spec_op_ty(self) -> OperatorTypes {
        match self {
            Operators::Add | Operators::Sub | Operators::Mul | Operators::Div | Operators::Mod
            | Operators::Pow | Operators::Log => OperatorTypes::AlgebraOperator,
            Operators::Eq | Operators::Neq | Operators::Gt | Operators::Lt | Operators::Ge
            | Operators::Le => OperatorTypes::CompareOperator,
            Operators::And | Operators::Or | Operators::Not => OperatorTypes::LogicalOperator,
            Operators::Band | Operators::Bor | Operators::Bnot | Operators::Xor | Operators::Shl
            | Operators::Shr => OperatorTypes::ArithmeticOperator,
            Operators::AddrOf | Operators::Deref | Operators::GetElement | Operators::Cast
            | Operators::SizeOf => OperatorTypes::SpecialOperator,
            Operators::BracketL | Operators::BracketR => OperatorTypes::StructOperator,
        }
    }

    pub open spec fn spec_associativity(self) -> OperatorAssociativity {
        match self {
            Operators::Not | Operators::Bnot | Operators::AddrOf | Operators::Deref
            | Operators::Cast | Operators::SizeOf => OperatorAssociativity::Unary,
            Operators::BracketL | Operators::BracketR => OperatorAssociativity::Neither,
            _ => OperatorAssociativity::Binary,
        }
    }

    /// Binding strength: a smaller number binds tighter.
    pub open spec fn spec_priority(self) -> nat {
        match self {
            Operators::Add | Operators::Sub => 6,
            Operators::Mul | Operators::Div | Operators::Mod => 5,
            Operators::Pow | Operators::Log => 4,
            Operators::Eq | Operators::Neq => 10,
            Operators::Gt | Operators::Lt | Operators::Ge | Operators::Le => 8,
            Operators::And => 14,
            Operators::Or => 15,
            Operators::Not => 3,
            Operators::Band => 11,
            Operators::Bor => 13,
            Operators::Bnot => 3,
            Operators::Xor => 12,
            Operators::Shl | Operators::Shr => 7,
            Operators::AddrOf | Operators::Deref => 3,
            Operators::GetElement | Operators::Cast => 2,
            Operators::SizeOf => 3,
            Operators::BracketL | Operators::BracketR => 0,
        }
    }

    /// The number of operands.
    pub open spec fn spec_cost(self) -> nat {
        match self.spec_associativity() {
            OperatorAssociativity::Binary => 2,
            OperatorAssociativity::Unary => 1,
            OperatorAssociativity::Neither => 0,
        }
    }

    pub fn op_ty(&self) -> (t: OperatorTypes)
        ensures
            t == self.spec_op_ty(),
    {
        match self {
            Operators::Add | Operators::Sub | Operators::Mul | Operators::Div | Operators::Mod
            | Operators::Pow | Operators::Log => OperatorTypes::AlgebraOperator,
            Operators::Eq | Operators::Neq | Operators::Gt | Operators::Lt | Operators::Ge
            | Operators::Le => OperatorTypes::CompareOperator,
            Operators::And | Operators::Or | Operators::Not => OperatorTypes::LogicalOperator,
            Operators::Band | Operators::Bor | Operators::Bnot | Operators::Xor | Operators::Shl
            | Operators::Shr => OperatorTypes::ArithmeticOperator,
            Operators::AddrOf | Operators::Deref | Operators::GetElement | Operators::Cast
            | Operators::SizeOf => OperatorTypes::SpecialOperator,
            Operators::BracketL | Operators::BracketR => OperatorTypes::StructOperator,
        }
    }

    pub fn associativity(&self) -> (a: OperatorAssociativity)
        ensures
            a == self.spec_associativity(),
    {
        match self {
            Operators::Not | Operators::Bnot | Operators::AddrOf | Operators::Deref
            | Operators::Cast | Operators::SizeOf => OperatorAssociativity::Unary,
            Operators::BracketL | Operators::BracketR => OperatorAssociativity::Neither,
            _ => OperatorAssociativity::Binary,
        }
    }

    pub fn priority(&self) -> (p: usize)
        ensures
            p == self.spec_priority(),
    {
        match self {
            Operators::Add | Operators::Sub => 6,
            Operators::Mul | Operators::Div | Operators::Mod => 5,
            Operators::Pow | Operators::Log => 4,
            Operators::Eq | Operators::Neq => 10,
            Operators::Gt | Operators::Lt | Operators::Ge | Operators::Le => 8,
            Operators::And => 14,
            Operators::Or => 15,
            Operators::Not => 3,
            Operators::Band => 11,
            Operators::Bor => 13,
            Operators::Bnot => 3,
            Operators::Xor => 12,
            Operators::Shl | Operators::Shr => 7,
            Operators::AddrOf | Operators::Deref => 3,
            Operators::GetElement | Operators::Cast => 2,
            Operators::SizeOf => 3,
            Operators::BracketL | Operators::BracketR => 0,
        }
    }

    /// The number of operands the operator takes.
    pub fn cost(&self) -> (c: usize)
        ensures
            c == self.spec_cost(),
    {
        match self.associativity() {
            OperatorAssociativity::Binary => 2,
            OperatorAssociativity::Unary => 1,
            OperatorAssociativity::Neither => 0,
        }
    }

    /// The keyword of the operator.
    pub fn keyword(&self) -> (s: &'static str)
        ensures
            s@ == op_keyword(*self),
    {
        match self {
            Operators::Add => "jia1",
            Operators::Sub => "jian3",
            Operators::Mul => "cheng2",
            Operators::Div => "chu2",
            Operators::Mod => "mo2",
            Operators::Pow => "mi4",
            Operators::Log => "dui4",
            Operators::Eq => "tong2",
            Operators::Neq => "fei1tong2",
            Operators::Gt => "da4",
            Operators::Lt => "xiao3",
            Operators::Ge => "da4deng3",
            Operators::Le => "xiao3deng3",
            Operators::And => "yu3",
            Operators::Or => "huo4",
            Operators::Not => "fei1",
            Operators::Band => "wei4yu3",
            Operators::Bor => "wei4huo4",
            Operators::Bnot => "wei4fei1",
            Operators::Xor => "wei4yi4huo4",
            Operators::Shl => "zuo3yi2",
            Operators::Shr => "you4yi2",
            Operators::AddrOf => "qu3zhi3",
            Operators::Deref => "fang3zhi3",
            Operators::GetElement => "fang3su4",
            Operators::Cast => "zhuan3",
            Operators::SizeOf => "chang2du4",
            Operators::BracketL => "jie2",
            Operators::BracketR => "he2",
        }
    }
}

/// The levels at which the binary operators bind, from the tightest: element access; powers
/// and logarithms; multiplication, division and remainder; addition and subtraction;
/// shifts; ordering comparisons; equality; bitwise and; bitwise exclusive or; bitwise or;
/// logical and; logical or.
pub open spec fn binding_level(op: Operators) -> int {
    if op is GetElement { 0 }
    else if op is Pow || op is Log { 1 }
    else if op is Mul || op is Div || op is Mod { 2 }
    else if op is Add || op is Sub { 3 }
    else if op is Shl || op is Shr { 4 }
    else if op is Gt || op is Lt || op is Ge || op is Le { 5 }
    else if op is Eq || op is Neq { 6 }
    else if op is Band { 7 }
    else if op is Xor { 8 }
    else if op is Bor { 9 }
    else if op is And { 10 }
    else { 11 }
}

/// The binary operators that are no brackets.
pub open spec fn is_binary_operator(op: Operators) -> bool {
    op.spec_associativity() == OperatorAssociativity::Binary && op.spec_op_ty() != OperatorTypes::StructOperator
}

/// Of two binary operators, the one with the smaller priority binds tighter, and equal
/// priorities bind alike, as the levels say: remainder with multiplication and division,
/// tighter than addition and subtraction, and so on down to logical or.
pub proof fn law_priority_follows_levels(a: Operators, b: Operators)
    requires
        is_binary_operator(a),
        is_binary_operator(b),
    ensures
        (a.spec_priority() < b.spec_priority()) <==> (binding_level(a) < binding_level(b)),
        (a.spec_priority() == b.spec_priority()) <==> (binding_level(a) == binding_level(b)),
{
}

/// What a comparison states of two numbers; `None` for an operator that compares nothing.
pub open spec fn relation_holds(op: Operators, x: int, y: int) -> Option<bool> {
    if op is Eq { Some(x == y) }
    else if op is Neq { Some(x != y) }
    else if op is Gt { Some(x > y) }
    else if op is Lt { Some(x < y) }
    else if op is Ge { Some(x >= y) }
    else if op is Le { Some(x <= y) }
    else { None }
}

/// The operator states a relation between its operands, true or false.
pub open spec fn is_relation(op: Operators) -> bool {
    relation_holds(op, 0, 0) is Some
}

/// The comparison operators are exactly those that state a relation between two numbers.
pub proof fn law_comparisons_are_relations(op: Operators)
    ensures
        (op.spec_op_ty() == OperatorTypes::CompareOperator) <==> is_relation(op),
        op.spec_op_ty() == OperatorTypes::CompareOperator ==> op.spec_associativity() == OperatorAssociativity::Binary,
{
}

/// Whether `op` is in `s`.
pub open spec fn listed(s: Seq<Operators>, op: Operators) -> bool {
    exists|i: int| 0 <= i < s.len() && s[i] == op
}

/// All operators, in declaration order.
pub fn all_operators() -> (v: Vec<Operators>)
    ensures
        forall|op: Operators| #[trigger] listed(v@, op),
{
    let v = vec![
        Operators::Add, Operators::Sub, Operators::Mul, Operators::Div, Operators::Mod,
        Operators::Pow, Operators::Log, Operators::Eq, Operators::Neq, Operators::Gt,
        Operators::Lt, Operators::Ge, Operators::Le, Operators::And, Operators::Or,
        Operators::Not, Operators::Band, Operators::Bor, Operators::Bnot, Operators::Xor,
        Operators::Shl, Operators::Shr, Operators::AddrOf, Operators::Deref,
        Operators::GetElement, Operators::Cast, Operators::SizeOf, Operators::BracketL,
        Operators::BracketR,
    ];
    assert forall|op: Operators| #[trigger] listed(v@, op) by {
        match op {
            Operators::Add => assert(v@[0] == op),
            Operators::Sub => assert(v@[1] == op),
            Operators::Mul => assert(v@[2] == op),
            Operators::Div => assert(v@[3] == op),
            Operators::Mod => assert(v@[4] == op),
            Operators::Pow => assert(v@[5] == op),
            Operators::Log => assert(v@[6] == op),
            Operators::Eq => assert(v@[7] == op),
            Operators::Neq => assert(v@[8] == op),
            Operators::Gt => assert(v@[9] == op),
            Operators::Lt => assert(v@[10] == op),
            Operators::Ge => assert(v@[11] == op),
            Operators::Le => assert(v@[12] == op),
            Operators::And => assert(v@[13] == op),
            Operators::Or => assert(v@[14] == op),
            Operators::Not => assert(v@[15] == op),
            Operators::Band => assert(v@[16] == op),
            Operators::Bor => assert(v@[17] == op),
            Operators::Bnot => assert(v@[18] == op),
            Operators::Xor => assert(v@[19] == op),
            Operators::Shl => assert(v@[20] == op),
            Operators::Shr => assert(v@[21] == op),
            Operators::AddrOf => assert(v@[22] == op),
            Operators::Deref => assert(v@[23] == op),
            Operators::GetElement => assert(v@[24] == op),
            Operators::Cast => assert(v@[25] == op),
            Operators::SizeOf => assert(v@[26] == op),
            Operators::BracketL => assert(v@[27] == op),
            Operators::BracketR => assert(v@[28] == op),
        }
    }
    v
}

/// The operator whose keyword is `s`, if there is one; the first in declaration order.
pub fn operator_of(s: &str) -> (r: Option<Operators>)
    ensures
        r matches Some(op) ==> op_keyword(op) == s@,
        r is None ==> forall|op: Operators| op_keyword(op) != s@,
{
    let all = all_operators();
    let mut i: usize = 0;
    while i < all.len()
        invariant
            i <= all.len(),
            forall|op: Operators| #[trigger] listed(all@, op),
            forall|k: int| 0 <= k < i ==> op_keyword(all@[k]) != s@,
        decreases all.len() - i,
    {
        let op = all[i];
        if crate::declare::defs::str_eq(op.keyword(), s) {
            return Some(op);
        }
        i = i + 1;
    }
    assert forall|op: Operators| op_keyword(op) != s@ by {
        assert(listed(all@, op));
        let k = choose|k: int| 0 <= k < all@.len() && all@[k] == op;
    }
    None
}

} // verus!
