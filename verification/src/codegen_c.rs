use vstd::prelude::*;
use crate::ir::{AssignValue, If, IfBranch, Item, Literal, Operate, Parameter, Statement, Statements, Value};
use crate::ops::Operators;
use crate::text::{append_decimal, append_str};
use crate::types::{decimal, push_char, PrimitiveType, TypeDefine, TypeDefineV};

pub mod translate;

verus! {

/// A character of the Crockford base32 alphabet.
pub open spec fn crockford_char(c: char) -> bool {
    ('0' <= c && c <= '9') || ('A' <= c && c <= 'Z' && c != 'I' && c != 'L' && c != 'O' && c != 'U')
}

/// What `base32::encode` gives with the Crockford alphabet for the UTF-8 bytes of a text.
pub uninterp spec fn base32_crockford(s: Seq<char>) -> Seq<char>;

/// Encodes the UTF-8 bytes of a text in base32 with the Crockford alphabet, without padding.
/// Every character of the result is of that alphabet (the crate picks each one from it);
/// nothing more of the encoding is stated here.
#[verifier::external_body]
pub fn encode_base32(src: &str) -> (s: String)
    ensures
        s@ == base32_crockford(src@),
        forall|i: int| 0 <= i < s@.len() ==> crockford_char(#[trigger] s@[i]),
{
    base32::encode(base32::Alphabet::Crockford, src.as_bytes())
}

/// The C name of a primitive type; the 128-bit and pointer-sized integers have none.
pub open spec fn prim_c(p: PrimitiveType) -> Seq<char> {
    match p {
        PrimitiveType::Bool => seq!['b', 'o', 'o', 'l'],
        PrimitiveType::I8 => seq!['i', 'n', 't', '8', '_', 't'],
        PrimitiveType::U8 => seq!['u', 'i', 'n', 't', '8', '_', 't'],
        PrimitiveType::I16 => seq!['i', 'n', 't', '1', '6', '_', 't'],
        PrimitiveType::U16 => seq!['u', 'i', 'n', 't', '1', '6', '_', 't'],
        PrimitiveType::I32 => seq!['i', 'n', 't', '3', '2', '_', 't'],
        PrimitiveType::U32 => seq!['u', 'i', 'n', 't', '3', '2', '_', 't'],
        PrimitiveType::I64 => seq!['i', 'n', 't', '6', '4', '_', 't'],
        PrimitiveType::U64 => seq!['u', 'i', 'n', 't', '6', '4', '_', 't'],
        PrimitiveType::F32 => seq!['f', 'l', 'o', 'a', 't'],
        PrimitiveType::F64 => seq!['d', 'o', 'u', 'b', 'l', 'e'],
        _ => Seq::empty(),
    }
}

/// The C name of a primitive type says what it is: an integer type is named `int` (`uint`
/// when unsigned), its width in bits and `_t`; a 32-bit float is a `float`, a 64-bit one a
/// `double`; `bool` is `bool`. So `u64` is `uint64_t`.
pub proof fn law_c_type_names(p: PrimitiveType)
    requires
        prim_c_ok(p),
    ensures
        p.spec_is_integer() ==> prim_c(p) == (if p.spec_is_unsigned() { seq!['u'] } else { Seq::<char>::empty() })
            + seq!['i', 'n', 't'] + decimal(p.spec_width()) + seq!['_', 't'],
        p.spec_is_float() && p.spec_width() == 32 ==> prim_c(p) == seq!['f', 'l', 'o', 'a', 't'],
        p.spec_is_float() && p.spec_width() == 64 ==> prim_c(p) == seq!['d', 'o', 'u', 'b', 'l', 'e'],
        p is Bool ==> prim_c(p) == seq!['b', 'o', 'o', 'l'],
{
    reveal_with_fuel(decimal, 3);
    assert(decimal(8) == seq!['8']);
    assert(decimal(16) =~= seq!['1', '6']);
    assert(decimal(32) =~= seq!['3', '2']);
    assert(decimal(64) =~= seq!['6', '4']);
    if p.spec_is_integer() {
        let pre = if p.spec_is_unsigned() { seq!['u'] } else { Seq::<char>::empty() };
        assert(prim_c(p) =~= pre + seq!['i', 'n', 't'] + decimal(p.spec_width()) + seq!['_', 't']);
    }
}

/// The operator that a C binary operator stands for.
pub open spec fn c_binary_meaning(sym: Seq<char>) -> Option<Operators> {
    if sym.len() == 1 {
        let c = sym[0];
        if c == '+' { Some(Operators::Add) }
        else if c == '-' { Some(Operators::Sub) }
        else if c == '*' { Some(Operators::Mul) }
        else if c == '/' { Some(Operators::Div) }
        else if c == '%' { Some(Operators::Mod) }
        else if c == '>' { Some(Operators::Gt) }
        else if c == '<' { Some(Operators::Lt) }
        else if c == '&' { Some(Operators::Band) }
        else if c == '|' { Some(Operators::Bor) }
        else if c == '^' { Some(Operators::Xor) }
        else if c == '.' { Some(Operators::GetElement) }
        else { None }
    } else if sym.len() == 2 {
        let (a, b) = (sym[0], sym[1]);
        if a == '=' && b == '=' { Some(Operators::Eq) }
        else if a == '!' && b == '=' { Some(Operators::Neq) }
        else if a == '>' && b == '=' { Some(Operators::Ge) }
        else if a == '<' && b == '=' { Some(Operators::Le) }
        else if a == '&' && b == '&' { Some(Operators::And) }
        else if a == '|' && b == '|' { Some(Operators::Or) }
        else if a == '<' && b == '<' { Some(Operators::Shl) }
        else if a == '>' && b == '>' { Some(Operators::Shr) }
        else { None }
    } else {
        None
    }
}

/// The operator that a C prefix operator stands for.
pub open spec fn c_unary_meaning(sym: Seq<char>) -> Option<Operators> {
    if sym.len() == 1 {
        let c = sym[0];
        if c == '!' { Some(Operators::Not) }
        else if c == '~' { Some(Operators::Bnot) }
        else if c == '&' { Some(Operators::AddrOf) }
        else if c == '*' { Some(Operators::Deref) }
        else { None }
    } else {
        None
    }
}

/// Each operator is written in C as the C operator that stands for it.
pub proof fn law_c_operators_mean_themselves(op: Operators)
    ensures
        binary_sym(op).len() > 0 ==> c_binary_meaning(binary_sym(op)) == Some(op),
        unary_sym(op).len() > 0 ==> c_unary_meaning(unary_sym(op)) == Some(op),
{
}

pub open spec fn prim_c_ok(p: PrimitiveType) -> bool {
    !(p is I128 || p is U128 || p is Usize || p is Isize)
}

/// A type C can name: a primitive type that has a C name.
pub open spec fn type_c_ok(t: TypeDefineV) -> bool {
    t matches TypeDefineV::Primitive(p) && prim_c_ok(p)
}

pub open spec fn type_c(t: TypeDefineV) -> Seq<char> {
    match t {
        TypeDefineV::Primitive(p) => prim_c(p),
        TypeDefineV::Complex(..) => Seq::empty(),
    }
}

/// How a literal is written: a character as itself, an integer in decimal, a float as it
/// was written in the source.
pub open spec fn literal_text(l: Literal) -> Seq<char> {
    match l {
        Literal::Char(c) => seq![c],
        Literal::Integer(n) => decimal(n as nat),
        Literal::Float(s) => s@,
    }
}

pub open spec fn value_c(v: Value) -> Seq<char> {
    match v {
        Value::Variable(n) => n@,
        Value::Literal(l, _) => literal_text(l),
    }
}

/// Values separated by commas.
pub open spec fn values_c(vs: Seq<Value>) -> Seq<char>
    decreases vs.len(),
{
    if vs.len() == 0 {
        Seq::empty()
    } else if vs.len() == 1 {
        value_c(vs[0])
    } else {
        values_c(vs.drop_last()) + seq![','] + value_c(vs.last())
    }
}

/// The C operator of a unary operation written before its operand.
pub open spec fn unary_sym(op: Operators) -> Seq<char> {
    match op {
        Operators::Not => seq!['!'],
        Operators::Bnot => seq!['~'],
        Operators::AddrOf => seq!['&'],
        Operators::Deref => seq!['*'],
        _ => Seq::empty(),
    }
}

pub open spec fn unary_ok(op: Operators) -> bool {
    op is Not || op is Bnot || op is AddrOf || op is Deref || op is Log || op is SizeOf
}

/// The C operator of a binary operation written between its operands.
pub open spec fn binary_sym(op: Operators) -> Seq<char> {
    match op {
        Operators::Add => seq!['+'],
        Operators::Sub => seq!['-'],
        Operators::Mul => seq!['*'],
        Operators::Div => seq!['/'],
        Operators::Mod => seq!['%'],
        Operators::Eq => seq!['=', '='],
        Operators::Neq => seq!['!', '='],
        Operators::Gt => seq!['>'],
        Operators::Lt => seq!['<'],
        Operators::Ge => seq!['>', '='],
        Operators::Le => seq!['<', '='],
        Operators::And => seq!['&', '&'],
        Operators::Or => seq!['|', '|'],
        Operators::Band => seq!['&'],
        Operators::Bor => seq!['|'],
        Operators::Xor => seq!['^'],
        Operators::Shl => seq!['<', '<'],
        Operators::Shr => seq!['>', '>'],
        Operators::GetElement => seq!['.'],
        _ => Seq::empty(),
    }
}

pub open spec fn binary_ok(op: Operators) -> bool {
    op is Pow || binary_sym(op).len() > 0
}

/// A C function's name: `_` and the base32 of the mangled name.
pub open spec fn fn_c_name(name: Seq<char>) -> Seq<char> {
    seq!['_'] + base32_crockford(name)
}

pub open spec fn assign_c(a: AssignValue) -> Seq<char> {
    match a {
        AssignValue::FnCall(f) => fn_c_name(f.fn_name@) + seq!['('] + values_c(f.args@) + seq![')'],
        AssignValue::Value(v) => value_c(v),
        AssignValue::Operate(Operate::Unary(op, v), _) => if op is Log {
            seq!['l', 'o', 'g', '('] + value_c(v) + seq![')']
        } else if op is SizeOf {
            seq!['s', 'i', 'z', 'e', 'o', 'f', '('] + value_c(v) + seq![')']
        } else {
            unary_sym(op) + value_c(v)
        },
        AssignValue::Operate(Operate::Binary(op, l, r), _) => if op is Pow {
            seq!['p', 'o', 'w', '('] + value_c(l) + seq![','] + value_c(r) + seq![')']
        } else {
            value_c(l) + binary_sym(op) + value_c(r)
        },
    }
}

pub open spec fn assign_ok(a: AssignValue) -> bool {
    match a {
        AssignValue::Operate(Operate::Unary(op, _), _) => unary_ok(op),
        AssignValue::Operate(Operate::Binary(op, _, _), _) => binary_ok(op),
        _ => true,
    }
}

/// The label of number `n`.
pub open spec fn label_text(n: nat) -> Seq<char> {
    seq!['L'] + decimal(n)
}

/// Where label `n` stands: `Ln:;`.
pub open spec fn label_def(n: nat) -> Seq<char> {
    label_text(n) + seq![':', ';']
}

pub open spec fn goto_c(n: nat) -> Seq<char> {
    seq!['g', 'o', 't', 'o', ' '] + label_text(n) + seq![';']
}

/// Jumps to `then` if the value holds, else to `or`.
pub open spec fn if_else_c(v: Value, then: nat, or: nat) -> Seq<char> {
    seq!['i', 'f', '('] + value_c(v) + seq![')'] + goto_c(then) + seq!['e', 'l', 's', 'e', ' '] + goto_c(or)
}

/// The C text of a statement when the next free label is `l`, and the next free label after it.
pub open spec fn stmt_c(s: Statement<Value>, l: nat) -> (Seq<char>, nat)
    decreases s, 0int,
{
    match s {
        Statement::VarDefine(d) => (type_c(d.ty@) + seq![' '] + d.name@ + match d.init {
            Some(a) => seq!['='] + assign_c(a),
            None => Seq::empty(),
        } + seq![';'], l),
        Statement::VarStore(v) => (v.name@ + seq!['='] + value_c(v.val) + seq![';'], l),
        Statement::Block(b) => stmts_c(b, l),
        Statement::If(i) => if_c(i, l),
        Statement::While(w) => {
            let (comp, l1) = seq_c(w.cond.compute.stmts@, l + 3);
            let (body, l2) = stmts_c(w.body, l1);
            (label_def(l) + comp + if_else_c(w.cond.val, l + 1, l + 2) + label_def(l + 1) + body + goto_c(l) + label_def(l + 2), l2)
        },
        Statement::Return(r) => (seq!['r', 'e', 't', 'u', 'r', 'n', ' '] + match r.val {
            Some(v) => value_c(v),
            None => Seq::empty(),
        } + seq![';'], l),
    }
}

/// The statements one after another, with no braces.
pub open spec fn seq_c(ss: Seq<Statement<Value>>, l: nat) -> (Seq<char>, nat)
    decreases ss, 0int,
{
    if ss.len() == 0 {
        (Seq::empty(), l)
    } else {
        let (a, l1) = seq_c(ss.drop_last(), l);
        let (b, l2) = stmt_c(ss.last(), l1);
        (a + b, l2)
    }
}

/// A block: the statements in braces.
pub open spec fn stmts_c(b: Statements<Value>, l: nat) -> (Seq<char>, nat)
    decreases b, 0int,
{
    let (body, l1) = seq_c(b.stmts@, l);
    (seq!['{'] + body + seq!['}'], l1)
}

/// An `if` with `n` branches takes labels `l` to `l + n` for the conditions (the last one
/// for the `else`) and `l + n + 1` to `l + 2n + 1` for the bodies (the last one after it all).
pub open spec fn if_c(i: If<Value>, l: nat) -> (Seq<char>, nat)
    decreases i, 0int,
{
    let n = i.branches@.len();
    let (bt, l1) = branches_c(i.branches@, n, l, l + 2 * (n + 1));
    let (et, l2) = match i.else_ {
        Some(e) => stmts_c(e, l1),
        None => (seq![';'], l1),
    };
    (bt + label_def(l + n) + et + label_def(l + 2 * n + 1), l2)
}

/// Branch `k` of an `if` of `n` branches whose labels start at `base`: its condition label,
/// its computation, the jump to its body or to the next condition, its body label, its body,
/// and the jump past the `if`.
pub open spec fn branch_c(b: IfBranch<Value>, k: nat, n: nat, base: nat, l: nat) -> (Seq<char>, nat)
    decreases b, 0int,
{
    let (comp, l2) = seq_c(b.cond.compute.stmts@, l);
    let (body, l3) = stmts_c(b.body, l2);
    (label_def(base + k) + comp + if_else_c(b.cond.val, base + n + 1 + k, base + k + 1)
        + label_def(base + n + 1 + k) + body + goto_c(base + 2 * n + 1), l3)
}

/// The first branches of an `if` of `n` branches whose labels start at `base`.
pub open spec fn branches_c(brs: Seq<IfBranch<Value>>, n: nat, base: nat, l: nat) -> (Seq<char>, nat)
    decreases brs, 0int,
{
    if brs.len() == 0 {
        (Seq::empty(), l)
    } else {
        let (a, l1) = branches_c(brs.drop_last(), n, base, l);
        let (b, l2) = branch_c(brs.last(), (brs.len() - 1) as nat, n, base, l1);
        (a + b, l2)
    }
}

/// Whether C can be written for a statement: its types have C names and its operations C
/// operators.
pub open spec fn stmt_ok(s: Statement<Value>) -> bool
    decreases s,
{
    match s {
        Statement::VarDefine(d) => type_c_ok(d.ty@) && (d.init matches Some(a) ==> assign_ok(a)),
        Statement::VarStore(_) => true,
        Statement::Block(b) => forall|k: int| 0 <= k < b.stmts@.len() ==> stmt_ok(#[trigger] b.stmts@[k]),
        Statement::If(i) => (forall|k: int| 0 <= k < i.branches@.len() ==> {
            &&& forall|m: int| 0 <= m < (#[trigger] i.branches@[k]).cond.compute.stmts@.len() ==> stmt_ok(#[trigger] i.branches@[k].cond.compute.stmts@[m])
            &&& forall|m: int| 0 <= m < i.branches@[k].body.stmts@.len() ==> stmt_ok(#[trigger] i.branches@[k].body.stmts@[m])
        }) && (i.else_ matches Some(e) ==> forall|m: int| 0 <= m < e.stmts@.len() ==> stmt_ok(#[trigger] e.stmts@[m])),
        Statement::While(w) => (forall|m: int| 0 <= m < w.cond.compute.stmts@.len() ==> stmt_ok(#[trigger] w.cond.compute.stmts@[m]))
            && (forall|m: int| 0 <= m < w.body.stmts@.len() ==> stmt_ok(#[trigger] w.body.stmts@[m])),
        Statement::Return(_) => true,
    }
}

pub open spec fn params_c(ps: Seq<Parameter<TypeDefine>>) -> Seq<char>
    decreases ps.len(),
{
    if ps.len() == 0 {
        Seq::empty()
    } else if ps.len() == 1 {
        type_c(ps[0].ty@) + seq![' '] + ps[0].name@
    } else {
        params_c(ps.drop_last()) + seq![','] + type_c(ps.last().ty@) + seq![' '] + ps.last().name@
    }
}

/// Whether C can be written for an item.
pub open spec fn item_ok(item: Item<Value>) -> bool {
    match item {
        Item::FnDefine(f) => type_c_ok(f.ty@)
            && (forall|k: int| 0 <= k < f.params@.len() ==> type_c_ok((#[trigger] f.params@[k]).ty@))
            && (forall|k: int| 0 <= k < f.body.stmts@.len() ==> stmt_ok(#[trigger] f.body.stmts@[k])),
    }
}

/// The signature of a function in C: its return type, its name, its parameters.
pub open spec fn sign_c(item: Item<Value>) -> Seq<char> {
    match item {
        Item::FnDefine(f) => type_c(f.ty@) + seq![' '] + fn_c_name(f.name@) + seq!['('] + params_c(f.params@) + seq![')'],
    }
}

/// What an item adds to the source, to the header, and the next free label.
pub open spec fn item_c(item: Item<Value>, l: nat) -> (Seq<char>, Seq<char>, nat) {
    match item {
        Item::FnDefine(f) => {
            let (body, l1) = stmts_c(f.body, l);
            (sign_c(item) + body, if f.export { sign_c(item) + seq![';'] } else { Seq::empty() }, l1)
        },
    }
}

/// What items add to the source and to the header, in order, and the next free label.
pub open spec fn items_c(items: Seq<Item<Value>>, l: nat) -> (Seq<char>, Seq<char>, nat)
    decreases items.len(),
{
    if items.len() == 0 {
        (Seq::empty(), Seq::empty(), l)
    } else {
        let (c, h, l1) = items_c(items.drop_last(), l);
        let (c2, h2, l2) = item_c(items.last(), l1);
        (c + c2, h + h2, l2)
    }
}

/// The headers both files start with.
pub open spec fn c_headers() -> Seq<char> {
    "#include <math.h>\n#include <stdbool.h>\n#include <stdint.h>\n"@
}

/// Labels are only taken, never given back.
pub proof fn lemma_labels_grow(s: Statement<Value>, l: nat)
    ensures
        stmt_c(s, l).1 >= l,
    decreases s, 3int,
{
    match s {
        Statement::Block(b) => lemma_block_labels_grow(b, l),
        Statement::If(i) => lemma_if_labels_grow(i, l),
        Statement::While(w) => {
            lemma_seq_labels_grow(w.cond.compute.stmts@, l + 3);
            lemma_block_labels_grow(w.body, seq_c(w.cond.compute.stmts@, l + 3).1);
        },
        _ => {},
    }
}

pub proof fn lemma_seq_labels_grow(ss: Seq<Statement<Value>>, l: nat)
    ensures
        seq_c(ss, l).1 >= l,
    decreases ss, 2int,
{
    if ss.len() > 0 {
        lemma_seq_labels_grow(ss.drop_last(), l);
        lemma_labels_grow(ss.last(), seq_c(ss.drop_last(), l).1);
    }
}

pub proof fn lemma_block_labels_grow(b: Statements<Value>, l: nat)
    ensures
        stmts_c(b, l).1 >= l,
    decreases b, 2int,
{
    lemma_seq_labels_grow(b.stmts@, l);
}

pub proof fn lemma_if_labels_grow(i: If<Value>, l: nat)
    ensures
        if_c(i, l).1 >= l + 2 * (i.branches@.len() + 1),
    decreases i, 2int,
{
    let n = i.branches@.len();
    lemma_branches_labels_grow(i.branches@, n, l, l + 2 * (n + 1));
    match i.else_ {
        Some(e) => lemma_block_labels_grow(e, branches_c(i.branches@, n, l, l + 2 * (n + 1)).1),
        None => {},
    }
}

pub proof fn lemma_branch_labels_grow(b: IfBranch<Value>, k: nat, n: nat, base: nat, l: nat)
    ensures
        branch_c(b, k, n, base, l).1 >= l,
    decreases b, 0int,
{
    lemma_seq_labels_grow(b.cond.compute.stmts@, l);
    lemma_block_labels_grow(b.body, seq_c(b.cond.compute.stmts@, l).1);
}

pub proof fn lemma_branches_labels_grow(brs: Seq<IfBranch<Value>>, n: nat, base: nat, l: nat)
    ensures
        branches_c(brs, n, base, l).1 >= l,
    decreases brs, 1int,
{
    if brs.len() > 0 {
        lemma_branches_labels_grow(brs.drop_last(), n, base, l);
        let l1 = branches_c(brs.drop_last(), n, base, l).1;
        lemma_branch_labels_grow(brs.last(), (brs.len() - 1) as nat, n, base, l1);
    }
}


/// The labels taken by the first statements are no more than those taken by all of them.
pub proof fn lemma_seq_prefix(ss: Seq<Statement<Value>>, l: nat, k: int)
    requires
        0 <= k <= ss.len(),
    ensures
        seq_c(ss.take(k), l).1 <= seq_c(ss, l).1,
    decreases ss.len() - k,
{
    if k < ss.len() {
        lemma_seq_prefix(ss, l, k + 1);
        let t = ss.take(k + 1);
        assert(t.drop_last() == ss.take(k));
        lemma_labels_grow(t.last(), seq_c(ss.take(k), l).1);
    } else {
        assert(ss.take(k) == ss);
    }
}

pub proof fn lemma_branches_prefix(brs: Seq<IfBranch<Value>>, n: nat, base: nat, l: nat, k: int)
    requires
        0 <= k <= brs.len(),
    ensures
        branches_c(brs.take(k), n, base, l).1 <= branches_c(brs, n, base, l).1,
    decreases brs.len() - k,
{
    if k < brs.len() {
        lemma_branches_prefix(brs, n, base, l, k + 1);
        let t = brs.take(k + 1);
        assert(t.drop_last() == brs.take(k));
        let l1 = branches_c(brs.take(k), n, base, l).1;
        lemma_branch_labels_grow(t.last(), k as nat, n, base, l1);
    } else {
        assert(brs.take(k) == brs);
    }
}

pub proof fn lemma_items_labels_grow(items: Seq<Item<Value>>, l: nat)
    ensures
        items_c(items, l).2 >= l,
    decreases items.len(),
{
    if items.len() > 0 {
        lemma_items_labels_grow(items.drop_last(), l);
        match items.last() {
            Item::FnDefine(f) => lemma_block_labels_grow(f.body, items_c(items.drop_last(), l).2),
        }
    }
}

pub proof fn lemma_items_prefix(items: Seq<Item<Value>>, l: nat, k: int)
    requires
        0 <= k <= items.len(),
    ensures
        items_c(items.take(k), l).2 <= items_c(items, l).2,
    decreases items.len() - k,
{
    if k < items.len() {
        lemma_items_prefix(items, l, k + 1);
        let t = items.take(k + 1);
        assert(t.drop_last() == items.take(k));
        match t.last() {
            Item::FnDefine(f) => lemma_block_labels_grow(f.body, items_c(items.take(k), l).2),
        }
    } else {
        assert(items.take(k) == items);
    }
}

} // verus!
