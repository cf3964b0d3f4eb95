use vstd::prelude::*;
use crate::codegen_c::{
    branches_c, if_c, item_c, item_ok, items_c, lemma_block_labels_grow, lemma_branches_labels_grow,
    lemma_branches_prefix, lemma_if_labels_grow, branch_c, lemma_branch_labels_grow, lemma_items_labels_grow, lemma_items_prefix,
    lemma_labels_grow, lemma_seq_labels_grow, lemma_seq_prefix, params_c, seq_c, sign_c, stmt_c,
    stmt_ok, stmts_c, fn_c_name,
    assign_c, assign_ok, unary_ok, binary_ok, base32_crockford, binary_sym, c_headers, encode_base32, goto_c, if_else_c, label_def,
    label_text, prim_c, prim_c_ok, type_c, type_c_ok, value_c, values_c,
};
use crate::ir::{AssignValue, Condition, If, IfBranch, Item, Literal, Operate, Parameter, Statement, Statements, Value};
use crate::ops::Operators;
use crate::text::{append_decimal, append_str, text};
use crate::types::{decimal, push_char, PrimitiveType, TypeDefine, TypeDefineV};

verus! {

/// Which file writes go to.
#[derive(Debug, Clone, Copy, PartialEq, Eq, Structural)]
pub enum Buffer {
    C,
    H,
}

/// A C source file and its header, being written; writes go to the source. Labels are
/// numbered from 0.
pub struct FileModule {
    name: String,
    buffer: Buffer,
    c_file: String,
    h_file: String,
    label_idx: usize,
}

impl FileModule {
    /// The source written so far.
    pub closed spec fn source(&self) -> Seq<char> {
        if self.buffer == Buffer::C { self.c_file@ } else { self.h_file@ }
    }

    /// The header written so far.
    pub closed spec fn header(&self) -> Seq<char> {
        if self.buffer == Buffer::C { self.h_file@ } else { self.c_file@ }
    }

    pub closed spec fn spec_name(&self) -> Seq<char> {
        self.name@
    }

    /// The next free label.
    pub closed spec fn next_label(&self) -> nat {
        self.label_idx as nat
    }

    /// Writes go to the source.
    pub closed spec fn wf(&self) -> bool {
        self.buffer == Buffer::C
    }

    /// An empty module: both files hold the headers only.
    pub fn new(name: String) -> (m: FileModule)
        ensures
            m.wf(),
            m.spec_name() == name@,
            m.source() == c_headers(),
            m.header() == c_headers(),
            m.next_label() == 0,
    {
        proof {
            reveal_strlit("#include <math.h>\n#include <stdbool.h>\n#include <stdint.h>\n");
        }
        let headers = "#include <math.h>\n#include <stdbool.h>\n#include <stdint.h>\n";
        FileModule { name, buffer: Buffer::C, c_file: text(headers), h_file: text(headers), label_idx: 0 }
    }

    pub fn name(&self) -> (s: &str)
        ensures
            s@ == self.spec_name(),
    {
        self.name.as_str()
    }

    pub fn c_file(&self) -> (s: &str)
        requires
            self.wf(),
        ensures
            s@ == self.source(),
    {
        self.c_file.as_str()
    }

    pub fn h_file(&self) -> (s: &str)
        requires
            self.wf(),
        ensures
            s@ == self.header(),
    {
        self.h_file.as_str()
    }

    /// Makes writes go to the target file.
    fn swap_to(&mut self, target: Buffer)
        ensures
            final(self).buffer == target,
            final(self).source() == old(self).source(),
            final(self).header() == old(self).header(),
            final(self).name == old(self).name,
            final(self).label_idx == old(self).label_idx,
    {
        if self.buffer != target {
            std::mem::swap(&mut self.c_file, &mut self.h_file);
            self.buffer = target;
        }
    }

    /// Appends text to the header.
    pub fn write_header_file(&mut self, text: &str)
        requires
            old(self).wf(),
        ensures
            final(self).wf(),
            final(self).header() == old(self).header() + text@,
            final(self).source() == old(self).source(),
            final(self).spec_name() == old(self).spec_name(),
            final(self).next_label() == old(self).next_label(),
    {
        self.swap_to(Buffer::H);
        append_str(&mut self.c_file, text);
        self.swap_to(Buffer::C);
    }

    /// Appends text to the source.
    pub fn write_source_file(&mut self, text: &str)
        requires
            old(self).wf(),
        ensures
            final(self).wf(),
            final(self).source() == old(self).source() + text@,
            final(self).header() == old(self).header(),
            final(self).spec_name() == old(self).spec_name(),
            final(self).next_label() == old(self).next_label(),
    {
        self.swap_to(Buffer::C);
        append_str(&mut self.c_file, text);
    }
}

/// What the writes of the source keep.
pub open spec fn wrote(new: FileModule, old: FileModule, text: Seq<char>, label: nat) -> bool {
    &&& new.wf()
    &&& new.source() =~= old.source() + text
    &&& new.header() == old.header()
    &&& new.spec_name() == old.spec_name()
    &&& new.next_label() == label
}

impl FileModule {
    proof fn lemma_wrote_trans(new: FileModule, mid: FileModule, old: FileModule, t1: Seq<char>, t2: Seq<char>, l: nat)
        requires
            wrote(mid, old, t1, mid.next_label()),
            wrote(new, mid, t2, l),
        ensures
            wrote(new, old, t1 + t2, l),
    {
        assert(old.source() + t1 + t2 == old.source() + (t1 + t2));
    }

    fn put(&mut self, s: &str)
        requires
            old(self).wf(),
        ensures
            wrote(*final(self), *old(self), s@, old(self).next_label()),
    {
        append_str(&mut self.c_file, s);
    }

    fn put_char(&mut self, c: char)
        requires
            old(self).wf(),
        ensures
            wrote(*final(self), *old(self), seq![c], old(self).next_label()),
    {
        push_char(&mut self.c_file, c);
    }

    fn put_label(&mut self, n: usize)
        requires
            old(self).wf(),
        ensures
            wrote(*final(self), *old(self), label_text(n as nat), old(self).next_label()),
    {
        push_char(&mut self.c_file, 'L');
        append_decimal(&mut self.c_file, n);
    }

    /// Where label `n` stands.
    fn write_label(&mut self, n: usize)
        requires
            old(self).wf(),
        ensures
            wrote(*final(self), *old(self), label_def(n as nat), old(self).next_label()),
    {
        self.put_label(n);
        push_char(&mut self.c_file, ':');
        push_char(&mut self.c_file, ';');
    }

    fn goto(&mut self, n: usize)
        requires
            old(self).wf(),
        ensures
            wrote(*final(self), *old(self), goto_c(n as nat), old(self).next_label()),
    {
        proof {
            reveal_strlit("goto ");
        }
        append_str(&mut self.c_file, "goto ");
        self.put_label(n);
        push_char(&mut self.c_file, ';');
        assert("goto "@ == seq!['g', 'o', 't', 'o', ' ']);
    }

    fn eol(&mut self)
        requires
            old(self).wf(),
        ensures
            wrote(*final(self), *old(self), seq![';'], old(self).next_label()),
    {
        push_char(&mut self.c_file, ';');
    }

    /// Writes a value.
    pub fn translate_value(&mut self, v: &Value)
        requires
            old(self).wf(),
        ensures
            wrote(*final(self), *old(self), value_c(*v), old(self).next_label()),
    {
        match v {
            Value::Variable(name) => append_str(&mut self.c_file, name.as_str()),
            Value::Literal(l, _) => match l {
                Literal::Char(c) => push_char(&mut self.c_file, *c),
                Literal::Integer(n) => append_decimal(&mut self.c_file, *n),
                Literal::Float(s) => append_str(&mut self.c_file, s.as_str()),
            },
        }
    }

    fn if_else(&mut self, cond: &Value, then: usize, or: usize)
        requires
            old(self).wf(),
        ensures
            wrote(*final(self), *old(self), if_else_c(*cond, then as nat, or as nat), old(self).next_label()),
    {
        proof {
            reveal_strlit("if(");
            reveal_strlit("else ");
        }
        append_str(&mut self.c_file, "if(");
        self.translate_value(cond);
        push_char(&mut self.c_file, ')');
        self.goto(then);
        append_str(&mut self.c_file, "else ");
        self.goto(or);
        assert("if("@ == seq!['i', 'f', '(']);
        assert("else "@ == seq!['e', 'l', 's', 'e', ' ']);
    }

    /// Writes values separated by commas.
    pub fn translate_values(&mut self, vs: &Vec<Value>)
        requires
            old(self).wf(),
        ensures
            wrote(*final(self), *old(self), values_c(vs@), old(self).next_label()),
    {
        let mut i: usize = 0;
        while i < vs.len()
            invariant
                i <= vs.len(),
                wrote(*self, *old(self), values_c(vs@.take(i as int)), old(self).next_label()),
            decreases vs.len() - i,
        {
            let ghost t = vs@.take(i as int + 1);
            assert(t.drop_last() == vs@.take(i as int));
            assert(t.last() == vs@[i as int]);
            if i > 0 {
                push_char(&mut self.c_file, ',');
            }
            self.translate_value(&vs[i]);
            proof {
                if i == 0 {
                    assert(t.len() == 1);
                }
            }
            i = i + 1;
        }
        assert(vs@.take(i as int) == vs@);
    }

    /// Writes the C name of a primitive type.
    pub fn translate_primitive(&mut self, p: &PrimitiveType)
        requires
            old(self).wf(),
            prim_c_ok(*p),
        ensures
            wrote(*final(self), *old(self), prim_c(*p), old(self).next_label()),
    {
        let s = match p {
            PrimitiveType::Bool => "bool",
            PrimitiveType::I8 => "int8_t",
            PrimitiveType::U8 => "uint8_t",
            PrimitiveType::I16 => "int16_t",
            PrimitiveType::U16 => "uint16_t",
            PrimitiveType::I32 => "int32_t",
            PrimitiveType::U32 => "uint32_t",
            PrimitiveType::I64 => "int64_t",
            PrimitiveType::U64 => "uint64_t",
            PrimitiveType::F32 => "float",
            PrimitiveType::F64 => "double",
            _ => "",
        };
        proof {
            reveal_strlit("bool");
            reveal_strlit("int8_t");
            reveal_strlit("uint8_t");
            reveal_strlit("int16_t");
            reveal_strlit("uint16_t");
            reveal_strlit("int32_t");
            reveal_strlit("uint32_t");
            reveal_strlit("int64_t");
            reveal_strlit("uint64_t");
            reveal_strlit("float");
            reveal_strlit("double");
        }
        append_str(&mut self.c_file, s);
    }

    /// Writes a type, which must have a C name.
    pub fn translate_type(&mut self, t: &TypeDefine)
        requires
            old(self).wf(),
            type_c_ok(t@),
        ensures
            wrote(*final(self), *old(self), type_c(t@), old(self).next_label()),
    {
        match t {
            TypeDefine::Primitive(p) => self.translate_primitive(p),
            TypeDefine::Complex(_) => {},
        }
    }

    /// Writes what is assigned: a call, a value or an operation.
    pub fn translate_assign(&mut self, a: &AssignValue)
        requires
            old(self).wf(),
            assign_ok(*a),
        ensures
            wrote(*final(self), *old(self), assign_c(*a), old(self).next_label()),
    {
        proof {
            reveal_strlit("log(");
            reveal_strlit("sizeof(");
            reveal_strlit("pow(");
            assert("log("@ == seq!['l', 'o', 'g', '(']);
            assert("sizeof("@ == seq!['s', 'i', 'z', 'e', 'o', 'f', '(']);
            assert("pow("@ == seq!['p', 'o', 'w', '(']);
        }
        match a {
            AssignValue::FnCall(f) => {
                push_char(&mut self.c_file, '_');
                let encoded = encode_base32(f.fn_name.as_str());
                append_str(&mut self.c_file, encoded.as_str());
                push_char(&mut self.c_file, '(');
                self.translate_values(&f.args);
                push_char(&mut self.c_file, ')');
            }
            AssignValue::Value(v) => self.translate_value(v),
            AssignValue::Operate(Operate::Unary(op, v), _) => {
                if *op == Operators::Log {
                    append_str(&mut self.c_file, "log(");
                    self.translate_value(v);
                    push_char(&mut self.c_file, ')');
                } else if *op == Operators::SizeOf {
                    append_str(&mut self.c_file, "sizeof(");
                    self.translate_value(v);
                    push_char(&mut self.c_file, ')');
                } else {
                    let sym = match op {
                        Operators::Not => "!",
                        Operators::Bnot => "~",
                        Operators::AddrOf => "&",
                        _ => "*",
                    };
                    proof {
                        reveal_strlit("!");
                        reveal_strlit("~");
                        reveal_strlit("&");
                        reveal_strlit("*");
                    }
                    append_str(&mut self.c_file, sym);
                    self.translate_value(v);
                }
            }
            AssignValue::Operate(Operate::Binary(op, l, r), _) => {
                if *op == Operators::Pow {
                    append_str(&mut self.c_file, "pow(");
                    self.translate_value(l);
                    push_char(&mut self.c_file, ',');
                    self.translate_value(r);
                    push_char(&mut self.c_file, ')');
                } else {
                    let sym = binary_symbol(*op);
                    self.translate_value(l);
                    append_str(&mut self.c_file, sym);
                    self.translate_value(r);
                }
            }
        }
    }
}

/// The C operator of a binary operation.
fn binary_symbol(op: Operators) -> (s: &'static str)
    ensures
        s@ == binary_sym(op),
{
    proof {
        reveal_strlit("+");
        reveal_strlit("-");
        reveal_strlit("*");
        reveal_strlit("/");
        reveal_strlit("%");
        reveal_strlit("==");
        reveal_strlit("!=");
        reveal_strlit(">");
        reveal_strlit("<");
        reveal_strlit(">=");
        reveal_strlit("<=");
        reveal_strlit("&&");
        reveal_strlit("||");
        reveal_strlit("&");
        reveal_strlit("|");
        reveal_strlit("^");
        reveal_strlit("<<");
        reveal_strlit(">>");
        reveal_strlit(".");
        reveal_strlit("");
    }
    match op {
        Operators::Add => "+",
        Operators::Sub => "-",
        Operators::Mul => "*",
        Operators::Div => "/",
        Operators::Mod => "%",
        Operators::Eq => "==",
        Operators::Neq => "!=",
        Operators::Gt => ">",
        Operators::Lt => "<",
        Operators::Ge => ">=",
        Operators::Le => "<=",
        Operators::And => "&&",
        Operators::Or => "||",
        Operators::Band => "&",
        Operators::Bor => "|",
        Operators::Xor => "^",
        Operators::Shl => "<<",
        Operators::Shr => ">>",
        Operators::GetElement => ".",
        _ => "",
    }
}


impl FileModule {
    /// Writes the statements one after another.
    fn translate_seq(&mut self, ss: &Vec<Statement<Value>>)
        requires
            old(self).wf(),
            forall|k: int| 0 <= k < ss@.len() ==> stmt_ok(#[trigger] ss@[k]),
            seq_c(ss@, old(self).next_label()).1 <= usize::MAX,
        ensures
            wrote(*final(self), *old(self), seq_c(ss@, old(self).next_label()).0, seq_c(ss@, old(self).next_label()).1),
        decreases ss@, 2int,
    {
        let ghost l = old(self).next_label();
        let mut i: usize = 0;
        assert(ss@.take(0) == Seq::<Statement<Value>>::empty());
        while i < ss.len()
            invariant
                i <= ss.len(),
                l == old(self).next_label(),
                forall|k: int| 0 <= k < ss@.len() ==> stmt_ok(#[trigger] ss@[k]),
                seq_c(ss@, l).1 <= usize::MAX,
                wrote(*self, *old(self), seq_c(ss@.take(i as int), l).0, seq_c(ss@.take(i as int), l).1),
            decreases ss.len() - i,
        {
            let ghost t = ss@.take(i as int + 1);
            proof {
                assert(t.drop_last() == ss@.take(i as int));
                assert(t.last() == ss@[i as int]);
                lemma_seq_prefix(ss@, l, i as int + 1);
            }
            let ghost mid = *self;
            self.translate_stmt(&ss[i]);
            proof {
                FileModule::lemma_wrote_trans(*self, mid, *old(self), seq_c(ss@.take(i as int), l).0,
                    stmt_c(ss@[i as int], seq_c(ss@.take(i as int), l).1).0, seq_c(t, l).1);
            }
            i = i + 1;
        }
        assert(ss@.take(i as int) == ss@);
    }

    /// Writes a block: its statements in braces.
    pub fn translate_statements(&mut self, b: &Statements<Value>)
        requires
            old(self).wf(),
            forall|k: int| 0 <= k < b.stmts@.len() ==> stmt_ok(#[trigger] b.stmts@[k]),
            stmts_c(*b, old(self).next_label()).1 <= usize::MAX,
        ensures
            wrote(*final(self), *old(self), stmts_c(*b, old(self).next_label()).0, stmts_c(*b, old(self).next_label()).1),
        decreases *b, 3int,
    {
        let ghost l = old(self).next_label();
        push_char(&mut self.c_file, '{');
        let ghost mid = *self;
        self.translate_seq(&b.stmts);
        push_char(&mut self.c_file, '}');
        assert(self.source() =~= old(self).source() + stmts_c(*b, l).0);
    }

    /// Writes a statement.
    pub fn translate_stmt(&mut self, s: &Statement<Value>)
        requires
            old(self).wf(),
            stmt_ok(*s),
            stmt_c(*s, old(self).next_label()).1 <= usize::MAX,
        ensures
            wrote(*final(self), *old(self), stmt_c(*s, old(self).next_label()).0, stmt_c(*s, old(self).next_label()).1),
        decreases *s, 1int,
    {
        let ghost l = old(self).next_label();
        proof {
            reveal_strlit("return ");
            assert("return "@ == seq!['r', 'e', 't', 'u', 'r', 'n', ' ']);
        }
        match s {
            Statement::VarDefine(d) => {
                self.translate_type(&d.ty);
                push_char(&mut self.c_file, ' ');
                append_str(&mut self.c_file, d.name.as_str());
                match &d.init {
                    Some(a) => {
                        push_char(&mut self.c_file, '=');
                        self.translate_assign(a);
                    }
                    None => {},
                }
                push_char(&mut self.c_file, ';');
                assert(self.source() =~= old(self).source() + stmt_c(*s, l).0);
            }
            Statement::VarStore(v) => {
                append_str(&mut self.c_file, v.name.as_str());
                push_char(&mut self.c_file, '=');
                self.translate_value(&v.val);
                push_char(&mut self.c_file, ';');
                assert(self.source() =~= old(self).source() + stmt_c(*s, l).0);
            }
            Statement::Block(b) => self.translate_statements(b),
            Statement::If(i) => self.translate_if(i),
            Statement::While(w) => {
                proof {
                    lemma_seq_labels_grow(w.cond.compute.stmts@, l + 3);
                    lemma_block_labels_grow(w.body, seq_c(w.cond.compute.stmts@, l + 3).1);
                }
                let lc = self.label_idx;
                self.label_idx = lc + 3;
                self.write_label(lc);
                self.translate_seq(&w.cond.compute.stmts);
                self.if_else(&w.cond.val, lc + 1, lc + 2);
                self.write_label(lc + 1);
                self.translate_statements(&w.body);
                self.goto(lc);
                self.write_label(lc + 2);
                assert(self.source() =~= old(self).source() + stmt_c(*s, l).0);
            }
            Statement::Return(r) => {
                append_str(&mut self.c_file, "return ");
                match &r.val {
                    Some(v) => self.translate_value(v),
                    None => {},
                }
                push_char(&mut self.c_file, ';');
                assert(self.source() =~= old(self).source() + stmt_c(*s, l).0);
            }
        }
    }

    /// Writes branch `k` of an `if` of `n` branches whose labels start at `base`.
    #[verifier::spinoff_prover]
    #[verifier::rlimit(30)]
    fn translate_branch(&mut self, br: &IfBranch<Value>, k: usize, n: usize, base: usize)
        requires
            old(self).wf(),
            k < n,
            base + 2 * n + 1 <= usize::MAX,
            forall|m: int| 0 <= m < br.cond.compute.stmts@.len() ==> stmt_ok(#[trigger] br.cond.compute.stmts@[m]),
            forall|m: int| 0 <= m < br.body.stmts@.len() ==> stmt_ok(#[trigger] br.body.stmts@[m]),
            branch_c(*br, k as nat, n as nat, base as nat, old(self).next_label()).1 <= usize::MAX,
        ensures
            wrote(*final(self), *old(self), branch_c(*br, k as nat, n as nat, base as nat, old(self).next_label()).0,
                branch_c(*br, k as nat, n as nat, base as nat, old(self).next_label()).1),
        decreases *br, 0int,
    {
        let ghost l = old(self).next_label();
        proof {
            lemma_seq_labels_grow(br.cond.compute.stmts@, l);
            lemma_block_labels_grow(br.body, seq_c(br.cond.compute.stmts@, l).1);
        }
        self.write_label(base + k);
        self.translate_seq(&br.cond.compute.stmts);
        self.if_else(&br.cond.val, base + n + 1 + k, base + k + 1);
        self.write_label(base + n + 1 + k);
        self.translate_statements(&br.body);
        self.goto(base + 2 * n + 1);
        assert(self.source() =~= old(self).source() + branch_c(*br, k as nat, n as nat, base as nat, l).0);
    }

    /// Writes an `if` with jumps: each branch computes its condition and jumps to its body
    /// or to the next condition; the last condition label leads to the `else`.
    #[verifier::spinoff_prover]
    #[verifier::rlimit(60)]
    pub fn translate_if(&mut self, item: &If<Value>)
        requires
            old(self).wf(),
            stmt_ok(Statement::If(*item)),
            if_c(*item, old(self).next_label()).1 <= usize::MAX,
        ensures
            wrote(*final(self), *old(self), if_c(*item, old(self).next_label()).0, if_c(*item, old(self).next_label()).1),
        decreases *item, 1int,
    {
        let ghost l = old(self).next_label();
        let n = item.branches.len();
        let base = self.label_idx;
        let ghost start_l: nat = (l + 2 * (n + 1)) as nat;
        proof {
            lemma_if_labels_grow(*item, l);
            lemma_branches_labels_grow(item.branches@, n as nat, l, start_l);
            let l1 = branches_c(item.branches@, n as nat, l, start_l).1;
            if item.else_ is Some {
                lemma_block_labels_grow(item.else_->0, l1);
            }
            assert(if_c(*item, l).1 >= l1);
        }
        self.label_idx = base + 2 * (n + 1);
        let ghost after_alloc = *self;
        let mut k: usize = 0;
        assert(item.branches@.take(0) == Seq::<IfBranch<Value>>::empty());
        while k < n
            invariant
                k <= n,
                n == item.branches@.len(),
                base == l,
                base + 2 * (n + 1) <= usize::MAX,
                stmt_ok(Statement::If(*item)),
                branches_c(item.branches@, n as nat, l, start_l).1 <= usize::MAX,
                wrote(*self, after_alloc, branches_c(item.branches@.take(k as int), n as nat, l, start_l).0,
                    branches_c(item.branches@.take(k as int), n as nat, l, start_l).1),
            decreases n - k,
        {
            let ghost t = item.branches@.take(k as int + 1);
            let ghost l0 = branches_c(item.branches@.take(k as int), n as nat, l, start_l).1;
            proof {
                assert(t.drop_last() == item.branches@.take(k as int));
                assert(t.last() == item.branches@[k as int]);
                lemma_branches_prefix(item.branches@, n as nat, l, start_l, k as int + 1);
            }
            let ghost mid = *self;
            self.translate_branch(&item.branches[k], k, n, base);
            proof {
                FileModule::lemma_wrote_trans(*self, mid, after_alloc, branches_c(item.branches@.take(k as int), n as nat, l, start_l).0,
                    branch_c(item.branches@[k as int], k as nat, n as nat, l, l0).0, branches_c(t, n as nat, l, start_l).1);
            }
            k = k + 1;
        }
        assert(item.branches@.take(n as int) == item.branches@);
        self.write_label(base + n);
        match &item.else_ {
            Some(e) => self.translate_statements(e),
            None => self.eol(),
        }
        self.write_label(base + 2 * n + 1);
        assert(self.source() =~= old(self).source() + if_c(*item, l).0);
    }

    /// Writes parameters separated by commas.
    fn translate_params(&mut self, ps: &Vec<Parameter<TypeDefine>>)
        requires
            old(self).wf(),
            forall|k: int| 0 <= k < ps@.len() ==> type_c_ok((#[trigger] ps@[k]).ty@),
        ensures
            wrote(*final(self), *old(self), params_c(ps@), old(self).next_label()),
    {
        let mut i: usize = 0;
        assert(ps@.take(0) == Seq::<Parameter<TypeDefine>>::empty());
        while i < ps.len()
            invariant
                i <= ps.len(),
                forall|k: int| 0 <= k < ps@.len() ==> type_c_ok((#[trigger] ps@[k]).ty@),
                wrote(*self, *old(self), params_c(ps@.take(i as int)), old(self).next_label()),
            decreases ps.len() - i,
        {
            let ghost t = ps@.take(i as int + 1);
            assert(t.drop_last() == ps@.take(i as int));
            assert(t.last() == ps@[i as int]);
            let ghost before = *self;
            if i > 0 {
                push_char(&mut self.c_file, ',');
            }
            self.translate_type(&ps[i].ty);
            push_char(&mut self.c_file, ' ');
            append_str(&mut self.c_file, ps[i].name.as_str());
            proof {
                if i == 0 {
                    assert(t.len() == 1);
                    assert(t[0] == ps@[0]);
                }
                assert(self.source() =~= old(self).source() + params_c(t));
            }
            i = i + 1;
        }
        assert(ps@.take(i as int) == ps@);
    }

    /// Writes the signature of a function.
    fn write_sign(&mut self, item: &Item<Value>)
        requires
            old(self).wf(),
            item_ok(*item),
        ensures
            wrote(*final(self), *old(self), sign_c(*item), old(self).next_label()),
    {
        match item {
            Item::FnDefine(f) => {
                self.translate_type(&f.ty);
                push_char(&mut self.c_file, ' ');
                push_char(&mut self.c_file, '_');
                let encoded = encode_base32(f.name.as_str());
                append_str(&mut self.c_file, encoded.as_str());
                push_char(&mut self.c_file, '(');
                self.translate_params(&f.params);
                push_char(&mut self.c_file, ')');
                assert(self.source() =~= old(self).source() + sign_c(*item));
            }
        }
    }

    /// Writes an item: an exported function is declared in the header; every function is
    /// defined in the source.
    pub fn translate_item(&mut self, item: &Item<Value>)
        requires
            old(self).wf(),
            item_ok(*item),
            item_c(*item, old(self).next_label()).2 <= usize::MAX,
        ensures
            final(self).wf(),
            final(self).source() =~= old(self).source() + item_c(*item, old(self).next_label()).0,
            final(self).header() =~= old(self).header() + item_c(*item, old(self).next_label()).1,
            final(self).spec_name() == old(self).spec_name(),
            final(self).next_label() == item_c(*item, old(self).next_label()).2,
    {
        match item {
            Item::FnDefine(f) => {
                if f.export {
                    let mut sign = FileModule { name: String::new(), buffer: Buffer::C, c_file: String::new(), h_file: String::new(), label_idx: 0 };
                    sign.write_sign(item);
                    push_char(&mut sign.c_file, ';');
                    self.write_header_file(sign.c_file.as_str());
                }
                self.write_sign(item);
                self.translate_statements(&f.body);
            }
        }
    }
}

/// The C backend.
pub struct CBackend;

/// A writing error; writing to memory never fails.
#[derive(Debug)]
pub struct WriteError;

/// A code generation backend: it turns items into a module.
pub trait Backend: Sized {
    type Error;
    type Config;
    type Module;

    /// Whether the backend can generate code for the items.
    spec fn accepts(items: Seq<Item<Value>>) -> bool;

    fn init(config: Self::Config) -> Self;

    fn module(&self, name: &str, items: &Vec<Item<Value>>) -> (r: Result<Self::Module, Self::Error>)
        requires
            Self::accepts(items@),
    ;
}

/// A generator of code for a backend.
pub trait CodeGenerator {
    type Backend: Backend;
}

impl Backend for CBackend {
    type Error = WriteError;
    type Config = ();
    type Module = FileModule;

    /// Every item has C types and operators, and the labels are countable.
    open spec fn accepts(items: Seq<Item<Value>>) -> bool {
        &&& forall|k: int| 0 <= k < items.len() ==> item_ok(#[trigger] items[k])
        &&& items_c(items, 0).2 <= usize::MAX
    }

    fn init(config: ()) -> (b: CBackend) {
        CBackend
    }

    /// A module named `name` whose source is the headers and each item in order, and whose
    /// header is the headers and the declarations of the exported functions.
    fn module(&self, name: &str, items: &Vec<Item<Value>>) -> (r: Result<FileModule, WriteError>)
        ensures
            r matches Ok(m) && m.wf() && m.spec_name() == name@
                && m.source() =~= c_headers() + items_c(items@, 0).0
                && m.header() =~= c_headers() + items_c(items@, 0).1,
    {
        let mut module = FileModule::new(text(name));
        let mut i: usize = 0;
        assert(items@.take(0) == Seq::<Item<Value>>::empty());
        while i < items.len()
            invariant
                i <= items.len(),
                Self::accepts(items@),
                module.wf(),
                module.spec_name() == name@,
                module.source() =~= c_headers() + items_c(items@.take(i as int), 0).0,
                module.header() =~= c_headers() + items_c(items@.take(i as int), 0).1,
                module.next_label() == items_c(items@.take(i as int), 0).2,
            decreases items.len() - i,
        {
            let ghost t = items@.take(i as int + 1);
            proof {
                assert(t.drop_last() == items@.take(i as int));
                assert(t.last() == items@[i as int]);
                lemma_items_prefix(items@, 0, i as int + 1);
            }
            module.translate_item(&items[i]);
            i = i + 1;
        }
        assert(items@.take(i as int) == items@);
        Ok(module)
    }
}


fn check_prim(p: &PrimitiveType) -> (b: bool)
    ensures
        b == prim_c_ok(*p),
{
    match p {
        PrimitiveType::I128 | PrimitiveType::U128 | PrimitiveType::Usize | PrimitiveType::Isize => false,
        _ => true,
    }
}

fn check_type(t: &TypeDefine) -> (b: bool)
    ensures
        b == type_c_ok(t@),
{
    match t {
        TypeDefine::Primitive(p) => check_prim(p),
        TypeDefine::Complex(_) => false,
    }
}

fn unary_known(op: Operators) -> (b: bool)
    ensures
        b == unary_ok(op),
{
    match op {
        Operators::Not => true,
        Operators::Bnot => true,
        Operators::AddrOf => true,
        Operators::Deref => true,
        Operators::Log => true,
        Operators::SizeOf => true,
        _ => false,
    }
}

fn binary_known(op: Operators) -> (b: bool)
    ensures
        b == binary_ok(op),
{
    match op {
        Operators::Add | Operators::Sub | Operators::Mul | Operators::Div | Operators::Mod | Operators::Eq
        | Operators::Neq | Operators::Gt | Operators::Lt | Operators::Ge | Operators::Le | Operators::And
        | Operators::Or | Operators::Band | Operators::Bor | Operators::Xor | Operators::Shl | Operators::Shr
        | Operators::GetElement | Operators::Pow => true,
        _ => false,
    }
}

fn check_assign(a: &AssignValue) -> (b: bool)
    ensures
        b == assign_ok(*a),
{
    match a {
        AssignValue::Operate(Operate::Unary(op, _), _) => unary_known(*op),
        AssignValue::Operate(Operate::Binary(op, _, _), _) => binary_known(*op),
        _ => true,
    }
}

/// Whether C can be written for each of the statements.
#[verifier::loop_isolation(false)]
pub fn check_stmts(ss: &Vec<Statement<Value>>) -> (b: bool)
    ensures
        b == forall|k: int| 0 <= k < ss@.len() ==> stmt_ok(#[trigger] ss@[k]),
    decreases ss@, 1int,
{
    let mut k: usize = 0;
    while k < ss.len()
        invariant
            k <= ss.len(),
            forall|j: int| 0 <= j < k ==> stmt_ok(#[trigger] ss@[j]),
        decreases ss.len() - k,
    {
        if !check_stmt(&ss[k]) {
            return false;
        }
        k = k + 1;
    }
    true
}

/// Whether C can be written for a statement.
#[verifier::loop_isolation(false)]
pub fn check_stmt(s: &Statement<Value>) -> (b: bool)
    ensures
        b == stmt_ok(*s),
    decreases *s, 0int,
{
    match s {
        Statement::VarDefine(d) => check_type(&d.ty) && match &d.init {
            Some(a) => check_assign(a),
            None => true,
        },
        Statement::VarStore(_) => true,
        Statement::Block(b) => check_stmts(&b.stmts),
        Statement::If(i) => {
            let mut k: usize = 0;
            while k < i.branches.len()
                invariant
                    k <= i.branches.len(),
                    forall|j: int| 0 <= j < k ==> {
                        &&& forall|m: int| 0 <= m < (#[trigger] i.branches@[j]).cond.compute.stmts@.len() ==> stmt_ok(#[trigger] i.branches@[j].cond.compute.stmts@[m])
                        &&& forall|m: int| 0 <= m < i.branches@[j].body.stmts@.len() ==> stmt_ok(#[trigger] i.branches@[j].body.stmts@[m])
                    },
                decreases i.branches.len() - k,
            {
                if !check_stmts(&i.branches[k].cond.compute.stmts) {
                    return false;
                }
                if !check_stmts(&i.branches[k].body.stmts) {
                    return false;
                }
                k = k + 1;
            }
            match &i.else_ {
                Some(e) => check_stmts(&e.stmts),
                None => true,
            }
        }
        Statement::While(w) => check_stmts(&w.cond.compute.stmts) && check_stmts(&w.body.stmts),
        Statement::Return(_) => true,
    }
}

/// The next free label after the statements, where labels fit in `usize`.
#[verifier::loop_isolation(false)]
fn count_seq(ss: &Vec<Statement<Value>>, l: usize) -> (r: Option<usize>)
    ensures
        r matches Some(n) ==> n == seq_c(ss@, l as nat).1,
        r is None ==> seq_c(ss@, l as nat).1 > usize::MAX,
    decreases ss@, 2int,
{
    let mut cur = l;
    let mut k: usize = 0;
    assert(ss@.take(0) == Seq::<Statement<Value>>::empty());
    while k < ss.len()
        invariant
            k <= ss.len(),
            cur == seq_c(ss@.take(k as int), l as nat).1,
        decreases ss.len() - k,
    {
        let ghost t = ss@.take(k as int + 1);
        proof {
            assert(t.drop_last() == ss@.take(k as int));
            assert(t.last() == ss@[k as int]);
        }
        match count_stmt(&ss[k], cur) {
            Some(n) => cur = n,
            None => {
                proof {
                    lemma_seq_prefix(ss@, l as nat, k as int + 1);
                }
                return None;
            }
        }
        k = k + 1;
    }
    assert(ss@.take(k as int) == ss@);
    Some(cur)
}

/// The next free label after a statement, where labels fit in `usize`.
#[verifier::loop_isolation(false)]
fn count_stmt(s: &Statement<Value>, l: usize) -> (r: Option<usize>)
    ensures
        r matches Some(n) ==> n == stmt_c(*s, l as nat).1,
        r is None ==> stmt_c(*s, l as nat).1 > usize::MAX,
    decreases *s, 1int,
{
    match s {
        Statement::Block(b) => count_seq(&b.stmts, l),
        Statement::While(w) => {
            if l > usize::MAX - 3 {
                proof {
                    lemma_seq_labels_grow(w.cond.compute.stmts@, (l + 3) as nat);
                    lemma_block_labels_grow(w.body, seq_c(w.cond.compute.stmts@, (l + 3) as nat).1);
                }
                return None;
            }
            match count_seq(&w.cond.compute.stmts, l + 3) {
                Some(l1) => match count_seq(&w.body.stmts, l1) {
                    Some(l2) => Some(l2),
                    None => None,
                },
                None => {
                    proof {
                        lemma_block_labels_grow(w.body, seq_c(w.cond.compute.stmts@, (l + 3) as nat).1);
                    }
                    None
                }
            }
        }
        Statement::If(i) => count_if(i, l),
        _ => Some(l),
    }
}


/// The next free label after an `if`, where labels fit in `usize`.
#[verifier::loop_isolation(false)]
#[verifier::spinoff_prover]
#[verifier::rlimit(40)]
fn count_if(i: &If<Value>, l: usize) -> (r: Option<usize>)
    ensures
        r matches Some(n) ==> n == if_c(*i, l as nat).1,
        r is None ==> if_c(*i, l as nat).1 > usize::MAX,
    decreases *i, 0int,
{
    let n = i.branches.len();
    proof {
        lemma_if_labels_grow(*i, l as nat);
    }
    if n > (usize::MAX - l) / 2 || l + 2 * n > usize::MAX - 2 {
        return None;
    }
    let ghost start_l: nat = (l + 2 * (n + 1)) as nat;
    let mut cur = l + 2 * (n + 1);
    let mut k: usize = 0;
    assert(i.branches@.take(0) == Seq::<IfBranch<Value>>::empty());
    while k < n
        invariant
            k <= n,
            n == i.branches@.len(),
            cur == branches_c(i.branches@.take(k as int), n as nat, l as nat, start_l).1,
        decreases n - k,
    {
        let ghost t = i.branches@.take(k as int + 1);
        proof {
            assert(t.drop_last() == i.branches@.take(k as int));
            assert(t.last() == i.branches@[k as int]);
            lemma_branches_prefix(i.branches@, n as nat, l as nat, start_l, k as int + 1);
            lemma_branches_labels_grow(i.branches@, n as nat, l as nat, start_l);
            if i.else_ is Some {
                lemma_block_labels_grow(i.else_->0, branches_c(i.branches@, n as nat, l as nat, start_l).1);
            }
        }
        let br = &i.branches[k];
        match count_seq(&br.cond.compute.stmts, cur) {
            Some(c1) => match count_seq(&br.body.stmts, c1) {
                Some(c2) => {
                    proof {
                        assert(stmts_c(br.body, c1 as nat).1 == seq_c(br.body.stmts@, c1 as nat).1);
                        assert(branch_c(*br, k as nat, n as nat, l as nat, cur as nat).1 == stmts_c(br.body, c1 as nat).1);
                        assert(branches_c(t, n as nat, l as nat, start_l).1 == branch_c(*br, k as nat, n as nat, l as nat, cur as nat).1);
                    }
                    cur = c2;
                }
                None => {
                    proof {
                        assert(stmts_c(br.body, c1 as nat).1 == seq_c(br.body.stmts@, c1 as nat).1);
                        assert(branch_c(*br, k as nat, n as nat, l as nat, cur as nat).1 == stmts_c(br.body, c1 as nat).1);
                        assert(branches_c(t, n as nat, l as nat, start_l).1 == branch_c(*br, k as nat, n as nat, l as nat, cur as nat).1);
                    }
                    return None;
                }
            },
            None => {
                proof {
                    lemma_block_labels_grow(br.body, seq_c(br.cond.compute.stmts@, cur as nat).1);
                    assert(branches_c(t, n as nat, l as nat, start_l).1 == branch_c(*br, k as nat, n as nat, l as nat, cur as nat).1);
                }
                return None;
            }
        }
        k = k + 1;
    }
    assert(i.branches@.take(n as int) == i.branches@);
    match &i.else_ {
        Some(e) => count_seq(&e.stmts, cur),
        None => Some(cur),
    }
}

/// Whether the C backend accepts the items: their types have C names, their operations C
/// operators, and their labels fit in `usize`.
#[verifier::loop_isolation(false)]
pub fn c_accepts(items: &Vec<Item<Value>>) -> (b: bool)
    ensures
        b == <CBackend as Backend>::accepts(items@),
{
    let mut cur: usize = 0;
    let mut k: usize = 0;
    assert(items@.take(0) == Seq::<Item<Value>>::empty());
    while k < items.len()
        invariant
            k <= items.len(),
            forall|j: int| 0 <= j < k ==> item_ok(#[trigger] items@[j]),
            cur == items_c(items@.take(k as int), 0).2,
        decreases items.len() - k,
    {
        let ghost t = items@.take(k as int + 1);
        proof {
            assert(t.drop_last() == items@.take(k as int));
            assert(t.last() == items@[k as int]);
        }
        match &items[k] {
            Item::FnDefine(f) => {
                if !check_type(&f.ty) || !check_stmts(&f.body.stmts) {
                    return false;
                }
                let mut p: usize = 0;
                while p < f.params.len()
                    invariant
                        p <= f.params.len(),
                        forall|j: int| 0 <= j < p ==> type_c_ok((#[trigger] f.params@[j]).ty@),
                    decreases f.params.len() - p,
                {
                    if !check_type(&f.params[p].ty) {
                        return false;
                    }
                    p = p + 1;
                }
                match count_seq(&f.body.stmts, cur) {
                    Some(n) => {
                        proof {
                            assert(stmts_c(f.body, cur as nat).1 == seq_c(f.body.stmts@, cur as nat).1);
                            assert(item_c(items@[k as int], cur as nat).2 == stmts_c(f.body, cur as nat).1);
                        }
                        cur = n;
                    }
                    None => {
                        proof {
                            lemma_items_prefix(items@, 0, k as int + 1);
                            assert(stmts_c(f.body, cur as nat).1 == seq_c(f.body.stmts@, cur as nat).1);
                            assert(item_c(items@[k as int], cur as nat).2 == stmts_c(f.body, cur as nat).1);
                            assert(items_c(t, 0).2 == item_c(items@[k as int], cur as nat).2);
                        }
                        return false;
                    }
                }
            }
        }
        k = k + 1;
    }
    assert(items@.take(k as int) == items@);
    true
}

} // verus!
