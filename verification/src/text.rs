use vstd::prelude::*;
use crate::types::{
    decimal, decorator_text, decorators_text, digit_char, push_char, type_text, TypeDecorators,
    TypeDefine,
};

verus! {

/// Appends text at the end of a string.
pub fn append_str(out: &mut String, s: &str)
    ensures
        final(out)@ == old(out)@ + s@,
{
    out.append(s);
}

/// The text of a string literal, as a `String`.
pub fn text(s: &str) -> (r: String)
    ensures
        r@ == s@,
{
    let mut r = String::new();
    r.append(s);
    r
}

pub proof fn lemma_decimal_unfold(n: nat)
    ensures
        n >= 10 ==> decimal(n) == decimal(n / 10) + seq![digit_char(n % 10)],
        n < 10 ==> decimal(n) == seq![digit_char(n)],
{
}

/// Appends the decimal digits of `n`.
pub fn append_decimal(out: &mut String, n: usize)
    ensures
        final(out)@ == old(out)@ + decimal(n as nat),
    decreases n,
{
    if n >= 10 {
        append_decimal(out, n / 10);
    }
    let d = n % 10;
    let c = if d == 0 { '0' } else if d == 1 { '1' } else if d == 2 { '2' } else if d == 3 { '3' }
        else if d == 4 { '4' } else if d == 5 { '5' } else if d == 6 { '6' } else if d == 7 { '7' }
        else if d == 8 { '8' } else { '9' };
    push_char(out, c);
    proof {
        lemma_decimal_unfold(n as nat);
        if n >= 10 {
            assert(old(out)@ + decimal(n as nat) == old(out)@ + decimal((n / 10) as nat) + seq![c]);
        }
    }
}

/// Appends the text of a type decorator.
pub fn append_decorator(out: &mut String, d: TypeDecorators)
    ensures
        final(out)@ == old(out)@ + decorator_text(d),
{
    proof {
        reveal_strlit("const ");
        reveal_strlit("[] ");
        reveal_strlit("& ");
        reveal_strlit("* ");
        reveal_strlit("[");
        reveal_strlit("] ");
    }
    match d {
        TypeDecorators::Const => append_str(out, "const "),
        TypeDecorators::Array => append_str(out, "[] "),
        TypeDecorators::Reference => append_str(out, "& "),
        TypeDecorators::Pointer => append_str(out, "* "),
        TypeDecorators::SizedArray(n) => {
            append_str(out, "[");
            append_decimal(out, n);
            append_str(out, "] ");
            assert(final(out)@ == old(out)@ + decorator_text(d));
        },
    }
}

/// Appends the text of a type, as types are printed in messages.
pub fn append_type(out: &mut String, t: &TypeDefine)
    ensures
        final(out)@ == old(out)@ + type_text(t@),
{
    match t {
        TypeDefine::Primitive(p) => p.write_name(out),
        TypeDefine::Complex(c) => {
            let ghost start = out@;
            let mut i: usize = 0;
            while i < c.decorators.len()
                invariant
                    i <= c.decorators.len(),
                    out@ == start + decorators_text(c.decorators@.take(i as int)),
                decreases c.decorators.len() - i,
            {
                append_decorator(out, c.decorators[i]);
                assert(c.decorators@.take(i as int + 1).drop_last() == c.decorators@.take(i as int));
                i = i + 1;
            }
            assert(c.decorators@.take(i as int) == c.decorators@);
            out.append(c.ty.as_str());
        },
    }
}

/// The text of a type.
pub fn type_to_string(t: &TypeDefine) -> (s: String)
    ensures
        s@ == type_text(t@),
{
    let mut s = String::new();
    append_type(&mut s, t);
    s
}

} // verus!
