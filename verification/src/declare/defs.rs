use std::rc::Rc;
use vstd::prelude::*;
use crate::span::Span;
use crate::types::{TypeDefine, TypeDefineV};

verus! {

/// Shares the value behind an `Rc` with `Rc::clone`, which gives another pointer to the
/// same value; to Verus an `Rc` is the value it points to.
#[verifier::external_body]
pub(crate) fn share<T>(r: &Rc<T>) -> (s: Rc<T>)
    ensures
        s == *r,
{
    Rc::clone(r)
}

/// A parameter of a function: its type and its name.
#[derive(Debug)]
pub struct Parameter {
    pub ty: TypeDefine,
    pub name: String,
}

impl Parameter {
    pub fn clone_param(&self) -> (p: Parameter)
        ensures
            p.ty@ == self.ty@,
            p.name@ == self.name@,
    {
        Parameter { ty: self.ty.clone_ty(), name: self.name.clone() }
    }
}

/// The signature of a function.
#[derive(Debug)]
pub struct FnSign {
    /// The return type.
    pub ty: TypeDefine,
    pub params: Vec<Parameter>,
    pub retty_span: Span,
    pub sign_span: Span,
}

/// The types of a list of parameters.
pub open spec fn param_types(params: Seq<Parameter>) -> Seq<TypeDefineV> {
    params.map_values(|p: Parameter| p.ty@)
}

impl FnSign {
    pub fn new(ty: TypeDefine, params: Vec<Parameter>, retty_span: Span, sign_span: Span) -> (s: FnSign)
        ensures
            s.ty@ == ty@,
            s.params@ == params@,
            s.retty_span == retty_span,
            s.sign_span == sign_span,
    {
        FnSign { ty, params, retty_span, sign_span }
    }
}

/// A signature together with the mangled name of the function.
#[derive(Debug)]
pub struct FnSignWithName {
    pub sign: FnSign,
    pub name: String,
}

/// One overload of a function, shared between the places that refer to it.
pub type Overload = Rc<FnSignWithName>;

/// The functions that have been defined, in order, each with its unmangled name.
pub struct FnSigns {
    fn_signs: Vec<(String, Overload)>,
}

/// The last overload whose mangled name is `name`, among the first `n` definitions.
pub open spec fn last_mangled(fns: Seq<(String, Overload)>, name: Seq<char>, n: int) -> Option<Overload>
    decreases n,
{
    if n <= 0 {
        None
    } else if fns[n - 1].1.name@ == name {
        Some(fns[n - 1].1)
    } else {
        last_mangled(fns, name, n - 1)
    }
}

/// The overloads defined under the unmangled name `name`, in order, among the first `n`.
pub open spec fn overloads_named(fns: Seq<(String, Overload)>, name: Seq<char>, n: int) -> Seq<Overload>
    decreases n,
{
    if n <= 0 {
        Seq::empty()
    } else if fns[n - 1].0@ == name {
        overloads_named(fns, name, n - 1).push(fns[n - 1].1)
    } else {
        overloads_named(fns, name, n - 1)
    }
}

impl FnSigns {
    /// The functions with their unmangled names, in the order they were defined.
    pub closed spec fn spec_fns(self) -> Seq<(String, Overload)> {
        self.fn_signs@
    }

    pub open spec fn spec_mangled(self, name: Seq<char>) -> Option<Overload> {
        last_mangled(self.spec_fns(), name, self.spec_fns().len() as int)
    }

    pub open spec fn spec_unmangled(self, name: Seq<char>) -> Seq<Overload> {
        overloads_named(self.spec_fns(), name, self.spec_fns().len() as int)
    }

    pub fn new() -> (s: FnSigns)
        ensures
            s.spec_fns().len() == 0,
    {
        FnSigns { fn_signs: Vec::new() }
    }

    /// The definitions with only `main`, which returns an `i32`, takes no parameter, and is
    /// mangled to itself.
    pub fn new_with_main() -> (s: FnSigns)
        ensures
            s.spec_fns().len() == 1,
            s.spec_fns()[0].0@ == "main"@,
            s.spec_fns()[0].1.name@ == "main"@,
            s.spec_fns()[0].1.sign.ty@ == TypeDefine::Primitive(crate::types::PrimitiveType::I32)@,
            s.spec_fns()[0].1.sign.params@.len() == 0,
            s.spec_fns()[0].1.sign.retty_span == (Span { start: 0, end: 0 }),
            s.spec_fns()[0].1.sign.sign_span == (Span { start: 0, end: 0 }),
    {
        let mut s = FnSigns::new();
        let main_sign = FnSign::new(
            TypeDefine::Primitive(crate::types::PrimitiveType::I32),
            Vec::new(),
            Span::new(0, 0),
            Span::new(0, 0),
        );
        let _ = s.new_fn(crate::text::text("main"), crate::text::text("main"), main_sign);
        s
    }

    /// Defines a function; it is found afterwards by both of its names.
    pub fn new_fn(&mut self, unmangled: String, mangled: String, sign: FnSign) -> (t: Overload)
        ensures
            final(self).spec_fns() == old(self).spec_fns().push((unmangled, t)),
            t.name@ == mangled@,
            t.sign.ty@ == sign.ty@,
            t.sign.params@ == sign.params@,
            t.sign.retty_span == sign.retty_span,
            t.sign.sign_span == sign.sign_span,
    {
        let value = FnSignWithName { sign, name: mangled };
        let overload = Rc::new(value);
        self.fn_signs.push((unmangled, share(&overload)));
        overload
    }

    pub fn try_get_mangled(&self, name: &str) -> (r: Option<&Overload>)
        ensures
            r == (match self.spec_mangled(name@) {
                Some(o) => Some(&o),
                None => None::<&Overload>,
            }),
    {
        let mut i = self.fn_signs.len();
        while i > 0
            invariant
                i <= self.fn_signs.len(),
                self.spec_mangled(name@) == last_mangled(self.spec_fns(), name@, i as int),
            decreases i,
        {
            if str_eq(self.fn_signs[i - 1].1.name.as_str(), name) {
                return Some(&self.fn_signs[i - 1].1);
            }
            i = i - 1;
        }
        None
    }

    pub fn get_unmangled(&self, name: &str) -> (r: Option<Vec<Overload>>)
        ensures
            self.spec_unmangled(name@).len() == 0 ==> r is None,
            self.spec_unmangled(name@).len() != 0 ==> (r matches Some(v) && v@ == self.spec_unmangled(name@)),
    {
        let mut found: Vec<Overload> = Vec::new();
        let mut i: usize = 0;
        while i < self.fn_signs.len()
            invariant
                i <= self.fn_signs.len(),
                found@ == overloads_named(self.spec_fns(), name@, i as int),
            decreases self.fn_signs.len() - i,
        {
            if str_eq(self.fn_signs[i].0.as_str(), name) {
                found.push(share(&self.fn_signs[i].1));
            }
            i = i + 1;
        }
        if found.len() == 0 {
            None
        } else {
            Some(found)
        }
    }
}

/// Whether two strings hold the same characters.
pub(crate) fn str_eq(a: &str, b: &str) -> (r: bool)
    ensures
        r == (a@ == b@),
{
    let n = a.unicode_len();
    if n != b.unicode_len() {
        return false;
    }
    let mut i: usize = 0;
    while i < n
        invariant
            n == a@.len(),
            n == b@.len(),
            i <= n,
            a@.subrange(0, i as int) == b@.subrange(0, i as int),
        decreases n - i,
    {
        if a.get_char(i) != b.get_char(i) {
            assert(a@[i as int] != b@[i as int]);
            return false;
        }
        assert(a@.subrange(0, i + 1) =~= a@.subrange(0, i as int).push(a@[i as int]));
        assert(b@.subrange(0, i + 1) =~= b@.subrange(0, i as int).push(b@[i as int]));
        i += 1;
    }
    assert(a@ =~= a@.subrange(0, n as int));
    assert(b@ =~= b@.subrange(0, n as int));
    true
}

/// All functions defined so far.
pub struct Defs {
    pub fn_signs: FnSigns,
}

impl Defs {
    pub fn new() -> (d: Defs)
        ensures
            d.fn_signs.spec_fns().len() == 0,
    {
        Defs { fn_signs: FnSigns::new() }
    }
}

} // verus!
