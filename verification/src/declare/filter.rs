use vstd::prelude::*;
use crate::declare::defs::{Defs, FnSignWithName};
use crate::declare::res::Type;
use crate::span::Span;
use crate::text::{append_decimal, append_str, append_type};
use crate::types::{decimal, push_char, type_text, TypeDefine};

verus! {

/// Whether a filter speaks of overloads of functions or of values' types; it only
/// changes how the filter describes what it expects.
#[derive(Debug, Clone, Copy, PartialEq, Eq, Structural)]
pub enum TypesKind {
    Overload,
    Directly,
}

/// A condition on the possible types of a value.
pub trait BranchFilter {
    spec fn spec_satisfy(&self, ty: Type) -> bool;

    spec fn spec_span(&self) -> Span;

    fn satisfy(&self, ty: &Type) -> (b: bool)
        ensures
            b == self.spec_satisfy(*ty);

    /// The text that describes what the filter expects.
    spec fn spec_expect(&self, defs: Defs, kind: TypesKind) -> Seq<char>;

    /// What the filter expects, for error messages.
    fn expect(&self, defs: &Defs, kind: TypesKind) -> (s: String)
        ensures
            s@ == self.spec_expect(*defs, kind);

    fn get_span(&self) -> (s: Span)
        ensures
            s == self.spec_span();
}

/// ASCII whitespace, as `char::is_ascii_whitespace` defines it.
pub open spec fn is_ascii_ws(c: char) -> bool {
    c == ' ' || c == '\t' || c == '\n' || c == '\x0C' || c == '\r'
}

/// The characters before the first ASCII whitespace, from `i` on.
pub open spec fn word_from(s: Seq<char>, i: int) -> Seq<char>
    decreases s.len() - i,
{
    if i < 0 || i >= s.len() || is_ascii_ws(s[i]) {
        Seq::empty()
    } else {
        seq![s[i]] + word_from(s, i + 1)
    }
}

/// The index of the first character that is not ASCII whitespace, from `i` on.
pub open spec fn skip_ws(s: Seq<char>, i: int) -> int
    decreases s.len() - i,
{
    if i < 0 || i >= s.len() || !is_ascii_ws(s[i]) {
        i
    } else {
        skip_ws(s, i + 1)
    }
}

/// The first word of a text, the words being separated by ASCII whitespace.
pub open spec fn first_word(s: Seq<char>) -> Seq<char> {
    word_from(s, skip_ws(s, 0))
}

/// How an overload is shown in messages: `name(t1, p2, ...) -> ret`. After the first
/// parameter, the names of the parameters are shown rather than their types.
pub open spec fn sign_text(o: FnSignWithName) -> Seq<char> {
    let ps = o.sign.params@;
    first_word(o.name@) + seq!['('] + (if ps.len() == 0 {
        seq![')']
    } else if ps.len() == 1 {
        type_text(ps[0].ty@) + seq![')']
    } else {
        type_text(ps[0].ty@) + rest_param_names(ps, ps.len() as int) + seq![')']
    }) + seq![' ', '-', '>', ' '] + type_text(o.sign.ty@)
}

/// `, name` for each parameter from the second to the `n`-th.
pub open spec fn rest_param_names(ps: Seq<crate::declare::defs::Parameter>, n: int) -> Seq<char>
    decreases n,
{
    if n <= 1 {
        Seq::empty()
    } else {
        rest_param_names(ps, n - 1) + seq![',', ' '] + ps[n - 1].name@
    }
}

fn is_ascii_ws_exec(c: char) -> (b: bool)
    ensures
        b == is_ascii_ws(c),
{
    c == ' ' || c == '\t' || c == '\n' || c == '\x0C' || c == '\r'
}

/// Appends the first word of `s`.
fn append_first_word(out: &mut String, s: &String)
    ensures
        final(out)@ == old(out)@ + first_word(s@),
{
    let chars = crate::lex::chars_of(s.as_str());
    let mut i: usize = 0;
    while i < chars.len() && is_ascii_ws_exec(chars[i])
        invariant
            chars@ == s@,
            i <= chars.len(),
            skip_ws(s@, 0) == skip_ws(s@, i as int),
        decreases chars.len() - i,
    {
        i = i + 1;
    }
    let ghost start = i as int;
    let ghost prefix = out@;
    while i < chars.len() && !is_ascii_ws_exec(chars[i])
        invariant
            chars@ == s@,
            start <= i <= chars.len(),
            skip_ws(s@, 0) == start,
            word_from(s@, start) == s@.subrange(start, i as int) + word_from(s@, i as int),
            out@ == prefix + s@.subrange(start, i as int),
        decreases chars.len() - i,
    {
        push_char(out, chars[i]);
        assert(s@.subrange(start, i as int + 1) == s@.subrange(start, i as int) + seq![s@[i as int]]);
        i = i + 1;
    }
    assert(word_from(s@, i as int) == Seq::<char>::empty());
    assert(out@ == prefix + word_from(s@, start));
}

/// Appends how an overload is shown in messages.
pub fn append_sign(out: &mut String, o: &FnSignWithName)
    ensures
        final(out)@ == old(out)@ + sign_text(*o),
{
    let ghost start = out@;
    append_first_word(out, &o.name);
    push_char(out, '(');
    let ghost mid = out@;
    let n = o.sign.params.len();
    if n == 0 {
        push_char(out, ')');
    } else if n == 1 {
        append_type(out, &o.sign.params[0].ty);
        push_char(out, ')');
    } else {
        append_type(out, &o.sign.params[0].ty);
        let ghost first = out@;
        let mut i: usize = 1;
        while i < n
            invariant
                1 <= i <= n,
                n == o.sign.params@.len(),
                out@ == first + rest_param_names(o.sign.params@, i as int),
            decreases n - i,
        {
            push_char(out, ',');
            push_char(out, ' ');
            out.append(o.sign.params[i].name.as_str());
            i = i + 1;
        }
        push_char(out, ')');
    }
    proof { reveal_strlit(" -> "); }
    append_str(out, " -> ");
    append_type(out, &o.sign.ty);
}

/// A filter made of two closures: one that decides, one that describes what is expected.
/// `decides` is what the first one computes, as its contract says.
pub struct CustomFilter<Fs: Fn(&Type) -> bool, Fe: Fn(&Defs) -> String> {
    satisfy: Fs,
    expect: Fe,
    at: Span,
    decides: Ghost<spec_fn(Type) -> bool>,
    describes: Ghost<spec_fn(Defs) -> Seq<char>>,
}

impl<Fs: Fn(&Type) -> bool, Fe: Fn(&Defs) -> String> CustomFilter<Fs, Fe> {
    /// The closures can be called on every type and every set of definitions, and the first
    /// one answers as `decides` does.
    #[verifier::type_invariant]
    spec fn callable(self) -> bool {
        &&& forall|t: &Type| #[trigger] call_requires(self.satisfy, (t,))
        &&& forall|t: &Type, b: bool| #[trigger] call_ensures(self.satisfy, (t,), b) ==> b == (self.decides@)(*t)
        &&& forall|d: &Defs| #[trigger] call_requires(self.expect, (d,))
        &&& forall|d: &Defs, s: String| #[trigger] call_ensures(self.expect, (d,), s) ==> s@ == (self.describes@)(*d)
    }

    pub closed spec fn spec_decides(self) -> spec_fn(Type) -> bool {
        self.decides@
    }

    /// What the second closure gives for a set of definitions.
    pub closed spec fn spec_describes(self) -> spec_fn(Defs) -> Seq<char> {
        self.describes@
    }

    pub fn new(
        satisfy: Fs,
        expect: Fe,
        at: Span,
        decides: Ghost<spec_fn(Type) -> bool>,
        describes: Ghost<spec_fn(Defs) -> Seq<char>>,
    ) -> (f: CustomFilter<Fs, Fe>)
        requires
            forall|t: &Type| #[trigger] call_requires(satisfy, (t,)),
            forall|t: &Type, b: bool| #[trigger] call_ensures(satisfy, (t,), b) ==> b == (decides@)(*t),
            forall|d: &Defs| #[trigger] call_requires(expect, (d,)),
            forall|d: &Defs, s: String| #[trigger] call_ensures(expect, (d,), s) ==> s@ == (describes@)(*d),
        ensures
            f.spec_decides() == decides@,
            f.spec_span() == at,
            f.spec_describes() == describes@,
    {
        CustomFilter { satisfy, expect, at, decides, describes }
    }
}

impl<Fs: Fn(&Type) -> bool, Fe: Fn(&Defs) -> String> BranchFilter for CustomFilter<Fs, Fe> {
    closed spec fn spec_satisfy(&self, ty: Type) -> bool {
        (self.decides@)(ty)
    }

    closed spec fn spec_span(&self) -> Span {
        self.at
    }

    fn satisfy(&self, ty: &Type) -> (b: bool) {
        proof {
            use_type_invariant(self);
        }
        (self.satisfy)(ty)
    }

    closed spec fn spec_expect(&self, defs: Defs, kind: TypesKind) -> Seq<char> {
        (self.describes@)(defs)
    }

    /// What the second closure says.
    fn expect(&self, defs: &Defs, _kind: TypesKind) -> (s: String) {
        proof {
            use_type_invariant(self);
        }
        (self.expect)(defs)
    }

    fn get_span(&self) -> (s: Span) {
        self.at
    }
}

/// The type of the value must be a given type.
pub struct TypeEqual<'t> {
    pub expect: &'t TypeDefine,
    pub at: Span,
}

impl<'t> TypeEqual<'t> {
    pub fn new(expect: &'t TypeDefine, at: Span) -> (f: TypeEqual<'t>)
        ensures
            f.expect == expect,
            f.at == at,
    {
        TypeEqual { expect, at }
    }
}

impl<'t> BranchFilter for TypeEqual<'t> {
    open spec fn spec_satisfy(&self, ty: Type) -> bool {
        ty.spec_type() == self.expect@
    }

    open spec fn spec_span(&self) -> Span {
        self.at
    }

    fn satisfy(&self, ty: &Type) -> (b: bool) {
        ty.get_type().same_as(self.expect)
    }

    /// `a function whose return type is T` for overloads, `a val whose type is T` for values.
    open spec fn spec_expect(&self, defs: Defs, kind: TypesKind) -> Seq<char> {
        match kind {
            TypesKind::Overload => "a function whose return type is "@ + type_text(self.expect@),
            TypesKind::Directly => "a val whose type is "@ + type_text(self.expect@),
        }
    }

    fn expect(&self, defs: &Defs, kind: TypesKind) -> (s: String) {
        let mut s = String::new();
        match kind {
            TypesKind::Overload => append_str(&mut s, "a function whose return type is "),
            TypesKind::Directly => append_str(&mut s, "a val whose type is "),
        }
        append_type(&mut s, self.expect);
        s
    }

    fn get_span(&self) -> (s: Span) {
        self.at
    }
}

/// How the overloads among the first `k` that have `n` parameters are listed, one per line.
pub open spec fn overload_lines(os: Seq<crate::declare::defs::Overload>, n: usize, k: int) -> Seq<char>
    decreases k,
{
    if k <= 0 {
        Seq::empty()
    } else {
        let prev = overload_lines(os, n, k - 1);
        if os[k - 1].sign.params@.len() == n {
            if prev.len() > 0 { prev + seq!['\n'] + sign_text(*os[k - 1]) } else { sign_text(*os[k - 1]) }
        } else {
            prev
        }
    }
}

/// The value must be an overload with a given number of parameters.
pub struct FnParamLen<'n> {
    pub name: Option<&'n str>,
    pub expect: usize,
    pub at: Span,
}

impl<'n> FnParamLen<'n> {
    pub fn new(name: Option<&'n str>, expect: usize, at: Span) -> (f: FnParamLen<'n>)
        ensures
            f.name == name,
            f.expect == expect,
            f.at == at,
    {
        FnParamLen { name, expect, at }
    }
}

impl<'n> BranchFilter for FnParamLen<'n> {
    open spec fn spec_satisfy(&self, ty: Type) -> bool {
        match ty {
            Type::Overload(o) => o.sign.params@.len() == self.expect,
            Type::Directly(_) => false,
        }
    }

    open spec fn spec_span(&self) -> Span {
        self.at
    }

    fn satisfy(&self, ty: &Type) -> (b: bool) {
        match ty {
            Type::Overload(o) => o.sign.params.len() == self.expect,
            Type::Directly(_) => false,
        }
    }

    /// `a funcion with N parameters`, followed, when the function is named, by the
    /// overloads of that name that have that many parameters, one per line.
    open spec fn spec_expect(&self, defs: Defs, kind: TypesKind) -> Seq<char> {
        let base = "a funcion with "@ + decimal(self.expect as nat) + " parameters"@;
        match self.name {
            None => base,
            Some(name) => {
                let os = defs.fn_signs.spec_unmangled(name@);
                let lines = overload_lines(os, self.expect, os.len() as int);
                base + "\nexist overloads whose length is expected:\n"@
                    + if lines.len() == 0 { "emm, no-overload a matched :("@ } else { lines }
            },
        }
    }

    fn expect(&self, defs: &Defs, kind: TypesKind) -> (s: String) {
        let mut msg = String::new();
        append_str(&mut msg, "a funcion with ");
        append_decimal(&mut msg, self.expect);
        append_str(&mut msg, " parameters");
        if let Some(name) = self.name {
            append_str(&mut msg, "\nexist overloads whose length is expected:\n");
            let ghost head = msg@;
            let ghost os = defs.fn_signs.spec_unmangled(name@);
            let mut any = false;
            if let Some(overloads) = defs.fn_signs.get_unmangled(name) {
                let mut i: usize = 0;
                while i < overloads.len()
                    invariant
                        overloads@ == os,
                        i <= overloads.len(),
                        msg@ == head + overload_lines(os, self.expect, i as int),
                        any == (overload_lines(os, self.expect, i as int).len() > 0),
                    decreases overloads.len() - i,
                {
                    if overloads[i].sign.params.len() == self.expect {
                        if any {
                            push_char(&mut msg, '\n');
                        }
                        append_sign(&mut msg, &overloads[i]);
                        any = true;
                    }
                    i = i + 1;
                }
            }
            if !any {
                append_str(&mut msg, "emm, no-overload a matched :(");
            }
            proof {
                assert(msg@ =~= self.spec_expect(*defs, kind));
            }
        }
        msg
    }

    fn get_span(&self) -> (s: Span) {
        self.at
    }
}

/// The value must be an overload whose `nth` parameter has a given type.
pub struct NthParamTyEqual<'t> {
    pub at: Span,
    pub nth: usize,
    pub expect: &'t TypeDefine,
}

impl<'t> NthParamTyEqual<'t> {
    pub fn new(nth: usize, expect: &'t TypeDefine, at: Span) -> (f: NthParamTyEqual<'t>)
        ensures
            f.nth == nth,
            f.expect == expect,
            f.at == at,
    {
        NthParamTyEqual { at, nth, expect }
    }
}

impl<'t> BranchFilter for NthParamTyEqual<'t> {
    open spec fn spec_satisfy(&self, ty: Type) -> bool {
        match ty {
            Type::Overload(o) => self.nth < o.sign.params@.len() && o.sign.params@[self.nth as int].ty@ == self.expect@,
            Type::Directly(_) => false,
        }
    }

    open spec fn spec_span(&self) -> Span {
        self.at
    }

    fn satisfy(&self, ty: &Type) -> (b: bool) {
        match ty {
            Type::Overload(o) => self.nth < o.sign.params.len() && o.sign.params[self.nth].ty.same_as(self.expect),
            Type::Directly(_) => false,
        }
    }

    /// `a function whose Nth parameter is T`.
    open spec fn spec_expect(&self, defs: Defs, kind: TypesKind) -> Seq<char> {
        "a function whose "@ + decimal(self.nth as nat) + "th parameter is "@ + type_text(self.expect@)
    }

    fn expect(&self, defs: &Defs, kind: TypesKind) -> (s: String) {
        let mut s = String::new();
        append_str(&mut s, "a function whose ");
        append_decimal(&mut s, self.nth);
        append_str(&mut s, "th parameter is ");
        append_type(&mut s, self.expect);
        s
    }

    fn get_span(&self) -> (s: Span) {
        self.at
    }
}

} // verus!
