use vstd::prelude::*;
use crate::declare::defs::str_eq;
use crate::ops::{op_keyword, operator_of};

verus! {

/// Keywords of definitions of structures.
#[derive(Debug, Clone, Copy, PartialEq, Eq, Structural)]
pub enum StructsDefinition {
    Classs,
    Enum,
    Union,
    Struct,
}

/// Keywords of punctuation.
#[derive(Debug, Clone, Copy, PartialEq, Eq, Structural)]
pub enum Symbol {
    Export,
    FnCallL,
    FnCallR,
    BracketL,
    BracketR,
    ArrayL,
    ArrayR,
    Block,
    Parameter,
    Comment,
    EndOfBlock,
    Semicolon,
    Assign,
    GetElement,
    Label,
    Char,
    String,
}

/// Keywords of control flow.
#[derive(Debug, Clone, Copy, PartialEq, Eq, Structural)]
pub enum ControlFlow {
    If,
    Else,
    Repeat,
    Switch,
    Jump,
    Return,
}

/// Keywords that extend basic types.
#[derive(Debug, Clone, Copy, PartialEq, Eq, Structural)]
pub enum BasicExtenWord {
    Array,
    Width,
    Signed,
    Unsigned,
    Reference,
    Const,
    Pointer,
}

pub open spec fn structs_keyword(k: StructsDefinition) -> Seq<char> {
    match k {
        StructsDefinition::Classs => "lei4"@,
        StructsDefinition::Enum => "mei2"@,
        StructsDefinition::Union => "lian2"@,
        StructsDefinition::Struct => "jie2gou4"@,
    }
}

pub open spec fn symbol_keyword(k: Symbol) -> Seq<char> {
    match k {
        Symbol::Export => "dao3chu1"@,
        Symbol::FnCallL => "ya1"@,
        Symbol::FnCallR => "ru4"@,
        Symbol::BracketL => "jie2"@,
        Symbol::BracketR => "he2"@,
        Symbol::ArrayL => "zu3"@,
        Symbol::ArrayR => "he2"@,
        Symbol::Block => "han2"@,
        Symbol::Parameter => "can1"@,
        Symbol::Comment => "shi4"@,
        Symbol::EndOfBlock => "jie2"@,
        Symbol::Semicolon => "fen1"@,
        Symbol::Assign => "wei2"@,
        Symbol::GetElement => "de1"@,
        Symbol::Label => "biao1"@,
        Symbol::Char => "wen2"@,
        Symbol::String => "chuan4"@,
    }
}

pub open spec fn control_keyword(k: ControlFlow) -> Seq<char> {
    match k {
        ControlFlow::If => "ruo4"@,
        ControlFlow::Else => "ze2"@,
        ControlFlow::Repeat => "chong2"@,
        ControlFlow::Switch => "qie4huan4"@,
        ControlFlow::Jump => "tiao4"@,
        ControlFlow::Return => "fan3"@,
    }
}

pub open spec fn exten_keyword(k: BasicExtenWord) -> Seq<char> {
    match k {
        BasicExtenWord::Array => "zu3"@,
        BasicExtenWord::Width => "kuan1"@,
        BasicExtenWord::Signed => "you3fu2"@,
        BasicExtenWord::Unsigned => "wu2fu2"@,
        BasicExtenWord::Reference => "yin3"@,
        BasicExtenWord::Const => "she4"@,
        BasicExtenWord::Pointer => "zhi3"@,
    }
}

impl Symbol {
    pub fn keyword(&self) -> (s: &'static str)
        ensures
            s@ == symbol_keyword(*self),
    {
        match self {
            Symbol::Export => "dao3chu1",
            Symbol::FnCallL => "ya1",
            Symbol::FnCallR => "ru4",
            Symbol::BracketL => "jie2",
            Symbol::BracketR => "he2",
            Symbol::ArrayL => "zu3",
            Symbol::ArrayR => "he2",
            Symbol::Block => "han2",
            Symbol::Parameter => "can1",
            Symbol::Comment => "shi4",
            Symbol::EndOfBlock => "jie2",
            Symbol::Semicolon => "fen1",
            Symbol::Assign => "wei2",
            Symbol::GetElement => "de1",
            Symbol::Label => "biao1",
            Symbol::Char => "wen2",
            Symbol::String => "chuan4",
        }
    }
}

impl ControlFlow {
    pub fn keyword(&self) -> (s: &'static str)
        ensures
            s@ == control_keyword(*self),
    {
        match self {
            ControlFlow::If => "ruo4",
            ControlFlow::Else => "ze2",
            ControlFlow::Repeat => "chong2",
            ControlFlow::Switch => "qie4huan4",
            ControlFlow::Jump => "tiao4",
            ControlFlow::Return => "fan3",
        }
    }
}

impl BasicExtenWord {
    pub fn keyword(&self) -> (s: &'static str)
        ensures
            s@ == exten_keyword(*self),
    {
        match self {
            BasicExtenWord::Array => "zu3",
            BasicExtenWord::Width => "kuan1",
            BasicExtenWord::Signed => "you3fu2",
            BasicExtenWord::Unsigned => "wu2fu2",
            BasicExtenWord::Reference => "yin3",
            BasicExtenWord::Const => "she4",
            BasicExtenWord::Pointer => "zhi3",
        }
    }
}

/// The keywords that are not operators: those of structures, punctuation, control flow
/// and type extensions.
pub open spec fn other_keywords() -> Seq<Seq<char>> {
    seq!["lei4"@, "mei2"@, "lian2"@, "jie2gou4"@, "dao3chu1"@, "ya1"@, "ru4"@, "jie2"@, "he2"@, "zu3"@, "han2"@, "can1"@, "shi4"@, "fen1"@, "wei2"@, "de1"@, "biao1"@, "wen2"@, "chuan4"@, "ruo4"@, "ze2"@, "chong2"@, "qie4huan4"@, "tiao4"@, "fan3"@, "kuan1"@, "you3fu2"@, "wu2fu2"@, "yin3"@, "she4"@, "zhi3"@]
}

/// Whether a text is one of the keywords that cannot be used as an identifier.
pub open spec fn is_keyword(s: Seq<char>) -> bool {
    (exists|op: crate::ops::Operators| op_keyword(op) == s) || other_keywords().contains(s)
}

/// Every keyword of the keyword enums is a keyword.
pub proof fn law_enum_keywords_are_reserved(s: Symbol, c: ControlFlow, e: BasicExtenWord, d: StructsDefinition)
    ensures
        is_keyword(symbol_keyword(s)),
        is_keyword(control_keyword(c)),
        is_keyword(exten_keyword(e)),
        is_keyword(structs_keyword(d)),
{
    let k = other_keywords();
    assert(k[0] == structs_keyword(StructsDefinition::Classs));
    assert(k[1] == structs_keyword(StructsDefinition::Enum));
    assert(k[2] == structs_keyword(StructsDefinition::Union));
    assert(k[3] == structs_keyword(StructsDefinition::Struct));
    assert(k[4] == symbol_keyword(Symbol::Export));
    assert(k[5] == symbol_keyword(Symbol::FnCallL));
    assert(k[6] == symbol_keyword(Symbol::FnCallR));
    assert(k[7] == symbol_keyword(Symbol::BracketL));
    assert(k[7] == symbol_keyword(Symbol::EndOfBlock));
    assert(k[8] == symbol_keyword(Symbol::BracketR));
    assert(k[8] == symbol_keyword(Symbol::ArrayR));
    assert(k[9] == symbol_keyword(Symbol::ArrayL));
    assert(k[9] == exten_keyword(BasicExtenWord::Array));
    assert(k[10] == symbol_keyword(Symbol::Block));
    assert(k[11] == symbol_keyword(Symbol::Parameter));
    assert(k[12] == symbol_keyword(Symbol::Comment));
    assert(k[13] == symbol_keyword(Symbol::Semicolon));
    assert(k[14] == symbol_keyword(Symbol::Assign));
    assert(k[15] == symbol_keyword(Symbol::GetElement));
    assert(k[16] == symbol_keyword(Symbol::Label));
    assert(k[17] == symbol_keyword(Symbol::Char));
    assert(k[18] == symbol_keyword(Symbol::String));
    assert(k[19] == control_keyword(ControlFlow::If));
    assert(k[20] == control_keyword(ControlFlow::Else));
    assert(k[21] == control_keyword(ControlFlow::Repeat));
    assert(k[22] == control_keyword(ControlFlow::Switch));
    assert(k[23] == control_keyword(ControlFlow::Jump));
    assert(k[24] == control_keyword(ControlFlow::Return));
    assert(k[25] == exten_keyword(BasicExtenWord::Width));
    assert(k[26] == exten_keyword(BasicExtenWord::Signed));
    assert(k[27] == exten_keyword(BasicExtenWord::Unsigned));
    assert(k[28] == exten_keyword(BasicExtenWord::Reference));
    assert(k[29] == exten_keyword(BasicExtenWord::Const));
    assert(k[30] == exten_keyword(BasicExtenWord::Pointer));
}

/// Whether a text is a keyword.
pub fn is_keeping_keyword(s: &str) -> (b: bool)
    ensures
        b == is_keyword(s@),
{
    if operator_of(s).is_some() {
        return true;
    }
    let mut v: Vec<&str> = Vec::new();
    v.push("lei4");
    v.push("mei2");
    v.push("lian2");
    v.push("jie2gou4");
    v.push("dao3chu1");
    v.push("ya1");
    v.push("ru4");
    v.push("jie2");
    v.push("he2");
    v.push("zu3");
    v.push("han2");
    v.push("can1");
    v.push("shi4");
    v.push("fen1");
    v.push("wei2");
    v.push("de1");
    v.push("biao1");
    v.push("wen2");
    v.push("chuan4");
    v.push("ruo4");
    v.push("ze2");
    v.push("chong2");
    v.push("qie4huan4");
    v.push("tiao4");
    v.push("fan3");
    v.push("kuan1");
    v.push("you3fu2");
    v.push("wu2fu2");
    v.push("yin3");
    v.push("she4");
    v.push("zhi3");
    let ghost words = v@.map_values(|w: &str| w@);
    assert(words == other_keywords());
    let mut i: usize = 0;
    while i < v.len()
        invariant
            i <= v.len(),
            words == v@.map_values(|w: &str| w@),
            words == other_keywords(),
            forall|k: int| 0 <= k < i ==> words[k] != s@,
        decreases v.len() - i,
    {
        if str_eq(v[i], s) {
            assert(other_keywords()[i as int] == s@);
            assert(other_keywords().contains(s@));
            return true;
        }
        i = i + 1;
    }
    false
}

} // verus!
