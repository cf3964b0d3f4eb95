use pycc::declare::branch::{BranchesBuilder, GroupBuilder};
use pycc::declare::defs::Defs;
use pycc::declare::filter::{TypeEqual, TypesKind};
use pycc::declare::graph::DeclareGraph;
use pycc::declare::res::Type;
use pycc::span::Span;
use pycc::types::{ComplexType, PrimitiveType, TypeDefine};

fn t(idx: usize) -> TypeDefine {
    TypeDefine::Complex(ComplexType::no_decorators(format!("t{idx}")))
}

fn plain(idx: usize) -> BranchesBuilder {
    BranchesBuilder::new(Type::from_type(t(idx)))
}

#[test]
fn lib_feature() {
    // t1-t5 emulate the types A-E
    //
    // m() -> A | B | C
    // b() -> B | C | D
    // p(A, B) -> C
    // p(B, C) -> D
    // p(C, D) -> E
    let no_span = Span::new(0, 0);
    let ordered_span = |idx: usize| Span::new(idx, idx + 1);

    let raw_types: Vec<TypeDefine> = (0..6).map(t).collect();
    let filters: Vec<TypeEqual> = raw_types.iter().map(|raw| TypeEqual::new(raw, no_span)).collect();

    let mut map = DeclareGraph::new();
    let defs = Defs::new();

    let m1 = map.build_group(GroupBuilder::new(ordered_span(1), vec![plain(1), plain(2), plain(3)]));
    let n1 = map.build_group(GroupBuilder::new(ordered_span(2), vec![plain(2), plain(3), plain(4)]));

    let i = {
        let gb = GroupBuilder::new(
            ordered_span(11),
            vec![
                plain(3).new_depend(&map, &defs, m1, &filters[1], TypesKind::Directly).new_depend(&map, &defs, n1, &filters[2], TypesKind::Directly),
                plain(4).new_depend(&map, &defs, m1, &filters[2], TypesKind::Directly).new_depend(&map, &defs, n1, &filters[3], TypesKind::Directly),
                plain(5).new_depend(&map, &defs, m1, &filters[3], TypesKind::Directly).new_depend(&map, &defs, n1, &filters[4], TypesKind::Directly),
            ],
        );
        map.build_group(gb)
    };

    let m2 = map.build_group(GroupBuilder::new(ordered_span(3), vec![plain(1), plain(2), plain(3)]));
    let n2 = map.build_group(GroupBuilder::new(ordered_span(4), vec![plain(2), plain(3), plain(4)]));
    let j = {
        let gb = GroupBuilder::new(
            ordered_span(12),
            vec![
                plain(3).new_depend(&map, &defs, m2, &filters[1], TypesKind::Directly).new_depend(&map, &defs, n2, &filters[2], TypesKind::Directly),
                plain(4).new_depend(&map, &defs, m2, &filters[2], TypesKind::Directly).new_depend(&map, &defs, n2, &filters[3], TypesKind::Directly),
                plain(5).new_depend(&map, &defs, m2, &filters[3], TypesKind::Directly).new_depend(&map, &defs, n2, &filters[4], TypesKind::Directly),
            ],
        );
        map.build_group(gb)
    };

    let _k = {
        let gb = GroupBuilder::new(
            ordered_span(21),
            vec![
                plain(3).new_depend(&map, &defs, i, &filters[1], TypesKind::Directly).new_depend(&map, &defs, j, &filters[2], TypesKind::Directly),
                plain(4).new_depend(&map, &defs, i, &filters[2], TypesKind::Directly).new_depend(&map, &defs, j, &filters[3], TypesKind::Directly),
                plain(5).new_depend(&map, &defs, i, &filters[3], TypesKind::Directly).new_depend(&map, &defs, j, &filters[4], TypesKind::Directly),
            ],
        );
        map.build_group(gb)
    };

    assert!(map.declare_all().is_ok());
}

#[test]
fn declare_type_keeps_only_that_type() {
    let mut map = DeclareGraph::new();
    let g = map.new_static_group(
        Span::new(0, 1),
        vec![
            Type::from_type(TypeDefine::Primitive(PrimitiveType::I32)),
            Type::from_type(TypeDefine::Primitive(PrimitiveType::I64)),
        ],
    );
    assert!(map.declare_all().is_err());
    assert!(map.declare_type(Span::new(0, 1), g, &TypeDefine::Primitive(PrimitiveType::I64)).is_ok());
    assert!(map.declare_all().is_ok());
    assert!(map.get_type(g).same_as(&TypeDefine::Primitive(PrimitiveType::I64)));
}

#[test]
fn declare_type_fails_when_no_branch_has_that_type() {
    let mut map = DeclareGraph::new();
    let g = map.new_static_group(
        Span::new(0, 1),
        vec![
            Type::from_type(TypeDefine::Primitive(PrimitiveType::I32)),
            Type::from_type(TypeDefine::Primitive(PrimitiveType::I64)),
        ],
    );
    assert!(map.declare_type(Span::new(2, 3), g, &TypeDefine::Primitive(PrimitiveType::Bool)).is_err());
    assert!(map.declare_all().is_err());
}

#[test]
fn merge_group_keeps_common_types() {
    let mut map = DeclareGraph::new();
    let a = map.new_static_group(
        Span::new(0, 1),
        vec![
            Type::from_type(TypeDefine::Primitive(PrimitiveType::I32)),
            Type::from_type(TypeDefine::Primitive(PrimitiveType::F32)),
        ],
    );
    let b = map.new_static_group(
        Span::new(1, 2),
        vec![
            Type::from_type(TypeDefine::Primitive(PrimitiveType::F32)),
            Type::from_type(TypeDefine::Primitive(PrimitiveType::Bool)),
        ],
    );
    map.merge_group(Span::new(0, 2), a, b);
    assert!(map.declare_all().is_ok());
    assert!(map.get_type(a).same_as(&TypeDefine::Primitive(PrimitiveType::F32)));
    assert!(map.get_type(b).same_as(&TypeDefine::Primitive(PrimitiveType::F32)));
}

#[test]
fn undeclared_group_is_an_error() {
    let mut map = DeclareGraph::new();
    map.new_static_group(Span::new(3, 4), vec![]);
    let errors = map.declare_all().unwrap_err();
    assert_eq!(errors.len(), 1);
}

#[test]
fn removal_reaches_dependents_of_dependents() {
    let no_span = Span::new(0, 0);
    let raw_types: Vec<TypeDefine> = (0..7).map(t).collect();
    let filters: Vec<TypeEqual> = raw_types.iter().map(|raw| TypeEqual::new(raw, no_span)).collect();
    let mut map = DeclareGraph::new();
    let defs = Defs::new();

    let a = map.build_group(GroupBuilder::new(Span::new(1, 2), vec![plain(1), plain(2)]));
    let b = {
        let gb = GroupBuilder::new(
            Span::new(2, 3),
            vec![
                plain(3).new_depend(&map, &defs, a, &filters[1], TypesKind::Directly),
                plain(4).new_depend(&map, &defs, a, &filters[2], TypesKind::Directly),
            ],
        );
        map.build_group(gb)
    };
    let c = {
        let gb = GroupBuilder::new(
            Span::new(3, 4),
            vec![
                plain(5).new_depend(&map, &defs, b, &filters[3], TypesKind::Directly),
                plain(6).new_depend(&map, &defs, b, &filters[4], TypesKind::Directly),
            ],
        );
        map.build_group(gb)
    };
    assert!(map.declare_all().is_err());
    assert!(map.declare_type(Span::new(5, 6), a, &t(2)).is_ok());
    assert!(map.declare_all().is_ok());
    assert!(map.get_type(a).same_as(&t(2)));
    assert!(map.get_type(b).same_as(&t(4)));
    assert!(map.get_type(c).same_as(&t(6)));
}
