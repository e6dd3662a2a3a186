use strict_types::{
    canonical_name, check_named_members, check_tuple_fields, lowest_ordinal, name_of,
    ordinal_of, resolve_variant, same_text, variant_from_ordinal, Defect, StrictDumb, StrictEnum, StrictProduct,
    StrictStruct, StrictSum, StrictTuple, StrictType, StrictUnion, TypeClass, TypeDefect,
    VariantError,
};

const LIB: &str = "Demo";

#[derive(Clone, Debug, Default, PartialEq, Eq)]
struct Triple(u8, u8, u8);

impl StrictType for Triple {
    const STRICT_LIB_NAME: &'static str = LIB;
    const STRICT_TYPE_PATH: &'static str = "demo::shapes::Triple";
}
impl StrictProduct for Triple {}
impl StrictTuple for Triple {
    const ALL_FIELDS: &'static [u8] = &[0, 1, 2];
}

#[derive(Clone, Debug, Default, PartialEq, Eq)]
struct Unit;

impl StrictType for Unit {
    const STRICT_LIB_NAME: &'static str = LIB;
    const STRICT_TYPE_PATH: &'static str = "demo::Unit";
}
impl StrictProduct for Unit {}
impl StrictTuple for Unit {
    const ALL_FIELDS: &'static [u8] = &[];
}

#[derive(Clone, Debug, Default, PartialEq, Eq)]
struct Pair(u8, u8);

impl StrictType for Pair {
    const STRICT_LIB_NAME: &'static str = LIB;
    const STRICT_TYPE_PATH: &'static str = "demo::Pair";
}
impl StrictProduct for Pair {}
impl StrictTuple for Pair {
    const ALL_FIELDS: &'static [u8] = &[1, 0, 1];
}

#[derive(Clone, Debug, Default, PartialEq, Eq)]
struct Payment {
    amount: u64,
    fee: u64,
}

impl StrictType for Payment {
    const STRICT_LIB_NAME: &'static str = LIB;
    const STRICT_TYPE_PATH: &'static str = "demo::pay::Payment";
}
impl StrictProduct for Payment {}
impl StrictStruct for Payment {
    const ALL_FIELDS: &'static [(u8, &'static str)] = &[(0, "amount"), (1, "amount")];
}

#[derive(Clone, Debug, Default, PartialEq, Eq)]
struct Invoice {
    amount: u64,
    memo: u8,
}

impl StrictType for Invoice {
    const STRICT_LIB_NAME: &'static str = LIB;
    const STRICT_TYPE_PATH: &'static str = "demo::pay::Invoice";
}
impl StrictProduct for Invoice {}
impl StrictStruct for Invoice {
    const ALL_FIELDS: &'static [(u8, &'static str)] = &[(0, "amount"), (1, "memo")];
}

#[derive(Clone, Debug, Default, PartialEq, Eq)]
struct Clash;

impl StrictType for Clash {
    const STRICT_LIB_NAME: &'static str = LIB;
    const STRICT_TYPE_PATH: &'static str = "demo::Clash";
}
impl StrictProduct for Clash {}
impl StrictStruct for Clash {
    const ALL_FIELDS: &'static [(u8, &'static str)] = &[(0, "a"), (1, "b"), (0, "b")];
}

#[derive(Clone, Copy, Debug, PartialEq, Eq)]
enum Color {
    Red,
    Green,
    Blue,
}

impl StrictType for Color {
    const STRICT_LIB_NAME: &'static str = LIB;
    const STRICT_TYPE_PATH: &'static str = "demo::paint::Color";
}
impl StrictSum for Color {
    const ALL_VARIANTS: &'static [(u8, &'static str)] = &[(0, "Red"), (1, "Green"), (2, "Blue")];
    fn variant_name(&self) -> &'static str {
        match self {
            Color::Red => "Red",
            Color::Green => "Green",
            Color::Blue => "Blue",
        }
    }
}
impl TryFrom<u8> for Color {
    type Error = VariantError<u8>;
    fn try_from(value: u8) -> Result<Self, Self::Error> {
        let name = variant_from_ordinal(Color::ALL_VARIANTS, "Color", value)?;
        Color::from_variant_name(name).map_err(|_| VariantError("Color".to_string(), value))
    }
}
impl From<Color> for u8 {
    fn from(c: Color) -> u8 {
        c.variant_ord().expect("declared variant")
    }
}
impl StrictEnum for Color {
    fn from_variant_name<'a>(name: &'a str) -> Result<Self, VariantError<&'a str>> {
        match name {
            "Red" => Ok(Color::Red),
            "Green" => Ok(Color::Green),
            "Blue" => Ok(Color::Blue),
            _ => Err(VariantError("Color".to_string(), name)),
        }
    }
}

#[derive(Clone, Copy, Debug, PartialEq, Eq)]
enum Level {
    High,
    Low,
}

impl StrictType for Level {
    const STRICT_LIB_NAME: &'static str = LIB;
    const STRICT_TYPE_PATH: &'static str = "demo::Level";
}
impl StrictSum for Level {
    const ALL_VARIANTS: &'static [(u8, &'static str)] = &[(9, "High"), (3, "Low")];
    fn variant_name(&self) -> &'static str {
        match self {
            Level::High => "High",
            Level::Low => "Low",
        }
    }
}
impl TryFrom<u8> for Level {
    type Error = VariantError<u8>;
    fn try_from(value: u8) -> Result<Self, Self::Error> {
        let name = variant_from_ordinal(Level::ALL_VARIANTS, "Level", value)?;
        Level::from_variant_name(name).map_err(|_| VariantError("Level".to_string(), value))
    }
}
impl From<Level> for u8 {
    fn from(l: Level) -> u8 {
        l.variant_ord().expect("declared variant")
    }
}
impl StrictEnum for Level {
    fn from_variant_name<'a>(name: &'a str) -> Result<Self, VariantError<&'a str>> {
        match name {
            "High" => Ok(Level::High),
            "Low" => Ok(Level::Low),
            _ => Err(VariantError("Level".to_string(), name)),
        }
    }
}

#[derive(Clone, Copy, Debug, PartialEq, Eq)]
enum Broken {
    Only,
}

impl StrictType for Broken {
    const STRICT_LIB_NAME: &'static str = LIB;
    const STRICT_TYPE_PATH: &'static str = "demo::Broken";
}
impl StrictSum for Broken {
    const ALL_VARIANTS: &'static [(u8, &'static str)] = &[(4, "Only")];
    fn variant_name(&self) -> &'static str {
        "Missing"
    }
}
impl TryFrom<u8> for Broken {
    type Error = VariantError<u8>;
    fn try_from(value: u8) -> Result<Self, Self::Error> {
        Err(VariantError("Broken".to_string(), value))
    }
}
impl From<Broken> for u8 {
    fn from(_: Broken) -> u8 {
        4
    }
}
impl StrictEnum for Broken {
    fn from_variant_name<'a>(name: &'a str) -> Result<Self, VariantError<&'a str>> {
        Err(VariantError("Broken".to_string(), name))
    }
}

#[derive(Clone, Debug, PartialEq, Eq)]
enum Shape {
    Dot,
    Line(u8),
}

impl StrictType for Shape {
    const STRICT_LIB_NAME: &'static str = LIB;
    const STRICT_TYPE_PATH: &'static str = "demo::Shape";
}
impl StrictDumb for Shape {
    fn strict_dumb() -> Self {
        Shape::Dot
    }
}
impl StrictSum for Shape {
    const ALL_VARIANTS: &'static [(u8, &'static str)] = &[(0, "dot"), (1, "line")];
    fn variant_name(&self) -> &'static str {
        match self {
            Shape::Dot => "dot",
            Shape::Line(_) => "line",
        }
    }
}
impl StrictUnion for Shape {}

#[derive(Clone, Debug, PartialEq, Eq)]
enum Void {}

impl StrictType for Void {
    const STRICT_LIB_NAME: &'static str = LIB;
    const STRICT_TYPE_PATH: &'static str = "demo::Void";
}
impl StrictDumb for Void {
    fn strict_dumb() -> Self {
        unreachable!()
    }
}
impl StrictSum for Void {
    const ALL_VARIANTS: &'static [(u8, &'static str)] = &[];
    fn variant_name(&self) -> &'static str {
        match *self {}
    }
}
impl StrictUnion for Void {}

fn defect(ty: &str, defects: Vec<Defect>) -> TypeDefect {
    TypeDefect { ty: ty.to_string(), defects }
}

#[test]
fn tuple_with_distinct_fields_gets_its_record() {
    assert_eq!(Triple::strict_check_fields(), Ok(()));
    let info = Triple::strict_type_info().expect("valid tuple");
    assert_eq!(info.lib, "Demo");
    assert_eq!(info.name, Some("Triple".to_string()));
    assert_eq!(info.cls, TypeClass::Tuple(&[0, 1, 2]));
    match info.cls {
        TypeClass::Tuple(fields) => assert_eq!(fields, &[0u8, 1, 2][..]),
        _ => panic!("not a tuple class"),
    }
    assert_eq!(info.dumb, Triple(0, 0, 0));
}

#[test]
fn empty_tuple_is_a_defect() {
    let expected = defect("Unit", vec![Defect::EmptyType]);
    assert_eq!(Unit::strict_check_fields(), Err(expected.clone()));
    assert_eq!(Unit::strict_type_info().err(), Some(expected));
}

#[test]
fn repeated_tuple_ordinal_is_a_defect() {
    let expected = defect("Pair", vec![Defect::RepeatedIds(1)]);
    assert_eq!(Pair::strict_check_fields(), Err(expected.clone()));
    assert_eq!(Pair::strict_type_info().err(), Some(expected));
}

#[test]
fn repeated_struct_name_is_a_defect() {
    let expected = defect("Payment", vec![Defect::RepeatedNames("amount")]);
    assert_eq!(Payment::strict_check_fields(), Err(expected.clone()));
    assert_eq!(Payment::strict_type_info().err(), Some(expected));
}

#[test]
fn repeated_ordinal_and_name_are_both_reported() {
    let expected = defect("Clash", vec![Defect::RepeatedIds(0), Defect::RepeatedNames("b")]);
    assert_eq!(Clash::strict_check_fields(), Err(expected));
}

#[test]
fn struct_with_distinct_fields_gets_its_record() {
    let info = Invoice::strict_type_info().expect("valid struct");
    assert_eq!(info.lib, "Demo");
    assert_eq!(info.name.as_deref(), Some("Invoice"));
    assert_eq!(info.cls, TypeClass::Struct(&[(0, "amount"), (1, "memo")]));
    assert_eq!(info.dumb, Invoice::default());
}

#[test]
fn enum_ordinals_round_trip() {
    for (ord, name) in Color::ALL_VARIANTS {
        let c = Color::try_from(*ord).expect("declared ordinal");
        assert_eq!(c.variant_name(), *name);
        assert_eq!(c.variant_ord(), Ok(*ord));
        assert_eq!(u8::from(c), *ord);
    }
    assert_eq!(Color::try_from(0), Ok(Color::Red));
    assert_eq!(Color::try_from(1), Ok(Color::Green));
    assert_eq!(Color::try_from(2), Ok(Color::Blue));
}

#[test]
fn undeclared_enum_ordinal_is_unrepresentable() {
    assert_eq!(Color::try_from(3), Err(VariantError("Color".to_string(), 3)));
    assert_eq!(Color::try_from(255), Err(VariantError("Color".to_string(), 255)));
}

#[test]
fn enum_record_uses_lowest_ordinal_for_placeholder() {
    let info = Color::strict_type_info().expect("valid enum");
    assert_eq!(info.dumb, Color::Red);
    assert_eq!(info.name.as_deref(), Some("Color"));
    assert_eq!(info.cls, TypeClass::Enum(Color::ALL_VARIANTS));
    let info = Level::strict_type_info().expect("valid enum");
    assert_eq!(info.dumb, Level::Low);
}

#[test]
fn enum_without_value_for_lowest_ordinal_is_a_defect() {
    assert_eq!(
        Broken::strict_type_info().err(),
        Some(defect("Broken", vec![Defect::UnreconstructibleOrdinal(4)]))
    );
}

#[test]
fn unknown_variant_name_is_a_defect() {
    assert_eq!(
        Broken::Only.variant_ord(),
        Err(defect("Broken", vec![Defect::UnknownVariant("Missing")]))
    );
}

#[test]
fn union_record_uses_its_own_placeholder() {
    let info = Shape::strict_type_info().expect("valid union");
    assert_eq!(info.dumb, Shape::Dot);
    assert_eq!(info.cls, TypeClass::Union(&[(0, "dot"), (1, "line")]));
    assert_eq!(Shape::Line(7).variant_ord(), Ok(1));
}

#[test]
fn empty_union_is_a_defect() {
    assert_eq!(
        Void::strict_type_info().err(),
        Some(defect("Void", vec![Defect::EmptyType]))
    );
}

#[test]
fn canonical_name_strips_qualification() {
    assert_eq!(canonical_name("demo::shapes::Triple"), "Triple");
    assert_eq!(canonical_name("u8"), "u8");
    assert_eq!(canonical_name("&demo::Triple"), "Triple");
}

#[test]
fn canonical_name_of_generic_type() {
    assert_eq!(canonical_name("demo::Wrapper<demo::Inner>"), "Wrapper_Inner");
    assert_eq!(
        canonical_name("std::collections::BTreeMap<alloc::string::String, u8>"),
        "BTreeMap_String_u8"
    );
    assert_eq!(canonical_name("demo::Wrapper<alloc::vec::Vec<u8>>"), "Wrapper_Vec<u8");
}

#[test]
fn strict_name_is_deterministic() {
    assert_eq!(Triple::strict_name(), Triple::strict_name());
    assert_eq!(Triple::strict_name(), Some("Triple".to_string()));
    assert_eq!(<&Triple>::strict_name(), Some("Triple".to_string()));
    assert_eq!(<&Triple as StrictType>::STRICT_LIB_NAME, "Demo");
}

#[test]
fn member_checks_on_tables() {
    assert_eq!(check_tuple_fields(&[]), vec![Defect::EmptyType]);
    assert_eq!(check_tuple_fields(&[3, 4, 5]), vec![]);
    assert_eq!(check_tuple_fields(&[3, 4, 4, 3]), vec![Defect::RepeatedIds(4)]);
    assert_eq!(check_named_members(&[]), vec![Defect::EmptyType]);
    assert_eq!(check_named_members(&[(0, "x"), (1, "y")]), vec![]);
    assert_eq!(
        check_named_members(&[(2, "x"), (2, "y")]),
        vec![Defect::RepeatedIds(2)]
    );
}

#[test]
fn lookups_by_ordinal_and_name() {
    let table: &[(u8, &str)] = &[(0, "Red"), (1, "Green"), (2, "Blue")];
    assert_eq!(ordinal_of(table, "Green"), Some(1));
    assert_eq!(ordinal_of(table, "green"), None);
    assert_eq!(name_of(table, 2), Some("Blue"));
    assert_eq!(name_of(table, 3), None);
    assert_eq!(variant_from_ordinal(table, "Color", 0), Ok("Red"));
    assert_eq!(
        variant_from_ordinal(table, "Color", 7),
        Err(VariantError("Color".to_string(), 7))
    );
    assert_eq!(lowest_ordinal(&[(5, "b"), (3, "a"), (9, "c")]), 3);
    assert_eq!(lowest_ordinal(&[(0, "a")]), 0);
}

#[test]
fn text_comparison() {
    assert!(same_text("amount", "amount"));
    assert!(!same_text("amount", "amounts"));
    assert!(!same_text("Red", "red"));
    assert!(same_text("", ""));
}

#[test]
fn variant_names_resolve_to_ordinals_or_defects() {
    let table: &[(u8, &str)] = &[(4, "dot"), (7, "line")];
    assert_eq!(resolve_variant(table, "Shape", "line"), Ok(7));
    assert_eq!(
        resolve_variant(table, "Shape", "arc"),
        Err(defect("Shape", vec![Defect::UnknownVariant("arc")]))
    );
    assert_eq!(Color::Green.variant_ord(), Color::Green.variant_ord());
    assert_eq!(Color::Blue.variant_ord(), Ok(2));
}
