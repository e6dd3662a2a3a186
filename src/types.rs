//! The capabilities that classify a type (identity, product, sum) and the
//! introspection record built from them.

use vstd::prelude::*;

use crate::members::{
    check_named_members, check_tuple_fields, lowest, lowest_ordinal, ids_of, named_defects,
    ordinal_lookup, ordinal_of, tuple_defects, Defect, VariantError,
};
use crate::name::{canonical_name, spec_canonical_name};

verus! {

/// A type whose declaration breaks one or more invariants: its canonical
/// name and each violated invariant.
#[derive(Clone, Debug, PartialEq, Eq)]
pub struct TypeDefect {
    pub ty: String,
    pub defects: Vec<Defect>,
}

/// The structural class of a type, with its member table.
#[derive(Clone, Copy, Debug, PartialEq, Eq)]
pub enum TypeClass {
    Embedded,
    Enum(&'static [(u8, &'static str)]),
    Union(&'static [(u8, &'static str)]),
    Tuple(&'static [u8]),
    Struct(&'static [(u8, &'static str)]),
}

/// The introspection record of a classified type: library, canonical name,
/// structural class and a placeholder value.
pub struct TypeInfo<T: StrictType> {
    pub lib: &'static str,
    pub name: Option<String>,
    pub cls: TypeClass,
    pub dumb: T,
}

/// A deterministic placeholder value of a type.
pub trait StrictDumb: Sized {
    /// The placeholder value; for a type with a default value, that value.
    fn strict_dumb() -> Self;
}

impl<T: StrictType + Default> StrictDumb for T {
    fn strict_dumb() -> (r: T)
        ensures
            call_ensures(T::default, (), r),
    {
        T::default()
    }
}

/// The identity of a type: the library it belongs to and its qualified
/// path, from which its canonical name is derived.
pub trait StrictType: Sized {
    /// The library (namespace) that the type belongs to.
    const STRICT_LIB_NAME: &'static str;
    /// The type's fully qualified path, generic arguments included, such as
    /// `lib::Wrapper<lib::Inner>`. Each instantiation of a generic type
    /// declares its own path, so that each gets its own canonical name.
    const STRICT_TYPE_PATH: &'static str;

    /// The type's canonical name, derived from its qualified path.
    fn strict_name() -> (r: Option<String>)
        ensures
            r matches Some(n) && n@ == spec_canonical_name(Self::STRICT_TYPE_PATH@),
    {
        Some(canonical_name(Self::STRICT_TYPE_PATH))
    }
}

impl<T: StrictType> StrictType for &T {
    const STRICT_LIB_NAME: &'static str = T::STRICT_LIB_NAME;
    const STRICT_TYPE_PATH: &'static str = T::STRICT_TYPE_PATH;
}

/// Deriving the canonical name of a type twice gives the same name.
pub proof fn lemma_strict_name_deterministic<T: StrictType>(a: Option<String>, b: Option<String>)
    requires
        call_ensures(T::strict_name, (), a),
        call_ensures(T::strict_name, (), b),
    ensures
        a matches Some(x) && b matches Some(y) && x@ == y@,
{
}

/// `info` carries the identity of `T` and the structural class `cls`.
pub open spec fn describes<T: StrictType>(info: &TypeInfo<T>, cls: TypeClass) -> bool {
    &&& info.lib == T::STRICT_LIB_NAME
    &&& info.cls == cls
    &&& info.name matches Some(n) && n@ == spec_canonical_name(T::STRICT_TYPE_PATH@)
}

/// `e` names type `T` and lists exactly `defects`.
pub open spec fn reports<T: StrictType>(e: &TypeDefect, defects: Seq<Defect>) -> bool {
    &&& e.ty@ == spec_canonical_name(T::STRICT_TYPE_PATH@)
    &&& e.defects@ == defects
}

/// The name that a defect report carries for type `T`.
fn defect_owner<T: StrictType>() -> (r: String)
    ensures
        r@ == spec_canonical_name(T::STRICT_TYPE_PATH@),
{
    match T::strict_name() {
        Some(n) => n,
        None => String::new(),
    }
}

/// A product type: a fixed set of members that are all present.
pub trait StrictProduct: StrictType + StrictDumb {}

/// A tuple type, whose fields carry ordinals only.
pub trait StrictTuple: StrictProduct {
    const ALL_FIELDS: &'static [u8];

    /// Checks the field table: it is non-empty and no ordinal repeats.
    fn strict_check_fields() -> (r: Result<(), TypeDefect>)
        ensures
            r is Ok <==> tuple_defects(Self::ALL_FIELDS@).len() == 0,
            r matches Err(e) ==> reports::<Self>(&e, tuple_defects(Self::ALL_FIELDS@)),
    {
        let defects = check_tuple_fields(Self::ALL_FIELDS);
        if defects.len() == 0 {
            Ok(())
        } else {
            Err(TypeDefect { ty: defect_owner::<Self>(), defects })
        }
    }

    /// Checks the field table, then builds the type's introspection record.
    fn strict_type_info() -> (r: Result<TypeInfo<Self>, TypeDefect>)
        ensures
            r is Ok <==> tuple_defects(Self::ALL_FIELDS@).len() == 0,
            r matches Ok(info) ==> describes(&info, TypeClass::Tuple(Self::ALL_FIELDS)),
            r matches Ok(info) ==> call_ensures(Self::strict_dumb, (), info.dumb),
            r matches Err(e) ==> reports::<Self>(&e, tuple_defects(Self::ALL_FIELDS@)),
    {
        Self::strict_check_fields()?;
        Ok(
            TypeInfo {
                lib: Self::STRICT_LIB_NAME,
                name: Self::strict_name(),
                cls: TypeClass::Tuple(Self::ALL_FIELDS),
                dumb: Self::strict_dumb(),
            },
        )
    }
}

/// A struct type, whose fields carry ordinals and names.
pub trait StrictStruct: StrictProduct {
    const ALL_FIELDS: &'static [(u8, &'static str)];

    /// Checks the field table: it is non-empty, and neither an ordinal nor a
    /// name repeats; both repeats are reported when both occur.
    fn strict_check_fields() -> (r: Result<(), TypeDefect>)
        ensures
            r is Ok <==> named_defects(Self::ALL_FIELDS@).len() == 0,
            r matches Err(e) ==> reports::<Self>(&e, named_defects(Self::ALL_FIELDS@)),
    {
        let defects = check_named_members(Self::ALL_FIELDS);
        if defects.len() == 0 {
            Ok(())
        } else {
            Err(TypeDefect { ty: defect_owner::<Self>(), defects })
        }
    }

    /// Checks the field table, then builds the type's introspection record.
    fn strict_type_info() -> (r: Result<TypeInfo<Self>, TypeDefect>)
        ensures
            r is Ok <==> named_defects(Self::ALL_FIELDS@).len() == 0,
            r matches Ok(info) ==> describes(&info, TypeClass::Struct(Self::ALL_FIELDS)),
            r matches Ok(info) ==> call_ensures(Self::strict_dumb, (), info.dumb),
            r matches Err(e) ==> reports::<Self>(&e, named_defects(Self::ALL_FIELDS@)),
    {
        Self::strict_check_fields()?;
        Ok(
            TypeInfo {
                lib: Self::STRICT_LIB_NAME,
                name: Self::strict_name(),
                cls: TypeClass::Struct(Self::ALL_FIELDS),
                dumb: Self::strict_dumb(),
            },
        )
    }
}

/// What looking up the variant called `n` in `table`, the variant table of
/// the type named `ty`, gives.
pub open spec fn variant_outcome(
    table: Seq<(u8, &'static str)>,
    ty: Seq<char>,
    r: Result<u8, TypeDefect>,
    n: &'static str,
) -> bool {
    match ordinal_lookup(table, n@) {
        Some(o) => r == Ok::<u8, TypeDefect>(o),
        None => r matches Err(e) && e.ty@ == ty && e.defects@ == seq![Defect::UnknownVariant(n)],
    }
}

/// The ordinal that `table` pairs with the variant name `name`; a name that
/// the table lacks is a defect of the type named `ty`.
pub fn resolve_variant(table: &[(u8, &'static str)], ty: &str, name: &'static str) -> (r: Result<
    u8,
    TypeDefect,
>)
    ensures
        variant_outcome(table@, ty@, r, name),
{
    match ordinal_of(table, name) {
        Some(o) => Ok(o),
        None => {
            let defects = vec![Defect::UnknownVariant(name)];
            assert(defects@ =~= seq![Defect::UnknownVariant(name)]);
            Err(TypeDefect { ty: ty.to_owned(), defects })
        },
    }
}

/// A sum type: each value is exactly one of a declared set of named
/// variants.
pub trait StrictSum: StrictType {
    const ALL_VARIANTS: &'static [(u8, &'static str)];

    /// Checks the variant table: it is non-empty, and neither an ordinal nor
    /// a name repeats; both repeats are reported when both occur.
    fn strict_check_variants() -> (r: Result<(), TypeDefect>)
        ensures
            r is Ok <==> named_defects(Self::ALL_VARIANTS@).len() == 0,
            r matches Err(e) ==> reports::<Self>(&e, named_defects(Self::ALL_VARIANTS@)),
    {
        let defects = check_named_members(Self::ALL_VARIANTS);
        if defects.len() == 0 {
            Ok(())
        } else {
            Err(TypeDefect { ty: defect_owner::<Self>(), defects })
        }
    }

    /// The ordinal that the table pairs with this value's variant name; a
    /// name that the table lacks is a defect of the type.
    fn variant_ord(&self) -> (r: Result<u8, TypeDefect>)
        ensures
            exists|n: &'static str|
                call_ensures(Self::variant_name, (self,), n) && variant_outcome(
                    Self::ALL_VARIANTS@,
                    spec_canonical_name(Self::STRICT_TYPE_PATH@),
                    r,
                    n,
                ),
    {
        let variant = self.variant_name();
        let owner = defect_owner::<Self>();
        resolve_variant(Self::ALL_VARIANTS, owner.as_str(), variant)
    }

    /// The name of this value's variant.
    fn variant_name(&self) -> &'static str;
}

/// A union type: a sum type whose placeholder the type supplies itself.
pub trait StrictUnion: StrictSum + StrictDumb {
    /// Checks the variant table, then builds the type's introspection record.
    fn strict_type_info() -> (r: Result<TypeInfo<Self>, TypeDefect>)
        ensures
            r is Ok <==> named_defects(Self::ALL_VARIANTS@).len() == 0,
            r matches Ok(info) ==> describes(&info, TypeClass::Union(Self::ALL_VARIANTS)),
            r matches Ok(info) ==> call_ensures(Self::strict_dumb, (), info.dumb),
            r matches Err(e) ==> reports::<Self>(&e, named_defects(Self::ALL_VARIANTS@)),
    {
        Self::strict_check_variants()?;
        Ok(
            TypeInfo {
                lib: Self::STRICT_LIB_NAME,
                name: Self::strict_name(),
                cls: TypeClass::Union(Self::ALL_VARIANTS),
                dumb: Self::strict_dumb(),
            },
        )
    }
}

/// An enum type: a sum type whose values convert to and from their
/// ordinals.
pub trait StrictEnum: StrictSum + Copy + TryFrom<u8, Error = VariantError<u8>> where
    u8: From<Self>,
 {
    /// The value of the variant called `name`.
    fn from_variant_name<'a>(name: &'a str) -> Result<Self, VariantError<&'a str>>;

    /// Checks the variant table, then builds the type's introspection
    /// record, whose placeholder is the value of the lowest declared
    /// ordinal; a lowest ordinal that converts to no value is a defect.
    fn strict_type_info() -> (r: Result<TypeInfo<Self>, TypeDefect>)
        ensures
            named_defects(Self::ALL_VARIANTS@).len() != 0 ==> (r matches Err(e) && reports::<
                Self,
            >(&e, named_defects(Self::ALL_VARIANTS@))),
            named_defects(Self::ALL_VARIANTS@).len() == 0 ==> match r {
                Ok(info) => describes(&info, TypeClass::Enum(Self::ALL_VARIANTS)),
                Err(e) => reports::<Self>(
                    &e,
                    seq![Defect::UnreconstructibleOrdinal(lowest(ids_of(Self::ALL_VARIANTS@)))],
                ),
            },
            named_defects(Self::ALL_VARIANTS@).len() == 0 ==> exists|
                made: Result<Self, VariantError<u8>>,
            |
                {
                    &&& call_ensures(Self::try_from, (lowest(ids_of(Self::ALL_VARIANTS@)),), made)
                    &&& r is Ok <==> made is Ok
                    &&& r matches Ok(info) ==> made == Ok::<Self, VariantError<u8>>(info.dumb)
                },
    {
        Self::strict_check_variants()?;
        let lo = lowest_ordinal(Self::ALL_VARIANTS);
        let made = Self::try_from(lo);
        match made {
            Ok(dumb) => Ok(
                TypeInfo {
                    lib: Self::STRICT_LIB_NAME,
                    name: Self::strict_name(),
                    cls: TypeClass::Enum(Self::ALL_VARIANTS),
                    dumb,
                },
            ),
            Err(_) => {
                let defects = vec![Defect::UnreconstructibleOrdinal(lo)];
                assert(defects@ =~= seq![Defect::UnreconstructibleOrdinal(lo)]);
                Err(TypeDefect { ty: defect_owner::<Self>(), defects })
            },
        }
    }
}

} // verus!
