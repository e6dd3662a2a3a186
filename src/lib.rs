//! Type classification for deterministic binary serialization: canonical
//! type names, member-table validation and introspection records.

pub mod members;
pub mod name;
pub mod types;

pub use members::{
    check_named_members, check_tuple_fields, lowest_ordinal, name_of, ordinal_of, same_text,
    variant_from_ordinal, Defect, VariantError,
};
pub use name::canonical_name;
pub use types::{
    StrictDumb, StrictEnum, StrictProduct, StrictStruct, StrictSum, StrictTuple, StrictType,
    StrictUnion, TypeClass, TypeDefect, TypeInfo, resolve_variant,
};
