//! DWARF debug information: types, variables, expressions over them, and their values.

pub mod described;
pub mod dwarf_data;
pub mod dwarf_parser;
pub mod entry;
pub mod expression;
pub mod laws;
pub mod layout;
pub mod recorded;
pub mod type_resolver;
pub mod types;
pub mod value;
pub mod variable;

pub use dwarf_parser::get_struct_layout;
pub use dwarf_parser::get_struct_member_offset;
pub use dwarf_parser::get_variable_info;
pub use dwarf_parser::list_structs;
pub use expression::resolve_expression;
pub use expression::ResolvedSymbol;
pub use layout::StructInfo;
pub use layout::StructLayout;
pub use layout::StructMember;
pub use types::EnumVariant;
pub use types::PrimitiveType;
pub use types::TypeInfo;
pub use types::TypedMember;
pub use value::interpret_value;
pub use variable::VariableInfo;
