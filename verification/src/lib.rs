//! Verified core of the typer's binary-library support: JVM method
//! descriptors, JVM class-name spellings, the member-table repairs done when a
//! Scala pickle is adopted, and the hand-written prelude declarations.
pub mod descriptor;
pub mod text;
pub mod jvm_names;
pub mod symbols;
pub mod prelude;
pub mod prelude_bsops;
pub mod prelude_boolbit;
pub mod prelude_boxed;
pub mod prelude_classtag;
pub mod prelude_buildfrom;
pub mod prelude_anyval2;
pub mod pickle_supply;
pub mod tparam_kinds;
pub mod ancestry;
pub mod prelude_bignum;
pub mod prelude_classtag2;
pub mod prelude_chainusing;
pub mod prelude_arrayops2;

pub mod prelude_arrconv;
