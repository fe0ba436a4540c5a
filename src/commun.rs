use vstd::prelude::*;

verus! {

/// Conversion from `T` usable when building constants.
pub trait ConstFrom<T>: Sized {
    fn from_const(value: T) -> Self;
}

/// Conversion into `T` usable when building constants.
pub trait ConstInto<T>: Sized {
    fn into_const(self) -> T;
}

/// A default value usable when building constants.
pub trait ConstDefault: Sized {
    fn default_const() -> Self;
}

} // verus!
