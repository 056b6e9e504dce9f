use vstd::prelude::*;

verus! {

/// A value type that can live inside a palette-compressed store: it is copyable,
/// has a distinguished default value, and supports an equality test that decides
/// structural equality.
pub trait BlockData: Sized + Copy {
    /// The distinguished default value (what an untouched slot holds).
    spec fn default_spec() -> Self;

    /// Produces the default value.
    fn default_value() -> (r: Self)
        ensures
            r == Self::default_spec(),
    ;

    /// Decides structural equality.
    fn eq_value(&self, other: &Self) -> (r: bool)
        ensures
            r == (*self == *other),
    ;
}

impl BlockData for u8 {
    open spec fn default_spec() -> u8 {
        0
    }

    fn default_value() -> u8 {
        0
    }

    fn eq_value(&self, other: &u8) -> bool {
        *self == *other
    }
}

impl BlockData for u16 {
    open spec fn default_spec() -> u16 {
        0
    }

    fn default_value() -> u16 {
        0
    }

    fn eq_value(&self, other: &u16) -> bool {
        *self == *other
    }
}

impl BlockData for u32 {
    open spec fn default_spec() -> u32 {
        0
    }

    fn default_value() -> u32 {
        0
    }

    fn eq_value(&self, other: &u32) -> bool {
        *self == *other
    }
}

impl BlockData for u64 {
    open spec fn default_spec() -> u64 {
        0
    }

    fn default_value() -> u64 {
        0
    }

    fn eq_value(&self, other: &u64) -> bool {
        *self == *other
    }
}

impl BlockData for i32 {
    open spec fn default_spec() -> i32 {
        0
    }

    fn default_value() -> i32 {
        0
    }

    fn eq_value(&self, other: &i32) -> bool {
        *self == *other
    }
}

impl BlockData for i64 {
    open spec fn default_spec() -> i64 {
        0
    }

    fn default_value() -> i64 {
        0
    }

    fn eq_value(&self, other: &i64) -> bool {
        *self == *other
    }
}

} // verus!
