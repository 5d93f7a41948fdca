use vstd::prelude::*;

verus! {

/// An integer type that can stand for an index.
///
/// `from_index` converts an index where the type can hold it, and says so
/// where it cannot.
pub trait IndexValue: Copy {
    /// Whether the type can hold the index `i`.
    spec fn holds(i: int) -> bool;

    /// The index that a value stands for.
    spec fn index_of(&self) -> int;

    /// Every type of indices can hold the first one.
    proof fn lemma_holds_zero()
        ensures
            Self::holds(0),
    ;

    fn from_index(i: usize) -> (r: Option<Self>)
        ensures
            r is Some <==> Self::holds(i as int),
            r is Some ==> r.unwrap().index_of() == i,
    ;
}

impl IndexValue for u8 {
    open spec fn holds(i: int) -> bool {
        0 <= i <= u8::MAX
    }

    open spec fn index_of(&self) -> int {
        *self as int
    }

    proof fn lemma_holds_zero() {
    }

    fn from_index(i: usize) -> (r: Option<u8>) {
        if i <= 0xff {
            Some(i as u8)
        } else {
            None
        }
    }
}

impl IndexValue for u16 {
    open spec fn holds(i: int) -> bool {
        0 <= i <= u16::MAX
    }

    open spec fn index_of(&self) -> int {
        *self as int
    }

    proof fn lemma_holds_zero() {
    }

    fn from_index(i: usize) -> (r: Option<u16>) {
        if i <= 0xffff {
            Some(i as u16)
        } else {
            None
        }
    }
}

impl IndexValue for u32 {
    open spec fn holds(i: int) -> bool {
        0 <= i <= u32::MAX
    }

    open spec fn index_of(&self) -> int {
        *self as int
    }

    proof fn lemma_holds_zero() {
    }

    fn from_index(i: usize) -> (r: Option<u32>) {
        if i <= 0xffff_ffff {
            Some(i as u32)
        } else {
            None
        }
    }
}

impl IndexValue for u64 {
    open spec fn holds(i: int) -> bool {
        0 <= i
    }

    open spec fn index_of(&self) -> int {
        *self as int
    }

    proof fn lemma_holds_zero() {
    }

    fn from_index(i: usize) -> (r: Option<u64>) {
        Some(i as u64)
    }
}

impl IndexValue for u128 {
    open spec fn holds(i: int) -> bool {
        0 <= i
    }

    open spec fn index_of(&self) -> int {
        *self as int
    }

    proof fn lemma_holds_zero() {
    }

    fn from_index(i: usize) -> (r: Option<u128>) {
        Some(i as u128)
    }
}

impl IndexValue for usize {
    open spec fn holds(i: int) -> bool {
        0 <= i
    }

    open spec fn index_of(&self) -> int {
        *self as int
    }

    proof fn lemma_holds_zero() {
    }

    fn from_index(i: usize) -> (r: Option<usize>) {
        Some(i as usize)
    }
}

impl IndexValue for i8 {
    open spec fn holds(i: int) -> bool {
        0 <= i <= i8::MAX
    }

    open spec fn index_of(&self) -> int {
        *self as int
    }

    proof fn lemma_holds_zero() {
    }

    fn from_index(i: usize) -> (r: Option<i8>) {
        if i <= 0x7f {
            Some(i as i8)
        } else {
            None
        }
    }
}

impl IndexValue for i16 {
    open spec fn holds(i: int) -> bool {
        0 <= i <= i16::MAX
    }

    open spec fn index_of(&self) -> int {
        *self as int
    }

    proof fn lemma_holds_zero() {
    }

    fn from_index(i: usize) -> (r: Option<i16>) {
        if i <= 0x7fff {
            Some(i as i16)
        } else {
            None
        }
    }
}

impl IndexValue for i32 {
    open spec fn holds(i: int) -> bool {
        0 <= i <= i32::MAX
    }

    open spec fn index_of(&self) -> int {
        *self as int
    }

    proof fn lemma_holds_zero() {
    }

    fn from_index(i: usize) -> (r: Option<i32>) {
        if i <= 0x7fff_ffff {
            Some(i as i32)
        } else {
            None
        }
    }
}

impl IndexValue for i64 {
    open spec fn holds(i: int) -> bool {
        0 <= i <= i64::MAX
    }

    open spec fn index_of(&self) -> int {
        *self as int
    }

    proof fn lemma_holds_zero() {
    }

    fn from_index(i: usize) -> (r: Option<i64>) {
        if (i as u64) <= 0x7fff_ffff_ffff_ffff {
            Some(i as i64)
        } else {
            None
        }
    }
}

impl IndexValue for i128 {
    open spec fn holds(i: int) -> bool {
        0 <= i
    }

    open spec fn index_of(&self) -> int {
        *self as int
    }

    proof fn lemma_holds_zero() {
    }

    fn from_index(i: usize) -> (r: Option<i128>) {
        Some(i as i128)
    }
}

impl IndexValue for isize {
    open spec fn holds(i: int) -> bool {
        0 <= i <= isize::MAX
    }

    open spec fn index_of(&self) -> int {
        *self as int
    }

    proof fn lemma_holds_zero() {
    }

    fn from_index(i: usize) -> (r: Option<isize>) {
        if i <= isize::MAX as usize {
            Some(i as isize)
        } else {
            None
        }
    }
}

} // verus!
