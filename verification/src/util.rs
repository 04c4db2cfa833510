use vstd::prelude::*;

verus! {

/// The size in bytes of the items of `val`, as the graphics API takes it. A slice never
/// spans more than `isize::MAX` bytes.
pub fn byte_size_of_array<T>(val: &[T]) -> (r: isize)
    requires
        val@.len() * vstd::layout::size_of::<T>() <= isize::MAX,
    ensures
        r == val@.len() * vstd::layout::size_of::<T>(),
{
    let item = core::mem::size_of::<T>();
    let n = val.len();
    assert(n * item <= isize::MAX);
    (n * item) as isize
}

/// The size in bytes of one value of type `T`, as the graphics API takes it (cut to 32
/// bits, as the cast does).
pub fn size_of<T>() -> (r: i32)
    ensures
        r == vstd::layout::size_of::<T>() as i32,
{
    core::mem::size_of::<T>() as i32
}

} // verus!
