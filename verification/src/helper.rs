use vstd::prelude::*;

verus! {

/// Overflow-checked increment: add `delta` to `*dst`, or return the
/// caller-supplied error value if the sum would not fit in a `usize`.
/// On the error path `*dst` is left unchanged.
pub fn safe_add<E>(dst: &mut usize, delta: usize, err: E) -> (r: Result<(), E>)
    ensures
        match r {
            Ok(()) => old(dst) + delta <= usize::MAX && *final(dst) == old(dst) + delta,
            Err(e) => old(dst) + delta > usize::MAX && *final(dst) == *old(dst) && e == err,
        },
{
    if *dst <= usize::MAX - delta {
        *dst = *dst + delta;
        Ok(())
    } else {
        Err(err)
    }
}

} // verus!
