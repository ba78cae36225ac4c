use vstd::prelude::*;

verus! {

/// The signed wavenumber at position `x` of an FFT output of `n` points: positions
/// below `n / 2` hold the non-negative frequencies, the others `x - n`.
pub open spec fn wavenumber_spec(x: int, n: int) -> int {
    if x < n / 2 {
        x
    } else {
        x - n
    }
}

/// The signed wavenumber at position `x` of an axis of `n` points.
pub fn wavenumber(x: usize, n: usize) -> (k: isize)
    requires
        x < n,
        n <= isize::MAX,
    ensures
        k == wavenumber_spec(x as int, n as int),
        -(n as int) / 2 <= k < n,
{
    if x < n / 2 {
        x as isize
    } else {
        (x as isize) - (n as isize)
    }
}

/// The two-thirds rule: a wavenumber `k` of an axis of `n` points is cut off when
/// `|k| > n / 3`.
pub open spec fn beyond_two_thirds_spec(k: int, n: int) -> bool {
    3 * (if k < 0 { -k } else { k }) > n
}

/// Whether the wavenumber `k` of an axis of `n` points lies beyond the two-thirds
/// cut-off, `|k| > n / 3`, and is removed by de-aliasing. (The same comparison
/// made in binary32 arithmetic agrees with it on every axis of fewer than
/// `2^22` points.)
pub fn beyond_two_thirds(k: isize, n: usize) -> (cut: bool)
    requires
        n <= isize::MAX,
        k > isize::MIN,
    ensures
        cut == beyond_two_thirds_spec(k as int, n as int),
{
    let a: u128 = if k < 0 { (-k) as u128 } else { k as u128 };
    3 * a > n as u128
}

/// Whether the mode at column `x` and row `y` of an `nx` by `ny` spectrum is removed
/// by the two-thirds de-aliasing rule along either axis.
pub fn dealias_mask(x: usize, y: usize, nx: usize, ny: usize) -> (cut: bool)
    requires
        x < nx,
        y < ny,
        nx <= isize::MAX,
        ny <= isize::MAX,
    ensures
        cut == (beyond_two_thirds_spec(wavenumber_spec(x as int, nx as int), nx as int)
            || beyond_two_thirds_spec(wavenumber_spec(y as int, ny as int), ny as int)),
{
    let kx = wavenumber(x, nx);
    let ky = wavenumber(y, ny);
    beyond_two_thirds(kx, nx) || beyond_two_thirds(ky, ny)
}

} // verus!
