use vstd::prelude::*;

verus! {

/// A position as shown: latitude and longitude in millionths of a degree,
/// rounded to a thousandth of a degree, and altitude in hundredths of a
/// metre.
#[derive(Clone, Copy, Debug, PartialEq, Eq, Structural)]
pub struct Coords {
    pub lat: i64,
    pub long: i64,
    pub alt: i64,
}

/// `v` rounded to the nearest multiple of `step`, halves away from zero.
pub open spec fn round_to(v: int, step: int) -> int {
    if v >= 0 {
        ((v + step / 2) / step) * step
    } else {
        -(((-v + step / 2) / step) * step)
    }
}

/// Whether `v` rounded to a thousandth of a degree fits in `i64`.
pub fn rounding_fits(v: i64) -> (r: bool)
    ensures
        r == (i64::MIN <= round_to(v as int, 1000) <= i64::MAX),
{
    let m: i128 = if v >= 0 {
        v as i128
    } else {
        -(v as i128)
    };
    let q = (m + 500) / 1000 * 1000;
    let r: i128 = if v >= 0 {
        q
    } else {
        -q
    };
    i64::MIN as i128 <= r && r <= i64::MAX as i128
}

/// Millionths of a degree rounded to a thousandth of a degree.
pub fn round_degrees(v: i64) -> (r: i64)
    requires
        i64::MIN <= round_to(v as int, 1000) <= i64::MAX,
    ensures
        r == round_to(v as int, 1000),
{
    let m: i128 = if v >= 0 {
        v as i128
    } else {
        -(v as i128)
    };
    let q = (m + 500) / 1000 * 1000;
    let r: i128 = if v >= 0 {
        q
    } else {
        -q
    };
    r as i64
}

impl Coords {
    pub fn new() -> (r: Coords)
        ensures
            r == (Coords { lat: 0, long: 0, alt: 0 }),
    {
        Coords { lat: 0, long: 0, alt: 0 }
    }

    /// Stores a position, rounded to a thousandth of a degree. Altitude is
    /// already finer than a thousandth of a metre needs and is kept.
    pub fn update(&mut self, pos: (i64, i64, i64))
        requires
            i64::MIN <= round_to(pos.0 as int, 1000) <= i64::MAX,
            i64::MIN <= round_to(pos.1 as int, 1000) <= i64::MAX,
        ensures
            final(self).lat == round_to(pos.0 as int, 1000),
            final(self).long == round_to(pos.1 as int, 1000),
            final(self).alt == pos.2,
    {
        self.lat = round_degrees(pos.0);
        self.long = round_degrees(pos.1);
        self.alt = pos.2;
    }
}

} // verus!
