use vstd::prelude::*;

verus! {

/// The kind of feed a report came from.
#[derive(Clone, Copy, Debug, PartialEq, Eq, Structural)]
pub enum TrackingType {
    APRS,
    Iridium,
    SondeHub,
}

/// The name of a kind, as shown and as written to the log.
pub open spec fn kind_name(k: TrackingType) -> Seq<char> {
    match k {
        TrackingType::APRS => seq!['A', 'P', 'R', 'S'],
        TrackingType::Iridium => seq!['I', 'r', 'i', 'd', 'i', 'u', 'm'],
        TrackingType::SondeHub => seq!['S', 'o', 'n', 'd', 'e', 'H', 'u', 'b'],
    }
}

/// The name of a kind as ASCII bytes.
pub open spec fn kind_bytes(k: TrackingType) -> Seq<u8> {
    kind_name(k).map_values(|c: char| c as u8)
}

impl TrackingType {
    /// The name of this kind.
    pub fn to_string(&self) -> (r: String)
        ensures
            r@ == kind_name(*self),
    {
        let r = match self {
            TrackingType::APRS => "APRS",
            TrackingType::Iridium => "Iridium",
            TrackingType::SondeHub => "SondeHub",
        };
        proof {
            reveal_strlit("APRS");
            reveal_strlit("Iridium");
            reveal_strlit("SondeHub");
        }
        String::from_str(r)
    }

    /// The name of this kind as ASCII bytes.
    pub fn name_bytes(&self) -> (r: Vec<u8>)
        ensures
            r@ == kind_bytes(*self),
    {
        let r = match self {
            TrackingType::APRS => vec!['A' as u8, 'P' as u8, 'R' as u8, 'S' as u8],
            TrackingType::Iridium => vec!['I' as u8, 'r' as u8, 'i' as u8, 'd' as u8, 'i' as u8, 'u' as u8, 'm' as u8],
            TrackingType::SondeHub => vec!['S' as u8, 'o' as u8, 'n' as u8, 'd' as u8, 'e' as u8, 'H' as u8, 'u' as u8, 'b' as u8],
        };
        assert(r@ == kind_bytes(*self));
        r
    }
}

} // verus!
