use harp_tracker::tracking_type::TrackingType;

#[test]
fn kind_names() {
    assert_eq!(TrackingType::APRS.to_string(), "APRS");
    assert_eq!(TrackingType::Iridium.to_string(), "Iridium");
    assert_eq!(TrackingType::SondeHub.to_string(), "SondeHub");
    assert_eq!(TrackingType::Iridium.name_bytes(), b"Iridium".to_vec());
}
