use lstrs::config::ComputedDetector;
use lstrs::config::Config;
use lstrs::config::Detector;

fn default_detectors() -> Vec<(String, Detector)> {
    // Catalog order is the contract: lexicographic by name, as an ordered map
    // would iterate it.
    vec![
        ("GAMMA".to_string(), Detector::new(32, 4096, None)),
        ("GAMMA_20".to_string(), Detector::new(1024, 4096, None)),
        ("HE1".to_string(), Detector::new(1, 2048, None)),
        ("HE2".to_string(), Detector::new(2, 2048, None)),
        ("HE3".to_string(), Detector::new(4, 2048, None)),
        ("HE4".to_string(), Detector::new(8, 2048, None)),
        ("LE0".to_string(), Detector::new(16, 2048, None)),
        ("RBS".to_string(), Detector::new(64, 512, None)),
    ]
}

fn default_computed_detectors() -> Vec<(String, ComputedDetector)> {
    vec![
        (
            "HE10".to_string(),
            ComputedDetector::new(
                vec![
                    "HE1".to_string(),
                    "HE2".to_string(),
                    "HE3".to_string(),
                    "HE4".to_string(),
                ],
                Some("x10".to_string()),
            ),
        ),
        (
            "HE11".to_string(),
            ComputedDetector::new(vec!["HE1".to_string(), "HE2".to_string()], Some("x11".to_string())),
        ),
        (
            "HE12".to_string(),
            ComputedDetector::new(vec!["HE3".to_string(), "HE4".to_string()], Some("x12".to_string())),
        ),
        (
            "HE13".to_string(),
            ComputedDetector::new(
                vec!["HE1".to_string(), "HE2".to_string(), "HE3".to_string()],
                Some("x13".to_string()),
            ),
        ),
    ]
}

fn default_config() -> Config {
    Config::new(256, 512, default_detectors(), default_computed_detectors(), None)
}

#[test]
fn test_config_adcs() {
    let default = default_config();

    assert_eq!(default.adcs, &[1, 2, 4, 8, 16, 32, 64, 256, 512, 1024]);
}

#[test]
fn test_adc_exists() {
    let default = default_config();

    let mut adc = default.adc_exists(1);
    assert_eq!(adc, true);

    adc = default.adc_exists(2);
    assert_eq!(adc, true);

    adc = default.adc_exists(16);
    assert_eq!(adc, true);

    adc = default.adc_exists(1024);
    assert_eq!(adc, true);

    adc = default.adc_exists(12);
    assert_eq!(adc, false);

    adc = default.adc_exists(88);
    assert_eq!(adc, false)
}

#[test]
fn test_create_big_dataset() {
    let default = default_config();
    let dataset = default.create_big_dataset(40, 60);

    assert_eq!(dataset.dims(), (60, 40, 18944))
}

#[test]
fn test_get_floor_for_detector_name() {
    let default = default_config();

    let mut floor: u32 = 0;
    for (index, (name, _detector)) in default.detectors.iter().enumerate() {
        let new_floor = default.get_floor_for_detector_name(name);
        if index == 0 {
            assert_eq!(new_floor, 0);
        } else {
            let (_name, previous_detector) = &default.detectors[index - 1];
            assert_eq!(new_floor, floor + previous_detector.channels);
        }
        floor = new_floor;
    }
}

#[test]
fn test_floor_values() {
    let default = default_config();

    assert_eq!(default.get_floor_for_detector_name(&"GAMMA".to_string()), 0);
    assert_eq!(default.get_floor_for_detector_name(&"HE1".to_string()), 8192);
    assert_eq!(default.get_floor_for_detector_name(&"RBS".to_string()), 18432);
    assert_eq!(default.total_packed_channels(), 18944);
}

#[test]
fn test_get_max_channels_for_computed_detector() {
    let default = default_config();

    assert_eq!(
        default.get_max_channels_for_computed_detector(&"HE10".to_string()),
        2048
    );
}

#[test]
fn test_get_detector_and_floor_for_adc() {
    let default = default_config();

    let (name, detector, floor) = default.get_detector_and_floor_for_adc(1).unwrap();
    assert_eq!(name, "HE1");
    assert_eq!(detector.channels, 2048);
    assert_eq!(floor, 8192);

    assert!(default.get_detector_and_floor_for_adc(3).is_none());

    let (name2, _detector2) = default.get_detector_name_from_adc(64).unwrap();
    assert_eq!(name2, "RBS");
}
