use lstrs::cube::Cube;
use lstrs::models::ExpInfo;
use lstrs::models::LSTData;
use lstrs::models::LSTHeader;
use lstrs::models::MapSize;
use lstrs::models::ParsingResult;

#[test]
fn test_mapsize_parse() {
    let ms = MapSize::parse("Map size:10,20,1,2,3").unwrap();
    assert_eq!(ms.width, 10);
    assert_eq!(ms.height, 20);
    assert_eq!(ms.pixel_size_width, 1);
    assert_eq!(ms.pixel_size_height, 2);
    assert_eq!(ms.pen_size, 3);

    // Missing or unparsable fields read as zero.
    let ms2 = MapSize::parse("Map size:40,60").unwrap();
    assert_eq!(ms2.width, 40);
    assert_eq!(ms2.height, 60);
    assert_eq!(ms2.pixel_size_width, 0);
    assert_eq!(ms2.pen_size, 0);

    // Only the text after the last colon counts, and a space makes a field
    // unparsable.
    let ms3 = MapSize::parse("cmline1= Map size: 10,20,1,2,3").unwrap();
    assert_eq!(ms3.width, 0);
}

#[test]
fn test_mapsize_max_dims() {
    let ms = MapSize {
        width: 10,
        height: 5,
        pixel_size_width: 1,
        pixel_size_height: 2,
        pen_size: 0,
    };
    assert_eq!(ms.get_max_x(), 10);
    // 5 / 2 rounds half away from zero to 3.
    assert_eq!(ms.get_max_y(), 3);
    assert!(!ms.is_empty());

    let empty = MapSize {
        width: 0,
        height: 0,
        pixel_size_width: 0,
        pixel_size_height: 0,
        pen_size: 0,
    };
    assert!(empty.is_empty());
    assert_eq!(empty.get_max_x(), 0);
}

#[test]
fn test_expinfo_parse() {
    let e = ExpInfo::parse("Exp.Info:proton,3MeV,a,b,c,d,e").unwrap();
    assert_eq!(e.particle, "proton");
    assert_eq!(e.beam_energy, "3MeV");
    assert_eq!(e.le0_filter, "a");
    assert_eq!(e.he1_filter, "b");
    assert_eq!(e.he4_filter, "e");

    assert_eq!(e.get_filter_for_detector("LE0"), Some("a".to_string()));
    assert_eq!(e.get_filter_for_detector("HE3"), Some("d".to_string()));
    assert_eq!(e.get_filter_for_detector("RBS"), None);
}

#[test]
fn test_header_parse_line() {
    let mut h = LSTHeader::new();
    h.parse_line("cmline2= Prj-AGLAE: myproject");
    assert_eq!(h.aglae_project_name, Some(" myproject".to_string()));

    h.parse_line("cmline11= Obj-Euphrosyne: vase");
    assert_eq!(h.euphrosyne_object_name, Some(" vase".to_string()));

    h.parse_line("cmline1= Map size:10,20,1,2,3");
    assert_eq!(h.map_size.width, 10);
    assert_eq!(h.map_size.pen_size, 3);

    // No cmline directive: nothing changes.
    h.parse_line("Map size:99,99,9,9,9");
    assert_eq!(h.map_size.width, 10);

    // An unknown command: nothing changes.
    h.parse_line("cmline3= Something else: value");
    assert_eq!(h.map_size.width, 10);
    assert_eq!(h.run_name, None);
}

#[test]
fn test_get_dataset() {
    let r = ParsingResult {
        datasets: vec![
            LSTData { name: "HE1".to_string(), attributes: vec![], data: Cube::zeros(1, 1, 4) },
            LSTData { name: "RBS".to_string(), attributes: vec![], data: Cube::zeros(1, 1, 2) },
        ],
        computed_datasets: vec![],
        attributes: vec![],
    };
    assert_eq!(r.get_dataset("RBS").unwrap().data.dims(), (1, 1, 2));
    assert_eq!(r.get_dataset("HE1").unwrap().name, "HE1");
    assert!(r.get_dataset("LE0").is_none());
}

#[test]
fn test_add_attr() {
    let mut r = ParsingResult {
        datasets: vec![],
        computed_datasets: vec![],
        attributes: vec![],
    };
    r.add_attr("particle".to_string(), "proton".to_string());
    r.add_attr("beam_energy".to_string(), "3MeV".to_string());
    assert_eq!(r.attributes.len(), 2);
    assert_eq!(r.attributes[0], ("particle".to_string(), "proton".to_string()));

    r.add_attr("particle".to_string(), "alpha".to_string());
    assert_eq!(r.attributes.len(), 2);
    assert_eq!(r.attributes[0], ("particle".to_string(), "alpha".to_string()));
}
