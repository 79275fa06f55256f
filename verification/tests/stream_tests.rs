use lstrs::config::ComputedDetector;
use lstrs::config::Config;
use lstrs::config::Detector;
use lstrs::cube::Cube;
use lstrs::events::LstEvent;
use lstrs::models::ParsingResult;
use lstrs::stream::get_channels_from_buffer;
use lstrs::stream::parse_lst;
use lstrs::stream::LstError;
use lstrs::stream::Position;

fn test_config() -> Config {
    Config::new(
        256,
        512,
        vec![
            ("HE1".to_string(), Detector::new(1, 2048, None)),
            ("HE2".to_string(), Detector::new(2, 2048, None)),
        ],
        vec![
            (
                "S".to_string(),
                ComputedDetector::new(vec!["HE1".to_string(), "HE2".to_string()], None),
            ),
            ("T".to_string(), ComputedDetector::new(vec!["HE1".to_string()], None)),
        ],
        None,
    )
}

fn word(w: u32) -> Vec<u8> {
    w.to_le_bytes().to_vec()
}

fn val16(v: u16) -> Vec<u8> {
    v.to_le_bytes().to_vec()
}

fn stream_input(header: &str, words: &[Vec<u8>]) -> Vec<u8> {
    let mut input: Vec<u8> = header.as_bytes().to_vec();
    for w in words {
        input.extend_from_slice(w);
    }
    input
}

fn cube_total(c: &Cube) -> u64 {
    let (ny, nx, nz) = c.dims();
    let mut total: u64 = 0;
    for y in 0..ny {
        for x in 0..nx {
            for z in 0..nz {
                total += c.get(y, x, z) as u64;
            }
        }
    }
    total
}

fn get_attr<'a>(r: &'a ParsingResult, key: &str) -> Option<&'a str> {
    for (k, v) in r.attributes.iter() {
        if k == key {
            return Some(v.as_str());
        }
    }
    None
}

#[test]
fn test_classifier() {
    assert_eq!(LstEvent::inspect(0xFFFFFFFF), Some(LstEvent::Synchron));
    assert_eq!(LstEvent::inspect(0x40000000), Some(LstEvent::Timer));
    assert_eq!(LstEvent::inspect(0x41000000), None);
    assert_eq!(LstEvent::inspect(0x80000001), Some(LstEvent::Adc(true)));
    assert_eq!(LstEvent::inspect(0x00000001), Some(LstEvent::Adc(false)));
}

#[test]
fn test_single_hit_round_trip() {
    let config = test_config();
    // x := 3, y := 5, then one HE1 hit in channel 42, no dummy word.
    let input = stream_input(
        "Map size:10,10,1,1,1\nExp.Info:proton,3MeV,a,b,c,d,e\n[LISTDATA]\n",
        &[
            word(0x100),
            val16(3),
            word(0x200),
            val16(5),
            word(0x1),
            val16(42),
        ],
    );
    let r = parse_lst(&input, &config).unwrap();

    assert_eq!(r.datasets.len(), 1);
    let d = &r.datasets[0];
    assert_eq!(d.name, "HE1");
    assert_eq!(d.data.dims(), (10, 10, 2048));
    assert_eq!(d.data.get(5, 3, 42), 1);
    assert_eq!(cube_total(&d.data), 1);
    assert_eq!(d.attributes, vec![("filter".to_string(), "b".to_string())]);

    // The computed group S resolved two members, only one of which produced
    // hits: it is still emitted. The single-member group T is suppressed.
    assert_eq!(r.computed_datasets.len(), 1);
    let c = &r.computed_datasets[0];
    assert_eq!(c.name, "HE1+HE2");
    assert_eq!(c.data.dims(), (10, 10, 2048));
    assert_eq!(c.data.get(5, 3, 42), 1);
    assert_eq!(cube_total(&c.data), 1);
    assert_eq!(c.attributes.len(), 2);
    assert_eq!(c.attributes[0], ("he1_filter".to_string(), "b".to_string()));
    assert_eq!(c.attributes[1], ("he2_filter".to_string(), "c".to_string()));

    assert_eq!(get_attr(&r, "particle"), Some("proton"));
    assert_eq!(get_attr(&r, "beam_energy"), Some("3MeV"));
    assert_eq!(get_attr(&r, "map_size_width"), Some("10"));
    assert_eq!(get_attr(&r, "pixel_size_height"), Some("1"));
}

#[test]
fn test_zero_value_deposits_nothing() {
    let config = test_config();
    let input = stream_input(
        "Map size:10,10,1,1,1\n[LISTDATA]\n",
        &[word(0x1), val16(0)],
    );
    let r = parse_lst(&input, &config).unwrap();
    assert_eq!(r.datasets.len(), 0);
    assert_eq!(r.computed_datasets.len(), 0);
}

#[test]
fn test_saturated_channel_value() {
    let config = test_config();
    let input = stream_input(
        "Map size:10,10,1,1,1\n[LISTDATA]\n",
        &[word(0x1), val16(3000)],
    );
    let r = parse_lst(&input, &config).unwrap();
    assert_eq!(r.datasets.len(), 1);
    assert_eq!(r.datasets[0].data.get(0, 0, 2047), 1);
    assert_eq!(cube_total(&r.datasets[0].data), 1);
}

#[test]
fn test_dummy_word_is_skipped() {
    let config = test_config();
    // Bit 31 set: a dummy 16-bit word is inserted before the payload.
    let input = stream_input(
        "Map size:10,10,1,1,1\n[LISTDATA]\n",
        &[word(0x80000001), val16(0xEEEE), val16(7)],
    );
    let r = parse_lst(&input, &config).unwrap();
    assert_eq!(r.datasets.len(), 1);
    assert_eq!(r.datasets[0].data.get(0, 0, 7), 1);
    assert_eq!(cube_total(&r.datasets[0].data), 1);
}

#[test]
fn test_truncated_payload_abandons_hit() {
    let config = test_config();
    // The hit word declares one payload value but only one byte follows.
    let input = stream_input(
        "Map size:10,10,1,1,1\n[LISTDATA]\n",
        &[word(0x1), vec![42u8]],
    );
    let r = parse_lst(&input, &config).unwrap();
    assert_eq!(r.datasets.len(), 0);
}

#[test]
fn test_out_of_range_axis_value_ignored() {
    let config = test_config();
    // x := 3 accepted; a later x value of 10 is at the map extent and must
    // not move the position.
    let input = stream_input(
        "Map size:10,10,1,1,1\n[LISTDATA]\n",
        &[
            word(0x100),
            val16(3),
            word(0x100),
            val16(10),
            word(0x1),
            val16(42),
        ],
    );
    let r = parse_lst(&input, &config).unwrap();
    assert_eq!(r.datasets[0].data.get(0, 3, 42), 1);
    assert_eq!(cube_total(&r.datasets[0].data), 1);
}

#[test]
fn test_axis_order_across_payloads() {
    let config = test_config();
    // The position update lands before the hit in one stream and after it in
    // the other: the deposits differ.
    let a = stream_input(
        "Map size:10,10,1,1,1\n[LISTDATA]\n",
        &[word(0x100), val16(3), word(0x1), val16(42)],
    );
    let b = stream_input(
        "Map size:10,10,1,1,1\n[LISTDATA]\n",
        &[word(0x1), val16(42), word(0x100), val16(3)],
    );
    let ra = parse_lst(&a, &config).unwrap();
    let rb = parse_lst(&b, &config).unwrap();
    assert_eq!(ra.datasets[0].data.get(0, 3, 42), 1);
    assert_eq!(ra.datasets[0].data.get(0, 0, 42), 0);
    assert_eq!(rb.datasets[0].data.get(0, 0, 42), 1);
    assert_eq!(rb.datasets[0].data.get(0, 3, 42), 0);
}

#[test]
fn test_axis_update_within_payload() {
    let config = test_config();
    // One payload carrying both the HE1 hit (bit 0) and an x update
    // (bit 8): values come in ascending bit order, and the deposit lands at
    // the position holding after the whole payload.
    let input = stream_input(
        "Map size:10,10,1,1,1\n[LISTDATA]\n",
        &[word(0x101), val16(42), val16(3)],
    );
    let r = parse_lst(&input, &config).unwrap();
    assert_eq!(r.datasets[0].data.get(0, 3, 42), 1);
    assert_eq!(cube_total(&r.datasets[0].data), 1);
}

#[test]
fn test_timer_accounting() {
    let config = test_config();
    let timers: Vec<Vec<u8>> = (0..1693).map(|_| word(0x40000000)).collect();
    let input = stream_input("Map size:10,10,1,1,1\ntimerreduce=1000\n[LISTDATA]\n", &timers);
    let r = parse_lst(&input, &config).unwrap();
    assert_eq!(get_attr(&r, "acquisition_time"), Some("00:28:13"));
}

#[test]
fn test_synchron_and_ignore_words_skipped() {
    let config = test_config();
    let input = stream_input(
        "Map size:10,10,1,1,1\n[LISTDATA]\n",
        &[word(0xFFFFFFFF), word(0x41000000), word(0x1), val16(9)],
    );
    let r = parse_lst(&input, &config).unwrap();
    assert_eq!(r.datasets.len(), 1);
    assert_eq!(r.datasets[0].data.get(0, 0, 9), 1);
}

#[test]
fn test_header_missing() {
    let config = test_config();
    let input = stream_input("Exp.Info:p,1,a,b,c,d,e\n[LISTDATA]\n", &[word(0x1), val16(3)]);
    assert_eq!(parse_lst(&input, &config).err(), Some(LstError::HeaderMissing));
}

#[test]
fn test_header_invalid_text() {
    let config = test_config();
    let mut input: Vec<u8> = vec![0xFF, 0xFE, b'\n'];
    input.extend_from_slice(b"Map size:10,10,1,1,1\n[LISTDATA]\n");
    assert_eq!(parse_lst(&input, &config).err(), Some(LstError::InvalidHeaderText));
}

#[test]
fn test_map_too_large() {
    let config = test_config();
    let input = stream_input("Map size:4000000000,4000000000,1,1,1\n[LISTDATA]\n", &[]);
    assert_eq!(parse_lst(&input, &config).err(), Some(LstError::MapTooLarge));
}

#[test]
fn test_zero_extent_map() {
    let config = test_config();
    // A zero-width map parses, and an empty stream yields an empty result;
    // a deposit into the zero-extent dataset is an internal error.
    let empty = stream_input("Map size:0,10,1,1,1\n[LISTDATA]\n", &[]);
    let r = parse_lst(&empty, &config).unwrap();
    assert_eq!(r.datasets.len(), 0);

    let hit = stream_input("Map size:0,10,1,1,1\n[LISTDATA]\n", &[word(0x1), val16(3)]);
    assert_eq!(parse_lst(&hit, &config).err(), Some(LstError::Internal));
}

#[test]
fn test_multiple_hits_accumulate() {
    let config = test_config();
    let input = stream_input(
        "Map size:10,10,1,1,1\n[LISTDATA]\n",
        &[
            word(0x1),
            val16(9),
            word(0x1),
            val16(9),
            word(0x2),
            val16(5),
        ],
    );
    let r = parse_lst(&input, &config).unwrap();
    assert_eq!(r.datasets.len(), 2);
    assert_eq!(r.datasets[0].name, "HE1");
    assert_eq!(r.datasets[0].data.get(0, 0, 9), 2);
    assert_eq!(r.datasets[1].name, "HE2");
    assert_eq!(r.datasets[1].data.get(0, 0, 5), 1);
    // The packed total equals the number of emitted pairs.
    assert_eq!(cube_total(&r.datasets[0].data) + cube_total(&r.datasets[1].data), 3);
    // The computed group sums both members into the leading channels.
    assert_eq!(r.computed_datasets.len(), 1);
    let c = &r.computed_datasets[0];
    assert_eq!(c.data.get(0, 0, 9), 2);
    assert_eq!(c.data.get(0, 0, 5), 1);
    assert_eq!(cube_total(&c.data), 3);
}

#[test]
fn test_get_channels_from_buffer() {
    let config = test_config();
    let mut position = Position { x: 0, y: 0 };
    // Bit 0 (HE1) carries channel 42, bit 8 (the x axis) carries 3.
    let channels = get_channels_from_buffer(
        vec![1, 256],
        &[42, 0, 3, 0],
        &config,
        &mut position,
        10,
        10,
    );
    assert_eq!(position, Position { x: 3, y: 0 });
    assert_eq!(channels, vec![("HE1".to_string(), 42)]);

    // HE2's floor starts after HE1's 2048 channels.
    let channels2 = get_channels_from_buffer(
        vec![2],
        &[5, 0],
        &config,
        &mut position,
        10,
        10,
    );
    assert_eq!(channels2, vec![("HE2".to_string(), 2048 + 5)]);
}

#[test]
fn test_error_messages() {
    assert_eq!(LstError::HeaderMissing.message(), "Couldn't read header");
    assert_eq!(
        LstError::MapTooLarge.message(),
        "Map geometry too large for a dataset"
    );
}
