use bevy_sfz::asset::{SampleMap, SfzInstrumentAsset};
use bevy_sfz::instrument::{DefaultPath, Group, Region, SfzInstrument};
use bevy_sfz::opcode::{Bound, Float32, SfzOpcode, OpcodeMap};

fn opcodes(entries: &[(&str, SfzOpcode)]) -> OpcodeMap {
    let mut map = OpcodeMap::new();
    for (name, opcode) in entries {
        map.insert(name.to_string(), opcode.clone());
    }
    map
}

fn region(group: Option<usize>, entries: &[(&str, SfzOpcode)]) -> Region {
    Region { group, opcodes: opcodes(entries) }
}

fn asset(groups: Vec<Group>, regions: Vec<Region>) -> SfzInstrumentAsset<u32> {
    SfzInstrumentAsset {
        instrument: SfzInstrument {
            global: OpcodeMap::new(),
            groups,
            regions,
            default_path: DefaultPath::Text(String::new()),
        },
        parsed: sofiza::Instrument::new(),
        samples: SampleMap::new(),
        name: "test".to_string(),
    }
}

fn number(value: f32) -> Float32 {
    Float32(value.to_bits())
}

fn indices(asset: &SfzInstrumentAsset<u32>, midi_note: u8, velocity: u8) -> Vec<usize> {
    let found = asset.regions_with_indices_for_note(midi_note, velocity);
    found
        .iter()
        .map(|(index, region)| {
            assert!(std::ptr::eq(*region, &asset.instrument.regions[*index]));
            *index
        })
        .collect()
}

#[test]
fn region_without_bounds_triggers_for_all_midi_values() {
    let asset = asset(vec![], vec![region(None, &[])]);
    assert_eq!(indices(&asset, 0, 0), vec![0]);
    assert_eq!(indices(&asset, 127, 127), vec![0]);
    assert_eq!(indices(&asset, 128, 64), Vec::<usize>::new());
    assert_eq!(indices(&asset, 64, 128), Vec::<usize>::new());
}

#[test]
fn bounds_are_inclusive() {
    let only = region(
        None,
        &[
            ("lokey", SfzOpcode::Lokey(40)),
            ("hikey", SfzOpcode::Hikey(50)),
            ("lovel", SfzOpcode::Lovel(20)),
            ("hivel", SfzOpcode::Hivel(30)),
        ],
    );
    let asset = asset(vec![], vec![only]);
    let region = &asset.instrument.regions[0];
    assert!(asset.region_matches_note(region, 40, 20));
    assert!(asset.region_matches_note(region, 50, 30));
    assert!(!asset.region_matches_note(region, 39, 25));
    assert!(!asset.region_matches_note(region, 51, 25));
    assert!(!asset.region_matches_note(region, 45, 19));
    assert!(!asset.region_matches_note(region, 45, 31));
}

#[test]
fn bounds_above_the_midi_range_are_taken_as_they_are() {
    let asset = asset(vec![], vec![region(None, &[("hikey", SfzOpcode::Hikey(200))])]);
    assert_eq!(indices(&asset, 200, 1), vec![0]);
    assert_eq!(indices(&asset, 201, 1), Vec::<usize>::new());
}

#[test]
fn velocity_layers_come_in_the_order_of_the_file() {
    let asset = asset(
        vec![],
        vec![
            region(None, &[("hivel", SfzOpcode::Hivel(63))]),
            region(None, &[("lovel", SfzOpcode::Lovel(64))]),
            region(None, &[("lokey", SfzOpcode::Lokey(60))]),
        ],
    );
    assert_eq!(indices(&asset, 72, 63), vec![0, 2]);
    assert_eq!(indices(&asset, 72, 64), vec![1, 2]);
    assert_eq!(indices(&asset, 59, 127), vec![1]);
}

#[test]
fn group_bounds_hold_unless_the_region_sets_its_own() {
    let group = Group {
        opcodes: opcodes(&[("lokey", SfzOpcode::Lokey(60)), ("hikey", SfzOpcode::Hikey(70))]),
    };
    let asset = asset(
        vec![group],
        vec![
            region(Some(0), &[]),
            region(Some(0), &[("lokey", SfzOpcode::Lokey(30))]),
            region(Some(7), &[]),
            region(None, &[]),
        ],
    );
    assert_eq!(indices(&asset, 65, 1), vec![0, 1, 2, 3]);
    assert_eq!(indices(&asset, 40, 1), vec![1, 2, 3]);
    assert_eq!(indices(&asset, 71, 1), vec![2, 3]);
}

#[test]
fn an_opcode_under_the_name_of_another_sets_nothing() {
    let group = Group { opcodes: opcodes(&[("lokey", SfzOpcode::Lokey(60))]) };
    let asset = asset(
        vec![group],
        vec![region(Some(0), &[("lokey", SfzOpcode::Hikey(90)), ("tune", SfzOpcode::Lokey(3))])],
    );
    assert_eq!(indices(&asset, 59, 1), Vec::<usize>::new());
    assert_eq!(indices(&asset, 60, 1), vec![0]);
    assert_eq!(asset.tune_for_region(&asset.instrument.regions[0]), 0);
}

#[test]
fn settings_have_defaults() {
    let asset = asset(vec![], vec![region(None, &[])]);
    let region = &asset.instrument.regions[0];
    assert_eq!(asset.pitch_keycenter_for_region(region), 60);
    assert_eq!(asset.volume_for_region(region), number(0.0));
    assert_eq!(asset.pan_for_region(region), number(0.0));
    assert_eq!(asset.tune_for_region(region), 0);
    assert_eq!(asset.ampeg_release_for_region(region), number(0.3));
    assert_eq!(asset.sample_for_region(region), None);
}

#[test]
fn settings_come_from_the_region() {
    let asset = asset(
        vec![],
        vec![region(
            None,
            &[
                ("pitch_keycenter", SfzOpcode::PitchKeycenter(48)),
                ("volume", SfzOpcode::Volume(number(-6.5))),
                ("pan", SfzOpcode::Pan(number(25.0))),
                ("tune", SfzOpcode::Tune(-7)),
                ("ampeg_release", SfzOpcode::AmpegRelease(number(1.5))),
            ],
        )],
    );
    let region = &asset.instrument.regions[0];
    assert_eq!(asset.pitch_keycenter_for_region(region), 48);
    assert_eq!(asset.volume_for_region(region), number(-6.5));
    assert_eq!(asset.pan_for_region(region), number(25.0));
    assert_eq!(asset.tune_for_region(region), -7);
    assert_eq!(asset.ampeg_release_for_region(region), number(1.5));
}

#[test]
fn settings_do_not_come_from_the_group() {
    let group = Group {
        opcodes: opcodes(&[
            ("pitch_keycenter", SfzOpcode::PitchKeycenter(48)),
            ("ampeg_release", SfzOpcode::AmpegRelease(number(1.5))),
        ]),
    };
    let asset = asset(vec![group], vec![region(Some(0), &[])]);
    let region = &asset.instrument.regions[0];
    assert_eq!(asset.pitch_keycenter_for_region(region), 60);
    assert_eq!(asset.ampeg_release_for_region(region), number(0.3));
}

#[test]
fn release_is_shared_from_the_first_region_that_sets_one() {
    let asset = asset(
        vec![],
        vec![
            region(None, &[]),
            region(None, &[("ampeg_release", SfzOpcode::AmpegRelease(number(2.0)))]),
            region(None, &[("ampeg_release", SfzOpcode::AmpegRelease(number(4.0)))]),
        ],
    );
    let regions = &asset.instrument.regions;
    assert_eq!(asset.ampeg_release_for_region(&regions[0]), number(2.0));
    assert_eq!(asset.ampeg_release_for_region(&regions[1]), number(2.0));
    assert_eq!(asset.ampeg_release_for_region(&regions[2]), number(4.0));
}

#[test]
fn samples_are_found_by_path() {
    let mut asset = asset(
        vec![],
        vec![
            region(None, &[("sample", SfzOpcode::Sample("kit/snare.wav".to_string()))]),
            region(None, &[("sample", SfzOpcode::Sample("kit//./snare.wav".to_string()))]),
            region(None, &[("sample", SfzOpcode::Sample("snare.wav".to_string()))]),
            region(None, &[("sample", SfzOpcode::Other)]),
        ],
    );
    asset.samples.insert("kit/snare.wav", 7);
    assert_eq!(asset.samples.len(), 1);
    let regions = &asset.instrument.regions;
    assert_eq!(asset.sample_for_region(&regions[0]), Some(&7));
    assert_eq!(asset.sample_for_region(&regions[1]), Some(&7));
    assert_eq!(asset.sample_for_region(&regions[2]), None);
    assert_eq!(asset.sample_for_region(&regions[3]), None);
}

#[test]
fn opcode_maps_keep_the_last_entry() {
    let map = opcodes(&[("tune", SfzOpcode::Tune(1)), ("tune", SfzOpcode::Tune(2))]);
    assert_eq!(map.get("tune"), Some(&SfzOpcode::Tune(2)));
    assert_eq!(map.get("volume"), None);
}

#[test]
fn bounds_by_name() {
    assert_eq!(Bound::Lokey.name(), "lokey");
    assert_eq!(Bound::Hivel.default_value(), 127);
    assert_eq!(Bound::Lovel.value_in(&opcodes(&[("lovel", SfzOpcode::Lovel(9))])), Some(9));
    assert_eq!(Bound::Lovel.value_in(&opcodes(&[("lovel", SfzOpcode::Hivel(9))])), None);
}

#[test]
fn opcodes_of_the_whole_instrument_change_no_answer() {
    let mut asset = asset(vec![], vec![region(None, &[])]);
    asset.instrument.global = opcodes(&[
        ("hikey", SfzOpcode::Hikey(50)),
        ("ampeg_release", SfzOpcode::AmpegRelease(number(1.5))),
    ]);
    assert_eq!(indices(&asset, 60, 100), vec![0]);
    let region = &asset.instrument.regions[0];
    assert_eq!(asset.ampeg_release_for_region(region), number(0.3));
}

#[test]
fn pan_is_given_as_it_is_set() {
    let asset = asset(vec![], vec![region(None, &[("pan", SfzOpcode::Pan(number(250.0)))])]);
    assert_eq!(asset.pan_for_region(&asset.instrument.regions[0]), number(250.0));
}
