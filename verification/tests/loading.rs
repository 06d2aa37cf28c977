use std::path::Path;

use bevy_sfz::asset::SfzInstrumentAsset;
use bevy_sfz::instrument::{DefaultPath, Group, Region, SfzInstrument};
use bevy_sfz::loader::{AssetPath, LoadPlan, ParseOutcome, SfzAssetLoader, SfzLoaderError};
use bevy_sfz::opcode::{Float32, SfzOpcode, OpcodeMap};
use bevy_sfz::parsed::import;

const PIANO: &str = "<control>
default_path=piano
<group>
lokey=40 hikey=C6 lovel=10
<region>
sample=soft/A#1.wav hivel=63 pitch_keycenter=C4 volume=1.5
<region>
sample=loud/A#1.wav lovel=64 tune=12 pan=25
<group>
<region>
sample=soft/A#1.wav hikey=39 ampeg_release=0.75 seq_position=2
";

fn parse(text: &str, directory: &str) -> sofiza::Instrument {
    sofiza::Instrument::from_sfz(text, Path::new(directory)).unwrap()
}

fn region_with_sample(path: &str) -> Region {
    let mut opcodes = OpcodeMap::new();
    opcodes.insert("sample".to_string(), SfzOpcode::Sample(path.to_string()));
    Region { group: None, opcodes }
}

fn instrument(default_path: &str, samples: &[&str]) -> SfzInstrument {
    SfzInstrument {
        global: OpcodeMap::new(),
        groups: vec![],
        regions: samples.iter().map(|path| region_with_sample(path)).collect(),
        default_path: DefaultPath::Text(default_path.to_string()),
    }
}

fn plan_for(instrument: SfzInstrument) -> LoadPlan {
    LoadPlan::for_instrument(instrument, sofiza::Instrument::new(), "kit".to_string(), false)
}

fn requests(plan: &LoadPlan) -> Vec<(&str, &str)> {
    plan.samples
        .iter()
        .map(|request| match &request.asset_path {
            AssetPath::Text(text) => (request.sample_path.as_str(), text.as_str()),
            AssetPath::BelowDefault => panic!("{}", request.sample_path),
        })
        .collect()
}

fn piano(in_url: bool) -> SfzInstrumentAsset<usize> {
    let outcome = ParseOutcome::Parsed(parse(PIANO, "sfz"));
    let plan = SfzAssetLoader.plan(outcome, "piano".to_string(), in_url).ok().unwrap();
    let handles = (0..plan.samples.len()).collect();
    plan.finish(handles)
}

#[test]
fn import_takes_over_groups_and_regions() {
    let instrument = import(&parse(PIANO, "sfz"));
    assert_eq!(instrument.default_path, DefaultPath::Text("sfz/piano".to_string()));
    assert_eq!(instrument.groups.len(), 2);
    assert_eq!(instrument.groups[0].opcodes.get("lokey"), Some(&SfzOpcode::Lokey(40)));
    assert_eq!(instrument.groups[0].opcodes.get("hikey"), Some(&SfzOpcode::Hikey(84)));
    assert_eq!(instrument.groups[0].opcodes.get("lovel"), Some(&SfzOpcode::Lovel(10)));
    assert_eq!(instrument.groups[1].opcodes.get("lokey"), None);
    let groups: Vec<Option<usize>> = instrument.regions.iter().map(|r| r.group).collect();
    assert_eq!(groups, vec![Some(0), Some(0), Some(1)]);
    let first = &instrument.regions[0].opcodes;
    assert_eq!(first.get("sample"), Some(&SfzOpcode::Sample("soft/A#1.wav".to_string())));
    assert_eq!(first.get("hivel"), Some(&SfzOpcode::Hivel(63)));
    assert_eq!(first.get("pitch_keycenter"), Some(&SfzOpcode::PitchKeycenter(60)));
    assert_eq!(first.get("volume"), Some(&SfzOpcode::Volume(Float32(1.5f32.to_bits()))));
    assert_eq!(first.get("tune"), None);
    let second = &instrument.regions[1].opcodes;
    assert_eq!(second.get("tune"), Some(&SfzOpcode::Tune(12)));
    assert_eq!(second.get("pan"), Some(&SfzOpcode::Pan(Float32(25.0f32.to_bits()))));
    let third = &instrument.regions[2].opcodes;
    assert_eq!(
        third.get("ampeg_release"),
        Some(&SfzOpcode::AmpegRelease(Float32(0.75f32.to_bits())))
    );
    assert_eq!(third.get("seq_position"), None);
}

#[test]
fn import_takes_misplaced_opcodes_for_other() {
    let mut parsed = sofiza::Instrument::new();
    parsed.new_group();
    parsed.groups[0].opcodes.insert("lokey".to_string(), sofiza::Opcode::volume(1.0));
    parsed.new_region();
    parsed.regions[0].opcodes.insert("sample".to_string(), sofiza::Opcode::offset(9));
    parsed.regions[0].opcodes.insert("hikey".to_string(), sofiza::Opcode::lokey(9));
    let instrument = import(&parsed);
    assert_eq!(instrument.default_path, DefaultPath::Text(String::new()));
    let misplaced = SfzOpcode::Volume(Float32(1.0f32.to_bits()));
    assert_eq!(instrument.groups[0].opcodes.get("lokey"), Some(&misplaced));
    assert_eq!(instrument.regions[0].group, Some(0));
    assert_eq!(instrument.regions[0].opcodes.get("sample"), Some(&SfzOpcode::Other));
    assert_eq!(instrument.regions[0].opcodes.get("hikey"), Some(&SfzOpcode::Lokey(9)));
}

#[test]
fn a_parsed_file_plays() {
    let asset = piano(false);
    assert_eq!(asset.name, "piano");
    let indices = |note: u8, velocity: u8| -> Vec<usize> {
        asset
            .regions_with_indices_for_note(note, velocity)
            .iter()
            .map(|(index, _)| *index)
            .collect()
    };
    assert_eq!(indices(60, 30), vec![0]);
    assert_eq!(indices(60, 100), vec![1]);
    assert_eq!(indices(60, 9), Vec::<usize>::new());
    assert_eq!(indices(30, 5), vec![2]);
    assert_eq!(indices(85, 100), Vec::<usize>::new());
    let regions = &asset.instrument.regions;
    assert_eq!(asset.sample_for_region(&regions[0]), Some(&0));
    assert_eq!(asset.sample_for_region(&regions[1]), Some(&1));
    assert_eq!(asset.sample_for_region(&regions[2]), Some(&0));
    assert_eq!(asset.samples.len(), 2);
    assert_eq!(asset.pitch_keycenter_for_region(&regions[0]), 60);
    assert_eq!(asset.tune_for_region(&regions[1]), 12);
    assert_eq!(asset.ampeg_release_for_region(&regions[0]), Float32(0.75f32.to_bits()));
}

const SHARED: &str = "<global>
sample=all.wav hikey=90
<group>
sample=drum.wav lovel=20
<region>
lokey=40
<region>
sample=own.wav
<group>
sample=own.wav
<region>
tune=3
";

#[test]
fn samples_of_groups_and_of_the_instrument_are_loaded() {
    let outcome = ParseOutcome::Parsed(parse(SHARED, "sfz"));
    let plan = SfzAssetLoader.plan(outcome, "shared".to_string(), false).ok().unwrap();
    assert_eq!(
        requests(&plan),
        vec![
            ("own.wav", "sfz/own.wav"),
            ("drum.wav", "sfz/drum.wav"),
            ("all.wav", "sfz/all.wav"),
        ]
    );
    let asset = plan.finish(vec!['o', 'd', 'a']);
    assert_eq!(asset.samples.len(), 3);
    assert_eq!(asset.samples.get("drum.wav"), Some(&'d'));
    assert_eq!(asset.samples.get("all.wav"), Some(&'a'));
    let regions = &asset.instrument.regions;
    assert_eq!(asset.sample_for_region(&regions[0]), None);
    assert_eq!(asset.sample_for_region(&regions[1]), Some(&'o'));
}

#[test]
fn a_sample_that_only_a_group_sets_is_asked_for() {
    let mut opcodes = OpcodeMap::new();
    opcodes.insert("sample".to_string(), SfzOpcode::Sample("g.wav".to_string()));
    let instrument = SfzInstrument {
        global: OpcodeMap::new(),
        groups: vec![Group { opcodes }],
        regions: vec![Region { group: Some(0), opcodes: OpcodeMap::new() }],
        default_path: DefaultPath::Text(String::new()),
    };
    let plan = plan_for(instrument);
    assert_eq!(requests(&plan), vec![("g.wav", "g.wav")]);
    assert_eq!(plan.finish(vec![5]).samples.get("g.wav"), Some(&5));
}

#[test]
fn the_parsed_instrument_is_handed_on() {
    let parsed = parse(PIANO, "sfz");
    let expected = (parsed.default_path.clone(), parsed.groups.clone());
    let plan = SfzAssetLoader.plan(ParseOutcome::Parsed(parsed), "piano".to_string(), false);
    let asset = plan.ok().unwrap().finish(vec![1, 2]);
    assert_eq!((asset.parsed.default_path, asset.parsed.groups), expected);
    assert_eq!(asset.parsed.regions.len(), 3);
    assert_eq!(
        asset.parsed.regions[2].opcodes.get("seq_position"),
        Some(&sofiza::Opcode::seq_position(2))
    );
}

#[test]
fn import_takes_over_the_opcodes_of_the_instrument() {
    let instrument = import(&parse(SHARED, "sfz"));
    assert_eq!(instrument.global.get("hikey"), Some(&SfzOpcode::Hikey(90)));
    let all = SfzOpcode::Sample("all.wav".to_string());
    assert_eq!(instrument.global.get("sample"), Some(&all));
    let drum = SfzOpcode::Sample("drum.wav".to_string());
    assert_eq!(instrument.groups[0].opcodes.get("sample"), Some(&drum));
    assert_eq!(instrument.groups[0].opcodes.get("lovel"), Some(&SfzOpcode::Lovel(20)));
}

#[test]
fn samples_are_asked_for_from_the_default_path() {
    let outcome = ParseOutcome::Parsed(parse(PIANO, "sfz"));
    let plan = SfzAssetLoader.plan(outcome, "piano".to_string(), false).ok().unwrap();
    assert_eq!(
        requests(&plan),
        vec![
            ("soft/A#1.wav", "sfz/piano/soft/A#1.wav"),
            ("loud/A#1.wav", "sfz/piano/loud/A#1.wav"),
        ]
    );
}

#[test]
fn samples_are_asked_for_by_encoded_paths_in_a_browser() {
    let outcome = ParseOutcome::Parsed(parse(PIANO, "sfz"));
    let plan = SfzAssetLoader.plan(outcome, "piano".to_string(), true).ok().unwrap();
    assert_eq!(
        requests(&plan),
        vec![
            ("soft/A#1.wav", "sfz/piano/soft/A%231.wav"),
            ("loud/A#1.wav", "sfz/piano/loud/A%231.wav"),
        ]
    );
    assert_eq!(piano(true).samples.len(), 2);
}

#[test]
fn each_path_is_asked_for_once() {
    let samples = ["a.wav", "kit/b.wav", "a.wav", "kit//b.wav", "./a.wav", "kit/./b.wav"];
    let plan = plan_for(instrument("base", &samples));
    assert_eq!(
        requests(&plan),
        vec![
            ("a.wav", "base/a.wav"),
            ("kit/b.wav", "base/kit/b.wav"),
            ("./a.wav", "base/./a.wav"),
        ]
    );
    let asset = plan.finish(vec!["first", "second", "third"]);
    let handles: Vec<Option<&&str>> =
        asset.instrument.regions.iter().map(|r| asset.sample_for_region(r)).collect();
    assert_eq!(
        handles,
        vec![
            Some(&"first"),
            Some(&"second"),
            Some(&"first"),
            Some(&"second"),
            Some(&"third"),
            Some(&"second"),
        ]
    );
}

#[test]
fn absolute_and_bare_paths() {
    let plan = plan_for(instrument("base/", &["/abs/a.wav", "b.wav"]));
    assert_eq!(requests(&plan), vec![("/abs/a.wav", "/abs/a.wav"), ("b.wav", "base/b.wav")]);
    let bare = plan_for(instrument("", &["b.wav"]));
    assert_eq!(requests(&bare), vec![("b.wav", "b.wav")]);
}

#[test]
fn a_default_path_without_text() {
    let plan = |in_url: bool| {
        let mut instrument = instrument("", &["/abs/a.wav", "b#.wav"]);
        instrument.default_path = DefaultPath::Raw("sf\u{fffd}".to_string());
        let parsed = sofiza::Instrument::new();
        LoadPlan::for_instrument(instrument, parsed, "kit".to_string(), in_url)
    };
    let off: Vec<AssetPath> = plan(false).samples.into_iter().map(|r| r.asset_path).collect();
    assert_eq!(off, vec![AssetPath::Text("/abs/a.wav".to_string()), AssetPath::BelowDefault]);
    let on: Vec<AssetPath> = plan(true).samples.into_iter().map(|r| r.asset_path).collect();
    assert_eq!(
        on,
        vec![
            AssetPath::Text("/abs/a.wav".to_string()),
            AssetPath::Text("sf%EF%BF%BD/b%23.wav".to_string()),
        ]
    );
}

#[test]
fn an_instrument_without_regions_asks_for_nothing() {
    let outcome = ParseOutcome::Parsed(sofiza::Instrument::new());
    let plan = SfzAssetLoader.plan(outcome, "empty".to_string(), false).ok().unwrap();
    assert!(plan.samples.is_empty());
    let asset = plan.finish(Vec::<u8>::new());
    assert_eq!(asset.samples.len(), 0);
    assert!(asset.regions_with_indices_for_note(60, 100).is_empty());
}

#[test]
fn a_parser_that_panics_gives_a_parse_error() {
    let error = SfzAssetLoader.plan(ParseOutcome::Panicked, "x".to_string(), false).err().unwrap();
    assert_eq!(error, SfzLoaderError::Parse("Sofiza library panicked during parsing".to_string()));
    assert_eq!(error.message(), "Failed to parse SFZ: Sofiza library panicked during parsing");
}

#[test]
fn a_parser_that_fails_gives_its_reason() {
    let outcome = ParseOutcome::Failed(format!("{:?}", sofiza::error::Error::Generic));
    let error = SfzAssetLoader.plan(outcome, "x".to_string(), false).err().unwrap();
    assert_eq!(error, SfzLoaderError::Parse("Failed to parse SFZ: Generic".to_string()));
}

#[test]
fn a_parser_that_misses_a_file_reports_the_sample() {
    let missing = std::io::Error::new(std::io::ErrorKind::Other, "No such file: a.wav");
    let outcome = ParseOutcome::Failed(format!("{:?}", sofiza::error::Error::IOError(missing)));
    let error = SfzAssetLoader.plan(outcome, "x".to_string(), false).err().unwrap();
    match error {
        SfzLoaderError::SampleNotFound(text) => {
            assert!(text.starts_with("Sample file not found: IOError("));
            assert!(text.contains("No such file: a.wav"));
        }
        other => panic!("{:?}", other),
    }
}

#[test]
fn failures_by_reason() {
    let sample = |text: &str| SfzLoaderError::SampleNotFound(text.to_string());
    let parse = |text: &str| SfzLoaderError::Parse(text.to_string());
    assert_eq!(
        SfzLoaderError::from_parse_failure("No such file or directory"),
        sample("Sample file not found: No such file or directory")
    );
    assert_eq!(
        SfzLoaderError::from_parse_failure("it cannot find"),
        sample("Sample file not found: it cannot find")
    );
    assert_eq!(
        SfzLoaderError::from_parse_failure("no such file"),
        parse("Failed to parse SFZ: no such file")
    );
    assert_eq!(SfzLoaderError::from_parse_failure(""), parse("Failed to parse SFZ: "));
}

#[test]
fn messages() {
    let io = SfzLoaderError::Io("disk on fire".to_string());
    assert_eq!(io.message(), "Failed to read SFZ file: disk on fire");
    let missing = SfzLoaderError::SampleNotFound("a.wav".to_string());
    assert_eq!(missing.message(), "Sample file not found: a.wav");
}

#[test]
fn directory_and_name_of_a_file() {
    let loader = SfzAssetLoader::default();
    assert_eq!(loader.base_directory("examples/sfz/piano.sfz"), "examples/sfz");
    assert_eq!(loader.base_directory("piano.sfz"), "");
    assert_eq!(loader.base_directory("/"), "");
    let name = loader.instrument_name(Some("examples/sfz/piano_velocity_layers.sfz"));
    assert_eq!(name, "piano_velocity_layers");
    assert_eq!(loader.instrument_name(Some("sfz/..")), "Unknown SFZ Instrument");
    assert_eq!(loader.instrument_name(None), "Unknown SFZ Instrument");
}

#[test]
fn the_loader_is_for_sfz_files() {
    let expected: &[&str] = &["sfz"];
    assert_eq!(SfzAssetLoader.extensions(), expected);
}
