//! Instruments as the `sofiza` parser hands them out, and what is taken over from them.
//!
//! `sofiza` keeps the opcodes of a region, of a group and of the whole instrument in
//! hash maps from names to values of its own `Opcode`, which tells some six hundred
//! settings apart. The library asks for ten of them; [`import`] takes these over.

use std::collections::HashMap;

use sofiza::Opcode as Sfz;
use vstd::prelude::*;

use crate::asset::{
    ampeg_release_of, effective_bound, first_ampeg_release, pan_of, pitch_keycenter_of, sample_of, triggered,
    triggered_below, triggers, tune_of, volume_of,
};
use crate::instrument::{
    DefaultPath, DefaultPathView, Group, Region, RegionView, SfzInstrument, SfzInstrumentView,
};
use crate::opcode::{named, Bound, Float32, SfzOpcode, OpcodeMap, OpcodeView};

verus! {

/// An instrument as `sofiza` parsed it.
#[verifier::external_type_specification]
#[verifier::external_body]
pub struct ExParsedInstrument(sofiza::Instrument);

/// A setting as `sofiza` parsed it.
#[verifier::external_type_specification]
#[verifier::external_body]
pub struct ExParsedOpcode(sofiza::Opcode);

/// The opcodes that `opcodes` holds, by name: each with its value where [`OpcodeView`]
/// tells its setting apart, and `Other` where it does not.
pub uninterp spec fn parsed_opcodes(opcodes: HashMap<String, sofiza::Opcode>) -> Map<
    Seq<char>,
    OpcodeView,
>;

/// The opcodes of the whole instrument that `parsed` holds.
pub uninterp spec fn parsed_global(parsed: sofiza::Instrument) -> Map<Seq<char>, OpcodeView>;

/// The regions that `parsed` holds, in order, each with the group that it belongs to
/// and with its opcodes by name.
pub uninterp spec fn parsed_regions(parsed: sofiza::Instrument) -> Seq<RegionView>;

/// The groups that `parsed` holds, in order, each as its opcodes by name.
pub uninterp spec fn parsed_groups(parsed: sofiza::Instrument) -> Seq<Map<Seq<char>, OpcodeView>>;

/// The default path of `parsed`: its text where it is Unicode, and none where it is not.
pub uninterp spec fn parsed_default_path(parsed: sofiza::Instrument) -> Option<Seq<char>>;

/// The text of the default path of `parsed`, with replacement characters for what is not
/// Unicode.
pub uninterp spec fn parsed_lossy_default_path(parsed: sofiza::Instrument) -> Seq<char>;

/// Calls `sofiza::Instrument::regions`, which returns the length of the list of
/// regions: that many regions are there.
#[verifier::external_body]
fn region_count(parsed: &sofiza::Instrument) -> (count: usize)
    ensures
        count == parsed_regions(*parsed).len(),
{
    parsed.regions()
}

/// Calls `sofiza::Instrument::groups`, which returns the length of the list of groups:
/// that many groups are there.
#[verifier::external_body]
fn group_count(parsed: &sofiza::Instrument) -> (count: usize)
    ensures
        count == parsed_groups(*parsed).len(),
{
    parsed.groups()
}

/// Calls `sofiza::Region::group` on a region of the list, which returns the index of
/// the group that the region belongs to, if it belongs to one.
#[verifier::external_body]
fn region_group(parsed: &sofiza::Instrument, region: usize) -> (group: Option<usize>)
    requires
        region < parsed_regions(*parsed).len(),
    ensures
        group == parsed_regions(*parsed)[region as int].group,
{
    parsed.regions[region].group()
}

/// Reads the field `opcodes` of a region of the list: the hash map of its opcodes.
#[verifier::external_body]
fn region_opcodes(parsed: &sofiza::Instrument, region: usize) -> (opcodes: &HashMap<
    String,
    sofiza::Opcode,
>)
    requires
        region < parsed_regions(*parsed).len(),
    ensures
        parsed_opcodes(*opcodes) == parsed_regions(*parsed)[region as int].opcodes,
{
    &parsed.regions[region].opcodes
}

/// Reads the field `opcodes` of a group of the list: the hash map of its opcodes.
#[verifier::external_body]
fn group_opcodes(parsed: &sofiza::Instrument, group: usize) -> (opcodes: &HashMap<
    String,
    sofiza::Opcode,
>)
    requires
        group < parsed_groups(*parsed).len(),
    ensures
        parsed_opcodes(*opcodes) == parsed_groups(*parsed)[group as int],
{
    &parsed.groups[group].opcodes
}

/// Reads the field `global` of a parsed instrument: the hash map of the opcodes of the
/// instrument as a whole.
#[verifier::external_body]
fn global_opcodes(parsed: &sofiza::Instrument) -> (opcodes: &HashMap<String, sofiza::Opcode>)
    ensures
        parsed_opcodes(*opcodes) == parsed_global(*parsed),
{
    &parsed.global
}

/// Looks a name up in a hash map of `sofiza` opcodes, and gives what stands there as an
/// [`SfzOpcode`]: of the same setting with the same value, a number by its bits and a path
/// by its text, and [`SfzOpcode::Other`] for the settings that [`SfzOpcode`] does not tell
/// apart. A path that is not Unicode has no text of its own: it is given with
/// replacement characters. The parser makes the paths of samples out of text.
#[verifier::external_body]
fn opcode_in(opcodes: &HashMap<String, sofiza::Opcode>, name: &str) -> (found: Option<SfzOpcode>)
    ensures
        match found {
            Some(opcode) => parsed_opcodes(*opcodes).contains_key(name@) && parsed_opcodes(
                *opcodes,
            )[name@] == opcode@,
            None => !parsed_opcodes(*opcodes).contains_key(name@),
        },
{
    Some(match *opcodes.get(name)? {
        Sfz::lokey(v) => SfzOpcode::Lokey(v),
        Sfz::hikey(v) => SfzOpcode::Hikey(v),
        Sfz::lovel(v) => SfzOpcode::Lovel(v),
        Sfz::hivel(v) => SfzOpcode::Hivel(v),
        Sfz::sample(ref v) => SfzOpcode::Sample(v.to_string_lossy().into_owned()),
        Sfz::pitch_keycenter(v) => SfzOpcode::PitchKeycenter(v),
        Sfz::volume(v) => SfzOpcode::Volume(Float32(v.to_bits())),
        Sfz::pan(v) => SfzOpcode::Pan(Float32(v.to_bits())),
        Sfz::tune(v) => SfzOpcode::Tune(v),
        Sfz::ampeg_release(v) => SfzOpcode::AmpegRelease(Float32(v.to_bits())),
        _ => SfzOpcode::Other,
    })
}

/// Reads the field `default_path` of a parsed instrument and calls `Path::to_str`, which
/// gives its text where it is Unicode, and nothing where it is not.
#[verifier::external_body]
fn default_path_text(parsed: &sofiza::Instrument) -> (path: Option<String>)
    ensures
        match path {
            Some(text) => parsed_default_path(*parsed) == Some(text@),
            None => parsed_default_path(*parsed) is None,
        },
{
    parsed.default_path.to_str().map(str::to_owned)
}

/// Reads the field `default_path` of a parsed instrument and calls
/// `Path::to_string_lossy`, which gives its text with replacement characters for what is
/// not Unicode.
#[verifier::external_body]
fn lossy_default_path(parsed: &sofiza::Instrument) -> (path: String)
    ensures
        path@ == parsed_lossy_default_path(*parsed),
{
    parsed.default_path.to_string_lossy().into_owned()
}

/// The default path of `parsed`, as an [`SfzInstrument`] has it.
pub open spec fn parsed_default(parsed: sofiza::Instrument) -> DefaultPathView {
    match parsed_default_path(parsed) {
        Some(text) => DefaultPathView::Text(text),
        None => DefaultPathView::Raw(parsed_lossy_default_path(parsed)),
    }
}

/// The instrument that `parsed` holds: its opcodes, those of its groups and those of its
/// regions, each as [`parsed_opcodes`] has it. The labels of the groups are left out.
pub open spec fn parsed_view(parsed: sofiza::Instrument) -> SfzInstrumentView {
    SfzInstrumentView {
        global: parsed_global(parsed),
        groups: parsed_groups(parsed),
        regions: parsed_regions(parsed),
        default_path: parsed_default(parsed),
    }
}

/// The names of the opcodes that the library asks for.
pub open spec fn asked_names() -> Seq<Seq<char>> {
    seq![
        "lokey"@,
        "hikey"@,
        "lovel"@,
        "hivel"@,
        "sample"@,
        "pitch_keycenter"@,
        "volume"@,
        "pan"@,
        "tune"@,
        "ampeg_release"@,
    ]
}

/// What `opcodes` hold under the names `names`, and nothing besides.
pub open spec fn kept(
    opcodes: Map<Seq<char>, OpcodeView>,
    names: Seq<Seq<char>>,
) -> Map<Seq<char>, OpcodeView> {
    Map::new(
        |name: Seq<char>| opcodes.contains_key(name) && names.contains(name),
        |name: Seq<char>| opcodes[name],
    )
}

/// What `opcodes` hold that the library asks for.
pub open spec fn imported_opcodes(opcodes: Map<Seq<char>, OpcodeView>) -> Map<
    Seq<char>,
    OpcodeView,
> {
    kept(opcodes, asked_names())
}

/// `region` with the opcodes that the library asks for.
pub open spec fn imported_region(region: RegionView) -> RegionView {
    RegionView { group: region.group, opcodes: imported_opcodes(region.opcodes) }
}

/// `instrument` with the opcodes that the library asks for.
pub open spec fn imported(instrument: SfzInstrumentView) -> SfzInstrumentView {
    SfzInstrumentView {
        global: imported_opcodes(instrument.global),
        groups: instrument.groups.map_values(
            |opcodes: Map<Seq<char>, OpcodeView>| imported_opcodes(opcodes),
        ),
        regions: instrument.regions.map_values(|region: RegionView| imported_region(region)),
        default_path: instrument.default_path,
    }
}

proof fn lemma_kept_push(
    opcodes: Map<Seq<char>, OpcodeView>,
    names: Seq<Seq<char>>,
    name: Seq<char>,
)
    ensures
        kept(opcodes, names.push(name)) == if opcodes.contains_key(name) {
            kept(opcodes, names).insert(name, opcodes[name])
        } else {
            kept(opcodes, names)
        },
{
    assert(names.push(name).last() == name);
    assert forall|other: Seq<char>| names.push(name).contains(other) <==> names.contains(other)
        || other == name by {
        if names.contains(other) {
            let i = choose|i: int| 0 <= i < names.len() && names[i] == other;
            assert(names.push(name)[i] == other);
        }
        assert(names.push(name)[names.len() as int] == name);
    }
    assert(kept(opcodes, names.push(name)) =~= if opcodes.contains_key(name) {
        kept(opcodes, names).insert(name, opcodes[name])
    } else {
        kept(opcodes, names)
    });
}

/// The opcodes of `parsed` that the library asks for.
fn import_opcodes(parsed: &HashMap<String, sofiza::Opcode>) -> (opcodes: OpcodeMap)
    ensures
        opcodes@ == imported_opcodes(parsed_opcodes(*parsed)),
{
    let ghost all = parsed_opcodes(*parsed);
    let names: [&str; 10] = [
        "lokey",
        "hikey",
        "lovel",
        "hivel",
        "sample",
        "pitch_keycenter",
        "volume",
        "pan",
        "tune",
        "ampeg_release",
    ];
    let mut opcodes = OpcodeMap::new();
    let mut i: usize = 0;
    assert(opcodes@ =~= kept(all, asked_names().take(0)));
    while i < 10
        invariant
            all == parsed_opcodes(*parsed),
            i <= 10,
            forall|k: int| 0 <= k < 10 ==> (#[trigger] names@[k])@ == asked_names()[k],
            opcodes@ == kept(all, asked_names().take(i as int)),
        decreases 10 - i,
    {
        proof {
            lemma_kept_push(all, asked_names().take(i as int), asked_names()[i as int]);
            assert(asked_names().take(i + 1) =~= asked_names().take(i as int).push(
                asked_names()[i as int],
            ));
        }
        let name: &str = names[i];
        if let Some(opcode) = opcode_in(parsed, name) {
            opcodes.insert(name.to_owned(), opcode);
        }
        i += 1;
    }
    assert(asked_names().take(10) =~= asked_names());
    opcodes
}

/// Takes an instrument over from the parser, with the opcodes that the library asks for.
pub fn import(parsed: &sofiza::Instrument) -> (instrument: SfzInstrument)
    ensures
        instrument@ == imported(parsed_view(*parsed)),
{
    let mut groups: Vec<Group> = Vec::new();
    let mut regions: Vec<Region> = Vec::new();
    let total_groups: usize = group_count(parsed);
    let total_regions: usize = region_count(parsed);
    let mut i: usize = 0;
    while i < total_groups
        invariant
            total_groups == parsed_groups(*parsed).len(),
            i <= total_groups,
            groups@.len() == i,
            forall|k: int|
                0 <= k < i ==> (#[trigger] groups@[k]).opcodes@ == imported_opcodes(
                    parsed_groups(*parsed)[k],
                ),
        decreases total_groups - i,
    {
        groups.push(Group { opcodes: import_opcodes(group_opcodes(parsed, i)) });
        i += 1;
    }
    let mut j: usize = 0;
    while j < total_regions
        invariant
            total_regions == parsed_regions(*parsed).len(),
            j <= total_regions,
            regions@.len() == j,
            forall|k: int|
                0 <= k < j ==> (#[trigger] regions@[k])@ == imported_region(
                    parsed_regions(*parsed)[k],
                ),
        decreases total_regions - j,
    {
        let group = region_group(parsed, j);
        let opcodes = import_opcodes(region_opcodes(parsed, j));
        regions.push(Region { group, opcodes });
        j += 1;
    }
    let global = import_opcodes(global_opcodes(parsed));
    let default_path = match default_path_text(parsed) {
        Some(text) => DefaultPath::Text(text),
        None => DefaultPath::Raw(lossy_default_path(parsed)),
    };
    let instrument = SfzInstrument { global, groups, regions, default_path };
    assert(instrument@.groups =~= imported(parsed_view(*parsed)).groups);
    assert(instrument@.regions =~= imported(parsed_view(*parsed)).regions);
    instrument
}

proof fn lemma_kept_answers(
    opcodes: Map<Seq<char>, OpcodeView>,
    names: Seq<Seq<char>>,
    i: int,
)
    requires
        0 <= i < names.len(),
    ensures
        named(kept(opcodes, names), names[i]) == named(opcodes, names[i]),
{
    assert(names.contains(names[i]));
}

proof fn lemma_import_answers(opcodes: Map<Seq<char>, OpcodeView>)
    ensures
        ({
            let left = imported_opcodes(opcodes);
            &&& forall|bound: Bound| bound.set_by(left) == #[trigger] bound.set_by(opcodes)
            &&& sample_of(left) == sample_of(opcodes)
            &&& pitch_keycenter_of(left) == pitch_keycenter_of(opcodes)
            &&& volume_of(left) == volume_of(opcodes)
            &&& pan_of(left) == pan_of(opcodes)
            &&& tune_of(left) == tune_of(opcodes)
            &&& ampeg_release_of(left) == ampeg_release_of(opcodes)
        }),
{
    let names = asked_names();
    assert forall|bound: Bound| bound.set_by(kept(opcodes, names)) == #[trigger] bound.set_by(
        opcodes,
    ) by {
        lemma_kept_answers(opcodes, names, 0);
        lemma_kept_answers(opcodes, names, 1);
        lemma_kept_answers(opcodes, names, 2);
        lemma_kept_answers(opcodes, names, 3);
    }
    lemma_kept_answers(opcodes, names, 4);
    lemma_kept_answers(opcodes, names, 5);
    lemma_kept_answers(opcodes, names, 6);
    lemma_kept_answers(opcodes, names, 7);
    lemma_kept_answers(opcodes, names, 8);
    lemma_kept_answers(opcodes, names, 9);
}

/// A region that was taken over triggers as it would with all the opcodes that the
/// parser found.
pub proof fn law_import_keeps_triggers(
    instrument: SfzInstrumentView,
    region: RegionView,
    midi_note: u8,
    velocity: u8,
)
    ensures
        triggers(imported(instrument), imported_region(region), midi_note, velocity) == triggers(
            instrument,
            region,
            midi_note,
            velocity,
        ),
{
    lemma_import_answers(region.opcodes);
    assert forall|bound: Bound| effective_bound(imported(instrument), imported_region(region), bound)
        == #[trigger] effective_bound(instrument, region, bound) by {
        assert(bound.set_by(imported_region(region).opcodes) == bound.set_by(region.opcodes));
        if let Some(index) = region.group {
            if index < instrument.groups.len() {
                let opcodes = instrument.groups[index as int];
                lemma_import_answers(opcodes);
                assert(bound.set_by(imported_opcodes(opcodes)) == bound.set_by(opcodes));
            }
        }
    }
    assert(effective_bound(instrument, region, Bound::Lokey) <= 255);
    assert(effective_bound(instrument, region, Bound::Hikey) <= 255);
    assert(effective_bound(instrument, region, Bound::Lovel) <= 255);
    assert(effective_bound(instrument, region, Bound::Hivel) <= 255);
}

/// A note triggers the same regions before and after the instrument is taken over.
pub proof fn law_import_keeps_triggered(
    instrument: SfzInstrumentView,
    midi_note: u8,
    velocity: u8,
)
    ensures
        triggered(imported(instrument), midi_note, velocity) == triggered(
            instrument,
            midi_note,
            velocity,
        ),
{
    lemma_import_keeps_triggered_below(instrument, midi_note, velocity, instrument.regions.len());
}

proof fn lemma_import_keeps_triggered_below(
    instrument: SfzInstrumentView,
    midi_note: u8,
    velocity: u8,
    count: nat,
)
    requires
        count <= instrument.regions.len(),
    ensures
        triggered_below(imported(instrument), midi_note, velocity, count) == triggered_below(
            instrument,
            midi_note,
            velocity,
            count,
        ),
    decreases count,
{
    if count > 0 {
        let index = count - 1;
        lemma_import_keeps_triggered_below(instrument, midi_note, velocity, index as nat);
        law_import_keeps_triggers(instrument, instrument.regions[index], midi_note, velocity);
    }
}

/// Opcodes that were taken over set what they set among all the opcodes that the parser
/// found.
pub proof fn law_import_keeps_settings(opcodes: Map<Seq<char>, OpcodeView>)
    ensures
        ({
            let left = imported_opcodes(opcodes);
            &&& sample_of(left) == sample_of(opcodes)
            &&& pitch_keycenter_of(left) == pitch_keycenter_of(opcodes)
            &&& volume_of(left) == volume_of(opcodes)
            &&& pan_of(left) == pan_of(opcodes)
            &&& tune_of(left) == tune_of(opcodes)
            &&& ampeg_release_of(left) == ampeg_release_of(opcodes)
        }),
{
    lemma_import_answers(opcodes);
}

/// The release time that the regions share is the same before and after the regions
/// are taken over.
pub proof fn law_import_keeps_shared_release(regions: Seq<RegionView>)
    ensures
        first_ampeg_release(regions.map_values(|region: RegionView| imported_region(region)))
            == first_ampeg_release(regions),
    decreases regions.len(),
{
    if regions.len() > 0 {
        let taken = regions.map_values(|region: RegionView| imported_region(region));
        lemma_import_answers(regions[0].opcodes);
        law_import_keeps_shared_release(regions.drop_first());
        assert(taken.drop_first() =~= regions.drop_first().map_values(
            |region: RegionView| imported_region(region),
        ));
    }
}

/// An instrument that is taken over has as many regions and groups as the parser found,
/// each region in the group that the parser put it into, and the same default path.
pub proof fn law_import_keeps_the_structure(parsed: &sofiza::Instrument, instrument: SfzInstrument)
    requires
        call_ensures(import, (parsed,), instrument),
    ensures
        instrument.regions@.len() == parsed_regions(*parsed).len(),
        instrument.groups@.len() == parsed_groups(*parsed).len(),
        forall|i: int|
            0 <= i < instrument.regions@.len() ==> (#[trigger] instrument.regions@[i]).group
                == parsed_regions(*parsed)[i].group,
        match parsed_default_path(*parsed) {
            Some(text) => instrument.default_path matches DefaultPath::Text(path) && path@ == text,
            None => instrument.default_path matches DefaultPath::Raw(path) && path@
                == parsed_lossy_default_path(*parsed),
        },
{
    let taken = imported(parsed_view(*parsed));
    assert(instrument@ == taken);
    assert(instrument@.regions.len() == instrument.regions@.len());
    assert(instrument@.groups.len() == instrument.groups@.len());
    assert forall|i: int| 0 <= i < instrument.regions@.len() implies (
    #[trigger] instrument.regions@[i]).group == parsed_regions(*parsed)[i].group by {
        assert(instrument@.regions[i] == instrument.regions@[i]@);
        assert(taken.regions[i].group == parsed_regions(*parsed)[i].group);
    }
}

/// What a region, a group and the instrument as a whole have under a name that the library
/// asks for is what the parser found there, and they have nothing under any other name.
pub proof fn law_import_keeps_what_is_asked_for(
    parsed: &sofiza::Instrument,
    instrument: SfzInstrument,
    name: Seq<char>,
)
    requires
        call_ensures(import, (parsed,), instrument),
    ensures
        ({
            let asked = name == "lokey"@ || name == "hikey"@ || name == "lovel"@ || name == "hivel"@
                || name == "sample"@ || name == "pitch_keycenter"@ || name == "volume"@
                || name == "pan"@ || name == "tune"@ || name == "ampeg_release"@;
            let of_regions = parsed_regions(*parsed);
            let of_groups = parsed_groups(*parsed);
            let of_all = parsed_global(*parsed);
            &&& forall|i: int|
                0 <= i < instrument.regions@.len() ==> ((
                #[trigger] instrument.regions@[i]).opcodes@.contains_key(name) <==> asked
                    && of_regions[i].opcodes.contains_key(name)) && (
                instrument.regions@[i].opcodes@.contains_key(name)
                    ==> instrument.regions@[i].opcodes@[name] == of_regions[i].opcodes[name])
            &&& forall|g: int|
                0 <= g < instrument.groups@.len() ==> ((
                #[trigger] instrument.groups@[g]).opcodes@.contains_key(name) <==> asked
                    && of_groups[g].contains_key(name)) && (
                instrument.groups@[g].opcodes@.contains_key(name)
                    ==> instrument.groups@[g].opcodes@[name] == of_groups[g][name])
            &&& instrument.global@.contains_key(name) <==> asked && of_all.contains_key(name)
            &&& instrument.global@.contains_key(name) ==> instrument.global@[name] == of_all[name]
        }),
{
    let names = asked_names();
    let taken = imported(parsed_view(*parsed));
    law_import_keeps_the_structure(parsed, instrument);
    assert(names.contains(name) <==> (name == "lokey"@ || name == "hikey"@ || name == "lovel"@ || name == "hivel"@
        || name == "sample"@ || name == "pitch_keycenter"@ || name == "volume"@
        || name == "pan"@ || name == "tune"@ || name == "ampeg_release"@)) by {
        assert(names[0] == "lokey"@ && names[1] == "hikey"@ && names[2] == "lovel"@);
        assert(names[3] == "hivel"@ && names[4] == "sample"@ && names[5] == "pitch_keycenter"@);
        assert(names[6] == "volume"@ && names[7] == "pan"@ && names[8] == "tune"@);
        assert(names[9] == "ampeg_release"@);
    }
    assert forall|i: int| 0 <= i < instrument.regions@.len() implies (
    #[trigger] instrument.regions@[i]).opcodes@ == imported_opcodes(
        parsed_regions(*parsed)[i].opcodes,
    ) by {
        assert(instrument@.regions[i] == instrument.regions@[i]@);
        assert(taken.regions[i] == imported_region(parsed_regions(*parsed)[i]));
    }
    assert forall|g: int| 0 <= g < instrument.groups@.len() implies (
    #[trigger] instrument.groups@[g]).opcodes@ == imported_opcodes(parsed_groups(*parsed)[g]) by {
        assert(instrument@.groups[g] == instrument.groups@[g].opcodes@);
        assert(taken.groups[g] == imported_opcodes(parsed_groups(*parsed)[g]));
    }
}

} // verus!
