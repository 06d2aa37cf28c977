//! Loaded instruments, and the questions that a player asks of them.

use vstd::hash_map::StringHashMap;
use vstd::prelude::*;

use crate::instrument::{SfzInstrument, SfzInstrumentView, Region, RegionView};
use crate::opcode::{named, Bound, Float32, SfzOpcode, OpcodeView};
use crate::path::{
    components, is_rooted, law_normal_form_identifies_paths, normal_form, normalized,
};

verus! {

/// The bits of the release time where nothing sets one: 0.3 seconds.
pub const DEFAULT_RELEASE_BITS: u32 = 0x3e99_999a;

/// The bits of the number zero: the volume and the pan where nothing sets them.
pub const ZERO_BITS: u32 = 0;

/// The root key where nothing sets one: C4.
pub const DEFAULT_KEYCENTER: u8 = 60;

/// The handles of the loaded samples, each under the path of its sample.
///
/// Texts that name the same path stand for the same entry.
#[verifier::reject_recursive_types(H)]
pub struct SampleMap<H> {
    handles: StringHashMap<H>,
}

impl<H> View for SampleMap<H> {
    type V = Map<Seq<char>, H>;

    /// The handles, each under the normal form of its path.
    closed spec fn view(&self) -> Map<Seq<char>, H> {
        self.handles@
    }
}

impl<H> SampleMap<H> {
    /// A map without handles.
    pub fn new() -> (map: SampleMap<H>)
        ensures
            map@ == Map::<Seq<char>, H>::empty(),
    {
        SampleMap { handles: StringHashMap::new() }
    }

    /// Puts `handle` under `path`, in place of what stood there.
    pub fn insert(&mut self, path: &str, handle: H)
        ensures
            final(self)@ == old(self)@.insert(normal_form(path@), handle),
    {
        self.handles.insert(normalized(path), handle);
    }

    /// The handle that stands under `path`.
    pub fn get(&self, path: &str) -> (found: Option<&H>)
        ensures
            match found {
                Some(handle) => self@.contains_key(normal_form(path@)) && *handle
                    == self@[normal_form(path@)],
                None => !self@.contains_key(normal_form(path@)),
            },
    {
        self.handles.get(normalized(path).as_str())
    }

    /// How many handles there are.
    pub fn len(&self) -> (count: usize)
        ensures
            count == self@.len(),
    {
        self.handles.len()
    }
}

/// The opcodes that `region` takes what it does not set itself from: those of its
/// group, if it belongs to one that `instrument` has.
pub open spec fn group_opcodes(
    instrument: SfzInstrumentView,
    region: RegionView,
) -> Option<Map<Seq<char>, OpcodeView>> {
    match region.group {
        Some(index) => if index < instrument.groups.len() {
            Some(instrument.groups[index as int])
        } else {
            None
        },
        None => None,
    }
}

/// The bound that holds for `region`: the one that it sets, else the one that its
/// group sets, else the default.
pub open spec fn effective_bound(
    instrument: SfzInstrumentView,
    region: RegionView,
    bound: Bound,
) -> u8 {
    match bound.set_by(region.opcodes) {
        Some(value) => value,
        None => match group_opcodes(instrument, region) {
            Some(opcodes) => match bound.set_by(opcodes) {
                Some(value) => value,
                None => bound.spec_default(),
            },
            None => bound.spec_default(),
        },
    }
}

/// Whether `region` triggers: whether the note and the velocity lie within its bounds.
pub open spec fn triggers(
    instrument: SfzInstrumentView,
    region: RegionView,
    midi_note: u8,
    velocity: u8,
) -> bool {
    &&& effective_bound(instrument, region, Bound::Lokey) <= midi_note
    &&& midi_note <= effective_bound(instrument, region, Bound::Hikey)
    &&& effective_bound(instrument, region, Bound::Lovel) <= velocity
    &&& velocity <= effective_bound(instrument, region, Bound::Hivel)
}

/// The indices below `count` of the regions that trigger, in ascending order.
pub open spec fn triggered_below(
    instrument: SfzInstrumentView,
    midi_note: u8,
    velocity: u8,
    count: nat,
) -> Seq<int>
    decreases count,
{
    if count == 0 {
        Seq::empty()
    } else {
        let index = count - 1;
        let before = triggered_below(instrument, midi_note, velocity, index as nat);
        if triggers(instrument, instrument.regions[index], midi_note, velocity) {
            before.push(index)
        } else {
            before
        }
    }
}

/// The indices of the regions that trigger, in ascending order.
pub open spec fn triggered(instrument: SfzInstrumentView, midi_note: u8, velocity: u8) -> Seq<int> {
    triggered_below(instrument, midi_note, velocity, instrument.regions.len())
}

/// The path of the sample that `opcodes` set.
pub open spec fn sample_of(opcodes: Map<Seq<char>, OpcodeView>) -> Option<Seq<char>> {
    match named(opcodes, "sample"@) {
        Some(OpcodeView::Sample(path)) => Some(path),
        _ => None,
    }
}

/// The root key that `opcodes` set.
pub open spec fn pitch_keycenter_of(opcodes: Map<Seq<char>, OpcodeView>) -> Option<u8> {
    match named(opcodes, "pitch_keycenter"@) {
        Some(OpcodeView::PitchKeycenter(value)) => Some(value),
        _ => None,
    }
}

/// The volume that `opcodes` set.
pub open spec fn volume_of(opcodes: Map<Seq<char>, OpcodeView>) -> Option<Float32> {
    match named(opcodes, "volume"@) {
        Some(OpcodeView::Volume(value)) => Some(value),
        _ => None,
    }
}

/// The pan that `opcodes` set.
pub open spec fn pan_of(opcodes: Map<Seq<char>, OpcodeView>) -> Option<Float32> {
    match named(opcodes, "pan"@) {
        Some(OpcodeView::Pan(value)) => Some(value),
        _ => None,
    }
}

/// The tuning offset that `opcodes` set.
pub open spec fn tune_of(opcodes: Map<Seq<char>, OpcodeView>) -> Option<i8> {
    match named(opcodes, "tune"@) {
        Some(OpcodeView::Tune(value)) => Some(value),
        _ => None,
    }
}

/// The release time that `opcodes` set.
pub open spec fn ampeg_release_of(opcodes: Map<Seq<char>, OpcodeView>) -> Option<Float32> {
    match named(opcodes, "ampeg_release"@) {
        Some(OpcodeView::AmpegRelease(value)) => Some(value),
        _ => None,
    }
}

/// The release time of the first of `regions` that sets one.
pub open spec fn first_ampeg_release(regions: Seq<RegionView>) -> Option<Float32>
    decreases regions.len(),
{
    if regions.len() == 0 {
        None
    } else {
        match ampeg_release_of(regions[0].opcodes) {
            Some(value) => Some(value),
            None => first_ampeg_release(regions.drop_first()),
        }
    }
}

/// `value`, and `default` where there is none.
pub open spec fn value_or<T>(value: Option<T>, default: T) -> T {
    match value {
        Some(value) => value,
        None => default,
    }
}

/// The release time that holds for `region`: the one that it sets, else the first one that
/// any region of `instrument` sets, else the default.
pub open spec fn effective_release(instrument: SfzInstrumentView, region: RegionView) -> Float32 {
    value_or(
        ampeg_release_of(region.opcodes),
        value_or(first_ampeg_release(instrument.regions), Float32(DEFAULT_RELEASE_BITS)),
    )
}

/// An SFZ instrument with the handles of all its samples: those that its regions, its
/// groups and the instrument as a whole refer to.
///
/// `H` is what the asset server gives out for a sample.
#[verifier::reject_recursive_types(H)]
pub struct SfzInstrumentAsset<H> {
    /// The instrument, with the opcodes that the library asks for.
    pub instrument: SfzInstrument,
    /// The instrument as it was parsed, with all its opcodes.
    pub parsed: sofiza::Instrument,
    /// The handles of the samples.
    pub samples: SampleMap<H>,
    /// The name of the instrument.
    pub name: String,
}

/// The release time that the opcodes of `region` set.
fn own_ampeg_release(region: &Region) -> (release: Option<Float32>)
    ensures
        release == ampeg_release_of(region@.opcodes),
{
    match region.opcodes.get("ampeg_release") {
        Some(SfzOpcode::AmpegRelease(value)) => Some(*value),
        _ => None,
    }
}

impl<H> SfzInstrumentAsset<H> {
    /// The regions that the note triggers at the velocity, each with its index, in
    /// the order of the file.
    pub fn regions_with_indices_for_note(&self, midi_note: u8, velocity: u8) -> (found: Vec<
        (usize, &Region),
    >)
        ensures
            found@.len() == triggered(self.instrument@, midi_note, velocity).len(),
            forall|k: int|
                0 <= k < found@.len() ==> {
                    &&& (#[trigger] found@[k]).0 == triggered(
                        self.instrument@,
                        midi_note,
                        velocity,
                    )[k]
                    &&& found@[k].0 < self.instrument.regions@.len()
                    &&& *found@[k].1 == self.instrument.regions@[found@[k].0 as int]
                },
    {
        let mut found: Vec<(usize, &Region)> = Vec::new();
        let mut index: usize = 0;
        while index < self.instrument.regions.len()
            invariant
                index <= self.instrument.regions@.len(),
                found@.len() == triggered_below(
                    self.instrument@,
                    midi_note,
                    velocity,
                    index as nat,
                ).len(),
                forall|k: int|
                    0 <= k < found@.len() ==> {
                        &&& (#[trigger] found@[k]).0 == triggered_below(
                            self.instrument@,
                            midi_note,
                            velocity,
                            index as nat,
                        )[k]
                        &&& found@[k].0 < index
                        &&& *found@[k].1 == self.instrument.regions@[found@[k].0 as int]
                    },
            decreases self.instrument.regions@.len() - index,
        {
            let region = &self.instrument.regions[index];
            if self.region_matches_note(region, midi_note, velocity) {
                found.push((index, region));
            }
            index += 1;
        }
        found
    }

    /// The bound that holds for `region`.
    fn bound_for_region(&self, region: &Region, bound: Bound) -> (value: u8)
        ensures
            value == effective_bound(self.instrument@, region@, bound),
    {
        if let Some(value) = bound.value_in(&region.opcodes) {
            return value;
        }
        if let Some(group) = region.group {
            if group < self.instrument.groups.len() {
                if let Some(value) = bound.value_in(&self.instrument.groups[group].opcodes) {
                    return value;
                }
            }
        }
        bound.default_value()
    }

    /// Whether the note triggers `region` at the velocity.
    pub fn region_matches_note(&self, region: &Region, midi_note: u8, velocity: u8) -> (matches:
        bool)
        ensures
            matches == triggers(self.instrument@, region@, midi_note, velocity),
    {
        let lokey: u8 = self.bound_for_region(region, Bound::Lokey);
        let hikey: u8 = self.bound_for_region(region, Bound::Hikey);
        if midi_note < lokey || midi_note > hikey {
            return false;
        }
        let lovel: u8 = self.bound_for_region(region, Bound::Lovel);
        let hivel: u8 = self.bound_for_region(region, Bound::Hivel);
        if velocity < lovel || velocity > hivel {
            return false;
        }
        true
    }

    /// The handle of the sample that `region` plays. `None` where the region sets no
    /// sample, or one that was not loaded.
    pub fn sample_for_region(&self, region: &Region) -> (handle: Option<&H>)
        ensures
            match sample_of(region@.opcodes) {
                Some(path) => match handle {
                    Some(found) => self.samples@.contains_key(normal_form(path)) && *found
                        == self.samples@[normal_form(path)],
                    None => !self.samples@.contains_key(normal_form(path)),
                },
                None => handle is None,
            },
    {
        match region.opcodes.get("sample") {
            Some(SfzOpcode::Sample(path)) => self.samples.get(path.as_str()),
            _ => None,
        }
    }

    /// The root key of `region`: the note at which its sample sounds at its own pitch.
    pub fn pitch_keycenter_for_region(&self, region: &Region) -> (key: u8)
        ensures
            key == value_or(pitch_keycenter_of(region@.opcodes), DEFAULT_KEYCENTER),
    {
        match region.opcodes.get("pitch_keycenter") {
            Some(SfzOpcode::PitchKeycenter(value)) => *value,
            _ => DEFAULT_KEYCENTER,
        }
    }

    /// The volume of `region`, in decibels: 0 where it sets none.
    pub fn volume_for_region(&self, region: &Region) -> (volume: Float32)
        ensures
            volume == value_or(volume_of(region@.opcodes), Float32(ZERO_BITS)),
    {
        match region.opcodes.get("volume") {
            Some(SfzOpcode::Volume(value)) => *value,
            _ => Float32(ZERO_BITS),
        }
    }

    /// The pan of `region`, from -100 to 100: 0, the center, where it sets none.
    pub fn pan_for_region(&self, region: &Region) -> (pan: Float32)
        ensures
            pan == value_or(pan_of(region@.opcodes), Float32(ZERO_BITS)),
    {
        match region.opcodes.get("pan") {
            Some(SfzOpcode::Pan(value)) => *value,
            _ => Float32(ZERO_BITS),
        }
    }

    /// The tuning offset of `region`, in cents: 0 where it sets none.
    pub fn tune_for_region(&self, region: &Region) -> (tune: i8)
        ensures
            tune == value_or(tune_of(region@.opcodes), 0),
    {
        match region.opcodes.get("tune") {
            Some(SfzOpcode::Tune(value)) => *value,
            _ => 0,
        }
    }

    /// The release time of the amplitude envelope of `region`, in seconds: the one
    /// that it sets, else the first one that any region of the instrument sets, else
    /// 0.3 seconds.
    pub fn ampeg_release_for_region(&self, region: &Region) -> (release: Float32)
        ensures
            release == effective_release(self.instrument@, region@),
    {
        if let Some(release) = own_ampeg_release(region) {
            return release;
        }
        let ghost regions = self.instrument@.regions;
        let mut index: usize = 0;
        assert(regions.skip(0) =~= regions);
        while index < self.instrument.regions.len()
            invariant
                regions == self.instrument@.regions,
                index <= self.instrument.regions@.len(),
                ampeg_release_of(region@.opcodes) is None,
                first_ampeg_release(regions) == first_ampeg_release(regions.skip(index as int)),
            decreases self.instrument.regions@.len() - index,
        {
            assert(regions.skip(index as int).drop_first() =~= regions.skip(index + 1));
            if let Some(release) = own_ampeg_release(&self.instrument.regions[index]) {
                return release;
            }
            index += 1;
        }
        Float32(DEFAULT_RELEASE_BITS)
    }
}

proof fn lemma_triggered_below(
    instrument: SfzInstrumentView,
    midi_note: u8,
    velocity: u8,
    count: nat,
)
    requires
        count <= instrument.regions.len(),
    ensures
        ({
            let found = triggered_below(instrument, midi_note, velocity, count);
            &&& forall|k: int|
                0 <= k < found.len() ==> 0 <= #[trigger] found[k] < count && triggers(
                    instrument,
                    instrument.regions[found[k]],
                    midi_note,
                    velocity,
                )
            &&& forall|j: int, k: int| 0 <= j < k < found.len() ==> found[j] < found[k]
            &&& forall|i: int|
                0 <= i < count && triggers(
                    instrument,
                    #[trigger] instrument.regions[i],
                    midi_note,
                    velocity,
                ) ==> found.contains(i)
        }),
    decreases count,
{
    if count > 0 {
        let index = count - 1;
        lemma_triggered_below(instrument, midi_note, velocity, index as nat);
        let before = triggered_below(instrument, midi_note, velocity, index as nat);
        let found = triggered_below(instrument, midi_note, velocity, count);
        assert forall|i: int|
            0 <= i < count && triggers(
                instrument,
                #[trigger] instrument.regions[i],
                midi_note,
                velocity,
            ) implies found.contains(i) by {
            if i < index {
                let k = choose|k: int| 0 <= k < before.len() && before[k] == i;
                assert(found[k] == i);
            } else {
                assert(found[before.len() as int] == i);
            }
        }
    }
}

/// The regions that are found for a note are those that it triggers, each once and in
/// the order of the file.
pub proof fn law_triggered_regions(instrument: SfzInstrumentView, midi_note: u8, velocity: u8)
    ensures
        ({
            let found = triggered(instrument, midi_note, velocity);
            &&& forall|k: int|
                0 <= k < found.len() ==> 0 <= #[trigger] found[k] < instrument.regions.len()
                    && triggers(instrument, instrument.regions[found[k]], midi_note, velocity)
            &&& forall|j: int, k: int| 0 <= j < k < found.len() ==> found[j] < found[k]
            &&& forall|i: int|
                0 <= i < instrument.regions.len() && triggers(
                    instrument,
                    #[trigger] instrument.regions[i],
                    midi_note,
                    velocity,
                ) ==> found.contains(i)
        }),
{
    lemma_triggered_below(instrument, midi_note, velocity, instrument.regions.len());
}

proof fn lemma_each_bound_unset(opcodes: Map<Seq<char>, OpcodeView>)
    requires
        forall|bound: Bound| (#[trigger] bound.set_by(opcodes)) is None,
    ensures
        Bound::Lokey.set_by(opcodes) is None,
        Bound::Hikey.set_by(opcodes) is None,
        Bound::Lovel.set_by(opcodes) is None,
        Bound::Hivel.set_by(opcodes) is None,
{
}

/// A region that neither sets a bound itself nor belongs to a group that sets one
/// triggers for each note and each velocity that MIDI has, and for no other.
pub proof fn law_unbounded_region_triggers(
    instrument: SfzInstrumentView,
    region: RegionView,
    midi_note: u8,
    velocity: u8,
)
    requires
        forall|bound: Bound|
            (#[trigger] bound.set_by(region.opcodes)) is None && (group_opcodes(
                instrument,
                region,
            ) is Some ==> bound.set_by(group_opcodes(instrument, region)->0) is None),
    ensures
        triggers(instrument, region, midi_note, velocity) <==> midi_note <= 127 && velocity <= 127,
{
    lemma_each_bound_unset(region.opcodes);
}

/// A bound that a region sets holds for it, whatever its group sets.
pub proof fn law_region_bound_goes_before_group_bound(
    instrument: SfzInstrumentView,
    region: RegionView,
    bound: Bound,
)
    requires
        bound.set_by(region.opcodes) is Some,
    ensures
        effective_bound(instrument, region, bound) == bound.set_by(region.opcodes)->0,
{
}

/// A region that sets no bound triggers as one that has the opcodes of its group.
pub proof fn law_group_bounds_hold_for_regions_without(
    instrument: SfzInstrumentView,
    region: RegionView,
    midi_note: u8,
    velocity: u8,
)
    requires
        group_opcodes(instrument, region) is Some,
        forall|bound: Bound| (#[trigger] bound.set_by(region.opcodes)) is None,
    ensures
        triggers(instrument, region, midi_note, velocity) == triggers(
            instrument,
            (RegionView { group: None, opcodes: group_opcodes(instrument, region)->0 }),
            midi_note,
            velocity,
        ),
{
    lemma_each_bound_unset(region.opcodes);
}

/// The shared release time is one that some region sets, and no earlier region sets
/// one; there is none only where no region sets one.
pub proof fn law_first_ampeg_release(regions: Seq<RegionView>)
    ensures
        match first_ampeg_release(regions) {
            Some(release) => exists|i: int|
                0 <= i < regions.len() && ampeg_release_of((#[trigger] regions[i]).opcodes) == Some(
                    release,
                ) && forall|j: int|
                    0 <= j < i ==> ampeg_release_of((#[trigger] regions[j]).opcodes) is None,
            None => forall|i: int|
                0 <= i < regions.len() ==> ampeg_release_of((#[trigger] regions[i]).opcodes)
                    is None,
        },
    decreases regions.len(),
{
    if regions.len() > 0 {
        let rest = regions.drop_first();
        law_first_ampeg_release(rest);
        if ampeg_release_of(regions[0].opcodes) is Some {
            assert(ampeg_release_of(regions[0].opcodes) == first_ampeg_release(regions));
        } else if first_ampeg_release(rest) is Some {
            let i = choose|i: int|
                0 <= i < rest.len() && ampeg_release_of((#[trigger] rest[i]).opcodes)
                    == first_ampeg_release(rest) && forall|j: int|
                    0 <= j < i ==> ampeg_release_of((#[trigger] rest[j]).opcodes) is None;
            assert(regions[i + 1] == rest[i]);
            assert forall|j: int| 0 <= j < i + 1 implies ampeg_release_of(
                (#[trigger] regions[j]).opcodes,
            ) is None by {
                if j > 0 {
                    assert(regions[j] == rest[j - 1]);
                }
            }
        } else {
            assert forall|i: int| 0 <= i < regions.len() implies ampeg_release_of(
                (#[trigger] regions[i]).opcodes,
            ) is None by {
                if i > 0 {
                    assert(regions[i] == rest[i - 1]);
                }
            }
        }
    }
}

/// The opcodes of the instrument as a whole bear neither on which regions a note triggers
/// nor on release times: instruments that differ in nothing else agree on both.
pub proof fn law_global_opcodes_change_no_answer(
    instrument: SfzInstrumentView,
    global: Map<Seq<char>, OpcodeView>,
    region: RegionView,
    midi_note: u8,
    velocity: u8,
)
    ensures
        ({
            let other = SfzInstrumentView {
                global,
                groups: instrument.groups,
                regions: instrument.regions,
                default_path: instrument.default_path,
            };
            &&& triggers(other, region, midi_note, velocity) == triggers(
                instrument,
                region,
                midi_note,
                velocity,
            )
            &&& triggered(other, midi_note, velocity) == triggered(instrument, midi_note, velocity)
            &&& effective_release(other, region) == effective_release(instrument, region)
        }),
{
    let other = SfzInstrumentView {
        global,
        groups: instrument.groups,
        regions: instrument.regions,
        default_path: instrument.default_path,
    };
    lemma_triggered_below_without_global(
        instrument,
        other,
        midi_note,
        velocity,
        instrument.regions.len(),
    );
}

proof fn lemma_triggered_below_without_global(
    instrument: SfzInstrumentView,
    other: SfzInstrumentView,
    midi_note: u8,
    velocity: u8,
    count: nat,
)
    requires
        other.groups == instrument.groups,
        other.regions == instrument.regions,
    ensures
        triggered_below(other, midi_note, velocity, count) == triggered_below(
            instrument,
            midi_note,
            velocity,
            count,
        ),
    decreases count,
{
    if count > 0 {
        lemma_triggered_below_without_global(
            instrument,
            other,
            midi_note,
            velocity,
            (count - 1) as nat,
        );
    }
}

/// The note and the velocity lie within the bounds of a region, ends included, if and only
/// if they trigger it. A bound is what the region has under its name, else what the group
/// of the region has there, else the end of the MIDI range.
pub proof fn law_notes_within_the_bounds_trigger<H>(
    asset: &SfzInstrumentAsset<H>,
    region: &Region,
    midi_note: u8,
    velocity: u8,
    matches: bool,
)
    requires
        call_ensures(
            SfzInstrumentAsset::<H>::region_matches_note,
            (asset, region, midi_note, velocity),
            matches,
        ),
    ensures
        ({
            let groups = asset.instrument.groups@;
            let shared = if region.group is Some && region.group->0 < groups.len() {
                groups[region.group->0 as int].opcodes@
            } else {
                Map::empty()
            };
            let lokey = if region.opcodes@.contains_key("lokey"@)
                && region.opcodes@["lokey"@] is Lokey {
                region.opcodes@["lokey"@]->Lokey_0
            } else if shared.contains_key("lokey"@) && shared["lokey"@] is Lokey {
                shared["lokey"@]->Lokey_0
            } else {
                0u8
            };
            let hikey = if region.opcodes@.contains_key("hikey"@)
                && region.opcodes@["hikey"@] is Hikey {
                region.opcodes@["hikey"@]->Hikey_0
            } else if shared.contains_key("hikey"@) && shared["hikey"@] is Hikey {
                shared["hikey"@]->Hikey_0
            } else {
                127u8
            };
            let lovel = if region.opcodes@.contains_key("lovel"@)
                && region.opcodes@["lovel"@] is Lovel {
                region.opcodes@["lovel"@]->Lovel_0
            } else if shared.contains_key("lovel"@) && shared["lovel"@] is Lovel {
                shared["lovel"@]->Lovel_0
            } else {
                0u8
            };
            let hivel = if region.opcodes@.contains_key("hivel"@)
                && region.opcodes@["hivel"@] is Hivel {
                region.opcodes@["hivel"@]->Hivel_0
            } else if shared.contains_key("hivel"@) && shared["hivel"@] is Hivel {
                shared["hivel"@]->Hivel_0
            } else {
                127u8
            };
            matches <==> lokey <= midi_note <= hikey && lovel <= velocity <= hivel
        }),
{
}

/// A region on a single key, which sets the key as its lowest and its highest note and
/// belongs to no group, triggers for that key and no other.
pub proof fn law_single_key_triggers<H>(
    asset: &SfzInstrumentAsset<H>,
    region: &Region,
    key: u8,
    midi_note: u8,
    velocity: u8,
    matches: bool,
)
    requires
        region.group is None,
        region.opcodes@.contains_key("lokey"@),
        region.opcodes@["lokey"@] == OpcodeView::Lokey(key),
        region.opcodes@.contains_key("hikey"@),
        region.opcodes@["hikey"@] == OpcodeView::Hikey(key),
        !region.opcodes@.contains_key("lovel"@),
        !region.opcodes@.contains_key("hivel"@),
        call_ensures(
            SfzInstrumentAsset::<H>::region_matches_note,
            (asset, region, midi_note, velocity),
            matches,
        ),
    ensures
        matches <==> midi_note == key && velocity <= 127,
{
    law_notes_within_the_bounds_trigger(asset, region, midi_note, velocity, matches);
}

/// What is found for a note are regions of the instrument, each with its own index, in
/// ascending order, and a region is among them if and only if the note triggers it.
pub proof fn law_found_regions_are_those_that_trigger<H>(
    asset: &SfzInstrumentAsset<H>,
    midi_note: u8,
    velocity: u8,
    found: Vec<(usize, &Region)>,
    index: int,
    matches: bool,
)
    requires
        call_ensures(
            SfzInstrumentAsset::<H>::regions_with_indices_for_note,
            (asset, midi_note, velocity),
            found,
        ),
        0 <= index < asset.instrument.regions@.len(),
        call_ensures(
            SfzInstrumentAsset::<H>::region_matches_note,
            (asset, &asset.instrument.regions@[index], midi_note, velocity),
            matches,
        ),
    ensures
        forall|k: int|
            0 <= k < found@.len() ==> (#[trigger] found@[k]).0 < asset.instrument.regions@.len()
                && *found@[k].1 == asset.instrument.regions@[found@[k].0 as int],
        forall|j: int, k: int|
            0 <= j < k < found@.len() ==> (#[trigger] found@[j]).0 < (#[trigger] found@[k]).0,
        matches <==> exists|k: int| 0 <= k < found@.len() && (#[trigger] found@[k]).0 == index,
{
    let instrument = asset.instrument@;
    let indices = triggered(instrument, midi_note, velocity);
    law_triggered_regions(instrument, midi_note, velocity);
    assert(instrument.regions[index] == asset.instrument.regions@[index]@);
    if matches {
        let k = choose|k: int| 0 <= k < indices.len() && indices[k] == index;
        assert(found@[k].0 == index);
    }
    if exists|k: int| 0 <= k < found@.len() && (#[trigger] found@[k]).0 == index {
        let k = choose|k: int| 0 <= k < found@.len() && (#[trigger] found@[k]).0 == index;
        assert(indices[k] == index);
    }
}

/// The sample of a region is what stands under the path that the region has as its sample.
pub proof fn law_sample_is_looked_up_by_path<H>(
    asset: &SfzInstrumentAsset<H>,
    region: &Region,
    path: &str,
    found: Option<&H>,
    handle: Option<&H>,
)
    requires
        region.opcodes@.contains_key("sample"@),
        region.opcodes@["sample"@] == OpcodeView::Sample(path@),
        call_ensures(SampleMap::<H>::get, (&asset.samples, path), found),
        call_ensures(SfzInstrumentAsset::<H>::sample_for_region, (asset, region), handle),
    ensures
        handle == found,
{
}

/// A region that has no path as its sample has no handle.
pub proof fn law_no_sample_without_a_path<H>(
    asset: &SfzInstrumentAsset<H>,
    region: &Region,
    handle: Option<&H>,
)
    requires
        !(region.opcodes@.contains_key("sample"@) && region.opcodes@["sample"@] is Sample),
        call_ensures(SfzInstrumentAsset::<H>::sample_for_region, (asset, region), handle),
    ensures
        handle is None,
{
}

/// A handle that was put under a path is found under each text that names the path, and
/// what stands under the other paths stays.
pub proof fn law_a_handle_is_found_under_its_path<H>(
    samples: &mut SampleMap<H>,
    path: &str,
    handle: H,
    asked: &str,
    found_before: Option<&H>,
    found: Option<&H>,
)
    requires
        call_ensures(SampleMap::<H>::get, (&*old(samples), asked), found_before),
        call_ensures(SampleMap::<H>::insert, (samples, path, handle), ()),
        call_ensures(SampleMap::<H>::get, (&*final(samples), asked), found),
    ensures
        found == if is_rooted(path@) == is_rooted(asked@) && components(path@) == components(asked@) {
            Some(&handle)
        } else {
            found_before
        },
{
    law_normal_form_identifies_paths(path@, asked@);
}

/// Nothing is found in a new map, and it has no entries.
pub proof fn law_a_new_sample_map_is_empty<H>(
    samples: SampleMap<H>,
    asked: &str,
    found: Option<&H>,
    count: usize,
)
    requires
        call_ensures(SampleMap::<H>::new, (), samples),
        call_ensures(SampleMap::<H>::get, (&samples, asked), found),
        call_ensures(SampleMap::<H>::len, (&samples,), count),
    ensures
        found is None,
        count == 0,
{
}

/// Texts that name the same path are answered alike.
pub proof fn law_one_entry_for_each_path<H>(
    samples: &SampleMap<H>,
    a: &str,
    b: &str,
    found_a: Option<&H>,
    found_b: Option<&H>,
)
    requires
        is_rooted(a@) == is_rooted(b@),
        components(a@) == components(b@),
        call_ensures(SampleMap::<H>::get, (samples, a), found_a),
        call_ensures(SampleMap::<H>::get, (samples, b), found_b),
    ensures
        found_a == found_b,
{
    law_normal_form_identifies_paths(a@, b@);
}

/// The root key of a region that sets one is the one that it sets.
pub proof fn law_keycenter_is_the_one_that_is_set<H>(
    asset: &SfzInstrumentAsset<H>,
    region: &Region,
    value: u8,
    key: u8,
)
    requires
        region.opcodes@.contains_key("pitch_keycenter"@),
        region.opcodes@["pitch_keycenter"@] == OpcodeView::PitchKeycenter(value),
        call_ensures(SfzInstrumentAsset::<H>::pitch_keycenter_for_region, (asset, region), key),
    ensures
        key == value,
{
}

/// The root key of a region that sets none is C4, whatever its group sets.
pub proof fn law_keycenter_where_none_is_set<H>(
    asset: &SfzInstrumentAsset<H>,
    region: &Region,
    key: u8,
)
    requires
        !(region.opcodes@.contains_key("pitch_keycenter"@) && region.opcodes@["pitch_keycenter"@] is PitchKeycenter),
        call_ensures(SfzInstrumentAsset::<H>::pitch_keycenter_for_region, (asset, region), key),
    ensures
        key == 60,
{
}

/// The volume of a region that sets one is the one that it sets, bit for bit.
pub proof fn law_volume_is_the_one_that_is_set<H>(
    asset: &SfzInstrumentAsset<H>,
    region: &Region,
    value: u32,
    volume: Float32,
)
    requires
        region.opcodes@.contains_key("volume"@),
        region.opcodes@["volume"@] == OpcodeView::Volume(Float32(value)),
        call_ensures(SfzInstrumentAsset::<H>::volume_for_region, (asset, region), volume),
    ensures
        volume.0 == value,
{
}

/// The volume of a region that sets none is the number zero, whatever its group sets.
pub proof fn law_volume_where_none_is_set<H>(
    asset: &SfzInstrumentAsset<H>,
    region: &Region,
    volume: Float32,
)
    requires
        !(region.opcodes@.contains_key("volume"@) && region.opcodes@["volume"@] is Volume),
        call_ensures(SfzInstrumentAsset::<H>::volume_for_region, (asset, region), volume),
    ensures
        volume.0 == 0,
{
}

/// The pan of a region that sets one is the one that it sets, bit for bit.
pub proof fn law_pan_is_the_one_that_is_set<H>(
    asset: &SfzInstrumentAsset<H>,
    region: &Region,
    value: u32,
    pan: Float32,
)
    requires
        region.opcodes@.contains_key("pan"@),
        region.opcodes@["pan"@] == OpcodeView::Pan(Float32(value)),
        call_ensures(SfzInstrumentAsset::<H>::pan_for_region, (asset, region), pan),
    ensures
        pan.0 == value,
{
}

/// The pan of a region that sets none is the number zero, whatever its group sets.
pub proof fn law_pan_where_none_is_set<H>(
    asset: &SfzInstrumentAsset<H>,
    region: &Region,
    pan: Float32,
)
    requires
        !(region.opcodes@.contains_key("pan"@) && region.opcodes@["pan"@] is Pan),
        call_ensures(SfzInstrumentAsset::<H>::pan_for_region, (asset, region), pan),
    ensures
        pan.0 == 0,
{
}

/// The tuning offset of a region that sets one is the one that it sets.
pub proof fn law_tune_is_the_one_that_is_set<H>(
    asset: &SfzInstrumentAsset<H>,
    region: &Region,
    value: i8,
    tune: i8,
)
    requires
        region.opcodes@.contains_key("tune"@),
        region.opcodes@["tune"@] == OpcodeView::Tune(value),
        call_ensures(SfzInstrumentAsset::<H>::tune_for_region, (asset, region), tune),
    ensures
        tune == value,
{
}

/// The tuning offset of a region that sets none is zero, whatever its group sets.
pub proof fn law_tune_where_none_is_set<H>(
    asset: &SfzInstrumentAsset<H>,
    region: &Region,
    tune: i8,
)
    requires
        !(region.opcodes@.contains_key("tune"@) && region.opcodes@["tune"@] is Tune),
        call_ensures(SfzInstrumentAsset::<H>::tune_for_region, (asset, region), tune),
    ensures
        tune == 0,
{
}

/// The release time of a region that sets one is the one that it sets, bit for bit, whatever
/// the other regions set.
pub proof fn law_release_is_the_one_that_is_set<H>(
    asset: &SfzInstrumentAsset<H>,
    region: &Region,
    value: u32,
    release: Float32,
)
    requires
        region.opcodes@.contains_key("ampeg_release"@),
        region.opcodes@["ampeg_release"@] == OpcodeView::AmpegRelease(Float32(value)),
        call_ensures(SfzInstrumentAsset::<H>::ampeg_release_for_region, (asset, region), release),
    ensures
        release.0 == value,
{
}

/// The release time of a region that sets none is the one of the first region of the
/// instrument that sets one, bit for bit.
pub proof fn law_release_of_the_first_region_that_sets_one<H>(
    asset: &SfzInstrumentAsset<H>,
    region: &Region,
    first: int,
    value: u32,
    release: Float32,
)
    requires
        !(region.opcodes@.contains_key("ampeg_release"@)
            && region.opcodes@["ampeg_release"@] is AmpegRelease),
        0 <= first < asset.instrument.regions@.len(),
        asset.instrument.regions@[first].opcodes@.contains_key("ampeg_release"@),
        asset.instrument.regions@[first].opcodes@["ampeg_release"@] == OpcodeView::AmpegRelease(
            Float32(value),
        ),
        forall|i: int|
            0 <= i < first ==> !((#[trigger] asset.instrument.regions@[i]).opcodes@.contains_key(
                "ampeg_release"@,
            ) && asset.instrument.regions@[i].opcodes@["ampeg_release"@] is AmpegRelease),
        call_ensures(SfzInstrumentAsset::<H>::ampeg_release_for_region, (asset, region), release),
    ensures
        release.0 == value,
{
    let regions = asset.instrument@.regions;
    law_first_ampeg_release(regions);
    assert(regions[first] == asset.instrument.regions@[first]@);
    assert(ampeg_release_of(regions[first].opcodes) == Some(Float32(value)));
    let i = choose|i: int|
        0 <= i < regions.len() && ampeg_release_of((#[trigger] regions[i]).opcodes)
            == first_ampeg_release(regions) && forall|j: int|
            0 <= j < i ==> ampeg_release_of((#[trigger] regions[j]).opcodes) is None;
    if i < first {
        assert(regions[i] == asset.instrument.regions@[i]@);
    }
}

/// The release time is 0.3 seconds where neither the region nor any region of the
/// instrument sets one.
pub proof fn law_release_where_none_is_set<H>(
    asset: &SfzInstrumentAsset<H>,
    region: &Region,
    release: Float32,
)
    requires
        !(region.opcodes@.contains_key("ampeg_release"@)
            && region.opcodes@["ampeg_release"@] is AmpegRelease),
        forall|i: int|
            0 <= i < asset.instrument.regions@.len() ==> !((
            #[trigger] asset.instrument.regions@[i]).opcodes@.contains_key("ampeg_release"@)
                && asset.instrument.regions@[i].opcodes@["ampeg_release"@] is AmpegRelease),
        call_ensures(SfzInstrumentAsset::<H>::ampeg_release_for_region, (asset, region), release),
    ensures
        release.0 == 0x3e99_999a,
{
    let regions = asset.instrument@.regions;
    law_first_ampeg_release(regions);
    assert forall|i: int| 0 <= i < regions.len() implies ampeg_release_of(
        (#[trigger] regions[i]).opcodes,
    ) is None by {
        assert(regions[i] == asset.instrument.regions@[i]@);
    }
}

} // verus!
