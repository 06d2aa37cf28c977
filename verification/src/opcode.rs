//! The settings of a region or a group, each under its name.

use vstd::hash_map::StringHashMap;
use vstd::prelude::*;

verus! {

/// A single-precision number, carried as the bits that encode it.
///
/// The library hands such numbers on and never computes with them.
#[derive(Clone, Copy, Debug, PartialEq, Eq, Structural)]
pub struct Float32(
    /// The bits of the number, as IEEE 754 encodes it.
    pub u32,
);

/// A setting of a region or a group.
#[derive(Clone, Debug, PartialEq, Eq)]
pub enum SfzOpcode {
    /// The lowest note that triggers.
    Lokey(u8),
    /// The highest note that triggers.
    Hikey(u8),
    /// The lowest velocity that triggers.
    Lovel(u8),
    /// The highest velocity that triggers.
    Hivel(u8),
    /// The path of the sample to play.
    Sample(String),
    /// The note at which the sample sounds at its own pitch.
    PitchKeycenter(u8),
    /// The volume, in decibels.
    Volume(Float32),
    /// The position between left and right, from -100 to 100.
    Pan(Float32),
    /// The tuning offset, in cents.
    Tune(i8),
    /// The release time of the amplitude envelope, in seconds.
    AmpegRelease(Float32),
    /// Any other setting.
    Other,
}

/// What an [`SfzOpcode`] stands for.
pub enum OpcodeView {
    Lokey(u8),
    Hikey(u8),
    Lovel(u8),
    Hivel(u8),
    Sample(Seq<char>),
    PitchKeycenter(u8),
    Volume(Float32),
    Pan(Float32),
    Tune(i8),
    AmpegRelease(Float32),
    Other,
}

impl View for SfzOpcode {
    type V = OpcodeView;

    open spec fn view(&self) -> OpcodeView {
        match self {
            SfzOpcode::Lokey(v) => OpcodeView::Lokey(*v),
            SfzOpcode::Hikey(v) => OpcodeView::Hikey(*v),
            SfzOpcode::Lovel(v) => OpcodeView::Lovel(*v),
            SfzOpcode::Hivel(v) => OpcodeView::Hivel(*v),
            SfzOpcode::Sample(v) => OpcodeView::Sample(v@),
            SfzOpcode::PitchKeycenter(v) => OpcodeView::PitchKeycenter(*v),
            SfzOpcode::Volume(v) => OpcodeView::Volume(*v),
            SfzOpcode::Pan(v) => OpcodeView::Pan(*v),
            SfzOpcode::Tune(v) => OpcodeView::Tune(*v),
            SfzOpcode::AmpegRelease(v) => OpcodeView::AmpegRelease(*v),
            SfzOpcode::Other => OpcodeView::Other,
        }
    }
}

/// The opcodes of a region or a group, each under its name.
pub struct OpcodeMap {
    entries: StringHashMap<SfzOpcode>,
}

impl View for OpcodeMap {
    type V = Map<Seq<char>, OpcodeView>;

    closed spec fn view(&self) -> Map<Seq<char>, OpcodeView> {
        self.entries@.map_values(|opcode: SfzOpcode| opcode@)
    }
}

impl OpcodeMap {
    /// A map without opcodes.
    pub fn new() -> (map: OpcodeMap)
        ensures
            map@ == Map::<Seq<char>, OpcodeView>::empty(),
    {
        let map = OpcodeMap { entries: StringHashMap::new() };
        assert(map@ =~= Map::<Seq<char>, OpcodeView>::empty());
        map
    }

    /// Puts `opcode` under `name`, in place of what stood there.
    pub fn insert(&mut self, name: String, opcode: SfzOpcode)
        ensures
            final(self)@ == old(self)@.insert(name@, opcode@),
    {
        self.entries.insert(name, opcode);
        assert(self@ =~= old(self)@.insert(name@, opcode@));
    }

    /// What stands under `name`.
    pub fn get(&self, name: &str) -> (found: Option<&SfzOpcode>)
        ensures
            match found {
                Some(opcode) => self@.contains_key(name@) && self@[name@] == opcode@,
                None => !self@.contains_key(name@),
            },
    {
        self.entries.get(name)
    }
}

/// What stands under `name` in `opcodes`.
pub open spec fn named(opcodes: Map<Seq<char>, OpcodeView>, name: Seq<char>) -> Option<OpcodeView> {
    if opcodes.contains_key(name) {
        Some(opcodes[name])
    } else {
        None
    }
}

/// One end of the range of notes, or of velocities, that trigger a region.
#[derive(Clone, Copy, Debug, PartialEq, Eq, Structural)]
pub enum Bound {
    Lokey,
    Hikey,
    Lovel,
    Hivel,
}

impl Bound {
    /// The name of the opcode that sets the bound.
    pub open spec fn spec_name(self) -> Seq<char> {
        match self {
            Bound::Lokey => "lokey"@,
            Bound::Hikey => "hikey"@,
            Bound::Lovel => "lovel"@,
            Bound::Hivel => "hivel"@,
        }
    }

    /// The bound where nothing sets it.
    pub open spec fn spec_default(self) -> u8 {
        match self {
            Bound::Lokey | Bound::Lovel => 0,
            Bound::Hikey | Bound::Hivel => 127,
        }
    }

    /// The bound that `opcode` sets, if it sets this one.
    pub open spec fn spec_value(self, opcode: OpcodeView) -> Option<u8> {
        match (self, opcode) {
            (Bound::Lokey, OpcodeView::Lokey(v)) => Some(v),
            (Bound::Hikey, OpcodeView::Hikey(v)) => Some(v),
            (Bound::Lovel, OpcodeView::Lovel(v)) => Some(v),
            (Bound::Hivel, OpcodeView::Hivel(v)) => Some(v),
            _ => None,
        }
    }

    /// The bound that `opcodes` set: what stands under its name, if that sets it.
    pub open spec fn set_by(self, opcodes: Map<Seq<char>, OpcodeView>) -> Option<u8> {
        match named(opcodes, self.spec_name()) {
            Some(opcode) => self.spec_value(opcode),
            None => None,
        }
    }

    /// The name of the opcode that sets the bound.
    pub fn name(self) -> (name: &'static str)
        ensures
            name@ == self.spec_name(),
    {
        match self {
            Bound::Lokey => "lokey",
            Bound::Hikey => "hikey",
            Bound::Lovel => "lovel",
            Bound::Hivel => "hivel",
        }
    }

    /// The bound where nothing sets it: the whole range of a MIDI value is open.
    pub fn default_value(self) -> (value: u8)
        ensures
            value == self.spec_default(),
    {
        match self {
            Bound::Lokey | Bound::Lovel => 0,
            Bound::Hikey | Bound::Hivel => 127,
        }
    }

    /// The bound that `opcodes` set, if they set it.
    pub fn value_in(self, opcodes: &OpcodeMap) -> (value: Option<u8>)
        ensures
            value == self.set_by(opcodes@),
    {
        match (self, opcodes.get(self.name())) {
            (Bound::Lokey, Some(SfzOpcode::Lokey(v))) => Some(*v),
            (Bound::Hikey, Some(SfzOpcode::Hikey(v))) => Some(*v),
            (Bound::Lovel, Some(SfzOpcode::Lovel(v))) => Some(*v),
            (Bound::Hivel, Some(SfzOpcode::Hivel(v))) => Some(*v),
            _ => None,
        }
    }
}

/// A setting stands for itself: for the setting of its kind with its value.
pub proof fn law_a_setting_keeps_its_value(note: u8, text: String, number: Float32, cents: i8)
    ensures
        SfzOpcode::Lokey(note)@ == OpcodeView::Lokey(note),
        SfzOpcode::Hikey(note)@ == OpcodeView::Hikey(note),
        SfzOpcode::Lovel(note)@ == OpcodeView::Lovel(note),
        SfzOpcode::Hivel(note)@ == OpcodeView::Hivel(note),
        SfzOpcode::Sample(text)@ == OpcodeView::Sample(text@),
        SfzOpcode::PitchKeycenter(note)@ == OpcodeView::PitchKeycenter(note),
        SfzOpcode::Volume(number)@ == OpcodeView::Volume(number),
        SfzOpcode::Pan(number)@ == OpcodeView::Pan(number),
        SfzOpcode::Tune(cents)@ == OpcodeView::Tune(cents),
        SfzOpcode::AmpegRelease(number)@ == OpcodeView::AmpegRelease(number),
        SfzOpcode::Other@ == OpcodeView::Other,
{
}

/// What was put under a name is found there, and what stands under the other names stays.
pub proof fn law_what_was_put_is_found(
    map: &mut OpcodeMap,
    name: String,
    opcode: SfzOpcode,
    asked: &str,
    found: Option<&SfzOpcode>,
    found_before: Option<&SfzOpcode>,
)
    requires
        call_ensures(OpcodeMap::get, (&*old(map), asked), found_before),
        call_ensures(OpcodeMap::insert, (map, name, opcode), ()),
        call_ensures(OpcodeMap::get, (&*final(map), asked), found),
    ensures
        asked@ == name@ ==> found is Some && found->0@ == opcode@,
        asked@ != name@ && found_before is None ==> found is None,
        asked@ != name@ && found_before is Some ==> found is Some && found->0@
            == found_before->0@,
{
}

/// Nothing is found in a new map.
pub proof fn law_a_new_map_is_empty(map: OpcodeMap, asked: &str, found: Option<&SfzOpcode>)
    requires
        call_ensures(OpcodeMap::new, (), map),
        call_ensures(OpcodeMap::get, (&map, asked), found),
    ensures
        found is None,
{
}

} // verus!
