//! Instruments: regions that play samples, and the groups they belong to.

use vstd::prelude::*;

use crate::opcode::{OpcodeMap, OpcodeView};

verus! {

/// Settings that several regions share.
pub struct Group {
    /// The opcodes of the group.
    pub opcodes: OpcodeMap,
}

/// A sample and the settings that say when and how it plays.
pub struct Region {
    /// The index of the group that the region belongs to.
    pub group: Option<usize>,
    /// The opcodes of the region itself.
    pub opcodes: OpcodeMap,
}

/// What a [`Region`] stands for.
#[verifier::ext_equal]
pub struct RegionView {
    pub group: Option<usize>,
    pub opcodes: Map<Seq<char>, OpcodeView>,
}

impl View for Region {
    type V = RegionView;

    open spec fn view(&self) -> RegionView {
        RegionView { group: self.group, opcodes: self.opcodes@ }
    }
}

/// The directory that relative sample paths are read from.
#[derive(Debug, PartialEq, Eq)]
pub enum DefaultPath {
    /// A path that is Unicode: its text.
    Text(String),
    /// A path that is not Unicode: its text with replacement characters for the rest.
    Raw(String),
}

/// What a [`DefaultPath`] stands for.
pub enum DefaultPathView {
    Text(Seq<char>),
    Raw(Seq<char>),
}

impl View for DefaultPath {
    type V = DefaultPathView;

    open spec fn view(&self) -> DefaultPathView {
        match self {
            DefaultPath::Text(text) => DefaultPathView::Text(text@),
            DefaultPath::Raw(lossy) => DefaultPathView::Raw(lossy@),
        }
    }
}

/// An SFZ instrument.
pub struct SfzInstrument {
    /// The opcodes of the instrument as a whole.
    pub global: OpcodeMap,
    /// The groups, in the order of the file.
    pub groups: Vec<Group>,
    /// The regions, in the order of the file.
    pub regions: Vec<Region>,
    /// The directory that relative sample paths are read from.
    pub default_path: DefaultPath,
}

/// What an [`SfzInstrument`] stands for.
#[verifier::ext_equal]
pub struct SfzInstrumentView {
    pub global: Map<Seq<char>, OpcodeView>,
    pub groups: Seq<Map<Seq<char>, OpcodeView>>,
    pub regions: Seq<RegionView>,
    pub default_path: DefaultPathView,
}

impl View for SfzInstrument {
    type V = SfzInstrumentView;

    open spec fn view(&self) -> SfzInstrumentView {
        SfzInstrumentView {
            global: self.global@,
            groups: self.groups@.map_values(|group: Group| group.opcodes@),
            regions: self.regions@.map_values(|region: Region| region@),
            default_path: self.default_path@,
        }
    }
}

} // verus!
