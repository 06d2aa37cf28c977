//! Loading an instrument: from the text of an SFZ file to the handles of its samples.
//!
//! Reading the file, running the parser and asking the asset server for a sample are
//! left to the caller. The steps between them are here: [`SfzAssetLoader::plan`] takes
//! what the parser gave and says which samples to ask for under which paths, and
//! [`LoadPlan::finish`] takes the handles that came back.

use vstd::hash_map::StringHashMap;
use vstd::prelude::*;
use vstd::utf8::decode_utf8;

use crate::asset::{sample_of, value_or, SampleMap, SfzInstrumentAsset};
use crate::encode::{
    encode_path, law_url_path_decodes, law_url_path_is_plain, percent_decoded, url_path,
};
use crate::instrument::{
    DefaultPath, DefaultPathView, RegionView, SfzInstrument, SfzInstrumentView,
};
use crate::opcode::{SfzOpcode, OpcodeMap, OpcodeView};
use crate::parsed::{
    import, imported, imported_opcodes, law_import_keeps_settings, parsed_regions, parsed_view,
};
use crate::path::{
    components, file_stem, file_stem_of, inner_components, is_relative, is_rooted, join,
    join_of, law_join_continues_the_base, law_normal_form_identifies_paths, normal_form,
    normalized, parent, parent_of, same_path,
};
use crate::text::{contains, contains_text, occurs_at};

verus! {

/// What can go wrong while an instrument is loaded.
#[derive(Clone, Debug, PartialEq, Eq)]
pub enum SfzLoaderError {
    /// The file could not be read: what the system says.
    Io(String),
    /// The file could not be parsed: why.
    Parse(String),
    /// A sample was not found: which.
    SampleNotFound(String),
}

/// What a [`SfzLoaderError`] stands for.
pub enum SfzLoaderErrorView {
    Io(Seq<char>),
    Parse(Seq<char>),
    SampleNotFound(Seq<char>),
}

impl View for SfzLoaderError {
    type V = SfzLoaderErrorView;

    open spec fn view(&self) -> SfzLoaderErrorView {
        match self {
            SfzLoaderError::Io(text) => SfzLoaderErrorView::Io(text@),
            SfzLoaderError::Parse(text) => SfzLoaderErrorView::Parse(text@),
            SfzLoaderError::SampleNotFound(text) => SfzLoaderErrorView::SampleNotFound(text@),
        }
    }
}

/// What an error says to the user.
pub open spec fn message_of(error: SfzLoaderErrorView) -> Seq<char> {
    match error {
        SfzLoaderErrorView::Io(text) => "Failed to read SFZ file: "@ + text,
        SfzLoaderErrorView::Parse(text) => "Failed to parse SFZ: "@ + text,
        SfzLoaderErrorView::SampleNotFound(text) => "Sample file not found: "@ + text,
    }
}

/// The error for a parser that gave up with `reason`.
pub open spec fn parse_failure(reason: Seq<char>) -> SfzLoaderErrorView {
    if contains_text(reason, "No such file"@) || contains_text(reason, "cannot find"@) {
        SfzLoaderErrorView::SampleNotFound("Sample file not found: "@ + reason)
    } else {
        SfzLoaderErrorView::Parse("Failed to parse SFZ: "@ + reason)
    }
}

/// The error for a parser that panicked.
pub open spec fn parse_panic() -> SfzLoaderErrorView {
    SfzLoaderErrorView::Parse("Sofiza library panicked during parsing"@)
}

/// `front` followed by `text`.
fn prefixed(front: &str, text: &str) -> (whole: String)
    ensures
        whole@ == front@ + text@,
{
    front.to_owned().concat(text)
}

impl SfzLoaderError {
    /// What the error says to the user.
    pub fn message(&self) -> (message: String)
        ensures
            message@ == message_of(self@),
    {
        match self {
            SfzLoaderError::Io(text) => prefixed("Failed to read SFZ file: ", text.as_str()),
            SfzLoaderError::Parse(text) => prefixed("Failed to parse SFZ: ", text.as_str()),
            SfzLoaderError::SampleNotFound(text) => prefixed(
                "Sample file not found: ",
                text.as_str(),
            ),
        }
    }

    /// The error for a parser that gave up with `reason`. A reason that speaks of a
    /// missing file means that a sample is missing.
    pub fn from_parse_failure(reason: &str) -> (error: SfzLoaderError)
        ensures
            error@ == parse_failure(reason@),
    {
        if contains(reason, "No such file") || contains(reason, "cannot find") {
            SfzLoaderError::SampleNotFound(prefixed("Sample file not found: ", reason))
        } else {
            SfzLoaderError::Parse(prefixed("Failed to parse SFZ: ", reason))
        }
    }

    /// The error for a parser that panicked.
    pub fn from_parse_panic() -> (error: SfzLoaderError)
        ensures
            error@ == parse_panic(),
    {
        SfzLoaderError::Parse("Sofiza library panicked during parsing".to_owned())
    }
}

/// What came of parsing an SFZ file.
pub enum ParseOutcome {
    /// The parser returned an instrument.
    Parsed(sofiza::Instrument),
    /// The parser returned an error: its debug text.
    Failed(String),
    /// The parser panicked.
    Panicked,
}

/// Whether `paths` has an entry that names the same path as `path`.
pub open spec fn has_path(paths: Seq<Seq<char>>, path: Seq<char>) -> bool {
    exists|k: int| 0 <= k < paths.len() && same_path(#[trigger] paths[k], path)
}

/// The sample paths that the opcodes in `lists` set, in order, without those that name
/// the path of an earlier one.
pub open spec fn distinct_samples(lists: Seq<Map<Seq<char>, OpcodeView>>) -> Seq<Seq<char>>
    decreases lists.len(),
{
    if lists.len() == 0 {
        Seq::empty()
    } else {
        let before = distinct_samples(lists.drop_last());
        match sample_of(lists.last()) {
            Some(path) => if has_path(before, path) {
                before
            } else {
                before.push(path)
            },
            None => before,
        }
    }
}

/// All the opcodes of `instrument`: those of its regions, then those of its groups, then
/// its own.
pub open spec fn opcode_lists(instrument: SfzInstrumentView) -> Seq<Map<Seq<char>, OpcodeView>> {
    instrument.regions.map_values(|region: RegionView| region.opcodes) + instrument.groups
        + seq![instrument.global]
}

/// The sample paths that `instrument` refers to: those of its regions, then those of its
/// groups, then its own, without those that name the path of an earlier one.
pub open spec fn referenced_samples(instrument: SfzInstrumentView) -> Seq<Seq<char>> {
    distinct_samples(opcode_lists(instrument))
}

/// The path under which the asset server has a sample.
#[derive(Debug, PartialEq, Eq)]
pub enum AssetPath {
    /// The path is this text.
    Text(String),
    /// The path has no text: it is the default path, which is not Unicode, followed by
    /// the path of the sample.
    BelowDefault,
}

/// What an [`AssetPath`] stands for.
pub enum AssetPathView {
    Text(Seq<char>),
    BelowDefault,
}

impl View for AssetPath {
    type V = AssetPathView;

    open spec fn view(&self) -> AssetPathView {
        match self {
            AssetPath::Text(text) => AssetPathView::Text(text@),
            AssetPath::BelowDefault => AssetPathView::BelowDefault,
        }
    }
}

/// The path under which the asset server has the sample `path` of an instrument whose
/// default path is `default_path`; `in_url`: where the server reads paths as URLs, and a
/// default path that is not Unicode counts by its text with replacement characters.
pub open spec fn asset_path_of(
    default_path: DefaultPathView,
    path: Seq<char>,
    in_url: bool,
) -> AssetPathView {
    match default_path {
        DefaultPathView::Text(text) => if in_url {
            AssetPathView::Text(url_path(join_of(text, path)))
        } else {
            AssetPathView::Text(join_of(text, path))
        },
        DefaultPathView::Raw(lossy) => if in_url {
            AssetPathView::Text(url_path(join_of(lossy, path)))
        } else if is_rooted(path) {
            AssetPathView::Text(path)
        } else {
            AssetPathView::BelowDefault
        },
    }
}

/// A sample to ask the asset server for.
pub struct SampleRequest {
    /// The path that the instrument has for the sample.
    pub sample_path: String,
    /// The path to ask for.
    pub asset_path: AssetPath,
}

/// What a [`SampleRequest`] stands for.
pub struct SampleRequestView {
    pub sample_path: Seq<char>,
    pub asset_path: AssetPathView,
}

impl View for SampleRequest {
    type V = SampleRequestView;

    open spec fn view(&self) -> SampleRequestView {
        SampleRequestView { sample_path: self.sample_path@, asset_path: self.asset_path@ }
    }
}

/// An instrument whose samples are still to be asked for.
pub struct LoadPlan {
    /// The instrument, with the opcodes that the library asks for.
    pub instrument: SfzInstrument,
    /// The instrument as it was parsed.
    pub parsed: sofiza::Instrument,
    /// The name of the instrument.
    pub name: String,
    /// The samples to ask for.
    pub samples: Vec<SampleRequest>,
}

/// What a [`LoadPlan`] stands for.
#[verifier::ext_equal]
pub struct LoadPlanView {
    pub instrument: SfzInstrumentView,
    pub parsed: sofiza::Instrument,
    pub name: Seq<char>,
    pub samples: Seq<SampleRequestView>,
}

impl View for LoadPlan {
    type V = LoadPlanView;

    open spec fn view(&self) -> LoadPlanView {
        LoadPlanView {
            instrument: self.instrument@,
            parsed: self.parsed,
            name: self.name@,
            samples: self.samples@.map_values(|request: SampleRequest| request@),
        }
    }
}

/// What to ask for, for the samples of `instrument`.
pub open spec fn requests_for(instrument: SfzInstrumentView, in_url: bool) -> Seq<
    SampleRequestView,
> {
    referenced_samples(instrument).map_values(
        |path: Seq<char>|
            SampleRequestView {
                sample_path: path,
                asset_path: asset_path_of(instrument.default_path, path, in_url),
            },
    )
}

/// The plan for `instrument`, which was parsed as `parsed`, under the name `name`.
pub open spec fn plan_for(
    instrument: SfzInstrumentView,
    parsed: sofiza::Instrument,
    name: Seq<char>,
    in_url: bool,
) -> LoadPlanView {
    LoadPlanView { instrument, parsed, name, samples: requests_for(instrument, in_url) }
}

/// The sample paths found so far.
struct SampleList {
    /// The paths, in the order in which they were found.
    paths: Vec<String>,
    /// Their normal forms.
    seen: StringHashMap<()>,
}

impl SampleList {
    /// The list holds the sample paths that the opcodes in `lists` set.
    spec fn holds(self, lists: Seq<Map<Seq<char>, OpcodeView>>) -> bool {
        &&& self.paths@.map_values(|path: String| path@) == distinct_samples(lists)
        &&& forall|path: Seq<char>|
            #![trigger has_path(distinct_samples(lists), path)]
            self.seen@.contains_key(normal_form(path)) <==> has_path(distinct_samples(lists), path)
    }

    /// Adds the sample path that `opcodes` set, if it is new.
    fn add(&mut self, opcodes: &OpcodeMap, Ghost(lists): Ghost<Seq<Map<Seq<char>, OpcodeView>>>)
        requires
            old(self).holds(lists),
        ensures
            final(self).holds(lists.push(opcodes@)),
    {
        let ghost before = distinct_samples(lists);
        let ghost after = distinct_samples(lists.push(opcodes@));
        let ghost seen_before = self.seen@;
        assert(lists.push(opcodes@).drop_last() =~= lists);
        if let Some(SfzOpcode::Sample(path)) = opcodes.get("sample") {
            let key = normalized(path.as_str());
            assert(self.seen@.contains_key(key@) <==> has_path(before, path@));
            if !self.seen.contains_key(key.as_str()) {
                self.paths.push(path.clone());
                self.seen.insert(key, ());
                assert(after == before.push(path@));
                assert(self.paths@.map_values(|path: String| path@) =~= after);
                proof {
                    assert forall|other: Seq<char>|
                        #![trigger has_path(after, other)]
                        self.seen@.contains_key(normal_form(other)) <==> has_path(after, other) by {
                        law_normal_form_identifies_paths(path@, other);
                        assert(has_path(before, other) <==> seen_before.contains_key(
                            normal_form(other),
                        ));
                        if has_path(before, other) {
                            let k = choose|k: int|
                                0 <= k < before.len() && same_path(#[trigger] before[k], other);
                            assert(after[k] == before[k]);
                        }
                        assert(after[before.len() as int] == path@);
                        if has_path(after, other) {
                            let k = choose|k: int|
                                0 <= k < after.len() && same_path(#[trigger] after[k], other);
                            if k < before.len() {
                                assert(before[k] == after[k]);
                            }
                        }
                    }
                }
            }
        }
    }
}

/// The sample paths that `instrument` refers to, without those that name the path of an
/// earlier one.
fn collect_samples(instrument: &SfzInstrument) -> (paths: Vec<String>)
    ensures
        paths@.map_values(|path: String| path@) == referenced_samples(instrument@),
{
    let ghost lists = opcode_lists(instrument@);
    let mut found = SampleList { paths: Vec::new(), seen: StringHashMap::new() };
    assert(found.paths@.map_values(|path: String| path@) =~= distinct_samples(lists.take(0)));
    let total_regions: usize = instrument.regions.len();
    let mut i: usize = 0;
    while i < total_regions
        invariant
            lists == opcode_lists(instrument@),
            i <= total_regions == instrument.regions@.len(),
            found.holds(lists.take(i as int)),
        decreases total_regions - i,
    {
        assert(lists[i as int] == instrument.regions@[i as int].opcodes@);
        assert(lists.take(i + 1) =~= lists.take(i as int).push(lists[i as int]));
        found.add(&instrument.regions[i].opcodes, Ghost(lists.take(i as int)));
        i += 1;
    }
    let mut j: usize = 0;
    while j < instrument.groups.len()
        invariant
            lists == opcode_lists(instrument@),
            total_regions == instrument.regions@.len(),
            j <= instrument.groups@.len(),
            found.holds(lists.take(total_regions + j)),
        decreases instrument.groups@.len() - j,
    {
        let ghost at = total_regions + j;
        assert(lists[at] == instrument.groups@[j as int].opcodes@);
        assert(lists.take(at + 1) =~= lists.take(at).push(lists[at]));
        found.add(&instrument.groups[j].opcodes, Ghost(lists.take(at)));
        j += 1;
    }
    let ghost at = total_regions + j;
    assert(lists[at] == instrument.global@);
    assert(lists =~= lists.take(at).push(lists[at]));
    found.add(&instrument.global, Ghost(lists.take(at)));
    found.paths
}

/// The path under which the asset server has the sample `path`.
fn asset_path(default_path: &DefaultPath, path: &str, in_url: bool) -> (found: AssetPath)
    ensures
        found@ == asset_path_of(default_path@, path@, in_url),
{
    match default_path {
        DefaultPath::Text(text) => {
            let whole = join(text.as_str(), path);
            if in_url {
                AssetPath::Text(encode_path(whole.as_str()))
            } else {
                AssetPath::Text(whole)
            }
        },
        DefaultPath::Raw(lossy) => {
            if in_url {
                let whole = join(lossy.as_str(), path);
                AssetPath::Text(encode_path(whole.as_str()))
            } else if is_relative(path) {
                AssetPath::BelowDefault
            } else {
                AssetPath::Text(path.to_owned())
            }
        },
    }
}

impl LoadPlan {
    /// The plan for `instrument`, which was parsed as `parsed`, under the name `name`:
    /// each sample that it refers to is asked for once, relative paths from its default
    /// path. `in_url` says that the asset server reads paths as URLs, which is so in a
    /// browser.
    pub fn for_instrument(
        instrument: SfzInstrument,
        parsed: sofiza::Instrument,
        name: String,
        in_url: bool,
    ) -> (plan: LoadPlan)
        ensures
            plan@ == plan_for(instrument@, parsed, name@, in_url),
            plan.instrument == instrument,
            plan.parsed == parsed,
            plan.name == name,
    {
        let paths = collect_samples(&instrument);
        let ghost referenced = referenced_samples(instrument@);
        let mut samples: Vec<SampleRequest> = Vec::new();
        let mut i: usize = 0;
        while i < paths.len()
            invariant
                paths@.map_values(|path: String| path@) == referenced,
                i <= paths@.len(),
                samples@.len() == i,
                forall|k: int|
                    0 <= k < i ==> {
                        &&& (#[trigger] samples@[k]).sample_path@ == referenced[k]
                        &&& samples@[k].asset_path@ == asset_path_of(
                            instrument@.default_path,
                            referenced[k],
                            in_url,
                        )
                    },
            decreases paths@.len() - i,
        {
            assert(paths@[i as int]@ == referenced[i as int]);
            let asset_path = asset_path(&instrument.default_path, paths[i].as_str(), in_url);
            samples.push(SampleRequest { sample_path: paths[i].clone(), asset_path });
            i += 1;
        }
        let plan = LoadPlan { instrument, parsed, name, samples };
        assert(plan@.samples =~= requests_for(instrument@, in_url));
        plan
    }
}

/// The handles of the samples, each under the normal form of its path; of two for one
/// path, the later one.
pub open spec fn handles_by_path<H>(
    requests: Seq<SampleRequestView>,
    handles: Seq<H>,
) -> Map<Seq<char>, H>
    decreases handles.len(),
{
    if handles.len() == 0 {
        Map::empty()
    } else {
        handles_by_path(requests, handles.drop_last()).insert(
            normal_form(requests[handles.len() - 1].sample_path),
            handles.last(),
        )
    }
}

impl LoadPlan {
    /// The loaded instrument, where `handles` are the handles that the asset server gave
    /// out for the samples of the plan, in their order.
    pub fn finish<H>(self, handles: Vec<H>) -> (asset: SfzInstrumentAsset<H>)
        requires
            handles@.len() == self@.samples.len(),
        ensures
            asset.instrument == self.instrument,
            asset.parsed == self.parsed,
            asset.name == self.name,
            asset.samples@ == handles_by_path(self@.samples, handles@),
    {
        let LoadPlan { instrument, parsed, name, samples: requests } = self;
        let mut samples: SampleMap<H> = SampleMap::new();
        let mut i: usize = 0;
        for handle in it: handles
            invariant
                it.seq() == handles@,
                i == it.index(),
                requests@.len() == handles@.len(),
                self@.samples == requests@.map_values(|request: SampleRequest| request@),
                samples@ == handles_by_path(self@.samples, handles@.take(i as int)),
        {
            assert(handles@.take(i + 1).drop_last() =~= handles@.take(i as int));
            assert(i < requests.len());
            samples.insert(requests[i].sample_path.as_str(), handle);
            i += 1;
        }
        assert(handles@.take(handles@.len() as int) =~= handles@);
        SfzInstrumentAsset { instrument, parsed, samples, name }
    }
}

/// Loads SFZ files.
#[derive(Clone, Copy, Debug)]
pub struct SfzAssetLoader;

impl Default for SfzAssetLoader {
    fn default() -> (loader: SfzAssetLoader)
        ensures
            loader == SfzAssetLoader,
    {
        SfzAssetLoader
    }
}

/// The name of an instrument whose file has none.
pub open spec fn unknown_name() -> Seq<char> {
    "Unknown SFZ Instrument"@
}

impl SfzAssetLoader {
    /// The extensions of the files that the loader loads.
    pub fn extensions(&self) -> (extensions: &[&str])
        ensures
            extensions@.len() == 1,
            extensions@[0]@ == "sfz"@,
    {
        &["sfz"]
    }

    /// The directory of the SFZ file `file`, which its samples are looked for in.
    pub fn base_directory(&self, file: &str) -> (directory: String)
        ensures
            directory@ == value_or(parent_of(file@), Seq::empty()),
    {
        match parent(file) {
            Some(directory) => directory,
            None => String::new(),
        }
    }

    /// The name for the instrument in the SFZ file `file`; `None` stands for a path that
    /// is not text.
    pub fn instrument_name(&self, file: Option<&str>) -> (name: String)
        ensures
            name@ == match file {
                Some(path) => value_or(file_stem_of(path@), unknown_name()),
                None => unknown_name(),
            },
    {
        if let Some(path) = file {
            if let Some(stem) = file_stem(path) {
                return stem;
            }
        }
        "Unknown SFZ Instrument".to_owned()
    }

    /// What to do when the parser is done: which samples to ask for, or the error to
    /// report.
    pub fn plan(&self, outcome: ParseOutcome, name: String, in_url: bool) -> (plan: Result<
        LoadPlan,
        SfzLoaderError,
    >)
        ensures
            match outcome {
                ParseOutcome::Parsed(parsed) => plan is Ok && plan->Ok_0@ == plan_for(
                    imported(parsed_view(parsed)),
                    parsed,
                    name@,
                    in_url,
                ),
                ParseOutcome::Failed(reason) => plan is Err && plan->Err_0@ == parse_failure(
                    reason@,
                ),
                ParseOutcome::Panicked => plan is Err && plan->Err_0@ == parse_panic(),
            },
    {
        match outcome {
            ParseOutcome::Parsed(parsed) => Ok(
                LoadPlan::for_instrument(import(&parsed), parsed, name, in_url),
            ),
            ParseOutcome::Failed(reason) => Err(
                SfzLoaderError::from_parse_failure(reason.as_str()),
            ),
            ParseOutcome::Panicked => Err(SfzLoaderError::from_parse_panic()),
        }
    }
}

proof fn lemma_only_set_samples(lists: Seq<Map<Seq<char>, OpcodeView>>, k: int)
    requires
        0 <= k < distinct_samples(lists).len(),
    ensures
        exists|i: int|
            0 <= i < lists.len() && sample_of(#[trigger] lists[i]) == Some(
                distinct_samples(lists)[k],
            ),
    decreases lists.len(),
{
    let earlier = lists.drop_last();
    let before = distinct_samples(earlier);
    if k < before.len() {
        lemma_only_set_samples(earlier, k);
        let i = choose|i: int|
            0 <= i < earlier.len() && sample_of(#[trigger] earlier[i]) == Some(before[k]);
        assert(lists[i] == earlier[i]);
    } else {
        assert(lists[lists.len() - 1] == lists.last());
    }
}

proof fn lemma_all_set_samples(lists: Seq<Map<Seq<char>, OpcodeView>>, i: int)
    requires
        0 <= i < lists.len(),
        sample_of(lists[i]) is Some,
    ensures
        has_path(distinct_samples(lists), sample_of(lists[i])->0),
    decreases lists.len(),
{
    let earlier = lists.drop_last();
    let before = distinct_samples(earlier);
    let all = distinct_samples(lists);
    let path = sample_of(lists[i])->0;
    if i < earlier.len() {
        lemma_all_set_samples(earlier, i);
        let k = choose|k: int| 0 <= k < before.len() && same_path(#[trigger] before[k], path);
        assert(all[k] == before[k]);
    } else if !has_path(before, path) {
        assert(all[before.len() as int] == path);
    }
}

proof fn lemma_distinct_samples(lists: Seq<Map<Seq<char>, OpcodeView>>, j: int, k: int)
    requires
        0 <= j < k < distinct_samples(lists).len(),
    ensures
        !same_path(distinct_samples(lists)[j], distinct_samples(lists)[k]),
    decreases lists.len(),
{
    let earlier = lists.drop_last();
    let before = distinct_samples(earlier);
    if k < before.len() {
        lemma_distinct_samples(earlier, j, k);
    } else {
        assert(distinct_samples(lists)[j] == before[j]);
    }
}

/// `instrument` refers to the sample `path`: one of its regions, one of its groups or the
/// instrument as a whole sets it.
pub open spec fn refers_to(instrument: SfzInstrumentView, path: Seq<char>) -> bool {
    ||| exists|i: int|
        0 <= i < instrument.regions.len() && sample_of((#[trigger] instrument.regions[i]).opcodes)
            == Some(path)
    ||| exists|g: int|
        0 <= g < instrument.groups.len() && sample_of(#[trigger] instrument.groups[g]) == Some(path)
    ||| sample_of(instrument.global) == Some(path)
}

/// Each sample path that is asked for is one that the instrument refers to.
pub proof fn law_only_referenced_samples(instrument: SfzInstrumentView, k: int)
    requires
        0 <= k < referenced_samples(instrument).len(),
    ensures
        refers_to(instrument, referenced_samples(instrument)[k]),
{
    let lists = opcode_lists(instrument);
    let path = referenced_samples(instrument)[k];
    let first = instrument.regions.len() as int;
    let second = first + instrument.groups.len();
    lemma_only_set_samples(lists, k);
    let i = choose|i: int| 0 <= i < lists.len() && sample_of(#[trigger] lists[i]) == Some(path);
    if i < first {
        assert(sample_of(instrument.regions[i].opcodes) == Some(path));
    } else if i < second {
        assert(sample_of(instrument.groups[i - first]) == Some(path));
    }
}

/// Each sample path that the instrument refers to is asked for, by this or another text.
pub proof fn law_all_referenced_samples(instrument: SfzInstrumentView, path: Seq<char>)
    requires
        refers_to(instrument, path),
    ensures
        has_path(referenced_samples(instrument), path),
{
    let lists = opcode_lists(instrument);
    let first = instrument.regions.len() as int;
    let second = first + instrument.groups.len();
    if exists|i: int|
        0 <= i < first && sample_of((#[trigger] instrument.regions[i]).opcodes) == Some(path) {
        let i = choose|i: int|
            0 <= i < first && sample_of((#[trigger] instrument.regions[i]).opcodes) == Some(path);
        assert(lists[i] == instrument.regions[i].opcodes);
        lemma_all_set_samples(lists, i);
    } else if exists|g: int|
        0 <= g < instrument.groups.len() && sample_of(#[trigger] instrument.groups[g]) == Some(
            path,
        ) {
        let g = choose|g: int|
            0 <= g < instrument.groups.len() && sample_of(#[trigger] instrument.groups[g]) == Some(
                path,
            );
        assert(lists[first + g] == instrument.groups[g]);
        lemma_all_set_samples(lists, first + g);
    } else {
        assert(lists[second] == instrument.global);
        lemma_all_set_samples(lists, second);
    }
}

/// No two of the sample paths that are asked for name the same path.
pub proof fn law_samples_are_asked_for_once(instrument: SfzInstrumentView, j: int, k: int)
    requires
        0 <= j < k < referenced_samples(instrument).len(),
    ensures
        !same_path(referenced_samples(instrument)[j], referenced_samples(instrument)[k]),
{
    lemma_distinct_samples(opcode_lists(instrument), j, k);
}

proof fn lemma_import_keeps_distinct_samples(lists: Seq<Map<Seq<char>, OpcodeView>>)
    ensures
        distinct_samples(
            lists.map_values(|opcodes: Map<Seq<char>, OpcodeView>| imported_opcodes(opcodes)),
        ) == distinct_samples(lists),
    decreases lists.len(),
{
    if lists.len() > 0 {
        let taken = lists.map_values(
            |opcodes: Map<Seq<char>, OpcodeView>| imported_opcodes(opcodes),
        );
        lemma_import_keeps_distinct_samples(lists.drop_last());
        law_import_keeps_settings(lists.last());
        assert(taken.drop_last() =~= lists.drop_last().map_values(
            |opcodes: Map<Seq<char>, OpcodeView>| imported_opcodes(opcodes),
        ));
    }
}

/// The same samples are asked for before and after the instrument is taken over from the
/// parser.
pub proof fn law_import_keeps_samples(instrument: SfzInstrumentView)
    ensures
        referenced_samples(imported(instrument)) == referenced_samples(instrument),
{
    lemma_import_keeps_distinct_samples(opcode_lists(instrument));
    assert(opcode_lists(imported(instrument)) =~= opcode_lists(instrument).map_values(
        |opcodes: Map<Seq<char>, OpcodeView>| imported_opcodes(opcodes),
    ));
}

proof fn lemma_handles_by_path<H>(requests: Seq<SampleRequestView>, handles: Seq<H>, k: int)
    requires
        0 <= k < handles.len() <= requests.len(),
        forall|i: int, j: int|
            0 <= i < j < requests.len() ==> !same_path(
                (#[trigger] requests[i]).sample_path,
                (#[trigger] requests[j]).sample_path,
            ),
    ensures
        ({
            let key = normal_form(requests[k].sample_path);
            &&& handles_by_path(requests, handles).contains_key(key)
            &&& handles_by_path(requests, handles)[key] == handles[k]
        }),
    decreases handles.len(),
{
    let last = handles.len() - 1;
    if k < last {
        lemma_handles_by_path(requests, handles.drop_last(), k);
        law_normal_form_identifies_paths(requests[k].sample_path, requests[last].sample_path);
        assert(handles[k] == handles.drop_last()[k]);
    }
}

proof fn lemma_requests_are_distinct(instrument: SfzInstrumentView, in_url: bool)
    ensures
        ({
            let requests = requests_for(instrument, in_url);
            forall|i: int, j: int|
                0 <= i < j < requests.len() ==> !same_path(
                    (#[trigger] requests[i]).sample_path,
                    (#[trigger] requests[j]).sample_path,
                )
        }),
{
    let requests = requests_for(instrument, in_url);
    assert forall|i: int, j: int| 0 <= i < j < requests.len() implies !same_path(
        (#[trigger] requests[i]).sample_path,
        (#[trigger] requests[j]).sample_path,
    ) by {
        law_samples_are_asked_for_once(instrument, i, j);
    }
}

/// A loaded instrument has a handle for each sample that it refers to: the one that was
/// given out for the path that names the sample.
pub proof fn law_every_sample_has_its_handle<H>(
    instrument: SfzInstrumentView,
    in_url: bool,
    handles: Seq<H>,
    path: Seq<char>,
)
    requires
        handles.len() == requests_for(instrument, in_url).len(),
        refers_to(instrument, path),
    ensures
        ({
            let requests = requests_for(instrument, in_url);
            let samples = handles_by_path(requests, handles);
            &&& samples.contains_key(normal_form(path))
            &&& exists|k: int|
                0 <= k < handles.len() && same_path((#[trigger] requests[k]).sample_path, path)
                    && samples[normal_form(path)] == handles[k]
        }),
{
    let referenced = referenced_samples(instrument);
    let requests = requests_for(instrument, in_url);
    law_all_referenced_samples(instrument, path);
    let k = choose|k: int| 0 <= k < referenced.len() && same_path(#[trigger] referenced[k], path);
    lemma_requests_are_distinct(instrument, in_url);
    lemma_handles_by_path(requests, handles, k);
    law_normal_form_identifies_paths(referenced[k], path);
    assert(requests[k].sample_path == referenced[k]);
}

/// A loaded instrument has a handle for the sample of each of its regions.
pub proof fn law_region_samples_have_handles<H>(
    instrument: SfzInstrumentView,
    in_url: bool,
    handles: Seq<H>,
    i: int,
)
    requires
        handles.len() == requests_for(instrument, in_url).len(),
        0 <= i < instrument.regions.len(),
        sample_of(instrument.regions[i].opcodes) is Some,
    ensures
        handles_by_path(requests_for(instrument, in_url), handles).contains_key(
            normal_form(sample_of(instrument.regions[i].opcodes)->0),
        ),
{
    let path = sample_of(instrument.regions[i].opcodes)->0;
    law_every_sample_has_its_handle(instrument, in_url, handles, path);
}

/// A loaded instrument has a handle for the sample of each of its groups.
pub proof fn law_group_samples_have_handles<H>(
    instrument: SfzInstrumentView,
    in_url: bool,
    handles: Seq<H>,
    g: int,
)
    requires
        handles.len() == requests_for(instrument, in_url).len(),
        0 <= g < instrument.groups.len(),
        sample_of(instrument.groups[g]) is Some,
    ensures
        handles_by_path(requests_for(instrument, in_url), handles).contains_key(
            normal_form(sample_of(instrument.groups[g])->0),
        ),
{
    let path = sample_of(instrument.groups[g])->0;
    law_every_sample_has_its_handle(instrument, in_url, handles, path);
}

/// A loaded instrument has a handle for the sample of the instrument as a whole.
pub proof fn law_global_sample_has_handle<H>(
    instrument: SfzInstrumentView,
    in_url: bool,
    handles: Seq<H>,
)
    requires
        handles.len() == requests_for(instrument, in_url).len(),
        sample_of(instrument.global) is Some,
    ensures
        handles_by_path(requests_for(instrument, in_url), handles).contains_key(
            normal_form(sample_of(instrument.global)->0),
        ),
{
    let path = sample_of(instrument.global)->0;
    law_every_sample_has_its_handle(instrument, in_url, handles, path);
}

/// A loaded instrument has as many handles as samples were asked for.
pub proof fn law_one_handle_for_each_request<H>(
    instrument: SfzInstrumentView,
    in_url: bool,
    handles: Seq<H>,
)
    requires
        handles.len() == requests_for(instrument, in_url).len(),
    ensures
        handles_by_path(requests_for(instrument, in_url), handles).len() == handles.len(),
{
    let requests = requests_for(instrument, in_url);
    lemma_requests_are_distinct(instrument, in_url);
    lemma_handles_by_path_len(requests, handles);
}

proof fn lemma_handles_by_path_len<H>(requests: Seq<SampleRequestView>, handles: Seq<H>)
    requires
        handles.len() <= requests.len(),
        forall|i: int, j: int|
            0 <= i < j < requests.len() ==> !same_path(
                (#[trigger] requests[i]).sample_path,
                (#[trigger] requests[j]).sample_path,
            ),
    ensures
        handles_by_path(requests, handles).dom().finite(),
        handles_by_path(requests, handles).len() == handles.len(),
        forall|key: Seq<char>|
            #[trigger] handles_by_path(requests, handles).contains_key(key) ==> exists|k: int|
                0 <= k < handles.len() && key == normal_form((#[trigger] requests[k]).sample_path),
    decreases handles.len(),
{
    if handles.len() > 0 {
        let last = handles.len() - 1;
        let before = handles_by_path(requests, handles.drop_last());
        lemma_handles_by_path_len(requests, handles.drop_last());
        let key = normal_form(requests[last].sample_path);
        if before.contains_key(key) {
            let k = choose|k: int|
                0 <= k < last && key == normal_form((#[trigger] requests[k]).sample_path);
            law_normal_form_identifies_paths(requests[k].sample_path, requests[last].sample_path);
        }
        assert(key == normal_form(requests[last].sample_path));
    }
}

/// An absolute sample path is asked for as it is.
pub proof fn law_absolute_sample_path(default_path: DefaultPathView, path: Seq<char>)
    requires
        is_rooted(path),
    ensures
        asset_path_of(default_path, path, false) == AssetPathView::Text(path),
{
}

/// A relative sample path is asked for below a default path that is Unicode: by the
/// components of the default path and then its own.
pub proof fn law_relative_sample_path(default_path: Seq<char>, path: Seq<char>)
    requires
        !is_rooted(path),
        default_path.len() > 0 || inner_components(path) == components(path),
    ensures
        asset_path_of(DefaultPathView::Text(default_path), path, false) matches AssetPathView::Text(
            whole,
        ) && is_rooted(whole) == is_rooted(default_path) && components(whole) == components(
            default_path,
        ) + inner_components(path),
{
    law_join_continues_the_base(default_path, path);
}

/// Where the asset server reads paths as URLs, each path that is asked for is text and
/// holds no `#`.
pub proof fn law_no_fragment_in_url(default_path: DefaultPathView, path: Seq<char>)
    ensures
        asset_path_of(default_path, path, true) matches AssetPathView::Text(whole)
            && !whole.contains('#'),
{
    match default_path {
        DefaultPathView::Text(text) => law_url_path_is_plain(join_of(text, path)),
        DefaultPathView::Raw(lossy) => law_url_path_is_plain(join_of(lossy, path)),
    }
}

/// Only a relative path below a default path that is not Unicode is asked for without a
/// text, and only where the asset server does not read paths as URLs.
pub proof fn law_asset_path_without_text(
    default_path: DefaultPathView,
    path: Seq<char>,
    in_url: bool,
)
    ensures
        asset_path_of(default_path, path, in_url) is BelowDefault <==> default_path is Raw
            && !in_url && !is_rooted(path),
{
}

proof fn lemma_requests_of_a_plan(
    instrument: SfzInstrument,
    parsed: sofiza::Instrument,
    name: String,
    in_url: bool,
    plan: LoadPlan,
)
    requires
        call_ensures(LoadPlan::for_instrument, (instrument, parsed, name, in_url), plan),
    ensures
        plan.samples@.len() == referenced_samples(instrument@).len(),
        plan@.samples == requests_for(instrument@, in_url),
        forall|k: int|
            0 <= k < plan.samples@.len() ==> {
                &&& (#[trigger] plan.samples@[k]).sample_path@ == referenced_samples(instrument@)[k]
                &&& plan.samples@[k].asset_path@ == asset_path_of(
                    instrument@.default_path,
                    referenced_samples(instrument@)[k],
                    in_url,
                )
            },
{
    assert(plan@ == plan_for(instrument@, parsed, name@, in_url));
    assert(plan@.samples.len() == plan.samples@.len());
    assert(plan@.samples.len() == referenced_samples(instrument@).len());
    assert forall|k: int| 0 <= k < plan.samples@.len() implies {
        &&& (#[trigger] plan.samples@[k]).sample_path@ == referenced_samples(instrument@)[k]
        &&& plan.samples@[k].asset_path@ == asset_path_of(
            instrument@.default_path,
            referenced_samples(instrument@)[k],
            in_url,
        )
    } by {
        assert(plan@.samples[k] == plan.samples@[k]@);
        assert(requests_for(instrument@, in_url)[k].sample_path == referenced_samples(
            instrument@,
        )[k]);
    }
}

/// However many samples there are, a sample that a region, a group or the instrument as a
/// whole has is among those that are asked for, by this or another text for its path.
pub proof fn law_each_sample_is_asked_for(
    instrument: SfzInstrument,
    parsed: sofiza::Instrument,
    name: String,
    in_url: bool,
    plan: LoadPlan,
    opcodes: Map<Seq<char>, OpcodeView>,
    path: Seq<char>,
)
    requires
        call_ensures(LoadPlan::for_instrument, (instrument, parsed, name, in_url), plan),
        opcodes == instrument.global@ || (exists|i: int|
            0 <= i < instrument.regions@.len() && (#[trigger] instrument.regions@[i]).opcodes@
                == opcodes) || (exists|g: int|
            0 <= g < instrument.groups@.len() && (#[trigger] instrument.groups@[g]).opcodes@
                == opcodes),
        opcodes.contains_key("sample"@),
        opcodes["sample"@] == OpcodeView::Sample(path),
    ensures
        exists|k: int|
            0 <= k < plan.samples@.len() && is_rooted((#[trigger] plan.samples@[k]).sample_path@)
                == is_rooted(path) && components(plan.samples@[k].sample_path@) == components(path),
{
    lemma_requests_of_a_plan(instrument, parsed, name, in_url, plan);
    if exists|i: int|
        0 <= i < instrument.regions@.len() && (#[trigger] instrument.regions@[i]).opcodes@
            == opcodes {
        let i = choose|i: int|
            0 <= i < instrument.regions@.len() && (#[trigger] instrument.regions@[i]).opcodes@
                == opcodes;
        assert(instrument@.regions[i] == instrument.regions@[i]@);
        assert(sample_of(instrument@.regions[i].opcodes) == Some(path));
    } else if exists|g: int|
        0 <= g < instrument.groups@.len() && (#[trigger] instrument.groups@[g]).opcodes@
            == opcodes {
        let g = choose|g: int|
            0 <= g < instrument.groups@.len() && (#[trigger] instrument.groups@[g]).opcodes@
                == opcodes;
        assert(instrument@.groups[g] == instrument.groups@[g].opcodes@);
        assert(sample_of(instrument@.groups[g]) == Some(path));
    }
    law_all_referenced_samples(instrument@, path);
    let referenced = referenced_samples(instrument@);
    let k = choose|k: int| 0 <= k < referenced.len() && same_path(#[trigger] referenced[k], path);
    assert(plan.samples@[k].sample_path@ == referenced[k]);
}

/// Nothing else is asked for: the text of each request is one that a region, a group or the
/// instrument as a whole has as its sample.
pub proof fn law_nothing_else_is_asked_for(
    instrument: SfzInstrument,
    parsed: sofiza::Instrument,
    name: String,
    in_url: bool,
    plan: LoadPlan,
    k: int,
)
    requires
        call_ensures(LoadPlan::for_instrument, (instrument, parsed, name, in_url), plan),
        0 <= k < plan.samples@.len(),
    ensures
        ({
            let sample = OpcodeView::Sample(plan.samples@[k].sample_path@);
            ||| exists|i: int|
                0 <= i < instrument.regions@.len() && (
                #[trigger] instrument.regions@[i]).opcodes@.contains_key("sample"@)
                    && instrument.regions@[i].opcodes@["sample"@] == sample
            ||| exists|g: int|
                0 <= g < instrument.groups@.len() && (
                #[trigger] instrument.groups@[g]).opcodes@.contains_key("sample"@)
                    && instrument.groups@[g].opcodes@["sample"@] == sample
            ||| instrument.global@.contains_key("sample"@) && instrument.global@["sample"@]
                == sample
        }),
{
    lemma_requests_of_a_plan(instrument, parsed, name, in_url, plan);
    law_only_referenced_samples(instrument@, k);
    let path = plan.samples@[k].sample_path@;
    let regions = instrument@.regions;
    let groups = instrument@.groups;
    if exists|i: int|
        0 <= i < regions.len() && sample_of((#[trigger] regions[i]).opcodes) == Some(path) {
        let i = choose|i: int|
            0 <= i < regions.len() && sample_of((#[trigger] regions[i]).opcodes) == Some(path);
        assert(regions[i] == instrument.regions@[i]@);
    } else if exists|g: int| 0 <= g < groups.len() && sample_of(#[trigger] groups[g]) == Some(path) {
        let g = choose|g: int|
            0 <= g < groups.len() && sample_of(#[trigger] groups[g]) == Some(path);
        assert(groups[g] == instrument.groups@[g].opcodes@);
    }
}

/// No path is asked for twice, whatever texts name it.
pub proof fn law_no_path_is_asked_for_twice(
    instrument: SfzInstrument,
    parsed: sofiza::Instrument,
    name: String,
    in_url: bool,
    plan: LoadPlan,
    j: int,
    k: int,
)
    requires
        call_ensures(LoadPlan::for_instrument, (instrument, parsed, name, in_url), plan),
        0 <= j < k < plan.samples@.len(),
    ensures
        !(is_rooted(plan.samples@[j].sample_path@) == is_rooted(plan.samples@[k].sample_path@)
            && components(plan.samples@[j].sample_path@) == components(
            plan.samples@[k].sample_path@,
        )),
{
    lemma_requests_of_a_plan(instrument, parsed, name, in_url, plan);
    law_samples_are_asked_for_once(instrument@, j, k);
}

proof fn lemma_first_set_sample(lists: Seq<Map<Seq<char>, OpcodeView>>, i: int, path: Seq<char>)
    requires
        0 <= i < lists.len(),
        sample_of(lists[i]) == Some(path),
        forall|j: int|
            0 <= j < i && sample_of(#[trigger] lists[j]) is Some ==> !same_path(
                sample_of(lists[j])->0,
                path,
            ),
    ensures
        exists|k: int|
            0 <= k < distinct_samples(lists).len() && #[trigger] distinct_samples(lists)[k] == path,
    decreases lists.len(),
{
    let earlier = lists.drop_last();
    let before = distinct_samples(earlier);
    let all = distinct_samples(lists);
    if i < earlier.len() {
        lemma_first_set_sample(earlier, i, path);
        let k = choose|k: int| 0 <= k < before.len() && #[trigger] before[k] == path;
        assert(all[k] == path);
    } else {
        if has_path(before, path) {
            let k = choose|k: int| 0 <= k < before.len() && same_path(#[trigger] before[k], path);
            lemma_only_set_samples(earlier, k);
            let j = choose|j: int|
                0 <= j < earlier.len() && sample_of(#[trigger] earlier[j]) == Some(before[k]);
            assert(lists[j] == earlier[j]);
        }
        assert(all[before.len() as int] == path);
    }
}

/// Of the texts for one path, the one that the first region has is asked for.
pub proof fn law_the_first_text_is_asked_for(
    instrument: SfzInstrument,
    parsed: sofiza::Instrument,
    name: String,
    in_url: bool,
    plan: LoadPlan,
    i: int,
    path: Seq<char>,
)
    requires
        call_ensures(LoadPlan::for_instrument, (instrument, parsed, name, in_url), plan),
        0 <= i < instrument.regions@.len(),
        instrument.regions@[i].opcodes@.contains_key("sample"@),
        instrument.regions@[i].opcodes@["sample"@] == OpcodeView::Sample(path),
        forall|j: int|
            0 <= j < i && (#[trigger] instrument.regions@[j]).opcodes@.contains_key("sample"@)
                && instrument.regions@[j].opcodes@["sample"@] is Sample ==> !({
                let other = instrument.regions@[j].opcodes@["sample"@]->Sample_0;
                is_rooted(other) == is_rooted(path) && components(other) == components(path)
            }),
    ensures
        exists|k: int|
            0 <= k < plan.samples@.len() && (#[trigger] plan.samples@[k]).sample_path@ == path,
{
    let lists = opcode_lists(instrument@);
    lemma_requests_of_a_plan(instrument, parsed, name, in_url, plan);
    assert forall|j: int| 0 <= j <= i implies #[trigger] lists[j]
        == instrument.regions@[j].opcodes@ by {
        assert(instrument@.regions[j] == instrument.regions@[j]@);
    }
    assert(sample_of(lists[i]) == Some(path));
    lemma_first_set_sample(lists, i, path);
    let referenced = referenced_samples(instrument@);
    let k = choose|k: int| 0 <= k < referenced.len() && #[trigger] referenced[k] == path;
    assert(plan.samples@[k].sample_path@ == path);
}

/// Where paths are no URLs, an absolute path is asked for as it is, and a relative one with
/// the default path in front of it, and a `/` between them unless the default path is empty
/// or ends in one. Where the default path has no text, the request says so.
pub proof fn law_samples_are_asked_for_below_the_default_path(
    instrument: SfzInstrument,
    parsed: sofiza::Instrument,
    name: String,
    plan: LoadPlan,
    k: int,
)
    requires
        call_ensures(LoadPlan::for_instrument, (instrument, parsed, name, false), plan),
        0 <= k < plan.samples@.len(),
    ensures
        ({
            let path = plan.samples@[k].sample_path@;
            if path.len() > 0 && path[0] == '/' {
                plan.samples@[k].asset_path matches AssetPath::Text(text) && text@ == path
            } else {
                match instrument.default_path {
                    DefaultPath::Text(base) => plan.samples@[k].asset_path matches AssetPath::Text(
                        text,
                    ) && text@ == if base@.len() == 0 || base@[base@.len() - 1] == '/' {
                        base@ + path
                    } else {
                        base@ + seq!['/'] + path
                    },
                    DefaultPath::Raw(_) => plan.samples@[k].asset_path is BelowDefault,
                }
            }
        }),
{
    lemma_requests_of_a_plan(instrument, parsed, name, false, plan);
    assert(plan.samples@[k].asset_path@ == asset_path_of(
        instrument.default_path@,
        plan.samples@[k].sample_path@,
        false,
    ));
}

/// The components of what is asked for, for a relative path below a default path that has a
/// text, are those of the default path and then those of the path, but for a `.` that it
/// starts with.
pub proof fn law_components_of_what_is_asked_for(
    instrument: SfzInstrument,
    parsed: sofiza::Instrument,
    name: String,
    plan: LoadPlan,
    k: int,
    base: String,
)
    requires
        call_ensures(LoadPlan::for_instrument, (instrument, parsed, name, false), plan),
        0 <= k < plan.samples@.len(),
        instrument.default_path == DefaultPath::Text(base),
        base@.len() > 0,
        !is_rooted(plan.samples@[k].sample_path@),
    ensures
        plan.samples@[k].asset_path matches AssetPath::Text(text) && is_rooted(text@) == is_rooted(
            base@,
        ) && components(text@) == components(base@) + inner_components(
            plan.samples@[k].sample_path@,
        ),
{
    law_samples_are_asked_for_below_the_default_path(instrument, parsed, name, plan, k);
    law_join_continues_the_base(base@, plan.samples@[k].sample_path@);
}

/// Where paths are URLs, what is asked for is the encoding of the whole path: of an absolute
/// path itself, and of a relative one with the default path in front of it. A default path
/// that is not Unicode counts by its text with replacement characters.
pub proof fn law_whole_paths_are_encoded_in_urls(
    instrument: SfzInstrument,
    parsed: sofiza::Instrument,
    name: String,
    plan: LoadPlan,
    k: int,
    base: String,
    whole: &str,
    encoded: String,
)
    requires
        call_ensures(LoadPlan::for_instrument, (instrument, parsed, name, true), plan),
        0 <= k < plan.samples@.len(),
        instrument.default_path == DefaultPath::Text(base) || instrument.default_path
            == DefaultPath::Raw(base),
        ({
            let path = plan.samples@[k].sample_path@;
            whole@ == if path.len() > 0 && path[0] == '/' {
                path
            } else if base@.len() == 0 || base@[base@.len() - 1] == '/' {
                base@ + path
            } else {
                base@ + seq!['/'] + path
            }
        }),
        call_ensures(encode_path, (whole,), encoded),
    ensures
        plan.samples@[k].asset_path matches AssetPath::Text(text) && text@ == encoded@,
{
    lemma_requests_of_a_plan(instrument, parsed, name, true, plan);
    assert(plan.samples@[k].asset_path@ == asset_path_of(
        instrument.default_path@,
        plan.samples@[k].sample_path@,
        true,
    ));
    assert(whole@ == join_of(base@, plan.samples@[k].sample_path@));
}

/// The same samples are asked for, in the same order, whether paths are URLs or not, and a
/// path that is asked for in a URL decodes to the one that is asked for otherwise. A path
/// with a `%` is left out: `%` itself is not encoded.
pub proof fn law_urls_decode_to_the_same_paths(
    instrument: SfzInstrument,
    parsed: sofiza::Instrument,
    name: String,
    plan: LoadPlan,
    url_plan: LoadPlan,
)
    requires
        call_ensures(LoadPlan::for_instrument, (instrument, parsed, name, false), plan),
        call_ensures(LoadPlan::for_instrument, (instrument, parsed, name, true), url_plan),
    ensures
        url_plan.samples@.len() == plan.samples@.len(),
        forall|k: int|
            0 <= k < plan.samples@.len() ==> {
                &&& (#[trigger] url_plan.samples@[k]).sample_path@ == plan.samples@[k].sample_path@
                &&& plan.samples@[k].asset_path matches AssetPath::Text(text) ==> (
                !text@.contains('%') ==> (url_plan.samples@[k].asset_path matches AssetPath::Text(
                    url,
                ) && decode_utf8(percent_decoded(url@)) == text@))
            },
{
    lemma_requests_of_a_plan(instrument, parsed, name, false, plan);
    lemma_requests_of_a_plan(instrument, parsed, name, true, url_plan);
    assert forall|k: int| 0 <= k < plan.samples@.len() implies {
        &&& (#[trigger] url_plan.samples@[k]).sample_path@ == plan.samples@[k].sample_path@
        &&& plan.samples@[k].asset_path matches AssetPath::Text(text) ==> (!text@.contains('%')
            ==> (url_plan.samples@[k].asset_path matches AssetPath::Text(url) && decode_utf8(
            percent_decoded(url@),
        ) == text@))
    } by {
        let path = plan.samples@[k].sample_path@;
        assert(url_plan.samples@[k].sample_path@ == path);
        assert(plan.samples@[k].asset_path@ == asset_path_of(
            instrument.default_path@,
            path,
            false,
        ));
        assert(url_plan.samples@[k].asset_path@ == asset_path_of(
            instrument.default_path@,
            path,
            true,
        ));
        if let AssetPath::Text(text) = plan.samples@[k].asset_path {
            if !text@.contains('%') {
                law_url_path_decodes(text@);
            }
        }
    }
}

proof fn lemma_last_handle_for_a_path<H>(
    requests: Seq<SampleRequestView>,
    handles: Seq<H>,
    k: int,
    path: Seq<char>,
)
    requires
        handles.len() <= requests.len(),
        -1 <= k < handles.len(),
        k >= 0 ==> same_path(requests[k].sample_path, path),
        forall|j: int|
            k < j < handles.len() ==> !same_path((#[trigger] requests[j]).sample_path, path),
    ensures
        ({
            let samples = handles_by_path(requests, handles);
            &&& samples.contains_key(normal_form(path)) <==> k >= 0
            &&& k >= 0 ==> samples[normal_form(path)] == handles[k]
        }),
    decreases handles.len(),
{
    if handles.len() > 0 {
        let last = handles.len() - 1;
        law_normal_form_identifies_paths(requests[last].sample_path, path);
        if k < last {
            lemma_last_handle_for_a_path(requests, handles.drop_last(), k, path);
            assert(!same_path(requests[last].sample_path, path));
        }
    }
}

/// Under a path, a loaded instrument has the handle that was given out for the request for
/// that path, and for the last one if there are more.
pub proof fn law_a_loaded_instrument_has_each_handle<H>(
    plan: LoadPlan,
    handles: Vec<H>,
    asset: SfzInstrumentAsset<H>,
    k: int,
    path: &str,
    found: Option<&H>,
)
    requires
        handles@.len() == plan.samples@.len(),
        call_ensures(LoadPlan::finish::<H>, (plan, handles), asset),
        0 <= k < plan.samples@.len(),
        is_rooted(plan.samples@[k].sample_path@) == is_rooted(path@),
        components(plan.samples@[k].sample_path@) == components(path@),
        forall|j: int|
            k < j < plan.samples@.len() ==> !(is_rooted((#[trigger] plan.samples@[j]).sample_path@)
                == is_rooted(path@) && components(plan.samples@[j].sample_path@) == components(
                path@,
            )),
        call_ensures(SampleMap::<H>::get, (&asset.samples, path), found),
    ensures
        found == Some(&handles@[k]),
{
    let requests = plan@.samples;
    assert forall|j: int| k <= j < requests.len() implies (#[trigger] requests[j]).sample_path
        == plan.samples@[j].sample_path@ by {
        assert(requests[j] == plan.samples@[j]@);
    }
    lemma_last_handle_for_a_path(requests, handles@, k, path@);
}

/// Under a path that was not asked for, a loaded instrument has no handle.
pub proof fn law_a_loaded_instrument_has_no_other_handle<H>(
    plan: LoadPlan,
    handles: Vec<H>,
    asset: SfzInstrumentAsset<H>,
    path: &str,
    found: Option<&H>,
)
    requires
        handles@.len() == plan.samples@.len(),
        call_ensures(LoadPlan::finish::<H>, (plan, handles), asset),
        forall|j: int|
            0 <= j < plan.samples@.len() ==> !(is_rooted((#[trigger] plan.samples@[j]).sample_path@)
                == is_rooted(path@) && components(plan.samples@[j].sample_path@) == components(
                path@,
            )),
        call_ensures(SampleMap::<H>::get, (&asset.samples, path), found),
    ensures
        found is None,
{
    let requests = plan@.samples;
    assert forall|j: int| 0 <= j < requests.len() implies (#[trigger] requests[j]).sample_path
        == plan.samples@[j].sample_path@ by {
        assert(requests[j] == plan.samples@[j]@);
    }
    lemma_last_handle_for_a_path(requests, handles@, -1, path@);
}

/// A loaded instrument has as many handles as were given out.
pub proof fn law_a_loaded_instrument_has_all_handles<H>(
    instrument: SfzInstrument,
    parsed: sofiza::Instrument,
    name: String,
    in_url: bool,
    plan: LoadPlan,
    handles: Vec<H>,
    asset: SfzInstrumentAsset<H>,
    count: usize,
)
    requires
        call_ensures(LoadPlan::for_instrument, (instrument, parsed, name, in_url), plan),
        handles@.len() == plan.samples@.len(),
        call_ensures(LoadPlan::finish::<H>, (plan, handles), asset),
        call_ensures(SampleMap::<H>::len, (&asset.samples,), count),
    ensures
        count == handles@.len(),
{
    lemma_requests_of_a_plan(instrument, parsed, name, in_url, plan);
    law_one_handle_for_each_request(instrument@, in_url, handles@);
}

/// A loaded instrument is the one that was planned, under its name.
pub proof fn law_a_loaded_instrument_is_the_planned_one<H>(
    instrument: SfzInstrument,
    parsed: sofiza::Instrument,
    name: String,
    in_url: bool,
    plan: LoadPlan,
    handles: Vec<H>,
    asset: SfzInstrumentAsset<H>,
)
    requires
        call_ensures(LoadPlan::for_instrument, (instrument, parsed, name, in_url), plan),
        handles@.len() == plan.samples@.len(),
        call_ensures(LoadPlan::finish::<H>, (plan, handles), asset),
    ensures
        asset.instrument == instrument,
        asset.parsed == parsed,
        asset.name == name,
{
}

/// However many samples there are, a region of a loaded instrument that has a path as its
/// sample has a handle: the one that was given out for that path.
pub proof fn law_each_region_has_its_handle<H>(
    instrument: SfzInstrument,
    parsed: sofiza::Instrument,
    name: String,
    in_url: bool,
    plan: LoadPlan,
    handles: Vec<H>,
    asset: SfzInstrumentAsset<H>,
    i: int,
    path: Seq<char>,
    handle: Option<&H>,
)
    requires
        call_ensures(LoadPlan::for_instrument, (instrument, parsed, name, in_url), plan),
        handles@.len() == plan.samples@.len(),
        call_ensures(LoadPlan::finish::<H>, (plan, handles), asset),
        0 <= i < asset.instrument.regions@.len(),
        asset.instrument.regions@[i].opcodes@.contains_key("sample"@),
        asset.instrument.regions@[i].opcodes@["sample"@] == OpcodeView::Sample(path),
        call_ensures(
            SfzInstrumentAsset::<H>::sample_for_region,
            (&asset, &asset.instrument.regions@[i]),
            handle,
        ),
    ensures
        handle is Some,
        exists|k: int|
            0 <= k < plan.samples@.len() && is_rooted((#[trigger] plan.samples@[k]).sample_path@)
                == is_rooted(path) && components(plan.samples@[k].sample_path@) == components(path)
                && *handle->0 == handles@[k],
{
    lemma_requests_of_a_plan(instrument, parsed, name, in_url, plan);
    let requests = requests_for(instrument@, in_url);
    assert(instrument@.regions[i] == instrument.regions@[i]@);
    assert(sample_of(instrument@.regions[i].opcodes) == Some(path));
    law_every_sample_has_its_handle(instrument@, in_url, handles@, path);
    let samples = handles_by_path(requests, handles@);
    let k = choose|k: int|
        0 <= k < handles@.len() && same_path((#[trigger] requests[k]).sample_path, path)
            && samples[normal_form(path)] == handles@[k];
    assert(plan.samples@[k].sample_path@ == requests[k].sample_path);
}

/// A file that was parsed is planned as the instrument that is taken over from the parser.
pub proof fn law_a_parsed_file_is_planned(
    loader: &SfzAssetLoader,
    parsed: sofiza::Instrument,
    name: String,
    in_url: bool,
    planned: Result<LoadPlan, SfzLoaderError>,
    instrument: SfzInstrument,
    plan: LoadPlan,
)
    requires
        call_ensures(
            SfzAssetLoader::plan,
            (loader, ParseOutcome::Parsed(parsed), name, in_url),
            planned,
        ),
        call_ensures(import, (&parsed,), instrument),
        call_ensures(LoadPlan::for_instrument, (instrument, parsed, name, in_url), plan),
    ensures
        planned is Ok,
        planned->Ok_0.instrument@ == instrument@,
        planned->Ok_0.parsed == parsed,
        planned->Ok_0.name@ == name@,
        planned->Ok_0.samples@.len() == plan.samples@.len(),
        forall|k: int|
            0 <= k < plan.samples@.len() ==> (#[trigger] planned->Ok_0.samples@[k])@
                == plan.samples@[k]@,
{
    let other = planned->Ok_0;
    assert(other@ == plan@);
    assert(other@.samples.len() == other.samples@.len());
    assert(plan@.samples.len() == plan.samples@.len());
    assert forall|k: int| 0 <= k < plan.samples@.len() implies (
    #[trigger] planned->Ok_0.samples@[k])@ == plan.samples@[k]@ by {
        assert(other@.samples[k] == other.samples@[k]@);
        assert(plan@.samples[k] == plan.samples@[k]@);
    }
}

/// However many samples there are, a sample that a region of a parsed file has is among
/// those that the plan for the file asks for.
pub proof fn law_each_sample_of_a_parsed_file_is_asked_for(
    loader: &SfzAssetLoader,
    parsed: sofiza::Instrument,
    name: String,
    in_url: bool,
    planned: Result<LoadPlan, SfzLoaderError>,
    i: int,
    path: Seq<char>,
)
    requires
        call_ensures(
            SfzAssetLoader::plan,
            (loader, ParseOutcome::Parsed(parsed), name, in_url),
            planned,
        ),
        0 <= i < parsed_regions(parsed).len(),
        parsed_regions(parsed)[i].opcodes.contains_key("sample"@),
        parsed_regions(parsed)[i].opcodes["sample"@] == OpcodeView::Sample(path),
    ensures
        planned matches Ok(plan) && exists|k: int|
            0 <= k < plan.samples@.len() && is_rooted((#[trigger] plan.samples@[k]).sample_path@)
                == is_rooted(path) && components(plan.samples@[k].sample_path@) == components(path),
{
    let plan = planned->Ok_0;
    let instrument = imported(parsed_view(parsed));
    let referenced = referenced_samples(instrument);
    law_import_keeps_settings(parsed_regions(parsed)[i].opcodes);
    assert(sample_of(instrument.regions[i].opcodes) == Some(path));
    law_all_referenced_samples(instrument, path);
    let k = choose|k: int| 0 <= k < referenced.len() && same_path(#[trigger] referenced[k], path);
    assert(plan@.samples.len() == referenced.len());
    assert(plan@.samples[k].sample_path == referenced[k]);
    assert(plan@.samples[k] == plan.samples@[k]@);
}

/// However many samples there are, each region of a parsed file that has a path as its
/// sample has a handle once the file is loaded: the one that was given out for that path.
pub proof fn law_each_region_of_a_parsed_file_has_its_handle<H>(
    loader: &SfzAssetLoader,
    parsed: sofiza::Instrument,
    name: String,
    in_url: bool,
    plan: LoadPlan,
    handles: Vec<H>,
    asset: SfzInstrumentAsset<H>,
    i: int,
    path: Seq<char>,
    handle: Option<&H>,
)
    requires
        call_ensures(
            SfzAssetLoader::plan,
            (loader, ParseOutcome::Parsed(parsed), name, in_url),
            Ok(plan),
        ),
        handles@.len() == plan.samples@.len(),
        call_ensures(LoadPlan::finish::<H>, (plan, handles), asset),
        0 <= i < parsed_regions(parsed).len(),
        parsed_regions(parsed)[i].opcodes.contains_key("sample"@),
        parsed_regions(parsed)[i].opcodes["sample"@] == OpcodeView::Sample(path),
        call_ensures(
            SfzInstrumentAsset::<H>::sample_for_region,
            (&asset, &asset.instrument.regions@[i]),
            handle,
        ),
    ensures
        asset.instrument.regions@.len() == parsed_regions(parsed).len(),
        handle is Some,
        exists|k: int|
            0 <= k < plan.samples@.len() && is_rooted((#[trigger] plan.samples@[k]).sample_path@)
                == is_rooted(path) && components(plan.samples@[k].sample_path@) == components(path)
                && *handle->0 == handles@[k],
{
    let instrument = imported(parsed_view(parsed));
    let requests = requests_for(instrument, in_url);
    assert(plan@ == plan_for(instrument, parsed, name@, in_url));
    assert(asset.instrument@ == instrument);
    assert(instrument.regions.len() == asset.instrument.regions@.len());
    assert(instrument.regions[i] == asset.instrument.regions@[i]@);
    law_import_keeps_settings(parsed_regions(parsed)[i].opcodes);
    assert(sample_of(instrument.regions[i].opcodes) == Some(path));
    assert(plan@.samples.len() == plan.samples@.len());
    law_every_sample_has_its_handle(instrument, in_url, handles@, path);
    let samples = handles_by_path(requests, handles@);
    let k = choose|k: int|
        0 <= k < handles@.len() && same_path((#[trigger] requests[k]).sample_path, path)
            && samples[normal_form(path)] == handles@[k];
    assert(plan@.samples[k] == plan.samples@[k]@);
}

/// A parser that gave up is an error: a missing sample if its reason holds one of two
/// phrases, and otherwise a file that cannot be parsed. Either way the reason is told.
pub proof fn law_a_failed_parse_is_an_error(
    loader: &SfzAssetLoader,
    reason: String,
    name: String,
    in_url: bool,
    planned: Result<LoadPlan, SfzLoaderError>,
    no_such_file: bool,
    cannot_find: bool,
)
    requires
        call_ensures(
            SfzAssetLoader::plan,
            (loader, ParseOutcome::Failed(reason), name, in_url),
            planned,
        ),
        no_such_file <==> exists|at: int|
            0 <= at && at + "No such file"@.len() <= reason@.len() && #[trigger] reason@.subrange(
                at,
                at + "No such file"@.len(),
            ) == "No such file"@,
        cannot_find <==> exists|at: int|
            0 <= at && at + "cannot find"@.len() <= reason@.len() && #[trigger] reason@.subrange(
                at,
                at + "cannot find"@.len(),
            ) == "cannot find"@,
    ensures
        planned is Err,
        match planned->Err_0 {
            SfzLoaderError::SampleNotFound(text) => (no_such_file || cannot_find) && text@
                == "Sample file not found: "@ + reason@,
            SfzLoaderError::Parse(text) => !no_such_file && !cannot_find && text@
                == "Failed to parse SFZ: "@ + reason@,
            SfzLoaderError::Io(_) => false,
        },
{
    if no_such_file {
        let at = choose|at: int|
            0 <= at && at + "No such file"@.len() <= reason@.len() && #[trigger] reason@.subrange(
                at,
                at + "No such file"@.len(),
            ) == "No such file"@;
        assert(occurs_at(reason@, "No such file"@, at));
    }
    if cannot_find {
        let at = choose|at: int|
            0 <= at && at + "cannot find"@.len() <= reason@.len() && #[trigger] reason@.subrange(
                at,
                at + "cannot find"@.len(),
            ) == "cannot find"@;
        assert(occurs_at(reason@, "cannot find"@, at));
    }
}

/// The error for a parser that gave up is the one that the plan reports.
pub proof fn law_a_failed_parse_is_reported_as_it_is(
    loader: &SfzAssetLoader,
    reason: String,
    text: &str,
    name: String,
    in_url: bool,
    planned: Result<LoadPlan, SfzLoaderError>,
    error: SfzLoaderError,
)
    requires
        text@ == reason@,
        call_ensures(
            SfzAssetLoader::plan,
            (loader, ParseOutcome::Failed(reason), name, in_url),
            planned,
        ),
        call_ensures(SfzLoaderError::from_parse_failure, (text,), error),
    ensures
        planned is Err,
        planned->Err_0@ == error@,
{
}

/// A parser that panicked is an error that says so.
pub proof fn law_a_panic_of_the_parser_is_an_error(
    loader: &SfzAssetLoader,
    name: String,
    in_url: bool,
    planned: Result<LoadPlan, SfzLoaderError>,
    error: SfzLoaderError,
)
    requires
        call_ensures(
            SfzAssetLoader::plan,
            (loader, ParseOutcome::Panicked, name, in_url),
            planned,
        ),
        call_ensures(SfzLoaderError::from_parse_panic, (), error),
    ensures
        planned matches Err(SfzLoaderError::Parse(text)) && text@
            == "Sofiza library panicked during parsing"@,
        error matches SfzLoaderError::Parse(text) && text@
            == "Sofiza library panicked during parsing"@,
{
}

/// What an error says is what kind of error it is, and then its own text.
pub proof fn law_an_error_says_its_kind_and_its_text(error: &SfzLoaderError, message: String)
    requires
        call_ensures(SfzLoaderError::message, (error,), message),
    ensures
        match *error {
            SfzLoaderError::Io(text) => message@ == "Failed to read SFZ file: "@ + text@,
            SfzLoaderError::Parse(text) => message@ == "Failed to parse SFZ: "@ + text@,
            SfzLoaderError::SampleNotFound(text) => message@ == "Sample file not found: "@ + text@,
        },
{
}

/// The samples of a file are looked for in the directory of the file, and the empty path
/// stands for the directory of a path that has none.
pub proof fn law_samples_are_looked_for_beside_the_file(
    loader: &SfzAssetLoader,
    file: &str,
    found: Option<String>,
    directory: String,
)
    requires
        call_ensures(parent, (file,), found),
        call_ensures(SfzAssetLoader::base_directory, (loader, file), directory),
    ensures
        found matches Some(text) ==> directory@ == text@,
        found is None ==> directory@.len() == 0,
{
}

/// An instrument has the name of its file without the extension, and a name of its own
/// where the path ends in no name or is not text.
pub proof fn law_an_instrument_is_named_after_its_file(
    loader: &SfzAssetLoader,
    file: Option<&str>,
    stem: Option<String>,
    name: String,
)
    requires
        file is Some ==> call_ensures(file_stem, (file->0,), stem),
        call_ensures(SfzAssetLoader::instrument_name, (loader, file), name),
    ensures
        file is Some && stem is Some ==> name@ == stem->0@,
        file is None || stem is None ==> name@ == "Unknown SFZ Instrument"@,
{
}

/// The files that the loader loads are those with the extension `sfz`.
pub proof fn law_sfz_files_are_loaded(loader: &SfzAssetLoader, extensions: &[&str])
    requires
        call_ensures(SfzAssetLoader::extensions, (loader,), extensions),
    ensures
        extensions@.len() == 1,
        extensions@[0]@ == "sfz"@,
{
}

} // verus!
