//! The detector catalog: per-detector ADC flags and channel counts, computed
//! detector groups, and the derived floors inside the packed channel axis.

use vstd::prelude::*;
use crate::cube::Cube;
use crate::cube::fits_alloc;
use crate::cube::zero_cells;
use crate::text::str_eq;

verus! {

broadcast use vstd::seq_lib::to_multiset_update, vstd::seq_lib::group_to_multiset_ensures;

/// One physical detector: its ADC flag bit, its number of energy channels,
/// and an opaque tag carried through to output files.
#[derive(Debug, Clone)]
pub struct Detector {
    pub adc: u32,
    pub channels: u32,
    pub file_extension: Option<String>,
}

impl Detector {
    pub fn new(adc: u32, channels: u32, file_extension: Option<String>) -> (d: Detector)
        ensures
            d.adc == adc,
            d.channels == channels,
            d.file_extension == file_extension,
    {
        Detector { adc, channels, file_extension }
    }
}

/// A named sum of detectors, by their catalog names.
#[derive(Debug, Clone)]
pub struct ComputedDetector {
    pub detectors: Vec<String>,
    pub file_extension: Option<String>,
}

impl ComputedDetector {
    pub fn new(detectors: Vec<String>, file_extension: Option<String>) -> (d: ComputedDetector)
        ensures
            d.detectors == detectors,
            d.file_extension == file_extension,
    {
        ComputedDetector { detectors, file_extension }
    }
}

/// One output file rule for the EDF export driver around the decoder.
#[derive(Debug, Clone)]
pub struct EDFFileConfig {
    pub keyword: String,
    pub dataset_name: String,
}

impl EDFFileConfig {
    pub fn new(keyword: String, dataset_name: String) -> (c: EDFFileConfig)
        ensures
            c.keyword == keyword,
            c.dataset_name == dataset_name,
    {
        EDFFileConfig { keyword, dataset_name }
    }
}

/// The EDF export settings carried opaquely through the configuration.
#[derive(Debug, Clone)]
pub struct EDFConfig {
    pub path: Option<String>,
    pub files: Vec<EDFFileConfig>,
}

impl EDFConfig {
    pub fn new(path: Option<String>) -> (c: EDFConfig)
        ensures
            c.path == path,
            c.files@ == Seq::<EDFFileConfig>::empty(),
    {
        EDFConfig { path, files: Vec::new() }
    }
}

/// Total channel count of a catalog prefix: the packed channel axis is the
/// concatenation of every detector's channel range, in catalog order.
pub open spec fn total_channels(dets: Seq<(String, Detector)>) -> int
    decreases dets.len(),
{
    if dets.len() == 0 {
        0
    } else {
        total_channels(dets.drop_last()) + dets.last().1.channels
    }
}

/// The floor of the detector at catalog position `i`: the sum of the channel
/// counts of all detectors before it.
pub open spec fn floor_at(dets: Seq<(String, Detector)>, i: int) -> int {
    total_channels(dets.take(i))
}

pub proof fn lemma_total_channels_nonneg(dets: Seq<(String, Detector)>)
    ensures
        total_channels(dets) >= 0,
    decreases dets.len(),
{
    if dets.len() > 0 {
        lemma_total_channels_nonneg(dets.drop_last());
    }
}

/// Unfolds one catalog step: the floor of position `i + 1` is the floor of
/// position `i` plus that detector's channel count.
pub proof fn lemma_floor_step(dets: Seq<(String, Detector)>, i: int)
    requires
        0 <= i < dets.len(),
    ensures
        floor_at(dets, i + 1) == floor_at(dets, i) + dets[i].1.channels,
{
    assert(dets.take(i + 1).drop_last() =~= dets.take(i));
    assert(dets.take(i + 1).last() == dets[i]);
}

pub proof fn lemma_floor_le_total(dets: Seq<(String, Detector)>, i: int)
    requires
        0 <= i <= dets.len(),
    ensures
        0 <= floor_at(dets, i),
        floor_at(dets, i) <= total_channels(dets),
    decreases dets.len() - i,
{
    lemma_total_channels_nonneg(dets.take(i));
    if i == dets.len() {
        assert(dets.take(i) =~= dets);
    } else {
        lemma_floor_step(dets, i);
        lemma_floor_le_total(dets, i + 1);
    }
}

/// Each detector's channel band `[floor, floor + channels)` lies inside the
/// packed axis `[0, total_channels)`.
pub proof fn lemma_floor_bounds(dets: Seq<(String, Detector)>, i: int)
    requires
        0 <= i < dets.len(),
    ensures
        0 <= floor_at(dets, i),
        floor_at(dets, i) + dets[i].1.channels <= total_channels(dets),
{
    lemma_floor_le_total(dets, i);
    lemma_floor_step(dets, i);
    lemma_floor_le_total(dets, i + 1);
}

/// The packed axis is exactly the concatenation of the channel ranges: the
/// floor past the last detector equals the total packed channel count, so
/// the per-detector channel counts sum to `total_channels`.
pub proof fn lemma_total_is_sum_of_bands(dets: Seq<(String, Detector)>)
    ensures
        floor_at(dets, dets.len() as int) == total_channels(dets),
        forall|i: int|
            0 <= i < dets.len() ==> floor_at(dets, i + 1) == floor_at(dets, i) + (
            #[trigger] dets[i]).1.channels,
{
    assert(dets.take(dets.len() as int) =~= dets);
    assert forall|i: int| 0 <= i < dets.len() implies floor_at(dets, i + 1) == floor_at(dets, i)
        + (#[trigger] dets[i]).1.channels by {
        lemma_floor_step(dets, i);
    }
}

/// Floors grow strictly along the catalog when every detector has at least
/// one channel.
pub proof fn lemma_floors_increasing(dets: Seq<(String, Detector)>, i: int, j: int)
    requires
        0 <= i < j < dets.len(),
        forall|k: int| 0 <= k < dets.len() ==> (#[trigger] dets[k]).1.channels >= 1,
    ensures
        floor_at(dets, i) < floor_at(dets, j),
    decreases j - i,
{
    lemma_floor_step(dets, i);
    if i + 1 < j {
        lemma_floors_increasing(dets, i + 1, j);
    }
}

/// The first catalog position whose detector carries the given ADC flag.
pub open spec fn spec_find_adc(dets: Seq<(String, Detector)>, adc: u32) -> Option<int>
    decreases dets.len(),
{
    if dets.len() == 0 {
        None
    } else if dets[0].1.adc == adc {
        Some(0)
    } else {
        match spec_find_adc(dets.drop_first(), adc) {
            Some(i) => Some(i + 1),
            None => None,
        }
    }
}

pub proof fn lemma_find_adc_props(dets: Seq<(String, Detector)>, adc: u32)
    ensures
        match spec_find_adc(dets, adc) {
            Some(i) => 0 <= i < dets.len() && dets[i].1.adc == adc && forall|j: int|
                0 <= j < i ==> (#[trigger] dets[j]).1.adc != adc,
            None => forall|j: int| 0 <= j < dets.len() ==> (#[trigger] dets[j]).1.adc != adc,
        },
    decreases dets.len(),
{
    if dets.len() > 0 {
        lemma_find_adc_props(dets.drop_first(), adc);
        assert forall|j: int| 0 < j < dets.len() implies dets.drop_first()[j - 1] == dets[j] by {}
    }
}

/// The first catalog position with the given name.
pub open spec fn spec_find_name(dets: Seq<(String, Detector)>, name: Seq<char>) -> Option<int>
    decreases dets.len(),
{
    if dets.len() == 0 {
        None
    } else if dets[0].0@ == name {
        Some(0)
    } else {
        match spec_find_name(dets.drop_first(), name) {
            Some(i) => Some(i + 1),
            None => None,
        }
    }
}

pub proof fn lemma_find_name_props(dets: Seq<(String, Detector)>, name: Seq<char>)
    ensures
        match spec_find_name(dets, name) {
            Some(i) => 0 <= i < dets.len() && dets[i].0@ == name && forall|j: int|
                0 <= j < i ==> (#[trigger] dets[j]).0@ != name,
            None => forall|j: int| 0 <= j < dets.len() ==> (#[trigger] dets[j]).0@ != name,
        },
    decreases dets.len(),
{
    if dets.len() > 0 {
        lemma_find_name_props(dets.drop_first(), name);
        assert forall|j: int| 0 < j < dets.len() implies dets.drop_first()[j - 1] == dets[j] by {}
    }
}

/// The first computed-group position with the given name.
pub open spec fn spec_find_computed(cds: Seq<(String, ComputedDetector)>, name: Seq<char>) -> Option<
    int,
>
    decreases cds.len(),
{
    if cds.len() == 0 {
        None
    } else if cds[0].0@ == name {
        Some(0)
    } else {
        match spec_find_computed(cds.drop_first(), name) {
            Some(i) => Some(i + 1),
            None => None,
        }
    }
}

pub proof fn lemma_find_computed_props(cds: Seq<(String, ComputedDetector)>, name: Seq<char>)
    ensures
        match spec_find_computed(cds, name) {
            Some(i) => 0 <= i < cds.len() && cds[i].0@ == name && forall|j: int|
                0 <= j < i ==> (#[trigger] cds[j]).0@ != name,
            None => forall|j: int| 0 <= j < cds.len() ==> (#[trigger] cds[j]).0@ != name,
        },
    decreases cds.len(),
{
    if cds.len() > 0 {
        lemma_find_computed_props(cds.drop_first(), name);
        assert forall|j: int| 0 < j < cds.len() implies cds.drop_first()[j - 1] == cds[j] by {}
    }
}

/// Whether a member list names `n`.
pub open spec fn seq_contains_name(ms: Seq<String>, n: Seq<char>) -> bool {
    exists|k: int| 0 <= k < ms.len() && (#[trigger] ms[k])@ == n
}

/// The largest channel count among catalog detectors that a member list
/// names; `0` when it names none.
pub open spec fn spec_max_channels(dets: Seq<(String, Detector)>, ms: Seq<String>) -> int
    decreases dets.len(),
{
    if dets.len() == 0 {
        0
    } else {
        let rest = spec_max_channels(dets.drop_last(), ms);
        if seq_contains_name(ms, dets.last().0@) && dets.last().1.channels > rest {
            dets.last().1.channels as int
        } else {
            rest
        }
    }
}

/// All ADC flags a configuration mentions: the two axis flags, then each
/// detector's flag, in catalog order.
pub open spec fn spec_all_adcs(x: u32, y: u32, dets: Seq<(String, Detector)>) -> Seq<u32> {
    seq![x, y] + dets.map_values(|e: (String, Detector)| e.1.adc)
}

/// Non-decreasing.
pub open spec fn sorted_u32(s: Seq<u32>) -> bool {
    forall|a: int, b: int| 0 <= a < b < s.len() ==> s[a] <= s[b]
}

/// Whether a member list contains the given name.
fn contains_name(ms: &Vec<String>, n: &str) -> (r: bool)
    ensures
        r == seq_contains_name(ms@, n@),
{
    let mut k: usize = 0;
    while k < ms.len()
        invariant
            k <= ms@.len(),
            forall|k2: int| 0 <= k2 < k ==> (#[trigger] ms@[k2])@ != n@,
        decreases ms@.len() - k,
    {
        if str_eq(ms[k].as_str(), n) {
            return true;
        }
        k = k + 1;
    }
    false
}

/// Sort in place, keeping the multiset of elements.
fn sort_u32_vec(v: &mut Vec<u32>)
    ensures
        final(v)@.len() == old(v)@.len(),
        final(v)@.to_multiset() == old(v)@.to_multiset(),
        sorted_u32(final(v)@),
{
    let n = v.len();
    let mut i: usize = 1;
    if n <= 1 {
        return ;
    }
    while i < n
        invariant
            n == v@.len(),
            1 <= i <= n,
            v@.to_multiset() == old(v)@.to_multiset(),
            forall|a: int, b: int| 0 <= a < b < i ==> v@[a] <= v@[b],
        decreases n - i,
    {
        let mut j: usize = i;
        while j > 0 && v[j - 1] > v[j]
            invariant
                n == v@.len(),
                1 <= i < n,
                j <= i,
                v@.to_multiset() == old(v)@.to_multiset(),
                forall|a: int, b: int| 0 <= a < b <= i && b != j ==> v@[a] <= v@[b],
            decreases j,
        {
            let ghost pre = v@;
            let va = v[j - 1];
            let vb = v[j];
            v.set(j - 1, vb);
            v.set(j, va);
            proof {
                assert(v@ == pre.update(j - 1, vb).update(j as int, va));
                assert(v@.to_multiset() =~= pre.to_multiset());
            }
            j = j - 1;
        }
        i = i + 1;
    }
}

/// The decoding configuration: the two beam-axis ADC flags, the detector
/// catalog in its fixed order, the computed groups, the sorted ADC index, and
/// opaque EDF export settings.
#[derive(Debug, Clone)]
pub struct Config {
    pub x: u32,
    pub y: u32,
    pub detectors: Vec<(String, Detector)>,
    pub computed_detectors: Vec<(String, ComputedDetector)>,
    pub adcs: Vec<u32>,
    pub edf: Option<Vec<EDFConfig>>,
}

impl Config {
    /// The catalog the decoder works over: the packed channel axis fits the
    /// `u32` arithmetic, every detector has at least one channel, and names
    /// are unique (the catalog is a keyed map).
    pub open spec fn wf(&self) -> bool {
        &&& total_channels(self.detectors@) <= u32::MAX
        &&& forall|k: int|
            0 <= k < self.detectors@.len() ==> (#[trigger] self.detectors@[k]).1.channels >= 1
        &&& forall|i: int, j: int|
            0 <= i < j < self.detectors@.len() ==> self.detectors@[i].0@ != self.detectors@[j].0@
    }

    /// Assemble a configuration; the ADC index is the two axis flags plus
    /// every detector flag, sorted.
    pub fn new(
        x: u32,
        y: u32,
        detectors: Vec<(String, Detector)>,
        computed_detectors: Vec<(String, ComputedDetector)>,
        edf: Option<Vec<EDFConfig>>,
    ) -> (c: Config)
        ensures
            c.x == x,
            c.y == y,
            c.detectors == detectors,
            c.computed_detectors == computed_detectors,
            c.edf == edf,
            sorted_u32(c.adcs@),
            c.adcs@.to_multiset() == spec_all_adcs(x, y, detectors@).to_multiset(),
    {
        let mut adcs: Vec<u32> = Vec::new();
        adcs.push(x);
        adcs.push(y);
        let mut i: usize = 0;
        while i < detectors.len()
            invariant
                i <= detectors@.len(),
                adcs@ == seq![x, y] + detectors@.take(i as int).map_values(
                    |e: (String, Detector)| e.1.adc,
                ),
            decreases detectors@.len() - i,
        {
            adcs.push(detectors[i].1.adc);
            proof {
                assert(detectors@.take(i + 1).map_values(|e: (String, Detector)| e.1.adc)
                    =~= detectors@.take(i as int).map_values(|e: (String, Detector)| e.1.adc).push(
                    detectors@[i as int].1.adc,
                ));
                assert(adcs@ =~= seq![x, y] + detectors@.take(i + 1).map_values(
                    |e: (String, Detector)| e.1.adc,
                ));
            }
            i = i + 1;
        }
        proof {
            assert(detectors@.take(detectors@.len() as int) =~= detectors@);
        }
        sort_u32_vec(&mut adcs);
        Config { x, y, detectors, computed_detectors, adcs, edf }
    }

    /// The name and detector of the first catalog entry carrying `adc`.
    pub fn get_detector_name_from_adc<'a>(&'a self, adc: u32) -> (r: Option<
        (&'a String, &'a Detector),
    >)
        ensures
            match (r, spec_find_adc(self.detectors@, adc)) {
                (Some(p), Some(i)) => *p.0 == self.detectors@[i].0 && *p.1 == self.detectors@[i].1,
                (None, None) => true,
                _ => false,
            },
    {
        proof {
            lemma_find_adc_props(self.detectors@, adc);
        }
        let mut i: usize = 0;
        while i < self.detectors.len()
            invariant
                i <= self.detectors@.len(),
                forall|j: int| 0 <= j < i ==> (#[trigger] self.detectors@[j]).1.adc != adc,
            decreases self.detectors@.len() - i,
        {
            let entry = &self.detectors[i];
            if entry.1.adc == adc {
                proof {
                    lemma_find_adc_props(self.detectors@, adc);
                    match spec_find_adc(self.detectors@, adc) {
                        Some(k) => {
                            assert(!(k < i) && !(i < k));
                        },
                        None => {
                            assert(false);
                        },
                    }
                }
                return Some((&entry.0, &entry.1));
            }
            i = i + 1;
        }
        None
    }

    /// Allocate the packed dataset: shape `[max_y, max_x, total_channels]`,
    /// all cells zero.
    pub fn create_big_dataset(&self, max_x: i64, max_y: i64) -> (c: Cube)
        requires
            self.wf(),
            0 <= max_x,
            0 <= max_y,
            fits_alloc(max_y as int, max_x as int, total_channels(self.detectors@)),
        ensures
            c.wf(),
            c.ny() == max_y,
            c.nx() == max_x,
            c.nz() == total_channels(self.detectors@),
            c.cells() == zero_cells(max_y as int, max_x as int, total_channels(self.detectors@)),
    {
        let total = self.total_packed_channels();
        proof {
            crate::cube::lemma_fits_alloc_bounds(
                max_y as int,
                max_x as int,
                total_channels(self.detectors@),
            );
        }
        Cube::zeros(max_y as usize, max_x as usize, total as usize)
    }

    /// The length of the packed channel axis: every detector's channel count
    /// summed in catalog order.
    pub fn total_packed_channels(&self) -> (t: u32)
        requires
            self.wf(),
        ensures
            t == total_channels(self.detectors@),
    {
        let mut t: u32 = 0;
        let mut i: usize = 0;
        while i < self.detectors.len()
            invariant
                self.wf(),
                i <= self.detectors@.len(),
                t == floor_at(self.detectors@, i as int),
            decreases self.detectors@.len() - i,
        {
            proof {
                lemma_floor_step(self.detectors@, i as int);
                lemma_floor_le_total(self.detectors@, i + 1);
            }
            t = t + self.detectors[i].1.channels;
            i = i + 1;
        }
        proof {
            assert(self.detectors@.take(self.detectors@.len() as int) =~= self.detectors@);
        }
        t
    }

    /// The floor of the first detector with the given name; `0` when the name
    /// is not in the catalog.
    pub fn get_floor_for_detector_name(&self, detector_name: &String) -> (floor: u32)
        requires
            self.wf(),
        ensures
            match spec_find_name(self.detectors@, detector_name@) {
                Some(i) => floor == floor_at(self.detectors@, i),
                None => floor == 0,
            },
    {
        proof {
            lemma_find_name_props(self.detectors@, detector_name@);
        }
        let mut floor: u32 = 0;
        let mut i: usize = 0;
        while i < self.detectors.len()
            invariant
                self.wf(),
                i <= self.detectors@.len(),
                floor == floor_at(self.detectors@, i as int),
                forall|j: int| 0 <= j < i ==> (#[trigger] self.detectors@[j]).0@ != detector_name@,
            decreases self.detectors@.len() - i,
        {
            let entry = &self.detectors[i];
            if str_eq(entry.0.as_str(), detector_name.as_str()) {
                proof {
                    lemma_find_name_props(self.detectors@, detector_name@);
                    match spec_find_name(self.detectors@, detector_name@) {
                        Some(k) => {
                            assert(!(k < i) && !(i < k));
                        },
                        None => {
                            assert(false);
                        },
                    }
                }
                return floor;
            }
            proof {
                lemma_floor_step(self.detectors@, i as int);
                lemma_floor_le_total(self.detectors@, i + 1);
            }
            floor = floor + entry.1.channels;
            i = i + 1;
        }
        0
    }

    /// The name, detector and floor of the first catalog entry carrying
    /// `adc`; `None` when no detector carries it.
    pub fn get_detector_and_floor_for_adc<'a>(&'a self, adc: u32) -> (r: Option<
        (&'a String, &'a Detector, u32),
    >)
        requires
            self.wf(),
        ensures
            match (r, spec_find_adc(self.detectors@, adc)) {
                (Some(p), Some(i)) => *p.0 == self.detectors@[i].0 && *p.1 == self.detectors@[i].1
                    && p.2 == floor_at(self.detectors@, i),
                (None, None) => true,
                _ => false,
            },
    {
        proof {
            lemma_find_adc_props(self.detectors@, adc);
        }
        let mut floor: u32 = 0;
        let mut i: usize = 0;
        while i < self.detectors.len()
            invariant
                self.wf(),
                i <= self.detectors@.len(),
                floor == floor_at(self.detectors@, i as int),
                forall|j: int| 0 <= j < i ==> (#[trigger] self.detectors@[j]).1.adc != adc,
            decreases self.detectors@.len() - i,
        {
            let entry = &self.detectors[i];
            if entry.1.adc == adc {
                proof {
                    lemma_find_adc_props(self.detectors@, adc);
                    match spec_find_adc(self.detectors@, adc) {
                        Some(k) => {
                            assert(!(k < i) && !(i < k));
                        },
                        None => {
                            assert(false);
                        },
                    }
                }
                return Some((&entry.0, &entry.1, floor));
            }
            proof {
                lemma_floor_step(self.detectors@, i as int);
                lemma_floor_le_total(self.detectors@, i + 1);
            }
            floor = floor + entry.1.channels;
            i = i + 1;
        }
        None
    }

    /// Whether any catalog detector carries the given ADC flag.
    pub fn adc_exists(&self, adc: u32) -> (r: bool)
        ensures
            r <==> exists|j: int|
                0 <= j < self.detectors@.len() && (#[trigger] self.detectors@[j]).1.adc == adc,
    {
        let mut i: usize = 0;
        while i < self.detectors.len()
            invariant
                i <= self.detectors@.len(),
                forall|j: int| 0 <= j < i ==> (#[trigger] self.detectors@[j]).1.adc != adc,
            decreases self.detectors@.len() - i,
        {
            if self.detectors[i].1.adc == adc {
                return true;
            }
            i = i + 1;
        }
        false
    }

    /// The largest channel count among the group's members that resolve in
    /// the catalog; `0` when none resolves.
    pub fn get_max_channels_for_computed_detector(&self, computed_detector_name: &String) -> (r:
        u32)
        requires
            spec_find_computed(self.computed_detectors@, computed_detector_name@) is Some,
        ensures
            ({
                let k = spec_find_computed(
                    self.computed_detectors@,
                    computed_detector_name@,
                )->Some_0;
                r == spec_max_channels(self.detectors@, self.computed_detectors@[k].1.detectors@)
            }),
    {
        proof {
            lemma_find_computed_props(self.computed_detectors@, computed_detector_name@);
        }
        let mut k: usize = 0;
        let n = self.computed_detectors.len();
        while k < n
            invariant
                n == self.computed_detectors@.len(),
                k <= n,
                spec_find_computed(self.computed_detectors@, computed_detector_name@) is Some,
                forall|k2: int|
                    0 <= k2 < k ==> (#[trigger] self.computed_detectors@[k2]).0@
                        != computed_detector_name@,
            decreases n - k,
        {
            if str_eq(self.computed_detectors[k].0.as_str(), computed_detector_name.as_str()) {
                proof {
                    lemma_find_computed_props(self.computed_detectors@, computed_detector_name@);
                    let kf = spec_find_computed(
                        self.computed_detectors@,
                        computed_detector_name@,
                    )->Some_0;
                    assert(!(kf < k) && !(k < kf));
                }
                let members = &self.computed_detectors[k].1.detectors;
                let mut best: u32 = 0;
                let mut i: usize = 0;
                while i < self.detectors.len()
                    invariant
                        i <= self.detectors@.len(),
                        members == &self.computed_detectors@[k as int].1.detectors,
                        best == spec_max_channels(self.detectors@.take(i as int), members@),
                    decreases self.detectors@.len() - i,
                {
                    let entry = &self.detectors[i];
                    proof {
                        assert(self.detectors@.take(i + 1).drop_last() =~= self.detectors@.take(
                            i as int,
                        ));
                        assert(self.detectors@.take(i + 1).last() == self.detectors@[i as int]);
                    }
                    if contains_name(members, entry.0.as_str()) {
                        if entry.1.channels > best {
                            best = entry.1.channels;
                        }
                    }
                    i = i + 1;
                }
                proof {
                    assert(self.detectors@.take(self.detectors@.len() as int)
                        =~= self.detectors@);
                }
                return best;
            }
            k = k + 1;
        }
        proof {
            lemma_find_computed_props(self.computed_detectors@, computed_detector_name@);
            assert(false);
        }
        0
    }
}

} // verus!
