//! The header-side data model: map geometry, experiment metadata, the header
//! accumulator with its `cmline` directive grammar, and the result types.

use vstd::prelude::*;
use crate::cube::Cube;
use crate::text::spec_after_last;
use crate::text::spec_split;
use crate::text::spec_parse_u32;
use crate::text::after_last;
use crate::text::split_str;
use crate::text::parse_u32_str;
use crate::text::str_eq;
use crate::text::views_of;

verus! {

/// The scanned map geometry from the `Map size` header directive.
#[derive(Debug, Clone, Copy, PartialEq, Eq, Structural)]
pub struct MapSize {
    pub width: u32,
    pub height: u32,
    pub pixel_size_width: u32,
    pub pixel_size_height: u32,
    pub pen_size: u32,
}

/// Field `i` of a token list read as `u32`; missing or unparsable fields read
/// as `0`.
pub open spec fn spec_field_u32(toks: Seq<Seq<char>>, i: int) -> u32 {
    if 0 <= i < toks.len() {
        match spec_parse_u32(toks[i]) {
            Some(v) => v,
            None => 0,
        }
    } else {
        0
    }
}

/// The map size encoded in a header line: five comma-separated numbers after
/// the last colon.
pub open spec fn spec_parse_mapsize(content: Seq<char>) -> MapSize {
    let toks = spec_split(spec_after_last(content, ':'), ',');
    MapSize {
        width: spec_field_u32(toks, 0),
        height: spec_field_u32(toks, 1),
        pixel_size_width: spec_field_u32(toks, 2),
        pixel_size_height: spec_field_u32(toks, 3),
        pen_size: spec_field_u32(toks, 4),
    }
}

/// A map axis extent: `width / pixel_size` rounded half away from zero, with
/// the conventions of float division at a zero pixel size.
pub open spec fn spec_max_dim(w: u32, p: u32) -> int {
    if p == 0 {
        if w == 0 {
            0
        } else {
            i64::MAX as int
        }
    } else {
        (2 * w + p) as int / (2 * p) as int
    }
}

/// Field `i` of a token list; missing fields read as the empty string.
pub open spec fn spec_field_str(toks: Seq<Seq<char>>, i: int) -> Seq<char> {
    if 0 <= i < toks.len() {
        toks[i]
    } else {
        Seq::empty()
    }
}

fn field_u32(toks: &Vec<String>, i: usize) -> (r: u32)
    ensures
        r == spec_field_u32(views_of(toks@), i as int),
{
    if i < toks.len() {
        match parse_u32_str(toks[i].as_str()) {
            Some(v) => v,
            None => 0,
        }
    } else {
        0
    }
}

fn field_str(toks: &Vec<String>, i: usize) -> (r: String)
    ensures
        r@ == spec_field_str(views_of(toks@), i as int),
{
    if i < toks.len() {
        let r = toks[i].clone();
        r
    } else {
        String::new()
    }
}

impl MapSize {
    /// Read the five geometry fields after the last colon of a `Map size`
    /// line; missing or unparsable fields read as `0`.
    pub fn parse(content: &str) -> (r: Option<MapSize>)
        ensures
            r == Some(spec_parse_mapsize(content@)),
    {
        let map_params = after_last(content, ':');
        let params = split_str(map_params, ',');
        Some(
            MapSize {
                width: field_u32(&params, 0),
                height: field_u32(&params, 1),
                pixel_size_width: field_u32(&params, 2),
                pixel_size_height: field_u32(&params, 3),
                pen_size: field_u32(&params, 4),
            },
        )
    }

    /// The number of beam columns.
    pub fn get_max_x(&self) -> (r: i64)
        ensures
            r == spec_max_dim(self.width, self.pixel_size_width),
    {
        Self::max_dim(self.width, self.pixel_size_width)
    }

    /// The number of beam rows.
    pub fn get_max_y(&self) -> (r: i64)
        ensures
            r == spec_max_dim(self.height, self.pixel_size_height),
    {
        Self::max_dim(self.height, self.pixel_size_height)
    }

    fn max_dim(w: u32, p: u32) -> (r: i64)
        ensures
            r == spec_max_dim(w, p),
    {
        if p == 0 {
            if w == 0 {
                0
            } else {
                i64::MAX
            }
        } else {
            (2 * (w as i64) + (p as i64)) / (2 * (p as i64))
        }
    }

    /// Whether every geometry field is zero.
    pub fn is_empty(&self) -> (r: bool)
        ensures
            r == (self.width == 0 && self.height == 0 && self.pixel_size_width == 0
                && self.pixel_size_height == 0 && self.pen_size == 0),
    {
        self.width == 0 && self.height == 0 && self.pixel_size_width == 0
            && self.pixel_size_height == 0 && self.pen_size == 0
    }
}

/// Experiment metadata from the `Exp.Info` header directive: the particle,
/// the beam energy, and the filter label of each fixed detector.
#[derive(Debug, Clone)]
pub struct ExpInfo {
    pub particle: String,
    pub beam_energy: String,
    pub le0_filter: String,
    pub he1_filter: String,
    pub he2_filter: String,
    pub he3_filter: String,
    pub he4_filter: String,
}

/// Whether `e` holds exactly the seven positional fields of `content` (after
/// the last colon, split on commas; missing fields are empty).
pub open spec fn expinfo_matches(e: ExpInfo, content: Seq<char>) -> bool {
    let toks = spec_split(spec_after_last(content, ':'), ',');
    &&& e.particle@ == spec_field_str(toks, 0)
    &&& e.beam_energy@ == spec_field_str(toks, 1)
    &&& e.le0_filter@ == spec_field_str(toks, 2)
    &&& e.he1_filter@ == spec_field_str(toks, 3)
    &&& e.he2_filter@ == spec_field_str(toks, 4)
    &&& e.he3_filter@ == spec_field_str(toks, 5)
    &&& e.he4_filter@ == spec_field_str(toks, 6)
}

/// The filter label `e` holds for a detector name, for the five fixed
/// detector names that carry one.
pub open spec fn spec_filter_for(e: ExpInfo, name: Seq<char>) -> Option<Seq<char>> {
    if name == "LE0"@ {
        Some(e.le0_filter@)
    } else if name == "HE1"@ {
        Some(e.he1_filter@)
    } else if name == "HE2"@ {
        Some(e.he2_filter@)
    } else if name == "HE3"@ {
        Some(e.he3_filter@)
    } else if name == "HE4"@ {
        Some(e.he4_filter@)
    } else {
        None
    }
}

impl ExpInfo {
    /// Read the seven metadata fields after the last colon of an `Exp.Info`
    /// line; missing fields read as empty strings.
    pub fn parse(content: &str) -> (r: Option<ExpInfo>)
        ensures
            match r {
                Some(e) => expinfo_matches(e, content@),
                None => false,
            },
    {
        let exp_params = after_last(content, ':');
        let params = split_str(exp_params, ',');
        Some(
            ExpInfo {
                particle: field_str(&params, 0),
                beam_energy: field_str(&params, 1),
                le0_filter: field_str(&params, 2),
                he1_filter: field_str(&params, 3),
                he2_filter: field_str(&params, 4),
                he3_filter: field_str(&params, 5),
                he4_filter: field_str(&params, 6),
            },
        )
    }

    /// The filter label for one of the five fixed detector names.
    pub fn get_filter_for_detector(&self, filter_name: &str) -> (r: Option<String>)
        ensures
            match (r, spec_filter_for(*self, filter_name@)) {
                (Some(s), Some(t)) => s@ == t,
                (None, None) => true,
                _ => false,
            },
    {
        if str_eq(filter_name, "LE0") {
            Some(self.le0_filter.clone())
        } else if str_eq(filter_name, "HE1") {
            Some(self.he1_filter.clone())
        } else if str_eq(filter_name, "HE2") {
            Some(self.he2_filter.clone())
        } else if str_eq(filter_name, "HE3") {
            Some(self.he3_filter.clone())
        } else if str_eq(filter_name, "HE4") {
            Some(self.he4_filter.clone())
        } else {
            None
        }
    }
}

/// A character the command name of a `cmline` directive may hold: letters,
/// digits, `-`, `.` and space.
pub open spec fn is_cmd_char(c: char) -> bool {
    (97 <= c as u32 && c as u32 <= 122) || (65 <= c as u32 && c as u32 <= 90) || (48 <= c as u32
        && c as u32 <= 57) || c == '-' || c == '.' || c == ' '
}

/// After the digit run of a `cmline` directive: an optional `=`, then one
/// space; yields the position after the space.
pub open spec fn cmline_eq_space(s: Seq<char>, k: int) -> Option<int> {
    if 0 <= k < s.len() && s[k] == '=' {
        if k + 1 < s.len() && s[k + 1] == ' ' {
            Some(k + 2)
        } else {
            None
        }
    } else if 0 <= k < s.len() && s[k] == ' ' {
        Some(k + 1)
    } else {
        None
    }
}

/// The one or two digits after `cmline`, greedily two when the longer read
/// lets the rest match; yields the position after the following space.
pub open spec fn cmline_after_digits(s: Seq<char>, j: int) -> Option<int> {
    if 0 <= j < s.len() && crate::text::is_digit(s[j]) {
        if j + 1 < s.len() && crate::text::is_digit(s[j + 1]) {
            match cmline_eq_space(s, j + 2) {
                Some(p) => Some(p),
                None => cmline_eq_space(s, j + 1),
            }
        } else {
            cmline_eq_space(s, j + 1)
        }
    } else {
        None
    }
}

/// The end of the maximal run of command characters from `p`.
pub open spec fn cmd_run_end(s: Seq<char>, p: int) -> int
    decreases s.len() - p,
{
    if 0 <= p < s.len() && is_cmd_char(s[p]) {
        cmd_run_end(s, p + 1)
    } else {
        p
    }
}

/// A `cmline` directive starting at `i`: the literal `cmline`, one or two
/// digits, an optional `=`, a space, a non-empty command name, and a colon;
/// yields the command name's bounds.
pub open spec fn cmline_match_at(s: Seq<char>, i: int) -> Option<(int, int)> {
    if 0 <= i && i + 6 <= s.len() && s.subrange(i, i + 6) == "cmline"@ {
        match cmline_after_digits(s, i + 6) {
            Some(p) => {
                let q = cmd_run_end(s, p);
                if q > p && q < s.len() && s[q] == ':' {
                    Some((p, q))
                } else {
                    None
                }
            },
            None => None,
        }
    } else {
        None
    }
}

/// The leftmost `cmline` directive at or after position `i`.
pub open spec fn cmline_find_from(s: Seq<char>, i: int) -> Option<(int, int)>
    decreases s.len() - i,
{
    if i >= s.len() {
        None
    } else {
        match cmline_match_at(s, i) {
            Some(r) => Some(r),
            None => cmline_find_from(s, i + 1),
        }
    }
}

/// The leftmost `cmline` directive of a line: the bounds of its command
/// name.
pub open spec fn spec_cmline(s: Seq<char>) -> Option<(int, int)> {
    cmline_find_from(s, 0)
}

/// `o` holds a string reading `t`.
pub open spec fn opt_str_is(o: Option<String>, t: Seq<char>) -> bool {
    match o {
        Some(s) => s@ == t,
        None => false,
    }
}

fn is_cmd_char_exec(c: char) -> (r: bool)
    ensures
        r == is_cmd_char(c),
{
    let u = c as u32;
    (97 <= u && u <= 122) || (65 <= u && u <= 90) || (48 <= u && u <= 57) || c == '-' || c == '.'
        || c == ' '
}

fn eq_space_at(line: &str, k: usize) -> (r: Option<usize>)
    ensures
        match (r, cmline_eq_space(line@, k as int)) {
            (Some(a), Some(b)) => a == b && a <= line@.len(),
            (None, None) => true,
            _ => false,
        },
{
    let n = line.unicode_len();
    if k < n && line.get_char(k) == '=' {
        if k + 1 < n && line.get_char(k + 1) == ' ' {
            Some(k + 2)
        } else {
            None
        }
    } else if k < n && line.get_char(k) == ' ' {
        Some(k + 1)
    } else {
        None
    }
}

fn after_digits_at(line: &str, j: usize) -> (r: Option<usize>)
    ensures
        match (r, cmline_after_digits(line@, j as int)) {
            (Some(a), Some(b)) => a == b && a <= line@.len(),
            (None, None) => true,
            _ => false,
        },
{
    let n = line.unicode_len();
    if j < n && digit_exec(line.get_char(j)) {
        if j + 1 < n && digit_exec(line.get_char(j + 1)) {
            match eq_space_at(line, j + 2) {
                Some(p) => Some(p),
                None => eq_space_at(line, j + 1),
            }
        } else {
            eq_space_at(line, j + 1)
        }
    } else {
        None
    }
}

fn digit_exec(c: char) -> (r: bool)
    ensures
        r == crate::text::is_digit(c),
{
    let u = c as u32;
    48 <= u && u <= 57
}

fn run_end_from(line: &str, p: usize) -> (q: usize)
    requires
        p <= line@.len(),
    ensures
        q == cmd_run_end(line@, p as int),
        p <= q <= line@.len(),
{
    let n = line.unicode_len();
    let mut q: usize = p;
    while q < n && is_cmd_char_exec(line.get_char(q))
        invariant
            n == line@.len(),
            p <= q <= n,
            cmd_run_end(line@, p as int) == cmd_run_end(line@, q as int),
        decreases n - q,
    {
        q = q + 1;
    }
    q
}

/// The command name bounds of the leftmost `cmline` directive, if the line
/// holds one.
fn cmline_captures(line: &str) -> (r: Option<(usize, usize)>)
    ensures
        match (r, spec_cmline(line@)) {
            (Some(a), Some(b)) => a.0 == b.0 && a.1 == b.1 && a.0 < a.1 && a.1 < line@.len(),
            (None, None) => true,
            _ => false,
        },
{
    let n = line.unicode_len();
    let mut i: usize = 0;
    while i < n
        invariant
            n == line@.len(),
            i <= n,
            spec_cmline(line@) == cmline_find_from(line@, i as int),
        decreases n - i,
    {
        proof {
            reveal_strlit("cmline");
        }
        let mut found: Option<(usize, usize)> = None;
        if n - i >= 6 && crate::text::occurs_at(line, "cmline", i) {
            match after_digits_at(line, i + 6) {
                Some(p) => {
                    let q = run_end_from(line, p);
                    if q > p && q < n && line.get_char(q) == ':' {
                        found = Some((p, q));
                    }
                },
                None => {},
            }
        }
        match found {
            Some(pq) => {
                proof {
                    assert(cmline_match_at(line@, i as int) == Some((pq.0 as int, pq.1 as int)));
                }
                return Some(pq);
            },
            None => {
                proof {
                    assert(cmline_match_at(line@, i as int) is None);
                }
                i = i + 1;
            },
        }
    }
    None
}

/// The header accumulator: geometry, metadata, and the named tags that
/// `cmline` directives carry.
pub struct LSTHeader {
    pub map_size: MapSize,
    pub exp_info: Option<ExpInfo>,
    pub timer_reduce: u32,
    pub euphrosyne_project_name: Option<String>,
    pub run_name: Option<String>,
    pub euphrosyne_object_name: Option<String>,
    pub aglae_object_name: Option<String>,
    pub aglae_project_name: Option<String>,
    pub aglae_material: Option<String>,
}

impl LSTHeader {
    /// An empty header: zero geometry, no metadata, no tags.
    pub fn new() -> (h: LSTHeader)
        ensures
            h.map_size == (MapSize {
                width: 0,
                height: 0,
                pixel_size_width: 0,
                pixel_size_height: 0,
                pen_size: 0,
            }),
            h.exp_info is None,
            h.timer_reduce == 0,
            h.euphrosyne_project_name is None,
            h.run_name is None,
            h.euphrosyne_object_name is None,
            h.aglae_object_name is None,
            h.aglae_project_name is None,
            h.aglae_material is None,
    {
        LSTHeader {
            map_size: MapSize {
                width: 0,
                height: 0,
                pixel_size_width: 0,
                pixel_size_height: 0,
                pen_size: 0,
            },
            exp_info: None,
            timer_reduce: 0,
            euphrosyne_project_name: None,
            run_name: None,
            euphrosyne_object_name: None,
            aglae_object_name: None,
            aglae_project_name: None,
            aglae_material: None,
        }
    }

    /// The text after the last colon of a line, as a tag value.
    fn parse_end_line(line: &str) -> (r: Option<String>)
        ensures
            opt_str_is(r, spec_after_last(line@, ':')),
    {
        Some(after_last(line, ':').to_owned())
    }

    /// Apply one header line: when it carries a `cmline` directive whose
    /// command is known, record the directive's value; otherwise leave the
    /// header unchanged.
    pub fn parse_line(&mut self, line: &str)
        ensures
            match spec_cmline(line@) {
                None => *final(self) == *old(self),
                Some(pq) => {
                    let cmd = line@.subrange(pq.0, pq.1);
                    if cmd == "Map size"@ {
                        *final(self) == (LSTHeader { map_size: spec_parse_mapsize(line@), ..*old(self) })
                    } else if cmd == "Exp info"@ {
                        &&& match final(self).exp_info {
                            Some(e) => expinfo_matches(e, line@),
                            None => false,
                        }
                        &&& final(self).map_size == old(self).map_size
                        &&& final(self).timer_reduce == old(self).timer_reduce
                        &&& final(self).euphrosyne_project_name == old(self).euphrosyne_project_name
                        &&& final(self).run_name == old(self).run_name
                        &&& final(self).euphrosyne_object_name == old(self).euphrosyne_object_name
                        &&& final(self).aglae_object_name == old(self).aglae_object_name
                        &&& final(self).aglae_project_name == old(self).aglae_project_name
                        &&& final(self).aglae_material == old(self).aglae_material
                    } else if cmd == "Prj-Euphrosyne"@ {
                        &&& opt_str_is(
                            final(self).euphrosyne_project_name,
                            spec_after_last(line@, ':'),
                        )
                        &&& *final(self) == (LSTHeader {
                            euphrosyne_project_name: final(self).euphrosyne_project_name,
                            ..*old(self)
                        })
                    } else if cmd == "Run-Euphrosyne"@ {
                        &&& opt_str_is(final(self).run_name, spec_after_last(line@, ':'))
                        &&& *final(self) == (LSTHeader {
                            run_name: final(self).run_name,
                            ..*old(self)
                        })
                    } else if cmd == "Obj-Euphrosyne"@ {
                        &&& opt_str_is(
                            final(self).euphrosyne_object_name,
                            spec_after_last(line@, ':'),
                        )
                        &&& *final(self) == (LSTHeader {
                            euphrosyne_object_name: final(self).euphrosyne_object_name,
                            ..*old(self)
                        })
                    } else if cmd == "Obj-AGLAE"@ {
                        &&& opt_str_is(final(self).aglae_object_name, spec_after_last(line@, ':'))
                        &&& *final(self) == (LSTHeader {
                            aglae_object_name: final(self).aglae_object_name,
                            ..*old(self)
                        })
                    } else if cmd == "Prj-AGLAE"@ {
                        &&& opt_str_is(final(self).aglae_project_name, spec_after_last(line@, ':'))
                        &&& *final(self) == (LSTHeader {
                            aglae_project_name: final(self).aglae_project_name,
                            ..*old(self)
                        })
                    } else if cmd == "Material-AGLAE"@ {
                        &&& opt_str_is(final(self).aglae_material, spec_after_last(line@, ':'))
                        &&& *final(self) == (LSTHeader {
                            aglae_material: final(self).aglae_material,
                            ..*old(self)
                        })
                    } else {
                        *final(self) == *old(self)
                    }
                },
            },
    {
        let caps = cmline_captures(line);
        match caps {
            None => {},
            Some((p, q)) => {
                let cmd = line.substring_char(p, q);
                if str_eq(cmd, "Map size") {
                    if let Some(map_size) = MapSize::parse(line) {
                        self.map_size = map_size;
                    }
                } else if str_eq(cmd, "Exp info") {
                    if let Some(exp_info) = ExpInfo::parse(line) {
                        self.exp_info = Some(exp_info);
                    }
                } else if str_eq(cmd, "Prj-Euphrosyne") {
                    self.euphrosyne_project_name = Self::parse_end_line(line);
                } else if str_eq(cmd, "Run-Euphrosyne") {
                    self.run_name = Self::parse_end_line(line);
                } else if str_eq(cmd, "Obj-Euphrosyne") {
                    self.euphrosyne_object_name = Self::parse_end_line(line);
                } else if str_eq(cmd, "Obj-AGLAE") {
                    self.aglae_object_name = Self::parse_end_line(line);
                } else if str_eq(cmd, "Prj-AGLAE") {
                    self.aglae_project_name = Self::parse_end_line(line);
                } else if str_eq(cmd, "Material-AGLAE") {
                    self.aglae_material = Self::parse_end_line(line);
                }
            },
        }
    }
}

/// One named cube with its attributes: a per-detector dataset or a computed
/// group dataset.
pub struct LSTData {
    pub name: String,
    pub attributes: Vec<(String, String)>,
    pub data: Cube,
}

/// The first dataset position with the given name.
pub open spec fn spec_find_dataset(ds: Seq<LSTData>, name: Seq<char>) -> Option<int>
    decreases ds.len(),
{
    if ds.len() == 0 {
        None
    } else if ds[0].name@ == name {
        Some(0)
    } else {
        match spec_find_dataset(ds.drop_first(), name) {
            Some(i) => Some(i + 1),
            None => None,
        }
    }
}

pub proof fn lemma_find_dataset_props(ds: Seq<LSTData>, name: Seq<char>)
    ensures
        match spec_find_dataset(ds, name) {
            Some(i) => 0 <= i < ds.len() && ds[i].name@ == name && forall|j: int|
                0 <= j < i ==> (#[trigger] ds[j]).name@ != name,
            None => forall|j: int| 0 <= j < ds.len() ==> (#[trigger] ds[j]).name@ != name,
        },
    decreases ds.len(),
{
    if ds.len() > 0 {
        lemma_find_dataset_props(ds.drop_first(), name);
        assert forall|j: int| 0 < j < ds.len() implies ds.drop_first()[j - 1] == ds[j] by {}
    }
}

/// The first attribute position with the given key.
pub open spec fn spec_find_attr(attrs: Seq<(String, String)>, key: Seq<char>) -> Option<int>
    decreases attrs.len(),
{
    if attrs.len() == 0 {
        None
    } else if attrs[0].0@ == key {
        Some(0)
    } else {
        match spec_find_attr(attrs.drop_first(), key) {
            Some(i) => Some(i + 1),
            None => None,
        }
    }
}

pub proof fn lemma_find_attr_props(attrs: Seq<(String, String)>, key: Seq<char>)
    ensures
        match spec_find_attr(attrs, key) {
            Some(i) => 0 <= i < attrs.len() && attrs[i].0@ == key && forall|j: int|
                0 <= j < i ==> (#[trigger] attrs[j]).0@ != key,
            None => forall|j: int| 0 <= j < attrs.len() ==> (#[trigger] attrs[j]).0@ != key,
        },
    decreases attrs.len(),
{
    if attrs.len() > 0 {
        lemma_find_attr_props(attrs.drop_first(), key);
        assert forall|j: int| 0 < j < attrs.len() implies attrs.drop_first()[j - 1] == attrs[j] by {}
    }
}

/// The decoded file: per-detector datasets, computed group datasets, and
/// string attributes (keyed association list, first match wins).
pub struct ParsingResult {
    pub datasets: Vec<LSTData>,
    pub computed_datasets: Vec<LSTData>,
    pub attributes: Vec<(String, String)>,
}

impl ParsingResult {
    /// The first per-detector dataset with the given name.
    pub fn get_dataset<'a>(&'a self, name: &str) -> (r: Option<&'a LSTData>)
        ensures
            match (r, spec_find_dataset(self.datasets@, name@)) {
                (Some(d), Some(i)) => *d == self.datasets@[i],
                (None, None) => true,
                _ => false,
            },
    {
        let mut i: usize = 0;
        while i < self.datasets.len()
            invariant
                i <= self.datasets@.len(),
                forall|j: int| 0 <= j < i ==> (#[trigger] self.datasets@[j]).name@ != name@,
            decreases self.datasets@.len() - i,
        {
            let d = &self.datasets[i];
            if str_eq(d.name.as_str(), name) {
                proof {
                    lemma_find_dataset_props(self.datasets@, name@);
                    match spec_find_dataset(self.datasets@, name@) {
                        Some(k) => {
                            assert(!(k < i) && !(i < k));
                        },
                        None => {
                            assert(false);
                        },
                    }
                }
                return Some(d);
            }
            i = i + 1;
        }
        proof {
            lemma_find_dataset_props(self.datasets@, name@);
        }
        None
    }

    /// Set an attribute: replace the value of the first pair carrying the
    /// key, or append a new pair.
    pub fn add_attr(&mut self, key: String, value: String)
        ensures
            final(self).datasets == old(self).datasets,
            final(self).computed_datasets == old(self).computed_datasets,
            match spec_find_attr(old(self).attributes@, key@) {
                Some(i) => final(self).attributes@ == old(self).attributes@.update(
                    i,
                    (old(self).attributes@[i].0, value),
                ),
                None => final(self).attributes@ == old(self).attributes@.push((key, value)),
            },
    {
        let mut i: usize = 0;
        let n = self.attributes.len();
        while i < n
            invariant
                n == self.attributes@.len(),
                i <= n,
                *self == *old(self),
                forall|j: int| 0 <= j < i ==> (#[trigger] self.attributes@[j]).0@ != key@,
            decreases n - i,
        {
            if str_eq(self.attributes[i].0.as_str(), key.as_str()) {
                proof {
                    lemma_find_attr_props(self.attributes@, key@);
                    match spec_find_attr(self.attributes@, key@) {
                        Some(k) => {
                            assert(!(k < i) && !(i < k));
                        },
                        None => {
                            assert(false);
                        },
                    }
                }
                let old_key = self.attributes[i].0.clone();
                self.attributes.set(i, (old_key, value));
                return ;
            }
            i = i + 1;
        }
        proof {
            lemma_find_attr_props(self.attributes@, key@);
        }
        self.attributes.push((key, value));
    }
}

} // verus!
