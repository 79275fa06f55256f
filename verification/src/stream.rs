//! The event-stream decoder: binary words, hit payloads, the beam position,
//! the streaming accumulator, the slicer and the computed-group composer.

use vstd::prelude::*;
use vstd::slice::slice_index_get;
use crate::config::Config;
use crate::cube::Cube;
use crate::config::spec_find_adc;
use crate::config::lemma_find_adc_props;
use crate::config::floor_at;
use crate::config::lemma_floor_bounds;
use crate::config::total_channels;

verus! {

/// The current beam position, carried across events until the next axis
/// update.
#[derive(Clone, Copy, Debug, PartialEq, Eq, Structural)]
pub struct Position {
    pub x: u16,
    pub y: u16,
}

/// The little-endian 16-bit value at byte offset `i`.
pub open spec fn spec_u16_at(b: Seq<u8>, i: int) -> u16 {
    (b[i] + b[i + 1] * 0x100) as u16
}

/// The little-endian 32-bit word at byte offset `i`.
pub open spec fn spec_u32_at(b: Seq<u8>, i: int) -> u32 {
    (b[i] + b[i + 1] * 0x100 + b[i + 2] * 0x10000 + b[i + 3] * 0x1000000) as u32
}

/// The `k` little-endian 16-bit payload values starting at byte offset
/// `start`.
pub open spec fn spec_payload_vals(b: Seq<u8>, start: int, k: int) -> Seq<u16>
    decreases k,
{
    if k <= 0 {
        Seq::empty()
    } else {
        seq![spec_u16_at(b, start)] + spec_payload_vals(b, start + 2, k - 1)
    }
}

/// What one `(flag, value)` payload pair does: update an axis of the beam
/// position, emit a `(detector name, packed channel)` pair, or nothing. An
/// axis value at or beyond the map extent is noise and must not move the
/// position; a zero detector value is no hit; a detector value at or beyond
/// the channel count saturates to the top channel.
pub open spec fn spec_pair_action(
    cfg: Config,
    max_x: int,
    max_y: int,
    flag: u32,
    v: u16,
    pos: Position,
) -> (Position, Option<(Seq<char>, u32)>) {
    if flag == cfg.x && (v as int) < max_x {
        (Position { x: v, ..pos }, None)
    } else if flag == cfg.y && (v as int) < max_y {
        (Position { y: v, ..pos }, None)
    } else {
        match spec_find_adc(cfg.detectors@, flag) {
            Some(i) => {
                if v > 0 {
                    let d = cfg.detectors@[i].1;
                    let ch: int = if (v as int) > d.channels - 1 {
                        d.channels - 1
                    } else {
                        v as int
                    };
                    (pos, Some((cfg.detectors@[i].0@, (floor_at(cfg.detectors@, i) + ch) as u32)))
                } else {
                    (pos, None)
                }
            },
            None => (pos, None),
        }
    }
}

/// Scan a payload's `(flag, value)` pairs in ascending bit order: the final
/// position and the emitted `(name, packed channel)` pairs, in order.
pub open spec fn spec_scan(
    cfg: Config,
    max_x: int,
    max_y: int,
    flags: Seq<u32>,
    vals: Seq<u16>,
    pos: Position,
) -> (Position, Seq<(Seq<char>, u32)>)
    decreases flags.len(),
{
    if flags.len() == 0 {
        (pos, Seq::empty())
    } else {
        let step = spec_pair_action(cfg, max_x, max_y, flags[0], vals[0], pos);
        let rest = spec_scan(cfg, max_x, max_y, flags.drop_first(), vals.drop_first(), step.0);
        (
            rest.0,
            match step.1 {
                Some(e) => seq![e] + rest.1,
                None => rest.1,
            },
        )
    }
}

/// Appending one pair to a payload appends its action after the scan of the
/// prefix.
pub proof fn lemma_scan_push(
    cfg: Config,
    max_x: int,
    max_y: int,
    flags: Seq<u32>,
    vals: Seq<u16>,
    pos: Position,
    f: u32,
    v: u16,
)
    requires
        flags.len() == vals.len(),
    ensures
        ({
            let pre = spec_scan(cfg, max_x, max_y, flags, vals, pos);
            let step = spec_pair_action(cfg, max_x, max_y, f, v, pre.0);
            let whole = spec_scan(cfg, max_x, max_y, flags.push(f), vals.push(v), pos);
            whole.0 == step.0 && whole.1 == (match step.1 {
                Some(e) => pre.1.push(e),
                None => pre.1,
            })
        }),
    decreases flags.len(),
{
    let fs2 = flags.push(f);
    let vs2 = vals.push(v);
    let whole = spec_scan(cfg, max_x, max_y, fs2, vs2, pos);
    assert(fs2.len() == flags.len() + 1);
    if flags.len() == 0 {
        assert(fs2.drop_first() =~= flags);
        assert(vs2.drop_first() =~= vals);
        assert(fs2[0] == f);
        assert(vs2[0] == v);
        let step = spec_pair_action(cfg, max_x, max_y, f, v, pos);
        let rest = spec_scan(cfg, max_x, max_y, fs2.drop_first(), vs2.drop_first(), step.0);
        assert(rest == (step.0, Seq::<(Seq<char>, u32)>::empty()));
        assert(whole.0 == step.0);
        let pre = spec_scan(cfg, max_x, max_y, flags, vals, pos);
        assert(pre.0 == pos);
        assert(pre.1 == Seq::<(Seq<char>, u32)>::empty());
        match step.1 {
            Some(e) => {
                assert(whole.1 == seq![e] + rest.1);
                assert(seq![e] + rest.1 =~= pre.1.push(e));
            },
            None => {
                assert(whole.1 == rest.1);
            },
        }
    } else {
        assert(fs2.drop_first() =~= flags.drop_first().push(f));
        assert(vs2.drop_first() =~= vals.drop_first().push(v));
        assert(fs2[0] == flags[0]);
        assert(vs2[0] == vals[0]);
        let step0 = spec_pair_action(cfg, max_x, max_y, flags[0], vals[0], pos);
        lemma_scan_push(
            cfg,
            max_x,
            max_y,
            flags.drop_first(),
            vals.drop_first(),
            step0.0,
            f,
            v,
        );
        let subpre = spec_scan(cfg, max_x, max_y, flags.drop_first(), vals.drop_first(), step0.0);
        let substep = spec_pair_action(cfg, max_x, max_y, f, v, subpre.0);
        let subwhole = spec_scan(
            cfg,
            max_x,
            max_y,
            flags.drop_first().push(f),
            vals.drop_first().push(v),
            step0.0,
        );
        let pre = spec_scan(cfg, max_x, max_y, flags, vals, pos);
        assert(pre.0 == subpre.0);
        assert(whole.0 == subwhole.0);
        let step = spec_pair_action(cfg, max_x, max_y, f, v, pre.0);
        assert(step == substep);
        match step0.1 {
            Some(e0) => {
                assert(pre.1 == seq![e0] + subpre.1);
                assert(whole.1 == seq![e0] + subwhole.1);
                match step.1 {
                    Some(e) => {
                        assert(subwhole.1 == subpre.1.push(e));
                        assert(seq![e0] + subpre.1.push(e) =~= (seq![e0] + subpre.1).push(e));
                    },
                    None => {
                        assert(subwhole.1 == subpre.1);
                    },
                }
            },
            None => {
                assert(pre.1 == subpre.1);
                assert(whole.1 == subwhole.1);
                match step.1 {
                    Some(e) => {
                        assert(subwhole.1 == subpre.1.push(e));
                    },
                    None => {
                        assert(subwhole.1 == subpre.1);
                    },
                }
            },
        }
    }
}

/// Every packed channel a scan emits lies inside the packed axis.
pub proof fn lemma_scan_emits_in_range(
    cfg: Config,
    max_x: int,
    max_y: int,
    flags: Seq<u32>,
    vals: Seq<u16>,
    pos: Position,
)
    requires
        cfg.wf(),
        flags.len() == vals.len(),
    ensures
        ({
            let r = spec_scan(cfg, max_x, max_y, flags, vals, pos);
            forall|k: int|
                0 <= k < r.1.len() ==> 0 <= (#[trigger] r.1[k]).1 && (r.1[k]).1 < total_channels(
                    cfg.detectors@,
                )
        }),
    decreases flags.len(),
{
    if flags.len() > 0 {
        let step = spec_pair_action(cfg, max_x, max_y, flags[0], vals[0], pos);
        lemma_scan_emits_in_range(
            cfg,
            max_x,
            max_y,
            flags.drop_first(),
            vals.drop_first(),
            step.0,
        );
        let r = spec_scan(cfg, max_x, max_y, flags, vals, pos);
        let rest = spec_scan(cfg, max_x, max_y, flags.drop_first(), vals.drop_first(), step.0);
        match step.1 {
            Some(e) => {
                lemma_find_adc_props(cfg.detectors@, flags[0]);
                match spec_find_adc(cfg.detectors@, flags[0]) {
                    Some(i) => {
                        lemma_floor_bounds(cfg.detectors@, i);
                        assert(0 <= e.1 && (e.1 as int) < total_channels(cfg.detectors@));
                    },
                    None => {
                        assert(false);
                    },
                }
                assert(r.1 == seq![e] + rest.1);
                assert forall|k: int|
                    0 <= k < r.1.len() implies 0 <= (#[trigger] r.1[k]).1 && (r.1[k]).1
                    < total_channels(cfg.detectors@) by {
                    if k == 0 {
                        assert(r.1[0] == e);
                    } else {
                        assert(r.1[k] == rest.1[k - 1]);
                    }
                }
            },
            None => {
                assert(r.1 == rest.1);
            },
        }
    }
}

/// Read the little-endian 16-bit value at byte offset `i`.
fn read_u16_at(b: &[u8], i: usize) -> (v: u16)
    requires
        i + 2 <= b@.len(),
    ensures
        v == spec_u16_at(b@, i as int),
{
    let _bl = b.len();
    let lo = *slice_index_get(b, i) as u16;
    let hi = *slice_index_get(b, i + 1) as u16;
    lo + hi * 0x100
}

/// Read the little-endian 32-bit word at byte offset `i`.
fn read_u32_at(b: &[u8], i: usize) -> (v: u32)
    requires
        i + 4 <= b@.len(),
    ensures
        v == spec_u32_at(b@, i as int),
{
    let _bl = b.len();
    let b0 = *slice_index_get(b, i) as u32;
    let b1 = *slice_index_get(b, i + 1) as u32;
    let b2 = *slice_index_get(b, i + 2) as u32;
    let b3 = *slice_index_get(b, i + 3) as u32;
    b0 + b1 * 0x100 + b2 * 0x10000 + b3 * 0x1000000
}

/// Decode one hit payload: walk the `(flag, value)` pairs in flag order,
/// moving the beam position on in-range axis values and collecting one
/// `(detector name, packed channel)` pair for each positive detector value.
pub fn get_channels_from_buffer(
    adcnum: Vec<u32>,
    buffer: &[u8],
    config: &Config,
    position: &mut Position,
    max_x: i64,
    max_y: i64,
) -> (channels: Vec<(String, u32)>)
    requires
        config.wf(),
        buffer@.len() == 2 * adcnum@.len(),
    ensures
        ({
            let r = spec_scan(
                *config,
                max_x as int,
                max_y as int,
                adcnum@,
                spec_payload_vals(buffer@, 0, adcnum@.len() as int),
                *old(position),
            );
            &&& *final(position) == r.0
            &&& channels@.len() == r.1.len()
            &&& forall|k: int|
                0 <= k < channels@.len() ==> (#[trigger] channels@[k]).0@ == r.1[k].0
                    && channels@[k].1 == r.1[k].1
        }),
{
    let ghost vals = spec_payload_vals(buffer@, 0, adcnum@.len() as int);
    proof {
        lemma_payload_vals_len(buffer@, 0, adcnum@.len() as int);
    }
    let mut channels: Vec<(String, u32)> = Vec::new();
    let n = adcnum.len();
    let bl = buffer.len();
    let mut i: usize = 0;
    while i < n
        invariant
            config.wf(),
            n == adcnum@.len(),
            bl == buffer@.len(),
            buffer@.len() == 2 * n,
            i <= n,
            vals == spec_payload_vals(buffer@, 0, n as int),
            vals.len() == n,
            ({
                let r = spec_scan(
                    *config,
                    max_x as int,
                    max_y as int,
                    adcnum@.take(i as int),
                    vals.take(i as int),
                    *old(position),
                );
                &&& *position == r.0
                &&& channels@.len() == r.1.len()
                &&& forall|k: int|
                    0 <= k < channels@.len() ==> (#[trigger] channels@[k]).0@ == r.1[k].0
                        && channels@[k].1 == r.1[k].1
            }),
        decreases n - i,
    {
        let int_value = read_u16_at(buffer, 2 * i);
        proof {
            lemma_payload_vals_index(buffer@, 0, n as int, i as int);
            assert(vals[i as int] == spec_u16_at(buffer@, 2 * i));
            assert(adcnum@.take(i + 1) =~= adcnum@.take(i as int).push(adcnum@[i as int]));
            assert(vals.take(i + 1) =~= vals.take(i as int).push(vals[i as int]));
            lemma_scan_push(
                *config,
                max_x as int,
                max_y as int,
                adcnum@.take(i as int),
                vals.take(i as int),
                *old(position),
                adcnum@[i as int],
                vals[i as int],
            );
        }
        let adc = adcnum[i];
        if adc == config.x && (int_value as i64) < max_x {
            position.x = int_value;
        } else if adc == config.y && (int_value as i64) < max_y {
            position.y = int_value;
        } else {
            match config.get_detector_and_floor_for_adc(adc) {
                Some((name, detector, floor)) => {
                    if int_value > 0 {
                        proof {
                            lemma_find_adc_props(config.detectors@, adc);
                            match spec_find_adc(config.detectors@, adc) {
                                Some(di) => {
                                    lemma_floor_bounds(config.detectors@, di);
                                },
                                None => {
                                    assert(false);
                                },
                            }
                        }
                        let channel: u32 = if (int_value as u32) > detector.channels - 1 {
                            detector.channels - 1
                        } else {
                            int_value as u32
                        };
                        channels.push((name.clone(), channel + floor));
                    }
                },
                None => {},
            }
        }
        i = i + 1;
    }
    proof {
        assert(adcnum@.take(n as int) =~= adcnum@);
        assert(vals.take(n as int) =~= vals);
    }
    channels
}

/// What streaming a byte suffix does: the deposited `(y, x, packed channel)`
/// triples in order, the number of timer events, and the final beam
/// position.
pub struct StreamResult {
    pub deposits: Seq<(int, int, int)>,
    pub timers: nat,
    pub pos: Position,
}

/// The stream interpreter: read a 32-bit word, classify it, skip markers,
/// count timers, and decode hit payloads, depositing each emitted pair at
/// the beam position that holds after the whole payload was scanned. A
/// truncated word or payload abandons the hit and ends the stream.
pub open spec fn spec_stream(
    cfg: Config,
    max_x: int,
    max_y: int,
    b: Seq<u8>,
    pos: Position,
) -> StreamResult
    decreases b.len(),
{
    if b.len() < 4 {
        StreamResult { deposits: Seq::empty(), timers: 0, pos }
    } else {
        let w = spec_u32_at(b, 0);
        match crate::events::spec_inspect(w) {
            Some(crate::events::LstEvent::Timer) => {
                let r = spec_stream(cfg, max_x, max_y, b.skip(4), pos);
                StreamResult { timers: r.timers + 1, ..r }
            },
            Some(crate::events::LstEvent::Synchron) => spec_stream(cfg, max_x, max_y, b.skip(4), pos),
            None => spec_stream(cfg, max_x, max_y, b.skip(4), pos),
            Some(crate::events::LstEvent::Adc(dummy)) => {
                let start: int = if dummy {
                    6
                } else {
                    4
                };
                let flags = crate::helpers::spec_adcnum(w);
                let need = start + 2 * flags.len();
                if b.len() < need {
                    StreamResult { deposits: Seq::empty(), timers: 0, pos }
                } else {
                    let vals = spec_payload_vals(b, start, flags.len() as int);
                    let sc = spec_scan(cfg, max_x, max_y, flags, vals, pos);
                    let here = Seq::new(
                        sc.1.len(),
                        |k: int| (sc.0.y as int, sc.0.x as int, sc.1[k].1 as int),
                    );
                    let r = spec_stream(cfg, max_x, max_y, b.skip(need), sc.0);
                    StreamResult {
                        deposits: here + r.deposits,
                        timers: r.timers,
                        pos: r.pos,
                    }
                }
            },
        }
    }
}

/// How often the triple `(y, x, z)` was deposited.
pub open spec fn dep_count(deps: Seq<(int, int, int)>, y: int, x: int, z: int) -> int
    decreases deps.len(),
{
    if deps.len() == 0 {
        0
    } else {
        dep_count(deps.drop_last(), y, x, z) + (if deps.last() == (y, x, z) {
            1int
        } else {
            0int
        })
    }
}

/// A count clipped into `u32`: what a saturating counter holds after that
/// many increments.
pub open spec fn cap32(n: int) -> u32 {
    if n > u32::MAX {
        u32::MAX
    } else if n < 0 {
        0
    } else {
        n as u32
    }
}

pub proof fn lemma_dep_count_nonneg(deps: Seq<(int, int, int)>, y: int, x: int, z: int)
    ensures
        dep_count(deps, y, x, z) >= 0,
    decreases deps.len(),
{
    if deps.len() > 0 {
        lemma_dep_count_nonneg(deps.drop_last(), y, x, z);
    }
}

pub proof fn lemma_dep_count_push(
    deps: Seq<(int, int, int)>,
    t: (int, int, int),
    y: int,
    x: int,
    z: int,
)
    ensures
        dep_count(deps.push(t), y, x, z) == dep_count(deps, y, x, z) + (if t == (y, x, z) {
            1int
        } else {
            0int
        }),
{
    assert(deps.push(t).drop_last() =~= deps);
    assert(deps.push(t).last() == t);
}

/// A payload scan moves each beam coordinate only to a value below its map
/// extent, or leaves it unchanged.
pub proof fn lemma_scan_pos(
    cfg: Config,
    max_x: int,
    max_y: int,
    flags: Seq<u32>,
    vals: Seq<u16>,
    pos: Position,
)
    requires
        (pos.x as int) < max_x || pos.x == 0,
        (pos.y as int) < max_y || pos.y == 0,
    ensures
        ({
            let r = spec_scan(cfg, max_x, max_y, flags, vals, pos);
            ((r.0.x as int) < max_x || r.0.x == 0) && ((r.0.y as int) < max_y || r.0.y == 0)
        }),
    decreases flags.len(),
{
    if flags.len() > 0 {
        let step = spec_pair_action(cfg, max_x, max_y, flags[0], vals[0], pos);
        lemma_scan_pos(cfg, max_x, max_y, flags.drop_first(), vals.drop_first(), step.0);
    }
}

/// The decoder's error surface. The header phase is strict: any failure
/// there aborts the parse. The streaming phase is lenient and has no errors
/// of its own beyond `Internal`.
#[derive(Clone, Copy, Debug, PartialEq, Eq, Structural)]
pub enum LstError {
    /// No `Map size` directive stood before the binary section.
    HeaderMissing,
    /// A header line is not UTF-8 text.
    InvalidHeaderText,
    /// The packed dataset of the declared geometry cannot be allocated.
    MapTooLarge,
    /// A deposit landed outside the dataset; possible only when a map axis
    /// has extent zero.
    Internal,
}

impl LstError {
    /// A fixed description of the error.
    pub fn message(&self) -> (r: &'static str)
        ensures
            r@ == match *self {
                LstError::HeaderMissing => "Couldn't read header"@,
                LstError::InvalidHeaderText => "Header line is not valid UTF-8"@,
                LstError::MapTooLarge => "Map geometry too large for a dataset"@,
                LstError::Internal => "Deposit outside the dataset"@,
            },
    {
        match *self {
            LstError::HeaderMissing => "Couldn't read header",
            LstError::InvalidHeaderText => "Header line is not valid UTF-8",
            LstError::MapTooLarge => "Map geometry too large for a dataset",
            LstError::Internal => "Deposit outside the dataset",
        }
    }
}

/// Stream the binary section of `input` (from `offset`) into a fresh packed
/// dataset: every emitted `(detector, channel)` pair of every hit payload
/// adds one count at the beam position holding after its payload, and timer
/// words are counted. Returns the number of timer events.
pub fn run_stream(
    dataset: &mut Cube,
    input: &[u8],
    offset: usize,
    config: &Config,
    max_x: i64,
    max_y: i64,
) -> (r: Result<u64, LstError>)
    requires
        config.wf(),
        old(dataset).wf(),
        offset <= input@.len(),
        0 <= max_x,
        0 <= max_y,
        old(dataset).ny() == max_y as int,
        old(dataset).nx() == max_x as int,
        old(dataset).nz() == total_channels(config.detectors@),
        forall|y: int, x: int, z: int|
            0 <= y < old(dataset).ny() && 0 <= x < old(dataset).nx() && 0 <= z < old(
                dataset,
            ).nz() ==> old(dataset).cell(y, x, z) == 0,
    ensures
        final(dataset).wf(),
        final(dataset).ny() == old(dataset).ny(),
        final(dataset).nx() == old(dataset).nx(),
        final(dataset).nz() == old(dataset).nz(),
        ({
            let sm = spec_stream(
                *config,
                max_x as int,
                max_y as int,
                input@.skip(offset as int),
                Position { x: 0, y: 0 },
            );
            match r {
                Ok(t) => {
                    &&& t == sm.timers
                    &&& forall|y: int, x: int, z: int|
                        0 <= y < old(dataset).ny() && 0 <= x < old(dataset).nx() && 0 <= z < old(
                            dataset,
                        ).nz() ==> #[trigger] final(dataset).cell(y, x, z) == cap32(
                            dep_count(sm.deposits, y, x, z),
                        )
                    &&& forall|k: int|
                        0 <= k < sm.deposits.len() ==> 0 <= (#[trigger] sm.deposits[k]).0
                            < max_y && 0 <= sm.deposits[k].1 < max_x && 0 <= sm.deposits[k].2
                            < total_channels(config.detectors@)
                },
                Err(e) => e == LstError::Internal && (max_x == 0 || max_y == 0)
                    && sm.deposits.len() > 0,
            }
        }),
{
    let n = input.len();
    let ghost origin = Position { x: 0u16, y: 0u16 };
    let ghost full = spec_stream(
        *config,
        max_x as int,
        max_y as int,
        input@.skip(offset as int),
        origin,
    );
    let mut off: usize = offset;
    let mut position = Position { x: 0, y: 0 };
    let mut timer_events: u64 = 0;
    let ghost mut deps: Seq<(int, int, int)> = Seq::empty();
    let (ny, nx, nz) = dataset.dims();
    loop
        invariant
            config.wf(),
            dataset.wf(),
            n == input@.len(),
            offset <= off <= n,
            0 <= max_x,
            0 <= max_y,
            ny == dataset.ny(),
            nx == dataset.nx(),
            nz == dataset.nz(),
            dataset.ny() == old(dataset).ny(),
            dataset.nx() == old(dataset).nx(),
            dataset.nz() == old(dataset).nz(),
            old(dataset).ny() == max_y as int,
            old(dataset).nx() == max_x as int,
            old(dataset).nz() == total_channels(config.detectors@),
            (position.x as int) < max_x || position.x == 0,
            (position.y as int) < max_y || position.y == 0,
            4 * timer_events <= off - offset,
            full == spec_stream(
                *config,
                max_x as int,
                max_y as int,
                input@.skip(offset as int),
                Position { x: 0u16, y: 0u16 },
            ),
            ({
                let rest = spec_stream(
                    *config,
                    max_x as int,
                    max_y as int,
                    input@.skip(off as int),
                    position,
                );
                full.deposits == deps + rest.deposits && full.timers == timer_events + rest.timers
            }),
            forall|y: int, x: int, z: int|
                0 <= y < dataset.ny() && 0 <= x < dataset.nx() && 0 <= z < dataset.nz()
                    ==> #[trigger] dataset.cell(y, x, z) == cap32(dep_count(deps, y, x, z)),
            forall|k: int|
                0 <= k < deps.len() ==> 0 <= (#[trigger] deps[k]).0 < max_y && 0 <= deps[k].1
                    < max_x && 0 <= deps[k].2 < total_channels(config.detectors@),
        decreases n - off,
    {
        let ghost rest = spec_stream(
            *config,
            max_x as int,
            max_y as int,
            input@.skip(off as int),
            position,
        );
        if n - off < 4 {
            proof {
                assert(input@.skip(off as int).len() < 4);
                assert(rest.deposits =~= Seq::<(int, int, int)>::empty());
                assert(rest.timers == 0);
                assert(full.deposits =~= deps);
            }
            return Ok(timer_events);
        }
        let w = read_u32_at(input, off);
        proof {
            let suf = input@.skip(off as int);
            assert(suf[0] == input@[off as int]);
            assert(suf[1] == input@[off as int + 1]);
            assert(suf[2] == input@[off as int + 2]);
            assert(suf[3] == input@[off as int + 3]);
            assert(spec_u32_at(suf, 0) == w);
        }
        match crate::events::LstEvent::inspect(w) {
            Some(crate::events::LstEvent::Timer) => {
                proof {
                    assert(input@.skip(off as int).skip(4) =~= input@.skip(off as int + 4));
                }
                timer_events = timer_events + 1;
                off = off + 4;
            },
            Some(crate::events::LstEvent::Synchron) => {
                proof {
                    assert(input@.skip(off as int).skip(4) =~= input@.skip(off as int + 4));
                }
                off = off + 4;
            },
            None => {
                proof {
                    assert(input@.skip(off as int).skip(4) =~= input@.skip(off as int + 4));
                }
                off = off + 4;
            },
            Some(crate::events::LstEvent::Adc(has_dummy_word)) => {
                let adcnum = crate::helpers::get_adcnum(w);
                let skip_len: usize = if has_dummy_word {
                    6
                } else {
                    4
                };
                let need: usize = adcnum.len() * 2;
                proof {
                    assert(input@.skip(off as int).len() == n - off);
                }
                if n - off < skip_len + need {
                    proof {
                        assert(input@.skip(off as int).len() < skip_len + need);
                        assert(rest.deposits =~= Seq::<(int, int, int)>::empty());
                        assert(rest.timers == 0);
                        assert(full.deposits =~= deps);
                    }
                    return Ok(timer_events);
                }
                let payload_start = off + skip_len;
                let buffer = vstd::slice::slice_subrange(input, payload_start, payload_start + need);
                let ghost suf = input@.skip(off as int);
                let ghost flags = crate::helpers::spec_adcnum(w);
                let ghost vals_stream = spec_payload_vals(suf, skip_len as int, flags.len() as int);
                let ghost vals_buf = spec_payload_vals(buffer@, 0, adcnum@.len() as int);
                proof {
                    lemma_payload_vals_len(suf, skip_len as int, flags.len() as int);
                    lemma_payload_vals_len(buffer@, 0, adcnum@.len() as int);
                    assert forall|j: int| 0 <= j < flags.len() implies vals_buf[j] == vals_stream[j] by {
                        lemma_payload_vals_index(suf, skip_len as int, flags.len() as int, j);
                        lemma_payload_vals_index(buffer@, 0, adcnum@.len() as int, j);
                        assert(buffer@[2 * j] == input@[payload_start + 2 * j]);
                        assert(buffer@[2 * j + 1] == input@[payload_start + 2 * j + 1]);
                        assert(suf[skip_len + 2 * j] == input@[off + skip_len + 2 * j]);
                        assert(suf[skip_len + 2 * j + 1] == input@[off + skip_len + 2 * j + 1]);
                    }
                    assert(vals_buf =~= vals_stream);
                }
                let ghost pos_before = position;
                let ghost sc = spec_scan(
                    *config,
                    max_x as int,
                    max_y as int,
                    flags,
                    vals_stream,
                    pos_before,
                );
                let channels = get_channels_from_buffer(
                    adcnum,
                    buffer,
                    config,
                    &mut position,
                    max_x,
                    max_y,
                );
                proof {
                    lemma_scan_pos(
                        *config,
                        max_x as int,
                        max_y as int,
                        flags,
                        vals_stream,
                        pos_before,
                    );
                    lemma_scan_emits_in_range(
                        *config,
                        max_x as int,
                        max_y as int,
                        flags,
                        vals_stream,
                        pos_before,
                    );
                }
                let ghost here = Seq::new(
                    sc.1.len(),
                    |k: int| (sc.0.y as int, sc.0.x as int, sc.1[k].1 as int),
                );
                let ghost deps0 = deps;
                let ghost restnew = spec_stream(
                    *config,
                    max_x as int,
                    max_y as int,
                    input@.skip(off as int + skip_len + need),
                    sc.0,
                );
                proof {
                    assert(input@.skip(off as int).skip((skip_len + need) as int) =~= input@.skip(
                        off as int + skip_len + need,
                    ));
                    assert(rest.deposits =~= here + restnew.deposits);
                    assert(rest.timers == restnew.timers);
                    assert(full.deposits =~= (deps0 + here) + restnew.deposits);
                }
                let mut j: usize = 0;
                let cl = channels.len();
                while j < cl
                    invariant
                        config.wf(),
                        dataset.wf(),
                        ny == dataset.ny(),
                        nx == dataset.nx(),
                        nz == dataset.nz(),
                        dataset.ny() == old(dataset).ny(),
                        dataset.nx() == old(dataset).nx(),
                        dataset.nz() == old(dataset).nz(),
                        old(dataset).ny() == max_y as int,
                        old(dataset).nx() == max_x as int,
                        old(dataset).nz() == total_channels(config.detectors@),
                        0 <= max_x,
                        0 <= max_y,
                        cl == channels@.len(),
                        j <= cl,
                        position == sc.0,
                        channels@.len() == sc.1.len(),
                        forall|k: int|
                            0 <= k < channels@.len() ==> (#[trigger] channels@[k]).1 == sc.1[k].1,
                        forall|k: int|
                            0 <= k < sc.1.len() ==> 0 <= (#[trigger] sc.1[k]).1 && (sc.1[k]).1
                                < total_channels(config.detectors@),
                        here == Seq::new(
                            sc.1.len(),
                            |k: int| (sc.0.y as int, sc.0.x as int, sc.1[k].1 as int),
                        ),
                        (position.x as int) < max_x || position.x == 0,
                        (position.y as int) < max_y || position.y == 0,
                        deps == deps0 + here.take(j as int),
                        full == spec_stream(
                            *config,
                            max_x as int,
                            max_y as int,
                            input@.skip(offset as int),
                            Position { x: 0u16, y: 0u16 },
                        ),
                        full.deposits == (deps0 + here) + restnew.deposits,
                        here.len() == sc.1.len(),
                        forall|y: int, x: int, z: int|
                            0 <= y < dataset.ny() && 0 <= x < dataset.nx() && 0 <= z
                                < dataset.nz() ==> #[trigger] dataset.cell(y, x, z) == cap32(
                                dep_count(deps, y, x, z),
                            ),
                        forall|k: int|
                            0 <= k < deps.len() ==> 0 <= (#[trigger] deps[k]).0 < max_y && 0
                                <= deps[k].1 < max_x && 0 <= deps[k].2 < total_channels(
                                config.detectors@,
                            ),
                    decreases cl - j,
                {
                    let py = position.y as usize;
                    let px = position.x as usize;
                    let ch = channels[j].1;
                    proof {
                        assert(channels@[j as int].1 == sc.1[j as int].1);
                    }
                    if py >= ny || px >= nx {
                        proof {
                            assert(max_x == 0 || max_y == 0);
                            assert(here.len() > 0);
                            assert(full.deposits.len() == deps0.len() + here.len()
                                + restnew.deposits.len());
                            assert(full.deposits.len() > 0);
                        }
                        return Err(LstError::Internal);
                    }
                    let ghost d0 = *dataset;
                    dataset.add_at(py, px, ch as usize, 1);
                    proof {
                        let t = (py as int, px as int, ch as int);
                        crate::cube::lemma_cube_upd_frame(
                            d0,
                            *dataset,
                            py as int,
                            px as int,
                            ch as int,
                            crate::cube::sat_add(d0.cell(py as int, px as int, ch as int), 1),
                        );
                        assert(here[j as int] == t);
                        assert(deps.push(t) =~= deps0 + here.take(j as int + 1));
                        assert forall|y: int, x: int, z: int|
                            0 <= y < dataset.ny() && 0 <= x < dataset.nx() && 0 <= z
                                < dataset.nz() implies #[trigger] dataset.cell(y, x, z) == cap32(
                            dep_count(deps.push(t), y, x, z),
                        ) by {
                            lemma_dep_count_push(deps, t, y, x, z);
                            lemma_dep_count_nonneg(deps, y, x, z);
                            if y == py as int && x == px as int && z == ch as int {
                                assert(dataset.cell(y, x, z) == crate::cube::sat_add(
                                    cap32(dep_count(deps, y, x, z)),
                                    1,
                                ));
                            } else {
                                assert(dataset.cell(y, x, z) == d0.cell(y, x, z));
                            }
                        }
                        deps = deps.push(t);
                    }
                    j = j + 1;
                }
                proof {
                    assert(here.take(sc.1.len() as int) =~= here);
                    assert(deps =~= deps0 + here);
                    assert(full.deposits =~= deps + restnew.deposits);
                }
                off = payload_start + need;
            },
        }
    }
}

/// The index just after the line starting at `from`: past the first newline
/// byte, or the end of the input.
pub open spec fn spec_line_end(b: Seq<u8>, from: int) -> int
    decreases b.len() - from,
{
    if from < 0 || from >= b.len() {
        b.len() as int
    } else if b[from] == 10 {
        from + 1
    } else {
        spec_line_end(b, from + 1)
    }
}

pub proof fn lemma_line_end_bounds(b: Seq<u8>, from: int)
    requires
        0 <= from <= b.len(),
    ensures
        from <= spec_line_end(b, from) <= b.len(),
        from < b.len() ==> from + 1 <= spec_line_end(b, from),
    decreases b.len() - from,
{
    if from < b.len() && b[from] != 10 {
        lemma_line_end_bounds(b, from + 1);
    }
}

/// What scanning the textual header yields: the last `Map size` geometry
/// seen, the (trimmed) content of the last `Exp.Info` line seen, the last
/// `timerreduce` value seen, and how many bytes of `b` the header takes.
pub struct HeaderResult {
    pub map_size: Option<crate::models::MapSize>,
    pub exp_src: Option<Seq<char>>,
    pub timer_reduce: u32,
    pub consumed: int,
}

/// Scan header lines from `from` with the given accumulators until a line
/// contains `[LISTDATA]` or the input ends; `None` when a line is not valid
/// UTF-8.
pub open spec fn spec_read_header(
    b: Seq<u8>,
    from: int,
    ms: Option<crate::models::MapSize>,
    es: Option<Seq<char>>,
    tr: u32,
) -> Option<HeaderResult>
    decreases b.len() - from,
    when 0 <= from <= b.len()
    via spec_read_header_decreases
{
    if from >= b.len() {
        Some(HeaderResult { map_size: ms, exp_src: es, timer_reduce: tr, consumed: from })
    } else {
        let end = spec_line_end(b, from);
        let lb = b.subrange(from, end);
        if !vstd::utf8::valid_utf8(lb) {
            None
        } else {
            let content = crate::text::spec_trim(vstd::utf8::decode_utf8(lb));
            let ms2 = if crate::text::contains_seq(content, "Map size"@) {
                Some(crate::models::spec_parse_mapsize(content))
            } else {
                ms
            };
            let es2 = if crate::text::contains_seq(content, "Exp.Info"@) {
                Some(content)
            } else {
                es
            };
            let tr2 = if crate::text::contains_seq(content, "timerreduce"@) {
                match crate::text::spec_parse_u32(crate::text::spec_after_last(content, '=')) {
                    Some(v) => v,
                    None => 0u32,
                }
            } else {
                tr
            };
            if crate::text::contains_seq(content, "[LISTDATA]"@) {
                Some(
                    HeaderResult { map_size: ms2, exp_src: es2, timer_reduce: tr2, consumed: end },
                )
            } else {
                spec_read_header(b, end, ms2, es2, tr2)
            }
        }
    }
}

#[via_fn]
proof fn spec_read_header_decreases(
    b: Seq<u8>,
    from: int,
    ms: Option<crate::models::MapSize>,
    es: Option<Seq<char>>,
    tr: u32,
) {
    lemma_line_end_bounds(b, from);
}

/// Relies on `core::str::from_utf8`: `Ok` exactly on valid UTF-8 input,
/// yielding the text it decodes to.
#[verifier::external_body]
fn bytes_to_str<'a>(b: &'a [u8]) -> (r: Option<&'a str>)
    ensures
        match r {
            Some(s) => vstd::utf8::valid_utf8(b@) && s@ == vstd::utf8::decode_utf8(b@),
            None => !vstd::utf8::valid_utf8(b@),
        },
{
    core::str::from_utf8(b).ok()
}

/// The end of the line starting at `from`.
fn line_end_exec(input: &[u8], from: usize) -> (end: usize)
    requires
        from <= input@.len(),
    ensures
        end == spec_line_end(input@, from as int),
        from <= end <= input@.len(),
        from < input@.len() ==> from < end,
{
    let n = input.len();
    let mut i: usize = from;
    while i < n
        invariant
            n == input@.len(),
            from <= i <= n,
            spec_line_end(input@, from as int) == spec_line_end(input@, i as int),
        decreases n - i,
    {
        if *slice_index_get(input, i) == 10 {
            return i + 1;
        }
        i = i + 1;
    }
    n
}

/// Scan the textual header up to and including the `[LISTDATA]` line (or the
/// end of the input): the map geometry, the experiment metadata if an
/// `Exp.Info` line stood there, the `timerreduce` value, and the byte offset
/// where the binary section begins.
pub fn read_header(input: &[u8]) -> (r: Result<(crate::models::MapSize, Option<crate::models::ExpInfo>, u32, usize), LstError>)
    ensures
        match spec_read_header(input@, 0, None, None, 0) {
            None => r is Err && r->Err_0 == LstError::InvalidHeaderText,
            Some(h) => match h.map_size {
                None => r is Err && r->Err_0 == LstError::HeaderMissing,
                Some(ms) => match r {
                    Ok(t) => {
                        &&& t.0 == ms
                        &&& (match (t.1, h.exp_src) {
                            (Some(e), Some(src)) => crate::models::expinfo_matches(e, src),
                            (None, None) => true,
                            _ => false,
                        })
                        &&& t.2 == h.timer_reduce
                        &&& t.3 == h.consumed
                        &&& t.3 <= input@.len()
                    },
                    Err(_) => false,
                },
            },
        },
{
    let n = input.len();
    let mut from: usize = 0;
    let mut map_size: Option<crate::models::MapSize> = None;
    let mut exp_info: Option<crate::models::ExpInfo> = None;
    let ghost mut exp_src: Option<Seq<char>> = None;
    let mut timer_reduce: u32 = 0;
    loop
        invariant
            n == input@.len(),
            from <= n,
            spec_read_header(input@, 0, None, None, 0) == spec_read_header(
                input@,
                from as int,
                map_size,
                exp_src,
                timer_reduce,
            ),
            match (exp_info, exp_src) {
                (Some(e), Some(src)) => crate::models::expinfo_matches(e, src),
                (None, None) => true,
                _ => false,
            },
        decreases n - from,
    {
        if from >= n {
            match map_size {
                Some(ms) => {
                    return Ok((ms, exp_info, timer_reduce, from));
                },
                None => {
                    return Err(LstError::HeaderMissing);
                },
            }
        }
        let end = line_end_exec(input, from);
        let line_bytes = vstd::slice::slice_subrange(input, from, end);
        match bytes_to_str(line_bytes) {
            None => {
                return Err(LstError::InvalidHeaderText);
            },
            Some(line) => {
                let content = crate::text::trim_str(line);
                if crate::text::str_contains(content, "Map size") {
                    map_size = crate::models::MapSize::parse(content);
                }
                if crate::text::str_contains(content, "Exp.Info") {
                    exp_info = crate::models::ExpInfo::parse(content);
                    proof {
                        exp_src = Some(content@);
                    }
                }
                if crate::text::str_contains(content, "timerreduce") {
                    let tail = crate::text::after_last(content, '=');
                    timer_reduce = match crate::text::parse_u32_str(tail) {
                        Some(v) => v,
                        None => 0,
                    };
                }
                if crate::text::str_contains(content, "[LISTDATA]") {
                    match map_size {
                        Some(ms) => {
                            return Ok((ms, exp_info, timer_reduce, end));
                        },
                        None => {
                            return Err(LstError::HeaderMissing);
                        },
                    }
                }
                from = end;
            },
        }
    }
}

/// Cut one detector's channel band out of the packed dataset.
pub fn get_slice_from_detector(
    name: &String,
    detector: &crate::config::Detector,
    dataset: &Cube,
    config: &Config,
) -> (s: Cube)
    requires
        config.wf(),
        dataset.wf(),
        dataset.nz() == total_channels(config.detectors@),
        crate::config::spec_find_name(config.detectors@, name@) is Some,
        *detector == config.detectors@[crate::config::spec_find_name(
            config.detectors@,
            name@,
        )->Some_0].1,
    ensures
        ({
            let i = crate::config::spec_find_name(config.detectors@, name@)->Some_0;
            &&& s.wf()
            &&& s.ny() == dataset.ny()
            &&& s.nx() == dataset.nx()
            &&& s.nz() == detector.channels
            &&& forall|y: int, x: int, z: int|
                0 <= y < s.ny() && 0 <= x < s.nx() && 0 <= z < s.nz() ==> #[trigger] s.cell(y, x, z)
                    == dataset.cell(y, x, z + floor_at(config.detectors@, i))
        }),
{
    proof {
        crate::config::lemma_find_name_props(config.detectors@, name@);
        lemma_floor_bounds(
            config.detectors@,
            crate::config::spec_find_name(config.detectors@, name@)->Some_0,
        );
    }
    let floor = config.get_floor_for_detector_name(name) as usize;
    let offset = floor + detector.channels as usize;
    dataset.slice_z(floor, offset)
}

/// The views of a group's members that resolve in the catalog, in member
/// order.
pub open spec fn spec_used(dets: Seq<(String, crate::config::Detector)>, members: Seq<String>) -> Seq<
    Seq<char>,
>
    decreases members.len(),
{
    if members.len() == 0 {
        Seq::empty()
    } else {
        let rest = spec_used(dets, members.drop_last());
        if crate::config::spec_find_name(dets, members.last()@) is Some {
            rest.push(members.last()@)
        } else {
            rest
        }
    }
}

/// The largest channel count among a group's resolvable members; `0` when
/// none resolves.
pub open spec fn spec_used_max(
    dets: Seq<(String, crate::config::Detector)>,
    members: Seq<String>,
) -> int
    decreases members.len(),
{
    if members.len() == 0 {
        0
    } else {
        let rest = spec_used_max(dets, members.drop_last());
        match crate::config::spec_find_name(dets, members.last()@) {
            Some(i) => if dets[i].1.channels > rest {
                dets[i].1.channels as int
            } else {
                rest
            },
            None => rest,
        }
    }
}

/// The raw (uncapped) sum a computed group's cell takes: each resolvable
/// member contributes its packed band's cell at depth `z`, for `z` inside
/// that member's channel count.
pub open spec fn spec_group_cell(
    dets: Seq<(String, crate::config::Detector)>,
    members: Seq<String>,
    packed: Cube,
    y: int,
    x: int,
    z: int,
) -> int
    decreases members.len(),
{
    if members.len() == 0 {
        0
    } else {
        let rest = spec_group_cell(dets, members.drop_last(), packed, y, x, z);
        match crate::config::spec_find_name(dets, members.last()@) {
            Some(i) => if z < dets[i].1.channels {
                rest + packed.cell(y, x, z + floor_at(dets, i))
            } else {
                rest
            },
            None => rest,
        }
    }
}

pub proof fn lemma_group_cell_nonneg(
    dets: Seq<(String, crate::config::Detector)>,
    members: Seq<String>,
    packed: Cube,
    y: int,
    x: int,
    z: int,
)
    ensures
        spec_group_cell(dets, members, packed, y, x, z) >= 0,
    decreases members.len(),
{
    if members.len() > 0 {
        lemma_group_cell_nonneg(dets, members.drop_last(), packed, y, x, z);
    }
}

proof fn lemma_used_max_nonneg(dets: Seq<(String, crate::config::Detector)>, members: Seq<String>)
    ensures
        spec_used_max(dets, members) >= 0,
    decreases members.len(),
{
    if members.len() > 0 {
        lemma_used_max_nonneg(dets, members.drop_last());
    }
}

proof fn lemma_used_max_ge(
    dets: Seq<(String, crate::config::Detector)>,
    members: Seq<String>,
    m: int,
)
    requires
        0 <= m < members.len(),
        crate::config::spec_find_name(dets, members[m]@) is Some,
    ensures
        dets[crate::config::spec_find_name(dets, members[m]@)->Some_0].1.channels <= spec_used_max(
            dets,
            members,
        ),
    decreases members.len(),
{
    if m == members.len() - 1 {
        lemma_used_max_nonneg(dets, members.drop_last());
    } else {
        assert(members.drop_last()[m] == members[m]);
        lemma_used_max_ge(dets, members.drop_last(), m);
    }
}

/// Clipped counters add like clipped sums.
proof fn lemma_sat_add_cap(a: int, v: u32)
    requires
        a >= 0,
    ensures
        crate::cube::sat_add(cap32(a), v) == cap32(a + v),
{
}

/// The first catalog position with the given name, and its floor.
fn resolve_name(config: &Config, name: &str) -> (r: Option<(usize, u32)>)
    requires
        config.wf(),
    ensures
        match (r, crate::config::spec_find_name(config.detectors@, name@)) {
            (Some(p), Some(i)) => p.0 == i && 0 <= i < config.detectors@.len() && p.1 == floor_at(
                config.detectors@,
                i,
            ),
            (None, None) => true,
            _ => false,
        },
{
    proof {
        crate::config::lemma_find_name_props(config.detectors@, name@);
    }
    let mut floor: u32 = 0;
    let mut i: usize = 0;
    while i < config.detectors.len()
        invariant
            config.wf(),
            i <= config.detectors@.len(),
            floor == floor_at(config.detectors@, i as int),
            forall|j: int| 0 <= j < i ==> (#[trigger] config.detectors@[j]).0@ != name@,
        decreases config.detectors@.len() - i,
    {
        let entry = &config.detectors[i];
        if crate::text::str_eq(entry.0.as_str(), name) {
            proof {
                crate::config::lemma_find_name_props(config.detectors@, name@);
                match crate::config::spec_find_name(config.detectors@, name@) {
                    Some(k) => {
                        assert(!(k < i) && !(i < k));
                    },
                    None => {
                        assert(false);
                    },
                }
            }
            return Some((i, floor));
        }
        proof {
            crate::config::lemma_floor_step(config.detectors@, i as int);
            crate::config::lemma_floor_le_total(config.detectors@, i + 1);
        }
        floor = floor + entry.1.channels;
        i = i + 1;
    }
    proof {
        crate::config::lemma_find_name_props(config.detectors@, name@);
    }
    None
}

/// For a computed group, build its cube by re-slicing the packed dataset for
/// each member that resolves in the catalog and adding the bands elementwise;
/// also return the resolved member names, in member order.
pub fn generate_computed_dataset(detectors: &Vec<String>, config: &Config, packed: &Cube) -> (r: (
    Cube,
    Vec<String>,
))
    requires
        config.wf(),
        packed.wf(),
        packed.nz() == total_channels(config.detectors@),
    ensures
        ({
            let dets = config.detectors@;
            &&& r.0.wf()
            &&& r.0.ny() == packed.ny()
            &&& r.0.nx() == packed.nx()
            &&& r.0.nz() == spec_used_max(dets, detectors@)
            &&& crate::text::views_of(r.1@) == spec_used(dets, detectors@)
            &&& forall|y: int, x: int, z: int|
                0 <= y < r.0.ny() && 0 <= x < r.0.nx() && 0 <= z < r.0.nz() ==> #[trigger] r.0.cell(
                    y,
                    x,
                    z,
                ) == cap32(spec_group_cell(dets, detectors@, *packed, y, x, z))
        }),
{
    let ghost dets = config.detectors@;
    let nm = detectors.len();
    let mut max_channels: u32 = 0;
    let mut m: usize = 0;
    while m < nm
        invariant
            config.wf(),
            nm == detectors@.len(),
            m <= nm,
            max_channels == spec_used_max(config.detectors@, detectors@.take(m as int)),
            max_channels <= total_channels(config.detectors@),
        decreases nm - m,
    {
        proof {
            assert(detectors@.take(m + 1).drop_last() =~= detectors@.take(m as int));
            assert(detectors@.take(m + 1).last() == detectors@[m as int]);
        }
        match resolve_name(config, detectors[m].as_str()) {
            Some((i, _floor)) => {
                proof {
                    lemma_floor_bounds(config.detectors@, i as int);
                }
                let ch = config.detectors[i].1.channels;
                if ch > max_channels {
                    max_channels = ch;
                }
            },
            None => {},
        }
        m = m + 1;
    }
    proof {
        assert(detectors@.take(nm as int) =~= detectors@);
        crate::cube::lemma_fits_alloc_shrink(
            packed.ny(),
            packed.nx(),
            packed.nz(),
            max_channels as int,
        );
    }
    let (pny, pnx, _pnz) = packed.dims();
    let mut computed_dataset = Cube::zeros(pny, pnx, max_channels as usize);
    let mut used_detectors: Vec<String> = Vec::new();
    proof {
        assert(crate::text::views_of(used_detectors@) =~= Seq::<Seq<char>>::empty());
        assert forall|y: int, x: int, z: int|
            0 <= y < computed_dataset.ny() && 0 <= x < computed_dataset.nx() && 0 <= z
                < computed_dataset.nz() implies #[trigger] computed_dataset.cell(y, x, z) == cap32(
            spec_group_cell(dets, detectors@.take(0), *packed, y, x, z),
        ) by {}
    }
    let mut m2: usize = 0;
    while m2 < nm
        invariant
            config.wf(),
            packed.wf(),
            packed.nz() == total_channels(config.detectors@),
            dets == config.detectors@,
            nm == detectors@.len(),
            m2 <= nm,
            pny == packed.ny(),
            pnx == packed.nx(),
            computed_dataset.wf(),
            computed_dataset.ny() == packed.ny(),
            computed_dataset.nx() == packed.nx(),
            computed_dataset.nz() == max_channels as int,
            max_channels == spec_used_max(dets, detectors@),
            crate::text::views_of(used_detectors@) == spec_used(dets, detectors@.take(m2 as int)),
            forall|y: int, x: int, z: int|
                0 <= y < computed_dataset.ny() && 0 <= x < computed_dataset.nx() && 0 <= z
                    < computed_dataset.nz() ==> #[trigger] computed_dataset.cell(y, x, z) == cap32(
                    spec_group_cell(dets, detectors@.take(m2 as int), *packed, y, x, z),
                ),
        decreases nm - m2,
    {
        proof {
            assert(detectors@.take(m2 + 1).drop_last() =~= detectors@.take(m2 as int));
            assert(detectors@.take(m2 + 1).last() == detectors@[m2 as int]);
        }
        let member = &detectors[m2];
        match resolve_name(config, member.as_str()) {
            Some((i, floor)) => {
                proof {
                    lemma_floor_bounds(dets, i as int);
                    lemma_used_max_ge(dets, detectors@, m2 as int);
                }
                let ch = config.detectors[i].1.channels;
                let slice = packed.slice_z(floor as usize, floor as usize + ch as usize);
                let ghost before = computed_dataset;
                crate::helpers::add_data_to_ndarray(&mut computed_dataset, &slice);
                proof {
                    assert forall|y: int, x: int, z: int|
                        0 <= y < computed_dataset.ny() && 0 <= x < computed_dataset.nx() && 0 <= z
                            < computed_dataset.nz() implies #[trigger] computed_dataset.cell(
                        y,
                        x,
                        z,
                    ) == cap32(
                        spec_group_cell(dets, detectors@.take(m2 + 1), *packed, y, x, z),
                    ) by {
                        lemma_group_cell_nonneg(
                            dets,
                            detectors@.take(m2 as int),
                            *packed,
                            y,
                            x,
                            z,
                        );
                        if z < ch {
                            assert(slice.cell(y, x, z) == packed.cell(y, x, z + floor_at(
                                dets,
                                i as int,
                            )));
                            lemma_sat_add_cap(
                                spec_group_cell(dets, detectors@.take(m2 as int), *packed, y, x, z),
                                packed.cell(y, x, z + floor_at(dets, i as int)),
                            );
                        }
                    }
                }
                used_detectors.push(member.clone());
                proof {
                    assert(crate::text::views_of(used_detectors@) =~= spec_used(
                        dets,
                        detectors@.take(m2 + 1),
                    ));
                }
            },
            None => {
                proof {
                    assert(crate::text::views_of(used_detectors@) =~= spec_used(
                        dets,
                        detectors@.take(m2 + 1),
                    ));
                }
            },
        }
        m2 = m2 + 1;
    }
    proof {
        assert(detectors@.take(nm as int) =~= detectors@);
    }
    (computed_dataset, used_detectors)
}

/// The views of a list of string pairs.
pub open spec fn pairs_views(v: Seq<(String, String)>) -> Seq<(Seq<char>, Seq<char>)> {
    v.map_values(|p: (String, String)| (p.0@, p.1@))
}

/// The acquisition time in milliseconds: timer count times milliseconds per
/// tick, truncated to 32 bits.
pub open spec fn spec_acq_ms(timers: nat, tr: u32) -> u32 {
    ((timers * tr) % 0x1_0000_0000) as u32
}

/// The filter label that an `Exp.Info` line's content assigns to one of the
/// five fixed detector names.
pub open spec fn spec_src_filter(src: Seq<char>, name: Seq<char>) -> Option<Seq<char>> {
    let toks = crate::text::spec_split(crate::text::spec_after_last(src, ':'), ',');
    if name == "LE0"@ {
        Some(crate::models::spec_field_str(toks, 2))
    } else if name == "HE1"@ {
        Some(crate::models::spec_field_str(toks, 3))
    } else if name == "HE2"@ {
        Some(crate::models::spec_field_str(toks, 4))
    } else if name == "HE3"@ {
        Some(crate::models::spec_field_str(toks, 5))
    } else if name == "HE4"@ {
        Some(crate::models::spec_field_str(toks, 6))
    } else {
        None
    }
}

/// The attribute list of a per-detector dataset: its filter label, when
/// experiment metadata carries one for it.
pub open spec fn spec_det_attrs(exp_src: Option<Seq<char>>, name: Seq<char>) -> Seq<
    (Seq<char>, Seq<char>),
> {
    match exp_src {
        Some(src) => match spec_src_filter(src, name) {
            Some(f) => seq![("filter"@, f)],
            None => Seq::empty(),
        },
        None => Seq::empty(),
    }
}

/// A character with ASCII capitals lowered.
pub open spec fn lower_char(c: char) -> char {
    if 65 <= c as u32 && c as u32 <= 90 {
        ((c as u32 + 32) as u8) as char
    } else {
        c
    }
}

/// A name with ASCII capitals lowered.
pub open spec fn ascii_lower(s: Seq<char>) -> Seq<char> {
    Seq::new(s.len(), |i: int| lower_char(s[i]))
}

/// Member names joined with `+`.
pub open spec fn spec_join_plus(names: Seq<Seq<char>>) -> Seq<char>
    decreases names.len(),
{
    if names.len() == 0 {
        Seq::empty()
    } else if names.len() == 1 {
        names[0]
    } else {
        spec_join_plus(names.drop_last()) + seq!['+'] + names.last()
    }
}

/// The attribute list of a computed dataset: one `<member>_filter` entry per
/// resolved member that experiment metadata carries a filter for, in member
/// order, the member name lowered.
pub open spec fn spec_group_attrs(exp_src: Option<Seq<char>>, used: Seq<Seq<char>>) -> Seq<
    (Seq<char>, Seq<char>),
>
    decreases used.len(),
{
    if used.len() == 0 {
        Seq::empty()
    } else {
        let rest = spec_group_attrs(exp_src, used.drop_last());
        match exp_src {
            Some(src) => match spec_src_filter(src, used.last()) {
                Some(f) => rest.push((ascii_lower(used.last()) + "_filter"@, f)),
                None => rest,
            },
            None => rest,
        }
    }
}

/// Whether some deposit fell into detector `i`'s channel band.
pub open spec fn det_has(
    deps: Seq<(int, int, int)>,
    dets: Seq<(String, crate::config::Detector)>,
    i: int,
) -> bool {
    exists|k: int|
        0 <= k < deps.len() && floor_at(dets, i) <= (#[trigger] deps[k]).2 < floor_at(dets, i)
            + dets[i].1.channels
}

/// The catalog positions before `i` whose detectors received any deposit, in
/// catalog order.
pub open spec fn spec_emitted_upto(
    dets: Seq<(String, crate::config::Detector)>,
    deps: Seq<(int, int, int)>,
    i: int,
) -> Seq<int>
    decreases i,
{
    if i <= 0 {
        Seq::empty()
    } else {
        let rest = spec_emitted_upto(dets, deps, i - 1);
        if det_has(deps, dets, i - 1) {
            rest.push(i - 1)
        } else {
            rest
        }
    }
}

pub proof fn lemma_emitted_bounds(
    dets: Seq<(String, crate::config::Detector)>,
    deps: Seq<(int, int, int)>,
    i: int,
)
    ensures
        forall|k: int|
            0 <= k < spec_emitted_upto(dets, deps, i).len() ==> 0 <= #[trigger] spec_emitted_upto(
                dets,
                deps,
                i,
            )[k] < i,
    decreases i,
{
    if i > 0 {
        lemma_emitted_bounds(dets, deps, i - 1);
        let rest = spec_emitted_upto(dets, deps, i - 1);
        let cur = spec_emitted_upto(dets, deps, i);
        assert forall|k: int| 0 <= k < cur.len() implies 0 <= #[trigger] cur[k] < i by {
            if det_has(deps, dets, i - 1) {
                if k < rest.len() {
                    assert(cur[k] == rest[k]);
                } else {
                    assert(cur[k] == i - 1);
                }
            } else {
                assert(cur[k] == rest[k]);
            }
        }
    }
}

/// A positive deposit count names a deposit, and a deposit makes the count
/// positive.
pub proof fn lemma_dep_count_pos(deps: Seq<(int, int, int)>, y: int, x: int, z: int)
    ensures
        dep_count(deps, y, x, z) > 0 <==> exists|k: int|
            0 <= k < deps.len() && deps[k] == (y, x, z),
    decreases deps.len(),
{
    lemma_dep_count_nonneg(deps, y, x, z);
    if deps.len() > 0 {
        lemma_dep_count_pos(deps.drop_last(), y, x, z);
        lemma_dep_count_nonneg(deps.drop_last(), y, x, z);
        if deps.last() == (y, x, z) {
            assert(deps[deps.len() - 1] == (y, x, z));
        } else {
            if exists|k: int| 0 <= k < deps.len() && deps[k] == (y, x, z) {
                let k = choose|k: int| 0 <= k < deps.len() && deps[k] == (y, x, z);
                if dep_count(deps, y, x, z) == 0 {
                    assert(k < deps.len() - 1);
                    assert(deps.drop_last()[k] == (y, x, z));
                }
            }
        }
    }
}

/// The raw (uncapped) deposit sum a computed group's cell takes, over the
/// deposit list.
pub open spec fn spec_group_count(
    dets: Seq<(String, crate::config::Detector)>,
    members: Seq<String>,
    deps: Seq<(int, int, int)>,
    y: int,
    x: int,
    z: int,
) -> int
    decreases members.len(),
{
    if members.len() == 0 {
        0
    } else {
        let rest = spec_group_count(dets, members.drop_last(), deps, y, x, z);
        match crate::config::spec_find_name(dets, members.last()@) {
            Some(i) => if z < dets[i].1.channels {
                rest + dep_count(deps, y, x, z + floor_at(dets, i))
            } else {
                rest
            },
            None => rest,
        }
    }
}

pub proof fn lemma_group_count_nonneg(
    dets: Seq<(String, crate::config::Detector)>,
    members: Seq<String>,
    deps: Seq<(int, int, int)>,
    y: int,
    x: int,
    z: int,
)
    ensures
        spec_group_count(dets, members, deps, y, x, z) >= 0,
    decreases members.len(),
{
    if members.len() > 0 {
        lemma_group_count_nonneg(dets, members.drop_last(), deps, y, x, z);
        match crate::config::spec_find_name(dets, members.last()@) {
            Some(i) => {
                lemma_dep_count_nonneg(deps, y, x, z + floor_at(dets, i));
            },
            None => {},
        }
    }
}

/// When the packed cube holds the clipped deposit counts, a group cell
/// computed from the cube clips to the same value as the raw deposit sum.
pub proof fn lemma_group_cell_count(
    dets: Seq<(String, crate::config::Detector)>,
    members: Seq<String>,
    packed: Cube,
    deps: Seq<(int, int, int)>,
    y: int,
    x: int,
    z: int,
)
    requires
        0 <= y < packed.ny(),
        0 <= x < packed.nx(),
        packed.nz() == total_channels(dets),
        forall|i: int|
            0 <= i < members.len() ==> match crate::config::spec_find_name(
                dets,
                (#[trigger] members[i])@,
            ) {
                Some(d) => 0 <= d < dets.len(),
                None => true,
            },
        0 <= z,
        forall|z2: int|
            0 <= z2 < packed.nz() ==> #[trigger] packed.cell(y, x, z2) == cap32(
                dep_count(deps, y, x, z2),
            ),
    ensures
        cap32(spec_group_cell(dets, members, packed, y, x, z)) == cap32(
            spec_group_count(dets, members, deps, y, x, z),
        ),
        spec_group_cell(dets, members, packed, y, x, z) >= u32::MAX ==> spec_group_count(
            dets,
            members,
            deps,
            y,
            x,
            z,
        ) >= u32::MAX,
        spec_group_cell(dets, members, packed, y, x, z) < u32::MAX ==> spec_group_cell(
            dets,
            members,
            packed,
            y,
            x,
            z,
        ) == spec_group_count(dets, members, deps, y, x, z),
    decreases members.len(),
{
    lemma_group_cell_nonneg(dets, members, packed, y, x, z);
    lemma_group_count_nonneg(dets, members, deps, y, x, z);
    if members.len() > 0 {
        assert forall|i: int|
            0 <= i < members.drop_last().len() implies match crate::config::spec_find_name(
            dets,
            (#[trigger] members.drop_last()[i])@,
        ) {
            Some(d) => 0 <= d < dets.len(),
            None => true,
        } by {
            assert(members.drop_last()[i] == members[i]);
        }
        lemma_group_cell_count(dets, members.drop_last(), packed, deps, y, x, z);
        lemma_group_cell_nonneg(dets, members.drop_last(), packed, y, x, z);
        lemma_group_count_nonneg(dets, members.drop_last(), deps, y, x, z);
        assert(members.last() == members[members.len() - 1]);
        match crate::config::spec_find_name(dets, members.last()@) {
            Some(i) => {
                if z < dets[i].1.channels {
                    crate::config::lemma_floor_bounds(dets, i);
                    lemma_dep_count_nonneg(deps, y, x, z + floor_at(dets, i));
                }
            },
            None => {},
        }
    }
}

/// In a catalog with distinct names, the entry at `i` is found at `i`.
pub proof fn lemma_find_name_self(dets: Seq<(String, crate::config::Detector)>, i: int)
    requires
        0 <= i < dets.len(),
        forall|a: int, b: int| 0 <= a < b < dets.len() ==> dets[a].0@ != dets[b].0@,
    ensures
        crate::config::spec_find_name(dets, dets[i].0@) == Some(i),
{
    crate::config::lemma_find_name_props(dets, dets[i].0@);
    match crate::config::spec_find_name(dets, dets[i].0@) {
        Some(k) => {
            if k < i {
                assert(dets[k].0@ != dets[i].0@);
            } else if i < k {
                assert(dets[i].0@ != dets[i].0@);
            }
        },
        None => {
            assert(dets[i].0@ != dets[i].0@);
        },
    }
}

/// Relies on `String::push`: appends exactly one character.
#[verifier::external_body]
fn push_char(s: &mut String, c: char)
    ensures
        final(s)@ == old(s)@.push(c),
{
    s.push(c);
}

/// The input with ASCII capitals lowered.
fn ascii_lower_str(s: &str) -> (r: String)
    ensures
        r@ == ascii_lower(s@),
{
    let n = s.unicode_len();
    let mut r = String::new();
    let mut i: usize = 0;
    while i < n
        invariant
            n == s@.len(),
            i <= n,
            r@ == ascii_lower(s@).take(i as int),
        decreases n - i,
    {
        let c = s.get_char(i);
        let u = c as u32;
        let lc: char = if 65 <= u && u <= 90 {
            ((u + 32) as u8) as char
        } else {
            c
        };
        push_char(&mut r, lc);
        proof {
            assert(ascii_lower(s@).take(i + 1) =~= ascii_lower(s@).take(i as int).push(
                lower_char(s@[i as int]),
            ));
        }
        i = i + 1;
    }
    proof {
        assert(ascii_lower(s@).take(n as int) =~= ascii_lower(s@));
    }
    r
}

/// Member names joined with `+`.
fn join_plus(names: &Vec<String>) -> (r: String)
    ensures
        r@ == spec_join_plus(crate::text::views_of(names@)),
{
    let ghost nv = crate::text::views_of(names@);
    let mut r = String::new();
    let n = names.len();
    let mut i: usize = 0;
    proof {
        reveal_strlit("+");
    }
    while i < n
        invariant
            n == names@.len(),
            nv == crate::text::views_of(names@),
            nv.len() == n,
            i <= n,
            r@ == spec_join_plus(nv.take(i as int)),
            "+"@ == seq!['+'],
        decreases n - i,
    {
        proof {
            assert(nv.take(i + 1).drop_last() =~= nv.take(i as int));
            assert(nv.take(i + 1).last() == nv[i as int]);
        }
        if i > 0 {
            r = r.concat("+");
        }
        r = r.concat(names[i].as_str());
        proof {
            if i == 0 {
                assert(r@ =~= spec_join_plus(nv.take(1)));
            } else {
                assert(r@ =~= spec_join_plus(nv.take(i + 1)));
            }
        }
        i = i + 1;
    }
    proof {
        assert(nv.take(n as int) =~= nv);
    }
    r
}

/// The result's attribute list: acquisition time and geometry, then the
/// experiment scalars when metadata was present.
pub open spec fn spec_attrs(
    ms: crate::models::MapSize,
    timers: nat,
    tr: u32,
    exp_src: Option<Seq<char>>,
) -> Seq<(Seq<char>, Seq<char>)> {
    let base = seq![
        ("acquisition_time"@, crate::helpers::spec_format_milliseconds(spec_acq_ms(timers, tr))),
        ("map_size_width"@, crate::helpers::spec_dec_digits(ms.width as int)),
        ("map_size_height"@, crate::helpers::spec_dec_digits(ms.height as int)),
        ("pen_size"@, crate::helpers::spec_dec_digits(ms.pen_size as int)),
        ("pixel_size_width"@, crate::helpers::spec_dec_digits(ms.pixel_size_width as int)),
        ("pixel_size_height"@, crate::helpers::spec_dec_digits(ms.pixel_size_height as int)),
    ];
    match exp_src {
        Some(src) => {
            let toks = crate::text::spec_split(crate::text::spec_after_last(src, ':'), ',');
            base + seq![
                ("particle"@, crate::models::spec_field_str(toks, 0)),
                ("beam_energy"@, crate::models::spec_field_str(toks, 1)),
            ]
        },
        None => base,
    }
}

/// Build the result attributes from the header values and the timer count.
fn build_attributes(
    map_size: &crate::models::MapSize,
    timers: u64,
    timer_reduce: u32,
    exp_info: &Option<crate::models::ExpInfo>,
    Ghost(exp_src): Ghost<Option<Seq<char>>>,
) -> (v: Vec<(String, String)>)
    requires
        match (*exp_info, exp_src) {
            (Some(e), Some(src)) => crate::models::expinfo_matches(e, src),
            (None, None) => true,
            _ => false,
        },
    ensures
        pairs_views(v@) == spec_attrs(*map_size, timers as nat, timer_reduce, exp_src),
{
    proof {
        assert((timers as int) * (timer_reduce as int) < 0x1_0000_0000_0000_0000_0000_0000)
            by (nonlinear_arith)
            requires
                0 <= timers as int <= 0xffff_ffff_ffff_ffff,
                0 <= timer_reduce as int <= 0xffff_ffff,
        ;
    }
    let prod: u128 = (timers as u128) * (timer_reduce as u128);
    let acq_ms: u32 = #[verifier::truncate] (prod as u32);
    proof {
        assert(prod as u32 == prod % 0x1_0000_0000) by (bit_vector);
        assert(acq_ms == spec_acq_ms(timers as nat, timer_reduce));
    }
    let acquisition_time = crate::helpers::format_milliseconds(acq_ms);
    let mut v: Vec<(String, String)> = Vec::new();
    v.push((String::from_str("acquisition_time"), acquisition_time));
    v.push((String::from_str("map_size_width"), crate::helpers::u32_to_string(map_size.width)));
    v.push((String::from_str("map_size_height"), crate::helpers::u32_to_string(map_size.height)));
    v.push((String::from_str("pen_size"), crate::helpers::u32_to_string(map_size.pen_size)));
    v.push(
        (String::from_str("pixel_size_width"), crate::helpers::u32_to_string(
            map_size.pixel_size_width,
        )),
    );
    v.push(
        (String::from_str("pixel_size_height"), crate::helpers::u32_to_string(
            map_size.pixel_size_height,
        )),
    );
    match exp_info {
        Some(e) => {
            v.push((String::from_str("particle"), e.particle.clone()));
            v.push((String::from_str("beam_energy"), e.beam_energy.clone()));
        },
        None => {},
    }
    proof {
        assert(pairs_views(v@) =~= spec_attrs(*map_size, timers as nat, timer_reduce, exp_src));
    }
    v
}

/// Whether a computed group is emitted: at least two members resolve in the
/// catalog, and some cell of its cube is positive.
pub open spec fn spec_group_emit(
    dets: Seq<(String, crate::config::Detector)>,
    members: Seq<String>,
    deps: Seq<(int, int, int)>,
    my: int,
    mx: int,
) -> bool {
    &&& spec_used(dets, members).len() > 1
    &&& exists|y: int, x: int, z: int|
        0 <= y < my && 0 <= x < mx && 0 <= z < spec_used_max(dets, members)
            && spec_group_count(dets, members, deps, y, x, z) > 0
}

/// The computed-group positions before `g` that are emitted, in
/// configuration order.
pub open spec fn spec_groups_upto(
    cds: Seq<(String, crate::config::ComputedDetector)>,
    dets: Seq<(String, crate::config::Detector)>,
    deps: Seq<(int, int, int)>,
    my: int,
    mx: int,
    g: int,
) -> Seq<int>
    decreases g,
{
    if g <= 0 {
        Seq::empty()
    } else {
        let rest = spec_groups_upto(cds, dets, deps, my, mx, g - 1);
        if spec_group_emit(dets, cds[g - 1].1.detectors@, deps, my, mx) {
            rest.push(g - 1)
        } else {
            rest
        }
    }
}

pub proof fn lemma_groups_bounds(
    cds: Seq<(String, crate::config::ComputedDetector)>,
    dets: Seq<(String, crate::config::Detector)>,
    deps: Seq<(int, int, int)>,
    my: int,
    mx: int,
    g: int,
)
    ensures
        forall|k: int|
            0 <= k < spec_groups_upto(cds, dets, deps, my, mx, g).len()
                ==> 0 <= #[trigger] spec_groups_upto(cds, dets, deps, my, mx, g)[k] < g,
    decreases g,
{
    if g > 0 {
        lemma_groups_bounds(cds, dets, deps, my, mx, g - 1);
        let rest = spec_groups_upto(cds, dets, deps, my, mx, g - 1);
        let cur = spec_groups_upto(cds, dets, deps, my, mx, g);
        assert forall|k: int| 0 <= k < cur.len() implies 0 <= #[trigger] cur[k] < g by {
            if spec_group_emit(dets, cds[g - 1].1.detectors@, deps, my, mx) {
                if k < rest.len() {
                    assert(cur[k] == rest[k]);
                } else {
                    assert(cur[k] == g - 1);
                }
            } else {
                assert(cur[k] == rest[k]);
            }
        }
    }
}

/// What one emitted per-detector dataset holds, for catalog position `i`:
/// the detector's name, its filter attribute when metadata carries one, and
/// a cube of its channel band's clipped deposit counts.
pub open spec fn dataset_entry_ok(
    d: crate::models::LSTData,
    dets: Seq<(String, crate::config::Detector)>,
    deps: Seq<(int, int, int)>,
    exp_src: Option<Seq<char>>,
    ny: int,
    nx: int,
    i: int,
) -> bool {
    &&& d.name@ == dets[i].0@
    &&& pairs_views(d.attributes@) == spec_det_attrs(exp_src, dets[i].0@)
    &&& d.data.wf()
    &&& d.data.ny() == ny
    &&& d.data.nx() == nx
    &&& d.data.nz() == dets[i].1.channels
    &&& forall|y: int, x: int, z: int|
        0 <= y < ny && 0 <= x < nx && 0 <= z < dets[i].1.channels ==> #[trigger] d.data.cell(
            y,
            x,
            z,
        ) == cap32(dep_count(deps, y, x, z + floor_at(dets, i)))
}

/// What one emitted computed dataset holds, for group position `g`: the
/// resolved member names joined with `+`, one lowered `<member>_filter`
/// attribute per resolved member with metadata, and a cube of the clipped
/// member-band sums.
pub open spec fn group_entry_ok(
    d: crate::models::LSTData,
    dets: Seq<(String, crate::config::Detector)>,
    cds: Seq<(String, crate::config::ComputedDetector)>,
    deps: Seq<(int, int, int)>,
    exp_src: Option<Seq<char>>,
    ny: int,
    nx: int,
    g: int,
) -> bool {
    let members = cds[g].1.detectors@;
    &&& d.name@ == spec_join_plus(spec_used(dets, members))
    &&& pairs_views(d.attributes@) == spec_group_attrs(exp_src, spec_used(dets, members))
    &&& d.data.wf()
    &&& d.data.ny() == ny
    &&& d.data.nx() == nx
    &&& d.data.nz() == spec_used_max(dets, members)
    &&& forall|y: int, x: int, z: int|
        0 <= y < ny && 0 <= x < nx && 0 <= z < spec_used_max(dets, members)
            ==> #[trigger] d.data.cell(y, x, z) == cap32(
            spec_group_count(dets, members, deps, y, x, z),
        )
}

/// Build the per-detector datasets: slice each detector's band out of the
/// packed dataset, in catalog order, keeping those with any counts.
fn build_datasets(
    dataset: &Cube,
    config: &Config,
    exp_info: &Option<crate::models::ExpInfo>,
    Ghost(deps): Ghost<Seq<(int, int, int)>>,
    Ghost(exp_src): Ghost<Option<Seq<char>>>,
) -> (v: Vec<crate::models::LSTData>)
    requires
        config.wf(),
        dataset.wf(),
        dataset.nz() == total_channels(config.detectors@),
        match (*exp_info, exp_src) {
            (Some(e), Some(src)) => crate::models::expinfo_matches(e, src),
            (None, None) => true,
            _ => false,
        },
        forall|y: int, x: int, z: int|
            0 <= y < dataset.ny() && 0 <= x < dataset.nx() && 0 <= z < dataset.nz()
                ==> #[trigger] dataset.cell(y, x, z) == cap32(dep_count(deps, y, x, z)),
        forall|k: int|
            0 <= k < deps.len() ==> 0 <= (#[trigger] deps[k]).0 < dataset.ny() && 0 <= deps[k].1
                < dataset.nx() && 0 <= deps[k].2 < dataset.nz(),
    ensures
        ({
            let dets = config.detectors@;
            let em = spec_emitted_upto(dets, deps, dets.len() as int);
            &&& v@.len() == em.len()
            &&& forall|k: int| #![trigger v@[k]]
                0 <= k < em.len() ==> 0 <= em[k] < dets.len() && dataset_entry_ok(
                    v@[k],
                    dets,
                    deps,
                    exp_src,
                    dataset.ny(),
                    dataset.nx(),
                    em[k],
                )
        }),
{
    let ghost dets = config.detectors@;
    let mut v: Vec<crate::models::LSTData> = Vec::new();
    let nd = config.detectors.len();
    let mut i: usize = 0;
    while i < nd
        invariant
            config.wf(),
            dataset.wf(),
            dataset.nz() == total_channels(config.detectors@),
            dets == config.detectors@,
            nd == dets.len(),
            i <= nd,
            match (*exp_info, exp_src) {
                (Some(e), Some(src)) => crate::models::expinfo_matches(e, src),
                (None, None) => true,
                _ => false,
            },
            forall|y: int, x: int, z: int|
                0 <= y < dataset.ny() && 0 <= x < dataset.nx() && 0 <= z < dataset.nz()
                    ==> #[trigger] dataset.cell(y, x, z) == cap32(dep_count(deps, y, x, z)),
            forall|k: int|
                0 <= k < deps.len() ==> 0 <= (#[trigger] deps[k]).0 < dataset.ny() && 0
                    <= deps[k].1 < dataset.nx() && 0 <= deps[k].2 < dataset.nz(),
            v@.len() == spec_emitted_upto(dets, deps, i as int).len(),
            forall|k: int| #![trigger v@[k]]
                0 <= k < v@.len() ==> 0 <= spec_emitted_upto(dets, deps, i as int)[k] < dets.len()
                    && dataset_entry_ok(
                    v@[k],
                    dets,
                    deps,
                    exp_src,
                    dataset.ny(),
                    dataset.nx(),
                    spec_emitted_upto(dets, deps, i as int)[k],
                ),
        decreases nd - i,
    {
        let entry = &config.detectors[i];
        proof {
            lemma_find_name_self(dets, i as int);
            lemma_floor_bounds(dets, i as int);
        }
        let slice_dset = get_slice_from_detector(&entry.0, &entry.1, dataset, config);
        let has = slice_dset.has_counts();
        proof {
            let fl = floor_at(dets, i as int);
            let ch = dets[i as int].1.channels as int;
            if has {
                let (y, x, z) = choose|y: int, x: int, z: int|
                    0 <= y < slice_dset.ny() && 0 <= x < slice_dset.nx() && 0 <= z
                        < slice_dset.nz() && #[trigger] slice_dset.cell(y, x, z) != 0;
                assert(slice_dset.cell(y, x, z) == dataset.cell(y, x, z + fl));
                assert(dataset.cell(y, x, z + fl) == cap32(dep_count(deps, y, x, z + fl)));
                lemma_dep_count_pos(deps, y, x, z + fl);
                lemma_dep_count_nonneg(deps, y, x, z + fl);
                let k = choose|k: int| 0 <= k < deps.len() && deps[k] == (y, x, z + fl);
                assert(fl <= deps[k].2 < fl + ch);
                assert(det_has(deps, dets, i as int));
            } else {
                if det_has(deps, dets, i as int) {
                    let k = choose|k: int|
                        0 <= k < deps.len() && fl <= (#[trigger] deps[k]).2 < fl + ch;
                    let (y, x, z) = (deps[k].0, deps[k].1, deps[k].2);
                    lemma_dep_count_pos(deps, y, x, z);
                    lemma_dep_count_nonneg(deps, y, x, z);
                    assert(dep_count(deps, y, x, z) > 0);
                    assert(dataset.cell(y, x, z) == cap32(dep_count(deps, y, x, z)));
                    assert(dataset.cell(y, x, z) != 0);
                    assert(slice_dset.cell(y, x, z - fl) == dataset.cell(y, x, z));
                    assert(false);
                }
            }
            assert(has == det_has(deps, dets, i as int));
            assert(spec_emitted_upto(dets, deps, i + 1) == (if det_has(deps, dets, i as int) {
                spec_emitted_upto(dets, deps, i as int).push(i as int)
            } else {
                spec_emitted_upto(dets, deps, i as int)
            }));
            lemma_emitted_bounds(dets, deps, i + 1);
        }
        if has {
            let mut attributes: Vec<(String, String)> = Vec::new();
            match exp_info {
                Some(e) => {
                    match e.get_filter_for_detector(entry.0.as_str()) {
                        Some(filter) => {
                            attributes.push((String::from_str("filter"), filter));
                        },
                        None => {},
                    }
                },
                None => {},
            }
            proof {
                assert(pairs_views(attributes@) =~= spec_det_attrs(exp_src, dets[i as int].0@));
            }
            let data = crate::models::LSTData {
                name: entry.0.clone(),
                attributes,
                data: slice_dset,
            };
            proof {
                assert forall|y: int, x: int, z: int|
                    0 <= y < dataset.ny() && 0 <= x < dataset.nx() && 0 <= z
                        < dets[i as int].1.channels implies #[trigger] data.data.cell(y, x, z)
                    == cap32(dep_count(deps, y, x, z + floor_at(dets, i as int))) by {
                    lemma_floor_bounds(dets, i as int);
                    assert(data.data.cell(y, x, z) == dataset.cell(
                        y,
                        x,
                        z + floor_at(dets, i as int),
                    ));
                }
                assert(dataset_entry_ok(
                    data,
                    dets,
                    deps,
                    exp_src,
                    dataset.ny(),
                    dataset.nx(),
                    i as int,
                ));
            }
            let ghost old_v = v@;
            v.push(data);
            proof {
                let em = spec_emitted_upto(dets, deps, i + 1);
                lemma_emitted_bounds(dets, deps, i + 1);
                assert forall|k: int| #![trigger v@[k]] 0 <= k < v@.len() implies 0 <= em[k]
                    < dets.len() && dataset_entry_ok(
                    v@[k],
                    dets,
                    deps,
                    exp_src,
                    dataset.ny(),
                    dataset.nx(),
                    em[k],
                ) by {
                    if k < old_v.len() {
                        assert(v@[k] == old_v[k]);
                        assert(em[k] == spec_emitted_upto(dets, deps, i as int)[k]);
                    } else {
                        assert(v@[k] == data);
                        assert(em[k] == i as int);
                    }
                }
            }
        }
        i = i + 1;
    }
    proof {
        lemma_emitted_bounds(dets, deps, dets.len() as int);
    }
    v
}

/// Build the computed datasets: for each configured group, sum the resolved
/// members' bands; keep groups with at least two resolved members and any
/// counts.
fn build_computed(
    dataset: &Cube,
    config: &Config,
    exp_info: &Option<crate::models::ExpInfo>,
    Ghost(deps): Ghost<Seq<(int, int, int)>>,
    Ghost(exp_src): Ghost<Option<Seq<char>>>,
) -> (v: Vec<crate::models::LSTData>)
    requires
        config.wf(),
        dataset.wf(),
        dataset.nz() == total_channels(config.detectors@),
        match (*exp_info, exp_src) {
            (Some(e), Some(src)) => crate::models::expinfo_matches(e, src),
            (None, None) => true,
            _ => false,
        },
        forall|y: int, x: int, z: int|
            0 <= y < dataset.ny() && 0 <= x < dataset.nx() && 0 <= z < dataset.nz()
                ==> #[trigger] dataset.cell(y, x, z) == cap32(dep_count(deps, y, x, z)),
    ensures
        ({
            let dets = config.detectors@;
            let cds = config.computed_detectors@;
            let gm = spec_groups_upto(
                cds,
                dets,
                deps,
                dataset.ny(),
                dataset.nx(),
                cds.len() as int,
            );
            &&& v@.len() == gm.len()
            &&& forall|k: int| #![trigger v@[k]]
                0 <= k < gm.len() ==> 0 <= gm[k] < cds.len() && group_entry_ok(
                    v@[k],
                    dets,
                    cds,
                    deps,
                    exp_src,
                    dataset.ny(),
                    dataset.nx(),
                    gm[k],
                )
        }),
{
    let ghost dets = config.detectors@;
    let ghost cds = config.computed_detectors@;
    let mut v: Vec<crate::models::LSTData> = Vec::new();
    let ng = config.computed_detectors.len();
    let mut g: usize = 0;
    while g < ng
        invariant
            config.wf(),
            dataset.wf(),
            dataset.nz() == total_channels(config.detectors@),
            dets == config.detectors@,
            cds == config.computed_detectors@,
            ng == cds.len(),
            g <= ng,
            match (*exp_info, exp_src) {
                (Some(e), Some(src)) => crate::models::expinfo_matches(e, src),
                (None, None) => true,
                _ => false,
            },
            forall|y: int, x: int, z: int|
                0 <= y < dataset.ny() && 0 <= x < dataset.nx() && 0 <= z < dataset.nz()
                    ==> #[trigger] dataset.cell(y, x, z) == cap32(dep_count(deps, y, x, z)),
            v@.len() == spec_groups_upto(
                cds,
                dets,
                deps,
                dataset.ny(),
                dataset.nx(),
                g as int,
            ).len(),
            forall|k: int| #![trigger v@[k]]
                0 <= k < v@.len() ==> 0 <= spec_groups_upto(
                    cds,
                    dets,
                    deps,
                    dataset.ny(),
                    dataset.nx(),
                    g as int,
                )[k] < cds.len() && group_entry_ok(
                    v@[k],
                    dets,
                    cds,
                    deps,
                    exp_src,
                    dataset.ny(),
                    dataset.nx(),
                    spec_groups_upto(cds, dets, deps, dataset.ny(), dataset.nx(), g as int)[k],
                ),
        decreases ng - g,
    {
        let group = &config.computed_detectors[g];
        let ghost members = cds[g as int].1.detectors@;
        let (computed_dataset, used_detectors) = generate_computed_dataset(
            &group.1.detectors,
            config,
            dataset,
        );
        proof {
            assert forall|mi: int| 0 <= mi < members.len() implies match crate::config::spec_find_name(
                dets,
                (#[trigger] members[mi])@,
            ) {
                Some(d) => 0 <= d < dets.len(),
                None => true,
            } by {
                crate::config::lemma_find_name_props(dets, members[mi]@);
            }
            assert forall|y: int, x: int, z: int|
                0 <= y < computed_dataset.ny() && 0 <= x < computed_dataset.nx() && 0 <= z
                    < computed_dataset.nz() implies #[trigger] computed_dataset.cell(y, x, z)
                == cap32(spec_group_count(dets, members, deps, y, x, z)) by {
                lemma_group_cell_count(dets, members, *dataset, deps, y, x, z);
            }
        }
        let has = computed_dataset.has_counts();
        proof {
            lemma_groups_bounds(cds, dets, deps, dataset.ny(), dataset.nx(), g + 1);
            let mc = spec_used_max(dets, members);
            if has {
                let (y, x, z) = choose|y: int, x: int, z: int|
                    0 <= y < computed_dataset.ny() && 0 <= x < computed_dataset.nx() && 0 <= z
                        < computed_dataset.nz() && #[trigger] computed_dataset.cell(y, x, z) != 0;
                lemma_group_count_nonneg(dets, members, deps, y, x, z);
                assert(spec_group_count(dets, members, deps, y, x, z) > 0);
            } else {
                if exists|y: int, x: int, z: int|
                    0 <= y < dataset.ny() && 0 <= x < dataset.nx() && 0 <= z < mc
                        && spec_group_count(dets, members, deps, y, x, z) > 0 {
                    let (y, x, z) = choose|y: int, x: int, z: int|
                        0 <= y < dataset.ny() && 0 <= x < dataset.nx() && 0 <= z < mc
                            && spec_group_count(dets, members, deps, y, x, z) > 0;
                    lemma_group_count_nonneg(dets, members, deps, y, x, z);
                    assert(computed_dataset.cell(y, x, z) == cap32(
                        spec_group_count(dets, members, deps, y, x, z),
                    ));
                    assert(computed_dataset.cell(y, x, z) != 0);
                    assert(false);
                }
            }
        }
        if has && used_detectors.len() > 1 {
            proof {
                assert(spec_used(dets, members).len() > 1);
                assert(spec_group_emit(dets, members, deps, dataset.ny(), dataset.nx()));
            }
            let dset_name = join_plus(&used_detectors);
            let mut attributes: Vec<(String, String)> = Vec::new();
            let nu = used_detectors.len();
            let mut j: usize = 0;
            proof {
                reveal_strlit("_filter");
            }
            while j < nu
                invariant
                    nu == used_detectors@.len(),
                    j <= nu,
                    match (*exp_info, exp_src) {
                        (Some(e), Some(src)) => crate::models::expinfo_matches(e, src),
                        (None, None) => true,
                        _ => false,
                    },
                    "_filter"@ == seq!['_', 'f', 'i', 'l', 't', 'e', 'r'],
                    pairs_views(attributes@) == spec_group_attrs(
                        exp_src,
                        crate::text::views_of(used_detectors@).take(j as int),
                    ),
                decreases nu - j,
            {
                let ghost uv = crate::text::views_of(used_detectors@);
                proof {
                    assert(uv.take(j + 1).drop_last() =~= uv.take(j as int));
                    assert(uv.take(j + 1).last() == uv[j as int]);
                }
                match exp_info {
                    Some(e) => {
                        match e.get_filter_for_detector(used_detectors[j].as_str()) {
                            Some(filter) => {
                                let key = ascii_lower_str(used_detectors[j].as_str()).concat(
                                    "_filter",
                                );
                                attributes.push((key, filter));
                                proof {
                                    assert(pairs_views(attributes@) =~= spec_group_attrs(
                                        exp_src,
                                        uv.take(j + 1),
                                    ));
                                }
                            },
                            None => {
                                proof {
                                    assert(pairs_views(attributes@) =~= spec_group_attrs(
                                        exp_src,
                                        uv.take(j + 1),
                                    ));
                                }
                            },
                        }
                    },
                    None => {
                        proof {
                            assert(pairs_views(attributes@) =~= spec_group_attrs(
                                exp_src,
                                uv.take(j + 1),
                            ));
                        }
                    },
                }
                j = j + 1;
            }
            proof {
                assert(crate::text::views_of(used_detectors@).take(nu as int)
                    =~= crate::text::views_of(used_detectors@));
            }
            let data = crate::models::LSTData {
                name: dset_name,
                attributes,
                data: computed_dataset,
            };
            proof {
                assert forall|y: int, x: int, z: int|
                    0 <= y < dataset.ny() && 0 <= x < dataset.nx() && 0 <= z < spec_used_max(
                        dets,
                        members,
                    ) implies #[trigger] data.data.cell(y, x, z) == cap32(
                    spec_group_count(dets, members, deps, y, x, z),
                ) by {
                    assert(data.data.cell(y, x, z) == computed_dataset.cell(y, x, z));
                }
                assert(group_entry_ok(
                    data,
                    dets,
                    cds,
                    deps,
                    exp_src,
                    dataset.ny(),
                    dataset.nx(),
                    g as int,
                ));
            }
            let ghost old_v = v@;
            v.push(data);
            proof {
                let gm = spec_groups_upto(cds, dets, deps, dataset.ny(), dataset.nx(), g + 1);
                lemma_groups_bounds(cds, dets, deps, dataset.ny(), dataset.nx(), g + 1);
                assert(gm == spec_groups_upto(
                    cds,
                    dets,
                    deps,
                    dataset.ny(),
                    dataset.nx(),
                    g as int,
                ).push(g as int));
                assert forall|k: int| #![trigger v@[k]] 0 <= k < v@.len() implies 0 <= gm[k]
                    < cds.len() && group_entry_ok(
                    v@[k],
                    dets,
                    cds,
                    deps,
                    exp_src,
                    dataset.ny(),
                    dataset.nx(),
                    gm[k],
                ) by {
                    if k < old_v.len() {
                        assert(v@[k] == old_v[k]);
                        assert(gm[k] == spec_groups_upto(
                            cds,
                            dets,
                            deps,
                            dataset.ny(),
                            dataset.nx(),
                            g as int,
                        )[k]);
                    } else {
                        assert(v@[k] == data);
                        assert(gm[k] == g as int);
                    }
                }
            }
        } else {
            proof {
                if spec_group_emit(dets, members, deps, dataset.ny(), dataset.nx()) {
                    assert(crate::text::views_of(used_detectors@).len() > 1);
                    assert(false);
                }
            }
        }
        g = g + 1;
    }
    proof {
        lemma_groups_bounds(cds, dets, deps, dataset.ny(), dataset.nx(), cds.len() as int);
    }
    v
}

/// Decode a whole LST file image: scan the textual header, allocate the
/// packed dataset, stream the binary section into it, slice the
/// per-detector datasets, build the computed group datasets, and collect the
/// attributes.
pub fn parse_lst(input: &[u8], config: &Config) -> (r: Result<
    crate::models::ParsingResult,
    LstError,
>)
    requires
        config.wf(),
    ensures
        ({
            let h = spec_read_header(input@, 0, None, None, 0);
            match h {
                None => r is Err && r->Err_0 == LstError::InvalidHeaderText,
                Some(hr) => match hr.map_size {
                    None => r is Err && r->Err_0 == LstError::HeaderMissing,
                    Some(ms) => {
                        let mx = crate::models::spec_max_dim(ms.width, ms.pixel_size_width);
                        let my = crate::models::spec_max_dim(ms.height, ms.pixel_size_height);
                        if !crate::cube::fits_alloc(my, mx, total_channels(config.detectors@)) {
                            r is Err && r->Err_0 == LstError::MapTooLarge
                        } else {
                            let sm = spec_stream(
                                *config,
                                mx,
                                my,
                                input@.skip(hr.consumed),
                                Position { x: 0, y: 0 },
                            );
                            match r {
                                Err(e) => e == LstError::Internal && (mx == 0 || my == 0)
                                    && sm.deposits.len() > 0,
                                Ok(res) => {
                                    let dets = config.detectors@;
                                    let cds = config.computed_detectors@;
                                    let em = spec_emitted_upto(
                                        dets,
                                        sm.deposits,
                                        dets.len() as int,
                                    );
                                    let gm = spec_groups_upto(
                                        cds,
                                        dets,
                                        sm.deposits,
                                        my,
                                        mx,
                                        cds.len() as int,
                                    );
                                    &&& pairs_views(res.attributes@) == spec_attrs(
                                        ms,
                                        sm.timers,
                                        hr.timer_reduce,
                                        hr.exp_src,
                                    )
                                    &&& res.datasets@.len() == em.len()
                                    &&& (forall|k: int| #![trigger res.datasets@[k]]
                                        0 <= k < em.len() ==> 0 <= em[k] < dets.len()
                                            && dataset_entry_ok(
                                            res.datasets@[k],
                                            dets,
                                            sm.deposits,
                                            hr.exp_src,
                                            my,
                                            mx,
                                            em[k],
                                        ))
                                    &&& res.computed_datasets@.len() == gm.len()
                                    &&& (forall|k: int| #![trigger res.computed_datasets@[k]]
                                        0 <= k < gm.len() ==> 0 <= gm[k] < cds.len()
                                            && group_entry_ok(
                                            res.computed_datasets@[k],
                                            dets,
                                            cds,
                                            sm.deposits,
                                            hr.exp_src,
                                            my,
                                            mx,
                                            gm[k],
                                        ))
                                },
                            }
                        }
                    },
                },
            }
        }),
{
    let (map_size, exp_info, timer_reduce, consumed) = match read_header(input) {
        Ok(t) => t,
        Err(e) => {
            return Err(e);
        },
    };
    let ghost hr = spec_read_header(input@, 0, None, None, 0)->Some_0;
    let ghost exp_src = hr.exp_src;
    let max_x = map_size.get_max_x();
    let max_y = map_size.get_max_y();
    let total = config.total_packed_channels();
    proof {
        assert(max_x >= 0);
        assert(max_y >= 0);
    }
    let fy: u128 = if max_y == 0 {
        1
    } else {
        max_y as u128
    };
    let fx: u128 = if max_x == 0 {
        1
    } else {
        max_x as u128
    };
    let fz: u128 = if total == 0 {
        1
    } else {
        total as u128
    };
    let lim: u128 = isize::MAX as u128;
    proof {
        assert(fy as int == crate::cube::axis_factor(max_y as int));
        assert(fx as int == crate::cube::axis_factor(max_x as int));
        assert(fz as int == crate::cube::axis_factor(total as int));
        assert((fy as int) * (fx as int) < 0x1_0000_0000_0000_0000_0000_0000_0000_0000)
            by (nonlinear_arith)
            requires
                0 <= (fy as int) && (fy as int) < 0x1_0000_0000_0000_0000,
                0 <= (fx as int) && (fx as int) < 0x1_0000_0000_0000_0000,
        ;
    }
    let p1: u128 = fy * fx;
    if p1 > lim {
        proof {
            assert(crate::cube::axis_factor(max_y as int) * crate::cube::axis_factor(max_x as int)
                * crate::cube::axis_factor(total as int) * 4 > isize::MAX as int)
                by (nonlinear_arith)
                requires
                    crate::cube::axis_factor(max_y as int) * crate::cube::axis_factor(
                        max_x as int,
                    ) > isize::MAX as int,
                    crate::cube::axis_factor(total as int) >= 1,
            ;
        }
        return Err(LstError::MapTooLarge);
    }
    proof {
        assert((p1 as int) * (fz as int) * 4 < 0x1_0000_0000_0000_0000_0000_0000_0000_0000)
            by (nonlinear_arith)
            requires
                0 <= (p1 as int) && (p1 as int) <= 0x7fff_ffff_ffff_ffff,
                0 <= (fz as int) && (fz as int) <= 0x1_0000_0000,
        ;
    }
    let p2: u128 = p1 * fz * 4;
    if p2 > lim {
        return Err(LstError::MapTooLarge);
    }
    proof {
        assert(crate::cube::fits_alloc(max_y as int, max_x as int, total as int));
    }
    let mut dataset = config.create_big_dataset(max_x, max_y);
    let timers = match run_stream(&mut dataset, input, consumed, config, max_x, max_y) {
        Ok(t) => t,
        Err(e) => {
            return Err(e);
        },
    };
    let ghost sm = spec_stream(
        *config,
        max_x as int,
        max_y as int,
        input@.skip(consumed as int),
        Position { x: 0u16, y: 0u16 },
    );
    let attributes = build_attributes(&map_size, timers, timer_reduce, &exp_info, Ghost(exp_src));
    let datasets = build_datasets(
        &dataset,
        config,
        &exp_info,
        Ghost(sm.deposits),
        Ghost(exp_src),
    );
    let computed_datasets = build_computed(
        &dataset,
        config,
        &exp_info,
        Ghost(sm.deposits),
        Ghost(exp_src),
    );
    proof {
        lemma_emitted_bounds(config.detectors@, sm.deposits, config.detectors@.len() as int);
        lemma_groups_bounds(
            config.computed_detectors@,
            config.detectors@,
            sm.deposits,
            max_y as int,
            max_x as int,
            config.computed_detectors@.len() as int,
        );
    }
    Ok(crate::models::ParsingResult { datasets, computed_datasets, attributes })
}

pub proof fn lemma_payload_vals_len(b: Seq<u8>, start: int, k: int)
    ensures
        spec_payload_vals(b, start, k).len() == (if k <= 0 {
            0
        } else {
            k
        }),
    decreases k,
{
    if k > 0 {
        lemma_payload_vals_len(b, start + 2, k - 1);
    }
}

pub proof fn lemma_payload_vals_index(b: Seq<u8>, start: int, k: int, j: int)
    requires
        0 <= j < k,
    ensures
        spec_payload_vals(b, start, k)[j] == spec_u16_at(b, start + 2 * j),
    decreases j,
{
    lemma_payload_vals_len(b, start, k);
    lemma_payload_vals_len(b, start + 2, k - 1);
    if j > 0 {
        lemma_payload_vals_index(b, start + 2, k - 1, j - 1);
    }
}

} // verus!
