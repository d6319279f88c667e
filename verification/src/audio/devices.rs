//! Picking the input device and its stream configuration, over plain
//! descriptions of what the host reported: device names, and for each
//! supported configuration range its sample rates, sample format and channel
//! count. Enumerating devices is the application's job.

use vstd::prelude::*;
use vstd::string::*;

use crate::text::{contains, contains_spec, parsed_usize, parse_usize, spec_trim, trim};

verus! {

/// Lowercase form of a text under the Unicode case mapping.
pub uninterp spec fn lowercase_text(s: Seq<char>) -> Seq<char>;

/// Calls `str::to_lowercase`, which lowercases under the Unicode case
/// mapping; the mapping is named by `lowercase_text`, not spelled out.
#[verifier::external_body]
fn to_lowercase(s: &str) -> (r: String)
    ensures
        r@ == lowercase_text(s@),
{
    s.to_lowercase()
}

/// Why a device specification did not pick exactly one device.
#[derive(Debug, Clone)]
pub enum ResolveError {
    /// The specification is an index, but there are only `count` devices.
    IndexOutOfRange { index: usize, count: usize },
    /// No device name contains the specification.
    NoMatch,
    /// Several device names contain it; these are their indices.
    Ambiguous { hits: Vec<usize> },
}

/// The indices of the names that contain `needle`, ignoring case.
pub open spec fn matching_names(names: Seq<Seq<char>>, needle: Seq<char>) -> Seq<usize>
    decreases names.len(),
{
    if names.len() == 0 {
        seq![]
    } else {
        let rest = matching_names(names.drop_last(), needle);
        if contains_spec(lowercase_text(names.last()), lowercase_text(needle)) {
            rest.push((names.len() - 1) as usize)
        } else {
            rest
        }
    }
}

pub open spec fn name_views(names: Seq<String>) -> Seq<Seq<char>> {
    names.map_values(|s: String| s@)
}

/// Accepts either an index or a case-insensitive fragment of the device name.
pub fn resolve_device(names: &Vec<String>, spec: &str) -> (r: Result<usize, ResolveError>)
    ensures
        ({
            let t = spec_trim(spec@);
            let hits = matching_names(name_views(names@), t);
            match parsed_usize(t) {
                Some(i) => if i < names.len() {
                    r matches Ok(k) && k == i
                } else {
                    r matches Err(ResolveError::IndexOutOfRange { index, count }) && index == i && count == names.len()
                },
                None => if hits.len() == 0 {
                    r matches Err(ResolveError::NoMatch)
                } else if hits.len() == 1 {
                    r matches Ok(k) && k == hits[0]
                } else {
                    r matches Err(ResolveError::Ambiguous { hits: found }) && found@ == hits
                },
            }
        }),
{
    let t = trim(spec);
    if let Some(i) = parse_usize(t) {
        if i < names.len() {
            return Ok(i);
        }
        return Err(ResolveError::IndexOutOfRange { index: i, count: names.len() });
    }
    let needle = to_lowercase(t);
    let ghost views = name_views(names@);
    let mut hits: Vec<usize> = Vec::new();
    let mut k: usize = 0;
    while k < names.len()
        invariant
            k <= names.len(),
            views == name_views(names@),
            needle@ == lowercase_text(t@),
            hits@ == matching_names(views.subrange(0, k as int), t@),
        decreases names.len() - k,
    {
        let lower = to_lowercase(names[k].as_str());
        let hit = contains(lower.as_str(), needle.as_str());
        proof {
            let sub = views.subrange(0, k + 1);
            assert(sub.drop_last() =~= views.subrange(0, k as int));
            assert(sub.last() == names@[k as int]@);
        }
        if hit {
            hits.push(k);
        }
        k += 1;
    }
    proof {
        assert(views.subrange(0, names.len() as int) =~= views);
    }
    if hits.len() == 0 {
        Err(ResolveError::NoMatch)
    } else if hits.len() == 1 {
        Ok(hits[0])
    } else {
        Err(ResolveError::Ambiguous { hits })
    }
}

/// Index of the first name equal to `want`.
pub fn position_of(names: &Vec<String>, want: &str) -> (r: Option<usize>)
    ensures
        r matches Some(k) ==> k < names.len() && names@[k as int]@ == want@ && forall|j: int|
            0 <= j < k ==> #[trigger] names@[j]@ != want@,
        r is None ==> forall|j: int| 0 <= j < names.len() ==> #[trigger] names@[j]@ != want@,
{
    let mut k: usize = 0;
    while k < names.len()
        invariant
            k <= names.len(),
            forall|j: int| 0 <= j < k ==> #[trigger] names@[j]@ != want@,
        decreases names.len() - k,
    {
        if crate::text::same_text(names[k].as_str(), want) {
            return Some(k);
        }
        k += 1;
    }
    None
}

/// Sample formats as far as the choice of configuration is concerned.
#[derive(Debug, Clone, Copy, PartialEq, Eq, Structural)]
pub enum SampleFormatKind {
    F32,
    I16,
    I32,
    U16,
    I8,
    U8,
    /// Anything else the host may offer; not handled.
    Other,
}

/// Sample formats we can handle; a lower number means a stronger preference.
pub open spec fn format_preference(fmt: SampleFormatKind) -> Option<u32> {
    match fmt {
        SampleFormatKind::F32 => Some(0),
        SampleFormatKind::I16 => Some(1),
        SampleFormatKind::I32 => Some(2),
        SampleFormatKind::U16 => Some(3),
        SampleFormatKind::I8 => Some(4),
        SampleFormatKind::U8 => Some(5),
        SampleFormatKind::Other => None,
    }
}

/// The sample formats that can be captured, most preferred first.
pub open spec fn handled_formats() -> Seq<SampleFormatKind> {
    seq![
        SampleFormatKind::F32,
        SampleFormatKind::I16,
        SampleFormatKind::I32,
        SampleFormatKind::U16,
        SampleFormatKind::I8,
        SampleFormatKind::U8,
    ]
}

/// A format's preference is its place in the list of handled formats, and
/// only a format outside that list is unusable.
pub proof fn lemma_format_preference_is_place(fmt: SampleFormatKind)
    ensures
        (format_preference(fmt) is None) == !handled_formats().contains(fmt),
        forall|k: int| 0 <= k < handled_formats().len() && #[trigger] handled_formats()[k] == fmt ==>
            format_preference(fmt) == Some(k as u32),
        handled_formats().contains(fmt) == (fmt != SampleFormatKind::Other),
{
    let h = handled_formats();
    assert(h[0] == SampleFormatKind::F32 && h[1] == SampleFormatKind::I16 && h[2] == SampleFormatKind::I32);
    assert(h[3] == SampleFormatKind::U16 && h[4] == SampleFormatKind::I8 && h[5] == SampleFormatKind::U8);
    if fmt != SampleFormatKind::Other {
        let k: int = match fmt {
            SampleFormatKind::F32 => 0,
            SampleFormatKind::I16 => 1,
            SampleFormatKind::I32 => 2,
            SampleFormatKind::U16 => 3,
            SampleFormatKind::I8 => 4,
            _ => 5,
        };
        assert(h[k] == fmt);
    }
}

pub fn format_rank(fmt: SampleFormatKind) -> (r: Option<u32>)
    ensures
        r == format_preference(fmt),
        (r is None) == (fmt == SampleFormatKind::Other),
        r matches Some(k) ==> k < handled_formats().len() && handled_formats()[k as int] == fmt,
{
    proof {
        lemma_format_preference_is_place(fmt);
    }
    match fmt {
        SampleFormatKind::F32 => Some(0),
        SampleFormatKind::I16 => Some(1),
        SampleFormatKind::I32 => Some(2),
        SampleFormatKind::U16 => Some(3),
        SampleFormatKind::I8 => Some(4),
        SampleFormatKind::U8 => Some(5),
        SampleFormatKind::Other => None,
    }
}

/// One supported configuration range of a device.
#[derive(Debug, Clone, Copy, PartialEq, Eq, Structural)]
pub struct ConfigRange {
    pub min_sample_rate: u32,
    pub max_sample_rate: u32,
    pub format: SampleFormatKind,
    pub channels: u16,
}

/// The rate a range runs at when `target` is asked for: `target` clamped into
/// the range.
pub open spec fn clamped_rate(range: ConfigRange, target: u32) -> u32 {
    if target < range.min_sample_rate {
        range.min_sample_rate
    } else if target > range.max_sample_rate {
        range.max_sample_rate
    } else {
        target
    }
}

/// How far apart two rates are.
pub open spec fn rate_distance(a: int, b: int) -> int {
    if a >= b {
        a - b
    } else {
        b - a
    }
}

/// A range runs at a rate it supports, and no rate it supports is closer to
/// the one asked for.
pub proof fn lemma_clamped_rate_is_closest(range: ConfigRange, target: u32)
    requires
        range.min_sample_rate <= range.max_sample_rate,
    ensures
        range.min_sample_rate <= clamped_rate(range, target) <= range.max_sample_rate,
        forall|x: int| range.min_sample_rate <= x <= range.max_sample_rate ==>
            rate_distance(clamped_rate(range, target) as int, target as int) <= #[trigger] rate_distance(x, target as int),
{
}

pub fn clamp_rate(range: &ConfigRange, target: u32) -> (r: u32)
    requires
        range.min_sample_rate <= range.max_sample_rate,
    ensures
        r == clamped_rate(*range, target),
        range.min_sample_rate <= r <= range.max_sample_rate,
        forall|x: int| range.min_sample_rate <= x <= range.max_sample_rate ==>
            rate_distance(r as int, target as int) <= #[trigger] rate_distance(x, target as int),
{
    proof {
        lemma_clamped_rate_is_closest(*range, target);
    }
    if target < range.min_sample_rate {
        range.min_sample_rate
    } else if target > range.max_sample_rate {
        range.max_sample_rate
    } else {
        target
    }
}

/// How far a range is from what we want, compared lexicographically: the
/// distance of its rate from `target`, then the format preference, then the
/// channel count.
pub open spec fn config_penalty(range: ConfigRange, target: u32) -> (int, int, int) {
    let rate = clamped_rate(range, target) as int;
    let rate_penalty = if rate >= target { rate - target } else { target - rate };
    let fmt_penalty = match format_preference(range.format) {
        Some(rank) => rank as int,
        None => u32::MAX as int,
    };
    (rate_penalty, fmt_penalty, range.channels as int)
}

pub open spec fn penalty_less(a: (int, int, int), b: (int, int, int)) -> bool {
    a.0 < b.0 || (a.0 == b.0 && (a.1 < b.1 || (a.1 == b.1 && a.2 < b.2)))
}

pub open spec fn usable(range: ConfigRange) -> bool {
    format_preference(range.format) is Some
}

/// Among the ranges whose format we handle, the first one with the smallest
/// penalty, and the rate it runs at. `None` when no range is usable.
pub fn choose_config(ranges: &Vec<ConfigRange>, target: u32) -> (r: Option<(usize, u32)>)
    requires
        forall|i: int| 0 <= i < ranges.len() ==> (#[trigger] ranges@[i]).min_sample_rate <= ranges@[i].max_sample_rate,
    ensures
        r is None ==> forall|i: int| 0 <= i < ranges.len() ==> !usable(#[trigger] ranges@[i]),
        r matches Some((k, rate)) ==> {
            &&& k < ranges.len()
            &&& usable(ranges@[k as int])
            &&& rate == clamped_rate(ranges@[k as int], target)
            &&& ranges@[k as int].min_sample_rate <= rate <= ranges@[k as int].max_sample_rate
            &&& forall|x: int| ranges@[k as int].min_sample_rate <= x <= ranges@[k as int].max_sample_rate ==>
                rate_distance(rate as int, target as int) <= #[trigger] rate_distance(x, target as int)
            &&& forall|i: int| 0 <= i < ranges.len() && usable(#[trigger] ranges@[i]) ==>
                !penalty_less(config_penalty(ranges@[i], target), config_penalty(ranges@[k as int], target))
            &&& forall|i: int| 0 <= i < k && usable(#[trigger] ranges@[i]) ==>
                penalty_less(config_penalty(ranges@[k as int], target), config_penalty(ranges@[i], target))
        },
{
    let mut best: Option<usize> = None;
    let mut best_key: (u32, u32, u16) = (0, 0, 0);
    let mut i: usize = 0;
    while i < ranges.len()
        invariant
            i <= ranges.len(),
            forall|j: int| 0 <= j < ranges.len() ==> (#[trigger] ranges@[j]).min_sample_rate <= ranges@[j].max_sample_rate,
            best is None ==> forall|j: int| 0 <= j < i ==> !usable(#[trigger] ranges@[j]),
            best matches Some(k) ==> {
                &&& k < i
                &&& usable(ranges@[k as int])
                &&& config_penalty(ranges@[k as int], target) == (best_key.0 as int, best_key.1 as int, best_key.2 as int)
                &&& forall|j: int| 0 <= j < i && usable(#[trigger] ranges@[j]) ==>
                    !penalty_less(config_penalty(ranges@[j], target), config_penalty(ranges@[k as int], target))
                &&& forall|j: int| 0 <= j < k && usable(#[trigger] ranges@[j]) ==>
                    penalty_less(config_penalty(ranges@[k as int], target), config_penalty(ranges@[j], target))
            },
        decreases ranges.len() - i,
    {
        let range = &ranges[i];
        if let Some(rank) = format_rank(range.format) {
            let rate = clamp_rate(range, target);
            let rate_penalty = if rate >= target { rate - target } else { target - rate };
            let key = (rate_penalty, rank, range.channels);
            let better = match best {
                None => true,
                Some(_) => key.0 < best_key.0 || (key.0 == best_key.0 && (key.1 < best_key.1 || (key.1 == best_key.1
                    && key.2 < best_key.2))),
            };
            if better {
                best = Some(i);
                best_key = key;
            }
        }
        i += 1;
    }
    match best {
        Some(k) => Some((k, clamp_rate(&ranges[k], target))),
        None => None,
    }
}

} // verus!
