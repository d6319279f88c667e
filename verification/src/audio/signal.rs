//! Test signal generation: the deterministic noise source and the layout of
//! the burst track the user plays through the car.
//!
//! The pink-noise filter itself works on floating point and lives with the
//! application; everything here is exact integer or sample-placement logic,
//! generic over the sample type.

use vstd::prelude::*;

verus! {

/// Seed used in place of zero, which would leave the generator stuck.
pub const ZERO_SEED_REPLACEMENT: u64 = 0x9E37_79B9_7F4A_7C15;

/// Multiplier of the xorshift64* output scrambler.
pub const SCRAMBLE: u64 = 0x2545_F491_4F6C_DD1D;

/// One xorshift64 state transition.
pub open spec fn xorshift_step(x: u64) -> u64 {
    let a = x ^ (x >> 12u64);
    let b = a ^ (a << 25u64);
    b ^ (b >> 27u64)
}

/// The 24-bit output drawn from a (new) state: the top 24 bits of the state
/// times the scrambler, modulo 2^64.
pub open spec fn xorshift_output(x: u64) -> u32 {
    (vstd::wrapping::u64_specs::wrapping_mul(x, SCRAMBLE) >> 40u64) as u32
}

/// The state a generator seeded with `seed` starts in.
pub open spec fn initial_state(seed: u64) -> u64 {
    if seed == 0 {
        ZERO_SEED_REPLACEMENT
    } else {
        seed
    }
}

/// Deterministic white noise source (xorshift64*), so that measurements are
/// reproducible and every burst gets bit-for-bit the same signal.
pub struct Xorshift64 {
    state: u64,
}

impl View for Xorshift64 {
    type V = u64;

    closed spec fn view(&self) -> u64 {
        self.state
    }
}

impl Xorshift64 {
    #[verifier::type_invariant]
    spec fn state_nonzero(self) -> bool {
        self.state != 0
    }

    pub fn new(seed: u64) -> (r: Self)
        ensures
            r@ == initial_state(seed),
            r@ != 0,
    {
        Xorshift64 {
            state: if seed == 0 {
                ZERO_SEED_REPLACEMENT
            } else {
                seed
            },
        }
    }

    /// Advances the state and returns 24 uniformly distributed bits; the
    /// caller maps them onto `[-1, 1)` as `bits / 2^23 - 1`.
    pub fn next_bits(&mut self) -> (r: u32)
        ensures
            final(self)@ == xorshift_step(old(self)@),
            r == xorshift_output(final(self)@),
            final(self)@ == xorshift64_12_25_27(old(self)@),
            r as int == ((final(self)@ as int) * 0x2545_F491_4F6C_DD1D) % 0x1_0000_0000_0000_0000 / 0x100_0000_0000,
            r < 0x100_0000,
            final(self)@ != 0,
    {
        proof {
            use_type_invariant(&*self);
            lemma_step_keeps_state_nonzero(self.state);
            lemma_step_is_xorshift64(self.state);
            lemma_output_is_scrambled_top_bits(xorshift_step(self.state));
        }
        let mut x = self.state;
        x ^= x >> 12;
        x ^= x << 25;
        x ^= x >> 27;
        self.state = x;
        let v = x.wrapping_mul(SCRAMBLE);
        proof {
            assert(v >> 40u64 < 0x100_0000u64) by (bit_vector);
        }
        (v >> 40) as u32
    }
}

/// The xorshift64 transition in arithmetic terms, with the shift triple
/// (12, 25, 27): `x` is mixed with `x` divided by 2^12, the result with itself
/// times 2^25 modulo 2^64, and that with itself divided by 2^27.
pub open spec fn xorshift64_12_25_27(x: u64) -> u64 {
    let a = x ^ (x / 0x1000u64);
    let b = a ^ (((a as int) * 0x200_0000) % 0x1_0000_0000_0000_0000) as u64;
    b ^ (b / 0x800_0000u64)
}

/// The generator steps as xorshift64 with the shifts (12, 25, 27) that
/// xorshift64* prescribes, for every state.
pub proof fn lemma_step_is_xorshift64(x: u64)
    ensures
        xorshift_step(x) == xorshift64_12_25_27(x),
{
    let a = x ^ (x >> 12u64);
    let b = a ^ (a << 25u64);
    assert(x >> 12u64 == x / 0x1000u64) by (bit_vector);
    assert(a << 25u64 == ((a * 0x200_0000u64) % 0x1_0000_0000_0000_0000) as u64) by (bit_vector);
    assert(b >> 27u64 == b / 0x800_0000u64) by (bit_vector);
}

/// The output drawn from a state is the top 24 bits of the state times the
/// xorshift64* multiplier, modulo 2^64.
pub proof fn lemma_output_is_scrambled_top_bits(x: u64)
    ensures
        xorshift_output(x) as int == ((x as int) * 0x2545_F491_4F6C_DD1D) % 0x1_0000_0000_0000_0000 / 0x100_0000_0000,
{
    let v = vstd::wrapping::u64_specs::wrapping_mul(x, SCRAMBLE);
    assert(v == ((x as nat * SCRAMBLE as nat) % 0x1_0000_0000_0000_0000nat) as u64);
    assert(v >> 40u64 == v / 0x100_0000_0000u64) by (bit_vector);
    assert(v >> 40u64 < 0x100_0000u64) by (bit_vector);
}

/// The first draws of a generator seeded with 1 are those of the reference
/// xorshift64* sequence.
pub proof fn lemma_reference_draws()
    ensures
        xorshift_step(1) == 0x200_0001,
        xorshift_step(0x200_0001) == 0x4_0040_0080_2801,
        xorshift_step(0x4_0040_0080_2801) == 0xd_0040_0320_2803,
        xorshift_output(0x200_0001) == 4711630,
        xorshift_output(0x4_0040_0080_2801) == 11259814,
        xorshift_output(0xd_0040_0320_2803) == 12177677,
{
    lemma_step_is_xorshift64(1);
    lemma_step_is_xorshift64(0x200_0001);
    lemma_step_is_xorshift64(0x4_0040_0080_2801);
    assert(xorshift64_12_25_27(1) == 0x200_0001) by (bit_vector);
    assert(xorshift64_12_25_27(0x200_0001) == 0x4_0040_0080_2801) by (bit_vector);
    assert(xorshift64_12_25_27(0x4_0040_0080_2801) == 0xd_0040_0320_2803) by (bit_vector);
    lemma_output_is_scrambled_top_bits(0x200_0001);
    lemma_output_is_scrambled_top_bits(0x4_0040_0080_2801);
    lemma_output_is_scrambled_top_bits(0xd_0040_0320_2803);
}

/// The generator never reaches the all-zero state, from which xorshift could
/// not leave: a non-zero state steps to a non-zero state.
pub proof fn lemma_step_keeps_state_nonzero(x: u64)
    requires
        x != 0,
    ensures
        xorshift_step(x) != 0,
{
    let a = x ^ (x >> 12u64);
    let b = a ^ (a << 25u64);
    assert(x != 0 ==> x ^ (x >> 12u64) != 0) by (bit_vector);
    assert(a != 0 ==> a ^ (a << 25u64) != 0) by (bit_vector);
    assert(b != 0 ==> b ^ (b >> 27u64) != 0) by (bit_vector);
}


/// Which output channel a burst is placed in.
#[derive(Debug, Clone, Copy, PartialEq, Eq, Structural)]
pub enum Channel {
    Left,
    Right,
    /// Both channels at once, for measurements where the system decides
    /// which speakers play.
    Both,
}

/// Position of a single channel inside an interleaved stereo frame.
pub open spec fn channel_slot(ch: Channel) -> int {
    match ch {
        Channel::Left => 0,
        Channel::Right => 1,
        Channel::Both => 0,
    }
}

/// Whether a burst placed into `ch` sounds in stereo slot `slot` (0 or 1).
pub open spec fn carries(ch: Channel, slot: int) -> bool {
    match ch {
        Channel::Left => slot == 0,
        Channel::Right => slot == 1,
        Channel::Both => true,
    }
}

impl Channel {
    /// Position of a single channel inside an interleaved stereo frame.
    pub fn index(self) -> (r: usize)
        requires
            self != Channel::Both,
        ensures
            r == channel_slot(self),
    {
        match self {
            Channel::Left => 0,
            Channel::Right => 1,
            Channel::Both => 0,
        }
    }

    /// Whether a burst placed into this channel sounds in stereo slot `slot`.
    pub fn carries(self, slot: usize) -> (r: bool)
        ensures
            r == carries(self, slot as int),
    {
        match self {
            Channel::Left => slot == 0,
            Channel::Right => slot == 1,
            Channel::Both => true,
        }
    }

    pub fn label(self) -> (r: &'static str)
        ensures
            r@ == (match self {
                Channel::Left => "left"@,
                Channel::Right => "right"@,
                Channel::Both => "both"@,
            }),
    {
        match self {
            Channel::Left => "left",
            Channel::Right => "right",
            Channel::Both => "both",
        }
    }
}

/// `frames` stereo frames of silence, interleaved.
pub open spec fn silent_frames<T>(silence: T, frames: nat) -> Seq<T> {
    Seq::new(2 * frames, |i: int| silence)
}

/// A mono burst placed into an interleaved stereo stream: in the slots the
/// channel carries, silence in the other.
pub open spec fn placed<T>(burst: Seq<T>, silence: T, ch: Channel) -> Seq<T> {
    Seq::new(2 * burst.len(), |i: int| if carries(ch, i % 2) { burst[i / 2] } else { silence })
}

/// One burst per entry of `order`, separated by `gap` silent frames.
pub open spec fn burst_sections<T>(burst: Seq<T>, silence: T, gap: nat, order: Seq<Channel>) -> Seq<T>
    decreases order.len(),
{
    if order.len() == 0 {
        seq![]
    } else if order.len() == 1 {
        placed(burst, silence, order[0])
    } else {
        burst_sections(burst, silence, gap, order.drop_last()) + silent_frames(silence, gap) + placed(
            burst,
            silence,
            order.last(),
        )
    }
}

/// The stereo track: `lead` silent frames, the bursts, and `gap` silent
/// frames at the end so the analysis still sees a gap after the last burst.
pub open spec fn burst_track<T>(burst: Seq<T>, silence: T, lead: nat, gap: nat, order: Seq<Channel>) -> Seq<T> {
    silent_frames(silence, lead) + burst_sections(burst, silence, gap, order) + silent_frames(silence, gap)
}

/// Appends `frames` stereo frames of silence.
fn push_silence<T: Copy>(track: &mut Vec<T>, silence: T, frames: usize)
    ensures
        final(track)@ == old(track)@ + silent_frames(silence, frames as nat),
{
    let ghost start = track@;
    let mut k: usize = 0;
    while k < frames
        invariant
            k <= frames,
            track@ == start + silent_frames(silence, k as nat),
        decreases frames - k,
    {
        track.push(silence);
        track.push(silence);
        k += 1;
        assert(track@ =~= start + silent_frames(silence, k as nat));
    }
}

/// Appends `burst` placed into channel `ch`.
fn push_placed<T: Copy>(track: &mut Vec<T>, burst: &Vec<T>, silence: T, ch: Channel)
    ensures
        final(track)@ == old(track)@ + placed(burst@, silence, ch),
{
    let ghost start = track@;
    let in_left = ch.carries(0);
    let in_right = ch.carries(1);
    let mut j: usize = 0;
    while j < burst.len()
        invariant
            j <= burst.len(),
            in_left == carries(ch, 0),
            in_right == carries(ch, 1),
            track@ == start + placed(burst@.subrange(0, j as int), silence, ch),
        decreases burst.len() - j,
    {
        let s = burst[j];
        track.push(if in_left { s } else { silence });
        track.push(if in_right { s } else { silence });
        j += 1;
        assert(track@ =~= start + placed(burst@.subrange(0, j as int), silence, ch));
    }
    assert(burst@.subrange(0, burst.len() as int) =~= burst@);
}

/// Builds the stereo track the user plays through the car: `lead_frames` of
/// silence, then one copy of `burst` per entry in `order`, each in its own
/// channel and separated by `gap_frames` of silence, then `gap_frames` more.
///
/// Every burst is the same buffer, so the sides are compared like with like
/// rather than against two different noise realisations.
pub fn layout_track<T: Copy>(
    burst: &Vec<T>,
    silence: T,
    lead_frames: usize,
    gap_frames: usize,
    order: &Vec<Channel>,
) -> (track: Vec<T>)
    ensures
        track@ == burst_track(burst@, silence, lead_frames as nat, gap_frames as nat, order@),
{
    let mut track: Vec<T> = Vec::new();
    push_silence(&mut track, silence, lead_frames);
    let ghost lead = track@;
    let mut i: usize = 0;
    while i < order.len()
        invariant
            i <= order.len(),
            lead == silent_frames(silence, lead_frames as nat),
            track@ == lead + burst_sections(burst@, silence, gap_frames as nat, order@.subrange(0, i as int)),
        decreases order.len() - i,
    {
        let ghost before = track@;
        if i > 0 {
            push_silence(&mut track, silence, gap_frames);
        }
        push_placed(&mut track, burst, silence, order[i]);
        proof {
            let sub = order@.subrange(0, i + 1);
            if i > 0 {
                assert(sub.drop_last() =~= order@.subrange(0, i as int));
            }
            assert(sub.last() == order@[i as int]);
            assert(track@ =~= lead + burst_sections(burst@, silence, gap_frames as nat, sub));
        }
        i += 1;
    }
    push_silence(&mut track, silence, gap_frames);
    proof {
        assert(order@.subrange(0, order.len() as int) =~= order@);
    }
    track
}


/// Frame at which burst number `k` of the track starts.
pub open spec fn burst_start_frame(lead: nat, gap: nat, burst_len: nat, k: int) -> int {
    lead + k * (burst_len + gap)
}

proof fn lemma_sections_len<T>(burst: Seq<T>, silence: T, gap: nat, order: Seq<Channel>)
    ensures
        burst_sections(burst, silence, gap, order).len() == if order.len() == 0 {
            0
        } else {
            2 * (order.len() * burst.len() + (order.len() - 1) * gap)
        },
    decreases order.len(),
{
    if order.len() > 1 {
        lemma_sections_len(burst, silence, gap, order.drop_last());
        let n = order.len() as int;
        let b = burst.len() as int;
        let g = gap as int;
        assert(2 * ((n - 1) * b + (n - 2) * g) + 2 * g + 2 * b == 2 * (n * b + (n - 1) * g)) by (nonlinear_arith);
    } else if order.len() == 1 {
        let b = burst.len() as int;
        let g = gap as int;
        assert(2 * (1 * b + 0 * g) == 2 * b) by (nonlinear_arith);
    }
}

/// The sections of a prefix of `order` are a prefix of the sections of `order`.
proof fn lemma_sections_prefix<T>(burst: Seq<T>, silence: T, gap: nat, order: Seq<Channel>, m: int)
    requires
        0 <= m <= order.len(),
    ensures
        forall|x: int| 0 <= x < burst_sections(burst, silence, gap, order.subrange(0, m)).len() ==>
            #[trigger] burst_sections(burst, silence, gap, order)[x] == burst_sections(burst, silence, gap, order.subrange(0, m))[x],
        burst_sections(burst, silence, gap, order.subrange(0, m)).len() <= burst_sections(burst, silence, gap, order).len(),
    decreases order.len(),
{
    if m == order.len() {
        assert(order.subrange(0, m) =~= order);
    } else {
        let shorter = order.drop_last();
        lemma_sections_prefix(burst, silence, gap, shorter, m);
        assert(shorter.subrange(0, m) =~= order.subrange(0, m));
        if order.len() == 1 {
            assert(order.subrange(0, m) =~= Seq::<Channel>::empty());
        }
    }
}

/// The track has `lead` silent frames, one burst per entry of `order` with
/// `gap` silent frames between consecutive bursts, and `gap` trailing silent
/// frames; two interleaved samples per frame.
pub proof fn lemma_track_length<T>(burst: Seq<T>, silence: T, lead: nat, gap: nat, order: Seq<Channel>)
    ensures
        burst_track(burst, silence, lead, gap, order).len() == if order.len() == 0 {
            2 * (lead + gap)
        } else {
            2 * (lead + order.len() * (burst.len() + gap))
        },
        forall|x: int| burst_track(burst, silence, lead, gap, order).len() - 2 * gap <= x < burst_track(burst, silence, lead, gap, order).len()
            ==> #[trigger] burst_track(burst, silence, lead, gap, order)[x] == silence,
{
    lemma_sections_len(burst, silence, gap, order);
    let n = order.len() as int;
    let b = burst.len() as int;
    let g = gap as int;
    assert(n * b + (n - 1) * g + g == n * (b + g)) by (nonlinear_arith);
}

/// Burst number `k` of the track starts at frame
/// `lead + k * (burst.len() + gap)` and carries the burst sample for sample
/// in the slots its channel carries; any other slot is silent meanwhile, and
/// so are both slots during the gap before it (or the lead-in, for the first
/// burst). Every burst is thus the same signal, in its own channel only.
pub proof fn lemma_burst_in_place<T>(burst: Seq<T>, silence: T, lead: nat, gap: nat, order: Seq<Channel>, k: int)
    requires
        0 <= k < order.len(),
    ensures
        ({
            let track = burst_track(burst, silence, lead, gap, order);
            let start = burst_start_frame(lead, gap, burst.len(), k);
            &&& forall|j: int, slot: int| 0 <= j < burst.len() && 0 <= slot < 2 ==>
                #[trigger] track[2 * (start + j) + slot] == if carries(order[k], slot) { burst[j] } else { silence }
            &&& forall|f: int| start - (if k == 0 { lead as int } else { gap as int }) <= f < start
                ==> #[trigger] track[2 * f] == silence && track[2 * f + 1] == silence
        }),
{
    let track = burst_track(burst, silence, lead, gap, order);
    let sections = burst_sections(burst, silence, gap, order);
    let prefix = order.subrange(0, k + 1);
    let upto = burst_sections(burst, silence, gap, prefix);
    lemma_sections_prefix(burst, silence, gap, order, k + 1);
    lemma_sections_len(burst, silence, gap, prefix);
    let b = burst.len() as int;
    let g = gap as int;
    let start = burst_start_frame(lead, gap, burst.len(), k);
    let p = placed(burst, silence, order[k]);
    assert(prefix.last() == order[k]);
    // offset of the burst inside the sections
    let off = 2 * (k * (b + g));
    if k == 0 {
        assert(upto == p);
    } else {
        assert(prefix.drop_last() =~= order.subrange(0, k));
        lemma_sections_len(burst, silence, gap, order.subrange(0, k));
        assert(2 * (k * b + (k - 1) * g) + 2 * g == off) by (nonlinear_arith)
            requires off == 2 * (k * (b + g));
        assert(upto == burst_sections(burst, silence, gap, order.subrange(0, k)) + silent_frames(silence, gap) + p);
    }
    assert(2 * ((k + 1) * b + k * g) == off + 2 * b) by (nonlinear_arith)
        requires off == 2 * (k * (b + g));
    assert forall|j: int, slot: int| 0 <= j < b && 0 <= slot < 2 implies
        #[trigger] track[2 * (start + j) + slot] == if carries(order[k], slot) { burst[j] } else { silence } by {
        let x = off + 2 * j + slot;
        assert(2 * (start + j) + slot == 2 * lead + x);
        assert(upto[x] == p[2 * j + slot]);
        assert(sections[x] == upto[x]);
        assert((2 * j + slot) % 2 == slot && (2 * j + slot) / 2 == j);
    }
    assert forall|f: int| start - (if k == 0 { lead as int } else { gap as int }) <= f < start
        implies #[trigger] track[2 * f] == silence && track[2 * f + 1] == silence by {
        if k == 0 {
            assert(track[2 * f] == silent_frames(silence, lead)[2 * f]);
            assert(track[2 * f + 1] == silent_frames(silence, lead)[2 * f + 1]);
        } else {
            let x = 2 * f - 2 * lead;
            assert(off - 2 * g <= x < off);
            assert(sections[x] == upto[x]);
            assert(sections[x + 1] == upto[x + 1]);
        }
    }
}

} // verus!
