//! Decisions around the GPU: surface settings, buffer growth, timestamp
//! readback, and what to do when a frame cannot be presented.

use crate::mesh::MeshBuilder;
use crate::number::Sample;
use crate::spline::Point;
use vstd::prelude::*;
use vstd::string::*;

verus! {

// -- bytes ------------------------------------------------------------------
/// Number written in `size` bytes from `at` on, least significant first.
pub open spec fn little_end(bytes: Seq<u8>, at: int, size: nat) -> int
    decreases size,
{
    if size == 0 {
        0
    } else {
        bytes[at] + 256 * little_end(bytes, at + 1, (size - 1) as nat)
    }
}

/// Number written in `size` bytes from `at` on, most significant first.
pub open spec fn big_end(bytes: Seq<u8>, at: int, size: nat) -> int
    decreases size,
{
    if size == 0 {
        0
    } else {
        256 * big_end(bytes, at, (size - 1) as nat) + bytes[at + size - 1]
    }
}

/// Number written in `size` bytes from `at` on.
pub open spec fn written(bytes: Seq<u8>, at: int, size: nat, little: bool) -> int {
    if little {
        little_end(bytes, at, size)
    } else {
        big_end(bytes, at, size)
    }
}

/// `bytes` are the 32-bit `words`, one after the other, in one byte order.
pub open spec fn writes_u32(bytes: Seq<u8>, words: Seq<u32>, little: bool) -> bool {
    &&& bytes.len() == 4 * words.len()
    &&& forall|i: int|
        0 <= i < words.len() ==> #[trigger] words[i] == written(bytes, 4 * i, 4, little)
}

/// `bytes` are the 64-bit `words`, one after the other, in one byte order.
pub open spec fn writes_u64(bytes: Seq<u8>, words: Seq<u64>, little: bool) -> bool {
    &&& bytes.len() == 8 * words.len()
    &&& forall|i: int|
        0 <= i < words.len() ==> #[trigger] words[i] == written(bytes, 8 * i, 8, little)
}

/// Why a readback could not be taken as timestamps.
#[verifier::external_type_specification]
#[verifier::external_body]
pub struct ExPodCastError(bytemuck::PodCastError);

/// Calls `bytemuck::try_pod_read_unaligned` for two 64-bit words: the bytes read
/// as words in the machine's byte order, which is one of the two. It fails on
/// any other number of bytes than sixteen and on nothing else; the bytes may
/// start anywhere.
#[verifier::external_body]
fn words_of(bytes: &[u8]) -> (r: Result<[u64; 2], bytemuck::PodCastError>)
    ensures
        r is Ok <==> bytes@.len() == 16,
        r is Ok ==> writes_u64(bytes@, r->Ok_0@, true) || writes_u64(bytes@, r->Ok_0@, false),
{
    bytemuck::try_pod_read_unaligned::<[u64; 2]>(bytes)
}

/// Calls `bytemuck::cast_slice` from 32-bit words to bytes: the words in the
/// machine's byte order, which is one of the two. Bytes may start anywhere and
/// any number of words is a whole number of bytes, so this never fails.
#[verifier::external_body]
fn bytes_of_words(words: &[u32]) -> (r: &[u8])
    ensures
        writes_u32(r@, words@, true) || writes_u32(r@, words@, false),
{
    bytemuck::cast_slice::<u32, u8>(words)
}

impl<F: Fn(i64) -> Point> MeshBuilder<F> {
    /// The indices as the bytes to upload, in the machine's byte order.
    pub fn index_bytes(&self) -> (r: &[u8])
        ensures
            writes_u32(r@, self.indices@, true) || writes_u32(r@, self.indices@, false),
    {
        bytes_of_words(self.indices())
    }
}

// -- GPU timer --------------------------------------------------------------
/// Bytes of a readback: two 64-bit timestamps.
pub const READBACK_BYTES: u64 = 16;

/// Duration between two timestamps in milliseconds, given the nanoseconds per
/// tick: none when they run backwards, and limited to what fits.
pub open spec fn ticks_ms(first: int, last: int, period: int) -> int {
    if last <= first {
        0
    } else if (last - first) * period / 1_000_000 > i64::MAX {
        i64::MAX as int
    } else {
        (last - first) * period / 1_000_000
    }
}

/// Duration between two timestamps, in milliseconds.
pub fn elapsed_ms(first: u64, last: u64, period: i64) -> (ms: i64)
    requires
        period >= 0,
    ensures
        ms == ticks_ms(first as int, last as int, period as int),
        ms >= 0,
{
    if last <= first {
        return 0;
    }
    let delta: u64 = last - first;
    assert(0 <= delta * period <= 0xFFFF_FFFF_FFFF_FFFF * 0x7FFF_FFFF_FFFF_FFFF)
        by (nonlinear_arith)
        requires
            0 <= delta <= 0xFFFF_FFFF_FFFF_FFFF,
            0 <= period <= 0x7FFF_FFFF_FFFF_FFFF,
    ;
    let wide: u128 = delta as u128 * period as u128 / 1_000_000;
    if wide > i64::MAX as u128 {
        i64::MAX
    } else {
        wide as i64
    }
}

/// Longer intervals between timestamps take longer.
pub proof fn law_ticks_monotone(first: int, mid: int, last: int, period: int)
    requires
        first <= mid <= last,
        period >= 0,
    ensures
        0 <= ticks_ms(first, mid, period) <= ticks_ms(first, last, period),
{
    let a = (mid - first) * period;
    let b = (last - first) * period;
    assert(0 <= a <= b) by (nonlinear_arith)
        requires
            first <= mid <= last,
            period >= 0,
            a == (mid - first) * period,
            b == (last - first) * period,
    ;
    assert(0 <= a / 1_000_000 <= b / 1_000_000);
}

/// Duration a readback of two timestamps holds. `None` when the bytes are not
/// two timestamps.
pub fn readback_ms(bytes: &[u8], period: i64) -> (ms: Option<i64>)
    requires
        period >= 0,
    ensures
        ms is Some <==> bytes@.len() == READBACK_BYTES,
        ms is Some ==> exists|little: bool|
            ms->0 == ticks_ms(
                #[trigger] written(bytes@, 0, 8, little),
                written(bytes@, 8, 8, little),
                period as int,
            ),
{
    match words_of(bytes) {
        Ok(ticks) => {
            let ms: i64 = elapsed_ms(ticks[0], ticks[1], period);
            proof {
                let little = writes_u64(bytes@, ticks@, true);
                assert(ticks@[0] == written(bytes@, 0, 8, little));
                assert(ticks@[1] == written(bytes@, 8, 8, little));
            }
            Some(ms)
        },
        Err(_) => None,
    }
}

/// Wall-clock cost of the render pass, read back from timestamp queries.
///
/// Timestamps are resolved into a mappable buffer and read a frame or two
/// later: waiting for the map would stall the pipeline and spoil the very number
/// that is being measured. One query is in flight at a time.
pub struct GpuTimer {
    /// Nanoseconds per timestamp tick.
    pub period: i64,
    pub in_flight: bool,
}

impl GpuTimer {
    pub open spec fn wf(&self) -> bool {
        self.period >= 0
    }

    /// An idle timer for a tick period in nanoseconds; one that is no positive
    /// number counts as zero.
    pub fn new(period: Sample) -> (t: Self)
        ensures
            t.wf(),
            !t.in_flight,
            t.period == if !period.finite() || period.fixed() < 0 {
                0
            } else {
                period.fixed()
            },
    {
        let p: i64 = if period.is_finite() {
            period.to_fixed()
        } else {
            0
        };
        GpuTimer {
            period: if p < 0 {
                0
            } else {
                p
            },
            in_flight: false,
        }
    }

    /// Whether this frame's timestamps are to be resolved and copied. Copying
    /// into a mapped buffer is not allowed, so not while a read is in flight.
    pub fn resolves(&self) -> (r: bool)
        ensures
            r == !self.in_flight,
    {
        !self.in_flight
    }

    /// Whether to start mapping the readback after a submit; if so, it is now in
    /// flight.
    pub fn map(&mut self) -> (start: bool)
        requires
            old(self).wf(),
        ensures
            final(self).wf(),
            start == !old(self).in_flight,
            *final(self) == (GpuTimer { in_flight: true, ..*old(self) }),
    {
        let start: bool = !self.in_flight;
        self.in_flight = true;
        start
    }

    /// Take a completed readback: `mapped` is there once the map has landed.
    /// Returns the duration of the pass in milliseconds; nothing, and without
    /// waiting, while the map is outstanding.
    pub fn collect(&mut self, mapped: Option<&[u8]>) -> (ms: Option<i64>)
        requires
            old(self).wf(),
        ensures
            final(self).wf(),
            final(self).period == old(self).period,
            final(self).in_flight == (old(self).in_flight && mapped is None),
            ms is Some <==> old(self).in_flight && mapped is Some && mapped->0@.len()
                == READBACK_BYTES,
            ms is Some ==> exists|little: bool|
                ms->0 == ticks_ms(
                    #[trigger] written(mapped->0@, 0, 8, little),
                    written(mapped->0@, 8, 8, little),
                    old(self).period as int,
                ),
    {
        if !self.in_flight {
            return None;
        }
        match mapped {
            None => None,
            Some(bytes) => {
                self.in_flight = false;
                readback_ms(bytes, self.period)
            },
        }
    }
}

/// What happens to a timer.
pub enum TimerEvent {
    /// A submit, after which the readback may be mapped.
    Submit,
    /// A poll, with whether the map had landed.
    Collect(bool),
}

/// Whether a read is in flight after the first `n` events, from an idle timer.
pub open spec fn flying(events: Seq<TimerEvent>, n: int) -> bool
    decreases n,
{
    if n <= 0 {
        false
    } else {
        match events[n - 1] {
            TimerEvent::Submit => true,
            TimerEvent::Collect(landed) => flying(events, n - 1) && !landed,
        }
    }
}

/// Maps started by the first `n` events.
pub open spec fn started(events: Seq<TimerEvent>, n: int) -> int
    decreases n,
{
    if n <= 0 {
        0
    } else {
        started(events, n - 1) + if events[n - 1] is Submit && !flying(events, n - 1) {
            1int
        } else {
            0
        }
    }
}

/// Readbacks drained by the first `n` events.
pub open spec fn drained(events: Seq<TimerEvent>, n: int) -> int
    decreases n,
{
    if n <= 0 {
        0
    } else {
        drained(events, n - 1) + if events[n - 1] == TimerEvent::Collect(true) && flying(
            events,
            n - 1,
        ) {
            1int
        } else {
            0
        }
    }
}

/// At most one query is in flight, whatever happens: every map that was started
/// has been drained, except for the one in flight.
pub proof fn law_one_query_in_flight(events: Seq<TimerEvent>, n: int)
    requires
        0 <= n <= events.len(),
    ensures
        started(events, n) - drained(events, n) == if flying(events, n) {
            1int
        } else {
            0
        },
    decreases n,
{
    if n > 0 {
        law_one_query_in_flight(events, n - 1);
    }
}

// -- buffers ----------------------------------------------------------------
/// `p` doubled until it is at least `need`.
pub open spec fn doubled(p: int, need: int) -> int
    decreases
            (if p >= need {
                0
            } else {
                need - p
            }),
{
    if p <= 0 || p >= need {
        p
    } else {
        doubled(2 * p, need)
    }
}

/// Smallest power of two that is at least `need`.
pub open spec fn power_for(need: int) -> int {
    doubled(1, need)
}

/// A power of two times `p`.
pub open spec fn doubling_of(p: int, q: int) -> bool
    decreases q,
{
    q == p || (q > p >= 1 && q % 2 == 0 && doubling_of(p, q / 2))
}

proof fn lemma_doubling_step(p: int, q: int)
    requires
        p > 0,
        doubling_of(2 * p, q),
    ensures
        doubling_of(p, q),
    decreases q,
{
    if q == 2 * p {
        assert(doubling_of(p, p));
        assert(q / 2 == p);
    } else {
        assert(q > 2 * p && q % 2 == 0 && doubling_of(2 * p, q / 2));
        lemma_doubling_step(p, q / 2);
    }
}

proof fn lemma_doubled(p: int, need: int)
    requires
        p > 0,
        p <= 1 || p < 2 * need,
    ensures
        doubled(p, need) >= need,
        doubled(p, need) >= p,
        need >= 1 && p == 1 || p < need ==> doubled(p, need) < 2 * need,
        doubling_of(p, doubled(p, need)),
    decreases
            (if p >= need {
                0
            } else {
                need - p
            }),
{
    if p < need {
        lemma_doubled(2 * p, need);
        lemma_doubling_step(p, doubled(p, need));
        if 2 * p >= need {
            assert(doubled(2 * p, need) == 2 * p);
        }
    }
}

/// A grown buffer is large enough, less than twice as large as needed, and its
/// size is a power of two.
pub proof fn law_power_for(need: int)
    requires
        need >= 1,
    ensures
        need <= power_for(need) < 2 * need,
        doubling_of(1, power_for(need)),
{
    lemma_doubled(1, need);
}

fn power(need: u64) -> (p: u64)
    requires
        need <= 0x4000_0000_0000_0000,
    ensures
        p == power_for(need as int),
{
    let mut p: u64 = 1;
    while p < need
        invariant
            1 <= p,
            p <= 1 || p < 2 * need,
            need <= 0x4000_0000_0000_0000,
            doubled(p as int, need as int) == power_for(need as int),
        decreases
                (if p >= need {
                    0
                } else {
                    need - p
                }),
    {
        p = 2 * p;
    }
    p
}

/// How many vertices and indices the mesh buffers have room for.
pub struct Capacity {
    pub verts: u64,
    pub indices: u64,
}

impl Default for Capacity {
    /// Room for most frames.
    fn default() -> (c: Self)
        ensures
            c.verts == 65_536,
            c.indices == 262_144,
    {
        Capacity { verts: 65_536, indices: 262_144 }
    }
}

/// Room after making sure of `need`.
pub open spec fn room(have: int, need: int) -> int {
    if need > have {
        power_for(need)
    } else {
        have
    }
}

impl Capacity {
    /// Grow on demand, so that no visual can overflow the buffers; says which of
    /// the two have to be made anew. Curve resampling makes vertex counts depend
    /// on the data, so this is needed, not just careful.
    pub fn ensure(&mut self, verts: usize, indices: usize) -> (grown: (bool, bool))
        requires
            verts <= 0x4000_0000_0000_0000,
            indices <= 0x4000_0000_0000_0000,
        ensures
            final(self).verts == room(old(self).verts as int, verts as int),
            final(self).indices == room(old(self).indices as int, indices as int),
            final(self).verts >= verts,
            final(self).indices >= indices,
            final(self).verts >= old(self).verts,
            final(self).indices >= old(self).indices,
            grown.0 == (verts > old(self).verts),
            grown.1 == (indices > old(self).indices),
    {
        let more_verts: bool = verts as u64 > self.verts;
        let more_indices: bool = indices as u64 > self.indices;
        if more_verts {
            proof {
                law_power_for(verts as int);
            }
            self.verts = power(verts as u64);
        }
        if more_indices {
            proof {
                law_power_for(indices as int);
            }
            self.indices = power(indices as u64);
        }
        (more_verts, more_indices)
    }
}

// -- surface ----------------------------------------------------------------
/// Size to configure the surface with after a resize, or nothing when either
/// side is zero, as on a minimized window.
pub fn resize(width: u32, height: u32) -> (size: Option<(u32, u32)>)
    ensures
        size == if width == 0 || height == 0 {
            None
        } else {
            Some((width, height))
        },
{
    if width == 0 || height == 0 {
        None
    } else {
        Some((width, height))
    }
}

/// Size to configure a new surface with: each side at least a pixel.
pub fn first_size(width: u32, height: u32) -> (size: (u32, u32))
    ensures
        size.0 == if width == 0 {
            1u32
        } else {
            width
        },
        size.1 == if height == 0 {
            1u32
        } else {
            height
        },
{
    (
        if width == 0 {
            1
        } else {
            width
        },
        if height == 0 {
            1
        } else {
            height
        },
    )
}

/// Sample count to render with: the one asked for where the format supports it,
/// else one.
pub fn sample_count(wanted: u32, supported: bool) -> (n: u32)
    ensures
        n == if wanted > 1 && supported {
            wanted
        } else {
            1u32
        },
{
    if wanted > 1 && supported {
        wanted
    } else {
        1
    }
}

/// Whether a multisampled target is needed.
pub fn needs_msaa(sample_count: u32) -> (r: bool)
    ensures
        r == (sample_count > 1),
{
    sample_count > 1
}

/// The surface format to use, given which of those offered are sRGB: the first
/// that is, else the first.
pub fn pick_format(srgb: &[bool]) -> (pick: usize)
    requires
        srgb@.len() > 0,
    ensures
        pick < srgb@.len(),
        srgb@[pick as int] ==> forall|i: int| 0 <= i < pick ==> !#[trigger] srgb@[i],
        !srgb@[pick as int] ==> pick == 0 && forall|i: int|
            0 <= i < srgb@.len() ==> !#[trigger] srgb@[i],
{
    let mut i: usize = 0;
    while i < srgb.len()
        invariant
            i <= srgb@.len(),
            forall|k: int| 0 <= k < i ==> !#[trigger] srgb@[k],
        decreases srgb@.len() - i,
    {
        if srgb[i] {
            return i;
        }
        i = i + 1;
    }
    0
}

/// How frames are handed to the display.
#[derive(Clone, Copy, PartialEq, Eq, Structural, Debug)]
pub enum PresentMode {
    Fifo,
    FifoRelaxed,
    Mailbox,
    Immediate,
    Auto,
}

impl PresentMode {
    /// Name shown in the HUD.
    pub open spec fn name(self) -> Seq<char> {
        match self {
            PresentMode::Fifo => "FIFO"@,
            PresentMode::FifoRelaxed => "FIFOREL"@,
            PresentMode::Mailbox => "MAILBOX"@,
            PresentMode::Immediate => "IMMEDIATE"@,
            PresentMode::Auto => "AUTO"@,
        }
    }

    /// Name shown in the HUD.
    pub fn label(self) -> (t: &'static str)
        ensures
            t@ == self.name(),
    {
        match self {
            PresentMode::Fifo => "FIFO",
            PresentMode::FifoRelaxed => "FIFOREL",
            PresentMode::Mailbox => "MAILBOX",
            PresentMode::Immediate => "IMMEDIATE",
            PresentMode::Auto => "AUTO",
        }
    }
}

/// Names of the first `n` modes, with commas between.
pub open spec fn mode_list(modes: Seq<PresentMode>, n: int) -> Seq<char>
    decreases n,
{
    if n <= 0 {
        Seq::empty()
    } else if n == 1 {
        modes[0].name()
    } else {
        mode_list(modes, n - 1) + ","@ + modes[n - 1].name()
    }
}

/// Names of the modes the driver offers, with commas between.
pub fn mode_labels(modes: &[PresentMode]) -> (out: String)
    ensures
        out@ == mode_list(modes@, modes@.len() as int),
{
    let mut out: String = String::new();
    let mut i: usize = 0;
    assert(out@ =~= Seq::<char>::empty());
    while i < modes.len()
        invariant
            i <= modes@.len(),
            out@ == mode_list(modes@, i as int),
        decreases modes@.len() - i,
    {
        if i > 0 {
            out.append(",");
        }
        out.append(modes[i].label());
        i = i + 1;
        assert(out@ =~= mode_list(modes@, i as int));
    }
    out
}

/// Why a frame could not be presented.
#[derive(Clone, Copy, PartialEq, Eq, Structural, Debug)]
pub enum SurfaceFault {
    Timeout,
    Outdated,
    Lost,
    OutOfMemory,
}

/// What to do about it.
#[derive(Clone, Copy, PartialEq, Eq, Structural, Debug)]
pub enum Recovery {
    /// Configure the surface again at its present size.
    Reconfigure,
    Exit,
    Report,
}

/// A lost or outdated surface is configured again, running out of memory ends
/// the program, and anything else is only reported.
pub fn recover(fault: SurfaceFault) -> (r: Recovery)
    ensures
        r == match fault {
            SurfaceFault::Lost | SurfaceFault::Outdated => Recovery::Reconfigure,
            SurfaceFault::OutOfMemory => Recovery::Exit,
            SurfaceFault::Timeout => Recovery::Report,
        },
{
    match fault {
        SurfaceFault::Lost | SurfaceFault::Outdated => Recovery::Reconfigure,
        SurfaceFault::OutOfMemory => Recovery::Exit,
        SurfaceFault::Timeout => Recovery::Report,
    }
}

/// Bytes of a word count by their place: reading it little end first, each is worth
/// 256 times the one before it; reading it big end first, the one behind it.
pub proof fn law_byte_order(bytes: Seq<u8>, at: int)
    ensures
        little_end(bytes, at, 4) == bytes[at] + 256 * bytes[at + 1] + 65_536 * bytes[at + 2]
            + 16_777_216 * bytes[at + 3],
        big_end(bytes, at, 4) == 16_777_216 * bytes[at] + 65_536 * bytes[at + 1] + 256 * bytes[at
            + 2] + bytes[at + 3],
{
    reveal_with_fuel(little_end, 5);
    reveal_with_fuel(big_end, 5);
}

/// The same bytes back to front read the same the other way around.
pub proof fn law_byte_orders_mirror(bytes: Seq<u8>, size: nat)
    requires
        size <= bytes.len(),
    ensures
        little_end(bytes, 0, size) == big_end(bytes.take(size as int).reverse(), 0, size),
{
    lemma_orders_mirror(bytes, bytes.take(size as int).reverse(), 0, size, size);
}

proof fn lemma_orders_mirror(a: Seq<u8>, b: Seq<u8>, at: int, left: nat, size: nat)
    requires
        at + left == size,
        0 <= at,
        b.len() == size,
        size <= a.len(),
        forall|i: int| 0 <= i < size ==> #[trigger] b[i] == a[size - 1 - i],
    ensures
        little_end(a, at, left) == big_end(b, 0, left),
    decreases left,
{
    if left > 0 {
        lemma_orders_mirror(a, b, at + 1, (left - 1) as nat, size);
        assert(b[left - 1] == a[size - 1 - (left - 1)]);
    }
}

/// Elapsed time is the ticks between the two marks times the period, in milliseconds;
/// a clock that did not move forward shows none.
pub proof fn law_elapsed(first: int, last: int, period: int)
    requires
        period >= 0,
    ensures
        last <= first ==> ticks_ms(first, last, period) == 0,
        first <= last && ticks_ms(first, last, period) < 9_223_372_036_854_775_807 ==> 0 <= (last
            - first) * period - 1_000_000 * ticks_ms(first, last, period) < 1_000_000,
        ticks_ms(first, last, period) <= 9_223_372_036_854_775_807,
{
    if first == last {
        assert((last - first) * period == 0) by (nonlinear_arith)
            requires
                first == last,
        ;
    }
}

/// A buffer that is large enough stays; one that is not grows to the next power of
/// two that holds what is needed.
pub proof fn law_room(have: int, need: int)
    requires
        1 <= have,
    ensures
        need <= have ==> room(have, need) == have,
        need > have ==> need <= room(have, need) < 2 * need && doubling_of(1, room(have, need)),
{
    if need > have {
        law_power_for(need);
    }
}

/// The list of modes names each in its order, with a comma between.
pub proof fn law_mode_list(modes: Seq<PresentMode>, n: int)
    requires
        0 <= n < modes.len(),
    ensures
        mode_list(modes, 0).len() == 0,
        n == 0 ==> mode_list(modes, n + 1) == modes[0].name(),
        n > 0 ==> mode_list(modes, n + 1) == mode_list(modes, n) + seq![','] + modes[n].name(),
{
    reveal_strlit(",");
    assert(","@ =~= seq![',']);
}

/// A surface is resized to what the window is, unless it has no extent; the first
/// size is a pixel at least on either side.
pub proof fn law_surface_size(
    width: u32,
    height: u32,
    size: Option<(u32, u32)>,
    first: (u32, u32),
)
    requires
        call_ensures(resize, (width, height), size),
        call_ensures(first_size, (width, height), first),
    ensures
        width == 0 || height == 0 ==> size is None,
        width > 0 && height > 0 ==> size == Some((width, height)) && first == (width, height),
        width == 0 ==> first.0 == 1,
        height == 0 ==> first.1 == 1,
        width > 0 ==> first.0 == width,
        height > 0 ==> first.1 == height,
{
}

/// Many samples are taken only where they are asked for and supported.
pub proof fn law_sample_count(wanted: u32, supported: bool, n: u32, many: bool)
    requires
        call_ensures(sample_count, (wanted, supported), n),
        call_ensures(needs_msaa, (n,), many),
    ensures
        supported && wanted > 1 ==> n == wanted && many,
        !supported || wanted <= 1 ==> n == 1 && !many,
{
}

/// The surface's format is the first that is linear in light, or the first of all
/// where none is.
pub proof fn law_format(srgb: &[bool], pick: usize, i: int)
    requires
        srgb@.len() > 0,
        call_ensures(pick_format, (srgb,), pick),
        0 <= i < srgb@.len(),
        srgb@[i],
    ensures
        pick <= i,
        srgb@[pick as int],
{
}

/// A surface that was lost or outdated is set up again, and one that ran out of memory
/// ends the program; a late frame is only reported.
pub proof fn law_recovery(fault: SurfaceFault, r: Recovery)
    requires
        call_ensures(recover, (fault,), r),
    ensures
        r is Exit <==> fault is OutOfMemory,
        r is Report <==> fault is Timeout,
        r is Reconfigure <==> fault is Lost || fault is Outdated,
{
}

/// A timer ticks with the period it was given, and not at all where that is no finite
/// number or below zero.
pub proof fn law_timer_starts(period: Sample, t: GpuTimer)
    requires
        call_ensures(GpuTimer::new, (period,), t),
    ensures
        !t.in_flight,
        t.period >= 0,
        period.finite() && period.fixed() >= 0 ==> t.period == period.fixed(),
        !period.finite() ==> t.period == 0,
        period.finite() && period.fixed() < 0 ==> t.period == 0,
{
}

/// The modes are called what they are.
pub proof fn law_mode_names()
    ensures
        PresentMode::Fifo.name() == "FIFO"@,
        PresentMode::FifoRelaxed.name() == "FIFOREL"@,
        PresentMode::Mailbox.name() == "MAILBOX"@,
        PresentMode::Immediate.name() == "IMMEDIATE"@,
        PresentMode::Auto.name() == "AUTO"@,
{
}

/// Words are written one behind the other, each in its own bytes, in one order
/// throughout.
pub proof fn law_words_in_order(bytes: Seq<u8>, words: Seq<u32>, little: bool, i: int)
    requires
        writes_u32(bytes, words, little),
        0 <= i < words.len(),
    ensures
        bytes.len() == 4 * words.len(),
        little ==> words[i] == bytes[4 * i] + 256 * bytes[4 * i + 1] + 65_536 * bytes[4 * i + 2]
            + 16_777_216 * bytes[4 * i + 3],
        !little ==> words[i] == 16_777_216 * bytes[4 * i] + 65_536 * bytes[4 * i + 1] + 256
            * bytes[4 * i + 2] + bytes[4 * i + 3],
{
    law_byte_order(bytes, 4 * i);
}

} // verus!
