//! Transparent pointer-shape PDU fields, derived from the MS-RDPBCGR
//! color-pointer specification, for taking pointer ownership on clients
//! that ignore `HidePointer` (SYSPTR_NULL) and fall back to their local
//! arrow.
//!
//! A **transparent color-pointer shape** makes the client swap its local
//! cursor for one that renders nothing: with every AND-mask bit set and
//! every XOR byte zero, each covered pixel keeps its screen content.
//! [`law_transparent_shape_draws_nothing`] states just that.
//!
//! Re-send periodically rather than once: client pointer state can be
//! reset after the initial send. The PDU is small and idempotent.
//! [`ResendCounter`] implements the cadence: send immediately on the first
//! call, then every `interval`-th frame.

use std::sync::Arc;
use std::sync::atomic::{AtomicU32, Ordering};

use vstd::prelude::*;

verus! {

/// Classic monochrome-and-color cursor size every client accepts; also the
/// size the color-pointer XOR mask supports without the capability-gated
/// New Pointer Update path.
pub const TRANSPARENT_POINTER_SIZE: u16 = 32;

/// Fields of a fully transparent color-pointer shape, per MS-RDPBCGR
/// (TS_COLORPOINTERATTRIBUTE).
#[derive(Debug, Clone, PartialEq, Eq)]
pub struct TransparentPointer {
    /// Cache slot the client should store the shape under.
    pub cache_index: u16,
    /// Hotspot X, pixels from the shape's left edge.
    pub hot_x: u16,
    /// Hotspot Y, pixels from the shape's top edge.
    pub hot_y: u16,
    /// Shape width in pixels.
    pub width: u16,
    /// Shape height in pixels.
    pub height: u16,
    /// AND mask: 1 bit/pixel, MSB first, rows padded to 2 bytes. A set bit
    /// keeps the screen content.
    pub and_mask: Vec<u8>,
    /// XOR mask: 24 bpp, rows padded to 2 bytes. Zero bytes leave the
    /// (AND-preserved) screen pixels unchanged.
    pub xor_mask: Vec<u8>,
}

/// Bytes of one AND-mask row: one bit per pixel, padded to 2 bytes.
pub open spec fn and_row_bytes(width: int) -> int {
    2 * ((width + 15) / 16)
}

/// Bytes of one XOR-mask row: three bytes per pixel, padded to 2 bytes.
pub open spec fn xor_row_bytes(width: int) -> int {
    2 * ((3 * width + 1) / 2)
}

impl TransparentPointer {
    /// The masks have as many bytes as the wire format lays out for the
    /// dimensions.
    pub open spec fn wf(self) -> bool {
        &&& self.and_mask@.len() == self.height * and_row_bytes(self.width as int)
        &&& self.xor_mask@.len() == self.height * xor_row_bytes(self.width as int)
    }

    /// Every AND bit is set and every XOR byte is zero.
    pub open spec fn is_transparent(self) -> bool {
        &&& forall|i: int| 0 <= i < self.and_mask@.len() ==> #[trigger] self.and_mask@[i] == 0xFF
        &&& forall|i: int| 0 <= i < self.xor_mask@.len() ==> #[trigger] self.xor_mask@[i] == 0
    }

    /// The AND bit of the pixel `(px, py)`.
    pub open spec fn and_bit(self, px: int, py: int) -> u8 {
        let byte = self.and_mask@[py * and_row_bytes(self.width as int) + px / 8];
        (byte >> ((7 - px % 8) as u8)) & 1
    }

    /// What the client shows, in one colour channel, where the pixel
    /// `(px, py)` of the shape lies over a screen pixel of value `screen`.
    pub open spec fn shown(self, px: int, py: int, channel: int, screen: u8) -> u8 {
        let kept = if self.and_bit(px, py) == 1 {
            screen
        } else {
            0
        };
        kept ^ self.xor_mask@[py * xor_row_bytes(self.width as int) + 3 * px + channel]
    }

    /// Build the canonical transparent shape: `32×32`, all-opaque AND
    /// mask, all-zero 24-bpp XOR mask, hotspot at the top-left.
    ///
    /// `32×32` needs no row padding (4 bytes AND/row, 96 bytes XOR/row).
    #[must_use]
    pub fn new_32x32() -> (pointer: Self)
        ensures
            pointer.cache_index == 0,
            pointer.hot_x == 0,
            pointer.hot_y == 0,
            pointer.width == 32,
            pointer.height == 32,
            pointer.and_mask@.len() == 32 * 4,
            pointer.xor_mask@.len() == 32 * 32 * 3,
            pointer.is_transparent(),
            pointer.wf(),
            forall|i: int| 0 <= i < 32 * 4 ==> #[trigger] pointer.and_mask@[i] == 0xFF,
            forall|i: int| 0 <= i < 32 * 32 * 3 ==> #[trigger] pointer.xor_mask@[i] == 0,
    {
        let width = TRANSPARENT_POINTER_SIZE;
        let height = TRANSPARENT_POINTER_SIZE;

        // One bit per pixel, 32 px per row = 4 bytes. All bits set: every
        // pixel is declared a "screen" pixel.
        let and_mask: Vec<u8> = vec![0xFF; width as usize * 4];

        // 3 bytes/pixel × 32 px = 96 bytes/row. All zero: screen pixels are
        // left unchanged, so the swapped-in cursor renders nothing.
        let xor_mask: Vec<u8> = vec![0x00; width as usize * height as usize * 3];

        TransparentPointer { cache_index: 0, hot_x: 0, hot_y: 0, width, height, and_mask, xor_mask }
    }

    /// Total wire size of the two masks, in bytes.
    #[must_use]
    pub fn mask_bytes(&self) -> (bytes: usize)
        requires
            self.and_mask@.len() + self.xor_mask@.len() <= usize::MAX,
        ensures
            bytes == self.and_mask@.len() + self.xor_mask@.len(),
    {
        self.and_mask.len() + self.xor_mask.len()
    }
}

/// A transparent shape renders nothing: over every pixel that it covers, in
/// every colour channel, the client goes on showing what is on the screen.
pub proof fn law_transparent_shape_draws_nothing(
    pointer: TransparentPointer,
    px: int,
    py: int,
    channel: int,
    screen: u8,
)
    requires
        pointer.wf(),
        pointer.is_transparent(),
        0 <= px < pointer.width,
        0 <= py < pointer.height,
        0 <= channel < 3,
    ensures
        pointer.shown(px, py, channel, screen) == screen,
{
    let and_row = and_row_bytes(pointer.width as int);
    let xor_row = xor_row_bytes(pointer.width as int);
    let height = pointer.height as int;
    assert(px / 8 < and_row);
    assert(3 * px + channel < xor_row);
    assert(0 <= py * and_row + px / 8 < height * and_row) by (nonlinear_arith)
        requires
            0 <= px / 8 < and_row,
            0 <= py < height,
    ;
    assert(0 <= py * xor_row + 3 * px + channel < height * xor_row) by (nonlinear_arith)
        requires
            0 <= 3 * px + channel < xor_row,
            0 <= py < height,
    ;
    let shift = (7 - px % 8) as u8;
    assert((0xFFu8 >> shift) & 1 == 1) by (bit_vector)
        requires
            shift <= 7,
    ;
    assert(screen ^ 0 == screen) by (bit_vector);
}

/// Whether the call with the running number `tick` (from zero) carries a
/// send: the first always does, then every `interval`-th.
pub open spec fn sends_on(tick: int, interval: int) -> bool {
    tick == 0 || (interval != 0 && tick % interval == 0)
}

/// Whether the call with the running number `tick` carries a send.
pub fn is_send_tick(tick: u32, interval: u32) -> (send: bool)
    ensures
        send == sends_on(tick as int, interval as int),
        send == (tick == 0 || (interval > 0 && tick as int % interval as int == 0)),
{
    tick == 0 || (interval != 0 && tick % interval == 0)
}

/// Frame counter gating the periodic transparent-shape re-send.
///
/// The first call after construction returns `true` (the shape goes out
/// immediately on mode entry); afterwards a re-send fires every
/// `interval`-th call. Interior-mutable (shared atomic) so a frame loop
/// can tick it without a mutex, and `Clone` so clones share one counter.
#[derive(Debug)]
pub struct ResendCounter {
    frames: Arc<AtomicU32>,
    interval: u32,
}

impl ResendCounter {
    /// The number of calls from one re-send to the next.
    pub closed spec fn every(&self) -> u32 {
        self.interval
    }

    /// The shared count began at zero.
    pub closed spec fn starts_at_zero(&self) -> bool {
        call_ensures(AtomicU32::new, (0u32,), *self.frames)
    }

    /// `tick` is a number that adding one to the shared count may give: the
    /// count as it was before.
    pub closed spec fn may_tick(&self, tick: u32) -> bool {
        call_ensures(AtomicU32::fetch_add, (&*self.frames, 1u32, Ordering::Relaxed), tick)
    }

    /// A counter that re-sends every `interval` processed frames (after
    /// the immediate first send).
    #[must_use]
    pub fn new(interval: u32) -> (counter: Self)
        requires
            interval > 0,
        ensures
            counter.every() == interval,
            counter.starts_at_zero(),
    {
        ResendCounter { frames: Arc::new(AtomicU32::new(0)), interval }
    }

    /// Whether this frame should carry a periodic re-send. Ticks the
    /// counter on every call. The FIRST call returns `true` (the shape
    /// goes out immediately on mode entry); afterwards a re-send fires
    /// every `interval`-th call.
    ///
    /// The running number of the call comes from an atomic that all clones
    /// share, so the answer is that of [`is_send_tick`] for the number that
    /// ticking gave. How many ticks came before is not stated here: the count
    /// changes behind a shared reference. For calls that count up one by one
    /// see [`law_counted_calls_keep_the_cadence`].
    pub fn should_send(&self) -> (send: bool)
        ensures
            exists|tick: u32| #[trigger]
                self.may_tick(tick) && send == sends_on(tick as int, self.every() as int),
    {
        let tick = self.next_tick();
        assert(self.may_tick(tick));
        is_send_tick(tick, self.interval)
    }

    /// Tick: the running number of this call over all clones. It wraps
    /// around.
    fn next_tick(&self) -> (tick: u32)
        ensures
            self.may_tick(tick),
    {
        self.frames.fetch_add(1, Ordering::Relaxed)
    }

    /// The configured interval (for diagnostics).
    pub fn interval(&self) -> (interval: u32)
        ensures
            interval == self.every(),
    {
        self.interval
    }
}

impl Clone for ResendCounter {
    /// A counter that shares the count of this one.
    fn clone(&self) -> (counter: Self)
        ensures
            counter == *self,
    {
        ResendCounter { frames: self.frames.clone(), interval: self.interval }
    }
}

impl Default for ResendCounter {
    /// A counter that sends on the first call only.
    fn default() -> (counter: Self)
        ensures
            counter.every() == 0,
            counter.starts_at_zero(),
    {
        ResendCounter { frames: Arc::new(AtomicU32::new(0)), interval: 0 }
    }
}

/// The cadence: the first call sends, and from one send to the next lie
/// exactly `interval` calls.
pub proof fn law_resend_cadence(tick: int, interval: int)
    requires
        tick >= 0,
        interval > 0,
    ensures
        sends_on(0, interval),
        sends_on(tick, interval) ==> sends_on(tick + interval, interval),
        sends_on(tick, interval) ==> forall|later: int|
            tick < later < tick + interval ==> !#[trigger] sends_on(later, interval),
{
    if sends_on(tick, interval) {
        assert(tick % interval == 0) by {
            if tick == 0 {
                vstd::arithmetic::div_mod::lemma_small_mod(0, interval as nat);
            }
        }
        vstd::arithmetic::div_mod::lemma_mod_add_multiples_vanish(tick, interval);
        assert forall|later: int| tick < later < tick + interval implies !#[trigger] sends_on(
            later,
            interval,
        ) by {
            let rest = later - tick;
            vstd::arithmetic::div_mod::lemma_small_mod(rest as nat, interval as nat);
            vstd::arithmetic::div_mod::lemma_add_mod_noop(tick, rest, interval);
        }
    }
}

/// The numbers that carry a send are the multiples of the interval, and zero
/// alone where there is no interval.
pub proof fn law_sends_are_multiples(tick: int, interval: int)
    requires
        tick >= 0,
        interval >= 0,
    ensures
        sends_on(tick, interval) <==> exists|n: int| 0 <= n && tick == #[trigger] (n * interval),
{
    if interval == 0 {
        if tick == 0 {
            assert(tick == 0 * interval);
        }
        assert forall|n: int| 0 <= n && tick == #[trigger] (n * interval) implies tick == 0 by {
            assert(n * interval == 0) by (nonlinear_arith)
                requires
                    interval == 0,
            ;
        }
    } else {
        vstd::arithmetic::div_mod::lemma_fundamental_div_mod(tick, interval);
        let n = tick / interval;
        assert(n >= 0) by (nonlinear_arith)
            requires
                n == tick / interval,
                tick >= 0,
                interval > 0,
        ;
        assert(interval * n == n * interval) by (nonlinear_arith);
        if tick == 0 {
            assert(tick == 0 * interval);
        } else if sends_on(tick, interval) {
            assert(tick == n * interval);
        }
        assert forall|n: int| 0 <= n && tick == #[trigger] (n * interval) implies sends_on(
            tick,
            interval,
        ) by {
            vstd::arithmetic::div_mod::lemma_mod_multiples_basic(n, interval);
        }
    }
}

/// A run of calls whose running numbers count up from zero, one for each call,
/// sends on the first call and then on every `interval`-th.
pub proof fn law_counted_calls_keep_the_cadence(ticks: Seq<u32>, interval: u32, n: int)
    requires
        interval > 0,
        ticks.len() > 0 ==> ticks[0] == 0,
        forall|i: int| 0 < i < ticks.len() ==> #[trigger] ticks[i] == ticks[i - 1] + 1,
        0 <= n < ticks.len(),
    ensures
        sends_on(ticks[n] as int, interval as int) <==> n % (interval as int) == 0,
{
    lemma_counted(ticks, n);
    if n == 0 {
        vstd::arithmetic::div_mod::lemma_small_mod(0, interval as nat);
    }
}

proof fn lemma_counted(ticks: Seq<u32>, n: int)
    requires
        ticks.len() > 0 ==> ticks[0] == 0,
        forall|i: int| 0 < i < ticks.len() ==> #[trigger] ticks[i] == ticks[i - 1] + 1,
        0 <= n < ticks.len(),
    ensures
        ticks[n] == n,
    decreases n,
{
    if n > 0 {
        lemma_counted(ticks, n - 1);
    }
}

} // verus!
