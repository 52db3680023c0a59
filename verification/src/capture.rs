//! The decisions of a capture session: which PipeWire node is gamescope's,
//! the size to ask gamescope for, the state of the frame buffer between
//! ticks, when to resend colours, and what ends a session.

use vstd::prelude::*;
use vstd::string::StrSliceExecFns;
use crate::geometry::{Frame, sampled_len, lemma_sampled_len_le};

verus! {

/// Why a capture session ended.
pub enum Reason {
    /// `--once` processed its frame.
    OnceDone,
    /// `--once` could not get a frame.
    OnceFailed(String),
    /// The stream stopped; the session may be retried.
    Stopped(String),
    /// A signal asked the program to quit.
    Interrupted,
}

/// What the program does after a session.
#[derive(Clone, Copy, Debug, PartialEq, Eq, Structural)]
pub enum Next {
    /// Exit, successfully or not.
    Exit { success: bool },
    /// Wait, then connect again.
    Retry,
}

/// What follows a session that ended for `reason`, or that failed to set
/// up when `reason` is `None`. A `--once` run never retries.
pub open spec fn next_after(reason: Option<Reason>, once: bool) -> Next {
    match reason {
        Some(Reason::OnceDone) => Next::Exit { success: true },
        Some(Reason::Interrupted) => Next::Exit { success: true },
        Some(Reason::OnceFailed(_)) => Next::Exit { success: false },
        Some(Reason::Stopped(_)) | None => if once {
            Next::Exit { success: false }
        } else {
            Next::Retry
        },
    }
}

/// Decides what follows a session.
pub fn after_session(reason: Option<&Reason>, once: bool) -> (next: Next)
    ensures
        next == next_after(
            match reason {
                Some(r) => Some(*r),
                None => None,
            },
            once,
        ),
        once ==> next != Next::Retry,
        (match reason {
            Some(Reason::OnceDone) | Some(Reason::Interrupted) => next == (Next::Exit { success: true }),
            Some(Reason::OnceFailed(_)) => next == (Next::Exit { success: false }),
            _ => next == (if once { Next::Exit { success: false } } else { Next::Retry }),
        }),
{
    match reason {
        Some(Reason::OnceDone) => Next::Exit { success: true },
        Some(Reason::Interrupted) => Next::Exit { success: true },
        Some(Reason::OnceFailed(_)) => Next::Exit { success: false },
        Some(Reason::Stopped(_)) | None => if once {
            Next::Exit { success: false }
        } else {
            Next::Retry
        },
    }
}

/// The seconds the program waits before it connects again.
pub const RECONNECT_DELAY_S: u64 = 2;

/// Whether the wait before reconnecting goes on after `waited_s` seconds:
/// not once the delay has passed, nor once a signal has come.
pub fn keep_waiting(waited_s: u64, interrupted: bool) -> (r: bool)
    ensures
        r == (!interrupted && waited_s < RECONNECT_DELAY_S),
{
    !interrupted && waited_s < RECONNECT_DELAY_S
}

/// The size asked of gamescope for a capture `sample_height` rows high:
/// a rough 16:9 width (gamescope fits the aspect and rounds).
pub open spec fn requested_size_of(sample_height: u32) -> (u32, u32) {
    let wide = if sample_height * 16 > u32::MAX {
        u32::MAX as int
    } else {
        sample_height * 16
    };
    ((wide / 9) as u32, sample_height)
}

/// The width and height of the capture size asked of gamescope.
pub fn requested_size(sample_height: u32) -> (r: (u32, u32))
    ensures
        r == requested_size_of(sample_height),
        r.1 == sample_height,
        sample_height * 16 <= u32::MAX ==> r.0 * 9 <= sample_height * 16 < (r.0 + 1) * 9,
        sample_height * 16 > u32::MAX ==> r.0 * 9 <= u32::MAX < (r.0 + 1) * 9,
{
    let wide = if sample_height > u32::MAX / 16 {
        u32::MAX
    } else {
        sample_height * 16
    };
    (wide / 9, sample_height)
}

/// Whether `s` contains `word`.
pub open spec fn contains_word(s: Seq<char>, word: Seq<char>) -> bool {
    exists|i: int| 0 <= i && i + word.len() <= s.len() && #[trigger] s.subrange(i, i + word.len()) == word
}

/// The media class that a node without one is taken to have.
pub open spec fn video_word() -> Seq<char> {
    seq!['V', 'i', 'd', 'e', 'o']
}

/// The media name of gamescope's node.
pub open spec fn gamescope_word() -> Seq<char> {
    seq!['g', 'a', 'm', 'e', 's', 'c', 'o', 'p', 'e']
}

fn matches_at(s: &str, n: usize, i: usize, word: &str, m: usize) -> (r: bool)
    requires
        n == s@.len(),
        m == word@.len(),
        i + m <= n,
    ensures
        r == (s@.subrange(i as int, i + m) == word@),
{
    let mut j: usize = 0;
    while j < m
        invariant
            n == s@.len(),
            m == word@.len(),
            i + m <= n,
            j <= m,
            s@.subrange(i as int, i + j) == word@.subrange(0, j as int),
        decreases m - j,
    {
        if s.get_char(i + j) != word.get_char(j) {
            assert(s@.subrange(i as int, i + m)[j as int] != word@[j as int]);
            return false;
        }
        assert(s@.subrange(i as int, i + j + 1) =~= s@.subrange(i as int, i + j).push(s@[i + j]));
        assert(word@.subrange(0, j + 1) =~= word@.subrange(0, j as int).push(word@[j as int]));
        j = j + 1;
    }
    assert(word@.subrange(0, m as int) =~= word@);
    true
}

fn contains(s: &str, word: &str) -> (r: bool)
    ensures
        r == contains_word(s@, word@),
{
    let n = s.unicode_len();
    let m = word.unicode_len();
    if m > n {
        return false;
    }
    if m == 0 {
        assert(s@.subrange(0, 0 + word@.len() as int) =~= word@);
        return true;
    }
    let mut i: usize = 0;
    while i <= n - m
        invariant
            n == s@.len(),
            m == word@.len(),
            1 <= m <= n,
            i <= n - m + 1,
            forall|k: int| 0 <= k < i ==> #[trigger] s@.subrange(k, k + m) != word@,
        decreases n - m + 1 - i,
    {
        if matches_at(s, n, i, word, m) {
            return true;
        }
        i = i + 1;
    }
    false
}

/// Whether a node announced with media class `media_class` may be a video
/// node and is worth inspecting; a node without a class may be one.
pub fn worth_inspecting(media_class: Option<&str>) -> (r: bool)
    ensures
        r == match media_class {
            Some(class) => contains_word(class@, video_word()),
            None => true,
        },
{
    proof {
        reveal_strlit("Video");
    }
    match media_class {
        Some(class) => {
            let r = contains(class, "Video");
            assert("Video"@ =~= video_word());
            r
        },
        None => true,
    }
}

/// Whether a node whose media name is `media_name` is gamescope's. The
/// media name stays `gamescope` where a wrapper renames the node.
pub fn is_gamescope(media_name: Option<&str>) -> (r: bool)
    ensures
        r == match media_name {
            Some(name) => name@ == gamescope_word(),
            None => false,
        },
{
    proof {
        reveal_strlit("gamescope");
    }
    match media_name {
        Some(name) => {
            let n = name.unicode_len();
            if n != 9 {
                return false;
            }
            let r = matches_at(name, n, 0, "gamescope", 9);
            assert("gamescope"@ =~= gamescope_word());
            assert(name@.subrange(0, 9) =~= name@);
            r
        },
        None => false,
    }
}

/// How long a `--once` run looks for gamescope's node, in milliseconds.
pub const DISCOVERY_ONCE_LIMIT_MS: u64 = 15_000;

/// What one tick of the discovery timer does.
#[derive(Clone, Copy, Debug, PartialEq, Eq, Structural)]
pub struct DiscoveryTick {
    /// Say once that the program waits for gamescope's node.
    pub announce: bool,
    /// Stop looking.
    pub stop: bool,
}

/// One tick of the discovery timer: stop at a signal or once the node is
/// found; else announce the wait the first time, and give up when a
/// `--once` run has looked for its limit.
pub fn discovery_tick(quit: bool, found: bool, announced: bool, once: bool, elapsed_ms: u64) -> (t:
    DiscoveryTick)
    ensures
        (quit || found) ==> t == (DiscoveryTick { announce: false, stop: true }),
        !(quit || found) ==> t == (DiscoveryTick {
            announce: !announced,
            stop: once && elapsed_ms >= DISCOVERY_ONCE_LIMIT_MS,
        }),
{
    if quit || found {
        return DiscoveryTick { announce: false, stop: true };
    }
    DiscoveryTick { announce: !announced, stop: once && elapsed_ms >= DISCOVERY_ONCE_LIMIT_MS }
}

/// The subsampling step that brings a capture `height` rows high down to
/// about `sample_height` rows; at least 1.
pub open spec fn subsample_step_of(height: nat, sample_height: nat) -> nat {
    let target = if sample_height >= 1 { sample_height } else { 1 };
    if height / target >= 1 {
        height / target
    } else {
        1
    }
}

/// The subsampling step for a capture `height` rows high.
pub fn subsample_step(height: usize, sample_height: u32) -> (step: usize)
    ensures
        step == subsample_step_of(height as nat, sample_height as nat),
        step >= 1,
        1 <= sample_height <= height ==> step * sample_height <= height < (step + 1) * sample_height,
        height < sample_height ==> step == 1,
        sample_height == 0 ==> step == if height >= 1 { height } else { 1 },
{
    let target: usize = if sample_height >= 1 {
        sample_height as usize
    } else {
        1
    };
    proof {
        vstd::arithmetic::div_mod::lemma_fundamental_div_mod(height as int, target as int);
        vstd::arithmetic::div_mod::lemma_mod_bound(height as int, target as int);
        if 1 <= sample_height <= height {
            vstd::arithmetic::div_mod::lemma_div_is_ordered(target as int, height as int, target as int);
            vstd::arithmetic::div_mod::lemma_div_by_self(target as int);
            assert((height / target) * target <= height < (height / target + 1) * target) by (nonlinear_arith)
                requires
                    height == target * (height / target) + height % target,
                    0 <= height % target < target,
            ;
        }
        if height < sample_height {
            vstd::arithmetic::div_mod::lemma_basic_div(height as int, target as int);
        }
    }
    proof {
        vstd::arithmetic::div_mod::lemma_fundamental_div_mod(height as int, target as int);
        vstd::arithmetic::div_mod::lemma_mod_bound(height as int, target as int);
        if 1 <= sample_height <= height {
            vstd::arithmetic::div_mod::lemma_div_is_ordered(target as int, height as int, target as int);
            vstd::arithmetic::div_mod::lemma_div_by_self(target as int);
            assert((height / target) * target <= height < (height / target + 1) * target) by (nonlinear_arith)
                requires
                    height == target * (height / target) + height % target,
                    0 <= height % target < target,
            ;
        }
        if height < sample_height {
            vstd::arithmetic::div_mod::lemma_basic_div(height as int, target as int);
        }
    }
    if height / target >= 1 {
        height / target
    } else {
        1
    }
}

/// The start of the valid bytes of a buffer chunk within a mapped region
/// of `mapped` bytes: the chunk's offset, clamped to the region.
pub open spec fn chunk_start(offset: nat, mapped: nat) -> nat {
    if offset < mapped {
        offset
    } else {
        mapped
    }
}

/// The end of the valid bytes of a buffer chunk: offset plus size, clamped
/// to the region, and never before the start.
pub open spec fn chunk_end(offset: nat, size: nat, mapped: nat) -> nat {
    let end = if offset + size < mapped {
        offset + size
    } else {
        mapped
    };
    if end >= chunk_start(offset, mapped) {
        end
    } else {
        chunk_start(offset, mapped)
    }
}

/// What a capture session knows between ticks.
pub struct SessionModel {
    /// The negotiated capture size.
    pub width: nat,
    pub height: nat,
    /// The row stride of the last frame, in bytes.
    pub stride: nat,
    /// The bytes of the last frame.
    pub frame: Seq<u8>,
    /// Whether the last frame has not been processed yet.
    pub fresh: bool,
    /// When colours were last sent, in milliseconds.
    pub last_send_ms: nat,
    /// When the statistics were last reported, in milliseconds.
    pub stats_at_ms: nat,
    /// Frames processed since then.
    pub frames: nat,
}

impl SessionModel {
    /// Whether the last frame holds a whole image: some pixels, rows of at
    /// least four bytes a pixel, and every row present.
    pub open spec fn whole_frame(self) -> bool {
        &&& self.width >= 1
        &&& self.height >= 1
        &&& self.stride >= self.width * 4
        &&& self.frame.len() >= self.stride * self.height
    }
}

/// How often the colours are resent when no new frame comes, in
/// milliseconds.
pub const KEEPALIVE_MS: u64 = 1000;

/// How often the statistics are reported, in milliseconds.
pub const STATS_EVERY_MS: u64 = 5000;

/// The state of a capture session between ticks of its timer.
pub struct Session {
    width: u32,
    height: u32,
    stride: u64,
    frame: Vec<u8>,
    fresh: bool,
    last_send_ms: u64,
    stats_at_ms: u64,
    frames: u64,
}

impl View for Session {
    type V = SessionModel;

    closed spec fn view(&self) -> SessionModel {
        SessionModel {
            width: self.width as nat,
            height: self.height as nat,
            stride: self.stride as nat,
            frame: self.frame@,
            fresh: self.fresh,
            last_send_ms: self.last_send_ms as nat,
            stats_at_ms: self.stats_at_ms as nat,
            frames: self.frames as nat,
        }
    }
}

impl Session {
    /// A session started at `now_ms`: no size yet, no frame.
    pub fn new(now_ms: u64) -> (s: Session)
        ensures
            s@ == (SessionModel {
                width: 0,
                height: 0,
                stride: 0,
                frame: Seq::empty(),
                fresh: false,
                last_send_ms: now_ms as nat,
                stats_at_ms: now_ms as nat,
                frames: 0,
            }),
    {
        Session {
            width: 0,
            height: 0,
            stride: 0,
            frame: Vec::new(),
            fresh: false,
            last_send_ms: now_ms,
            stats_at_ms: now_ms,
            frames: 0,
        }
    }

    /// The negotiated format says the capture is `width` by `height`.
    /// Says whether the size changed.
    pub fn set_size(&mut self, width: u32, height: u32) -> (changed: bool)
        ensures
            changed == (old(self)@.width != width || old(self)@.height != height),
            final(self)@ == (SessionModel { width: width as nat, height: height as nat, ..old(self)@ }),
    {
        let changed = self.width != width || self.height != height;
        self.width = width;
        self.height = height;
        changed
    }

    /// A buffer came: keep the valid bytes of its chunk, `size` bytes at
    /// `offset`, clamped to the `mapped` region, and its row stride; a
    /// stride that is not positive is taken as four bytes a pixel.
    pub fn take_buffer(&mut self, mapped: &[u8], offset: usize, size: usize, stride: i32)
        ensures
            final(self)@ == (SessionModel {
                frame: mapped@.subrange(
                    chunk_start(offset as nat, mapped@.len()) as int,
                    chunk_end(offset as nat, size as nat, mapped@.len()) as int,
                ),
                stride: if stride > 0 {
                    stride as nat
                } else {
                    old(self)@.width * 4
                },
                fresh: true,
                ..old(self)@
            }),
            final(self)@.frame == if offset >= mapped@.len() {
                Seq::<u8>::empty()
            } else if offset + size <= mapped@.len() {
                mapped@.subrange(offset as int, offset + size)
            } else {
                mapped@.subrange(offset as int, mapped@.len() as int)
            },
            offset + size <= mapped@.len() ==> final(self)@.frame.len() == size,
    {
        let len = mapped.len();
        let start = if offset < len {
            offset
        } else {
            len
        };
        let sum = offset.saturating_add(size);
        let end0 = if sum < len {
            sum
        } else {
            len
        };
        let end = if end0 >= start {
            end0
        } else {
            start
        };
        let mut frame: Vec<u8> = Vec::new();
        for k in start..end
            invariant
                start <= end <= mapped@.len(),
                frame@ == mapped@.subrange(start as int, k as int),
        {
            frame.push(mapped[k]);
            assert(mapped@.subrange(start as int, k + 1) =~= mapped@.subrange(start as int, k as int).push(
                mapped@[k as int],
            ));
        }
        self.frame = frame;
        self.stride = if stride > 0 {
            stride as u64
        } else {
            self.width as u64 * 4
        };
        self.fresh = true;
        proof {
            if offset >= len {
                assert(self.frame@ =~= Seq::<u8>::empty());
            }
        }
    }

    fn holds_whole_frame(&self) -> (r: bool)
        ensures
            r == self@.whole_frame(),
    {
        let len = self.frame.len();
        proof {
            assert((self.stride as int) * (self.height as int) <= u128::MAX) by (nonlinear_arith)
                requires
                    self.stride <= u64::MAX,
                    self.height <= u32::MAX,
            ;
        }
        self.width >= 1 && self.height >= 1 && (self.stride as u128) >= (self.width as u128) * 4
            && (len as u128) >= (self.stride as u128) * (self.height as u128)
    }

    /// Takes the frame for processing if it is new and whole. Says whether
    /// it did; a frame is processed once.
    pub fn take_fresh(&mut self) -> (taken: bool)
        ensures
            taken == (old(self)@.fresh && old(self)@.whole_frame()),
            taken == (old(self)@.fresh && old(self)@.width >= 1 && old(self)@.height >= 1
                && old(self)@.stride >= 4 * old(self)@.width && old(self)@.frame.len()
                >= old(self)@.stride * old(self)@.height),
            final(self)@ == if taken {
                SessionModel { fresh: false, ..old(self)@ }
            } else {
                old(self)@
            },
    {
        let whole = self.holds_whole_frame();
        if self.fresh && whole {
            self.fresh = false;
            true
        } else {
            false
        }
    }

    /// The last frame, subsampled to about `sample_height` rows, when it
    /// holds a whole image.
    pub fn frame(&self, sample_height: u32) -> (f: Option<Frame<'_>>)
        ensures
            f is Some <==> self@.whole_frame(),
            f is Some <==> (self@.width >= 1 && self@.height >= 1 && self@.stride >= 4 * self@.width && self@.frame.len() >= self@.stride * self@.height),
            f matches Some(f) ==> {
                &&& f.wf()
                &&& f.width >= 1
                &&& f.height >= 1
                &&& f.data@ == self@.frame
                &&& f.width == self@.width
                &&& f.height == self@.height
                &&& f.stride == self@.stride
                &&& f.step == subsample_step_of(self@.height, sample_height as nat)
            },
    {
        let whole = self.holds_whole_frame();
        if !whole {
            return None;
        }
        let len = self.frame.len();
        let ghost w = self.width as int;
        let ghost h = self.height as int;
        let ghost st = self.stride as int;
        proof {
            assert(st <= st * h && h <= st * h) by (nonlinear_arith)
                requires
                    h >= 1,
                    st >= 4,
            ;
            assert(w <= st);
            assert(st <= len && h <= len);
        }
        let width = self.width as usize;
        let height = self.height as usize;
        let stride = self.stride as usize;
        let step = subsample_step(height, sample_height);
        let f = Frame { data: self.frame.as_slice(), width, height, stride, step };
        proof {
            lemma_sampled_len_le(width as nat, step as nat);
            lemma_sampled_len_le(height as nat, step as nat);
            let sw = f.sampled_width() as int;
            let sh = f.sampled_height() as int;
            let s = step as int;
            assert(f.offset(sw - 1, sh - 1) + 2 < f.data@.len()) by (nonlinear_arith)
                requires
                    (sh - 1) * s <= h - 1,
                    (sw - 1) * s <= w - 1,
                    sw >= 1,
                    sh >= 1,
                    s >= 1,
                    w >= 1,
                    st >= w * 4,
                    f.data@.len() >= st * h,
                    f.offset(sw - 1, sh - 1) == (sh - 1) * s * st + (sw - 1) * s * 4,
            ;
        }
        Some(f)
    }

    /// Whether colours are due again at `now_ms` when no frame came: a
    /// second or more since they were last sent.
    pub fn keepalive_due(&self, now_ms: u64) -> (due: bool)
        ensures
            due == (now_ms >= self@.last_send_ms + KEEPALIVE_MS),
    {
        now_ms.saturating_sub(self.last_send_ms) >= KEEPALIVE_MS
    }

    /// Colours were sent at `now_ms`.
    pub fn sent_at(&mut self, now_ms: u64)
        ensures
            final(self)@ == (SessionModel { last_send_ms: now_ms as nat, ..old(self)@ }),
    {
        self.last_send_ms = now_ms;
    }

    /// A frame was processed.
    pub fn count_frame(&mut self)
        ensures
            final(self)@ == (SessionModel {
                frames: if old(self)@.frames < u64::MAX {
                    old(self)@.frames + 1
                } else {
                    old(self)@.frames
                },
                ..old(self)@
            }),
    {
        self.frames = self.frames.saturating_add(1);
    }

    /// Whether the statistics are due at `now_ms`: frames were processed
    /// and five seconds or more have passed since the last report.
    pub fn stats_due(&self, now_ms: u64) -> (due: bool)
        ensures
            due == (self@.frames > 0 && now_ms >= self@.stats_at_ms + STATS_EVERY_MS),
    {
        self.frames > 0 && now_ms.saturating_sub(self.stats_at_ms) >= STATS_EVERY_MS
    }

    /// The statistics were reported at `now_ms`: count afresh.
    pub fn reset_stats(&mut self, now_ms: u64)
        ensures
            final(self)@ == (SessionModel { stats_at_ms: now_ms as nat, frames: 0, ..old(self)@ }),
    {
        self.stats_at_ms = now_ms;
        self.frames = 0;
    }

    /// The frames processed since the last report.
    pub fn frames(&self) -> (n: u64)
        ensures
            n == self@.frames,
    {
        self.frames
    }

    /// The milliseconds since the last report.
    pub fn stats_elapsed_ms(&self, now_ms: u64) -> (ms: u64)
        ensures
            ms == if now_ms >= self@.stats_at_ms {
                now_ms - self@.stats_at_ms
            } else {
                0
            },
    {
        now_ms.saturating_sub(self.stats_at_ms)
    }
}

/// The kept bytes of a buffer are the chunk's valid range, `size` bytes at
/// `offset`, whenever the mapped region holds them; otherwise what of that
/// range lies inside the region.
pub proof fn lemma_chunk_is_valid_range(offset: nat, size: nat, mapped: nat)
    ensures
        offset + size <= mapped ==> chunk_start(offset, mapped) == offset && chunk_end(offset, size, mapped)
            == offset + size,
        offset < mapped < offset + size ==> chunk_start(offset, mapped) == offset && chunk_end(offset, size, mapped)
            == mapped,
        mapped <= offset ==> chunk_start(offset, mapped) == mapped && chunk_end(offset, size, mapped)
            == mapped,
{
}

/// A frame holds a whole image exactly when it has pixels, its rows hold at
/// least four bytes a pixel (padding allowed), and all rows are present.
pub proof fn lemma_whole_frame_allows_padded_rows(m: SessionModel)
    ensures
        m.whole_frame() <==> (m.width >= 1 && m.height >= 1 && m.stride >= 4 * m.width && m.frame.len()
            >= m.stride * m.height),
{
}

} // verus!
