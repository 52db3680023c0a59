//! LED layout, edge zone sums, and the order of the zones along the strip.

use vstd::prelude::*;
use vstd::string::StringExecFns;
use vstd::string::StrSliceExecFns;
use crate::text::{decimal, decimal_chars};

verus! {

/// The largest number of LEDs one DRGB packet carries.
pub const MAX_LEDS: usize = 490;

/// The screen corner that holds the strip's first LED.
#[derive(Clone, Copy, Debug, PartialEq, Eq, Structural)]
pub enum Corner {
    Bl,
    Tl,
    Tr,
    Br,
}

/// The corner that a name denotes: `bl`, `tl`, `tr` or `br`.
pub open spec fn corner_named(s: Seq<char>) -> Option<Corner> {
    if s == seq!['b', 'l'] {
        Some(Corner::Bl)
    } else if s == seq!['t', 'l'] {
        Some(Corner::Tl)
    } else if s == seq!['t', 'r'] {
        Some(Corner::Tr)
    } else if s == seq!['b', 'r'] {
        Some(Corner::Br)
    } else {
        None
    }
}

/// The name of a corner.
pub open spec fn corner_name(c: Corner) -> Seq<char> {
    match c {
        Corner::Bl => seq!['b', 'l'],
        Corner::Tl => seq!['t', 'l'],
        Corner::Tr => seq!['t', 'r'],
        Corner::Br => seq!['b', 'r'],
    }
}

impl Corner {
    /// Reads a corner from its two-letter name.
    pub fn parse(s: &str) -> (r: Option<Corner>)
        ensures
            r == corner_named(s@),
    {
        if s.unicode_len() != 2 {
            return None;
        }
        let a = s.get_char(0);
        let b = s.get_char(1);
        let r = if a == 'b' && b == 'l' {
            Some(Corner::Bl)
        } else if a == 't' && b == 'l' {
            Some(Corner::Tl)
        } else if a == 't' && b == 'r' {
            Some(Corner::Tr)
        } else if a == 'b' && b == 'r' {
            Some(Corner::Br)
        } else {
            None
        };
        proof {
            if r is Some {
                assert(s@ =~= seq![a, b]);
            } else {
                assert(s@ != seq!['b', 'l'] && s@ != seq!['t', 'l'] && s@ != seq!['t', 'r'] && s@ != seq!['b', 'r']) by {
                    if s@ == seq!['b', 'l'] || s@ == seq!['t', 'l'] || s@ == seq!['t', 'r'] || s@ == seq!['b', 'r'] {
                        assert(s@[0] == a && s@[1] == b);
                    }
                }
            }
        }
        r
    }

    /// The corner's two-letter name.
    pub fn name(self) -> (r: &'static str)
        ensures
            r@ == corner_name(self),
    {
        proof {
            reveal_strlit("bl");
            reveal_strlit("tl");
            reveal_strlit("tr");
            reveal_strlit("br");
        }
        match self {
            Corner::Bl => "bl",
            Corner::Tl => "tl",
            Corner::Tr => "tr",
            Corner::Br => "br",
        }
    }
}

/// What a layout is: the LED count of each edge, the corner of the first
/// LED, and the direction of the strip seen from the front.
pub struct LayoutModel {
    pub top: nat,
    pub right: nat,
    pub bottom: nat,
    pub left: nat,
    pub start: Corner,
    pub clockwise: bool,
}

impl LayoutModel {
    /// The number of LEDs in the layout.
    pub open spec fn count(self) -> nat {
        self.top + self.right + self.bottom + self.left
    }
}

/// LED counts per edge plus the strip's physical orientation. A layout
/// exists only if its total is at least one and fits one DRGB packet.
#[derive(Debug)]
pub struct Layout {
    top: usize,
    right: usize,
    bottom: usize,
    left: usize,
    start: Corner,
    clockwise: bool,
}

impl View for Layout {
    type V = LayoutModel;

    closed spec fn view(&self) -> LayoutModel {
        LayoutModel {
            top: self.top as nat,
            right: self.right as nat,
            bottom: self.bottom as nat,
            left: self.left as nat,
            start: self.start,
            clockwise: self.clockwise,
        }
    }
}

/// The message of a layout that has no LED.
pub open spec fn zero_leds_message() -> Seq<char> {
    "layout has zero LEDs"@
}

/// The message of a layout with `count` LEDs, more than one packet holds.
pub open spec fn too_many_leds_message(count: nat) -> Seq<char> {
    decimal_chars(count) + " LEDs exceed one DRGB packet (490)"@
}

impl Layout {
    #[verifier::type_invariant]
    spec fn fits_one_packet(self) -> bool {
        1 <= self.top + self.right + self.bottom + self.left <= MAX_LEDS
    }

    /// Makes a layout; refuses one with no LED or with more than 490.
    pub fn new(
        top: usize,
        right: usize,
        bottom: usize,
        left: usize,
        start: Corner,
        clockwise: bool,
    ) -> (r: Result<Layout, String>)
        ensures
            match r {
                Ok(l) => {
                    &&& 1 <= top + right + bottom + left <= MAX_LEDS
                    &&& l@ == LayoutModel {
                        top: top as nat,
                        right: right as nat,
                        bottom: bottom as nat,
                        left: left as nat,
                        start,
                        clockwise,
                    }
                },
                Err(msg) => if top + right + bottom + left == 0 {
                    msg@ == zero_leds_message()
                } else {
                    &&& top + right + bottom + left > MAX_LEDS
                    &&& msg@ == too_many_leds_message((top + right + bottom + left) as nat)
                },
            },
    {
        let count = top as u128 + right as u128 + bottom as u128 + left as u128;
        if count == 0 {
            return Err(String::from_str("layout has zero LEDs"));
        }
        if count > MAX_LEDS as u128 {
            let mut msg = decimal(count);
            msg.append(" LEDs exceed one DRGB packet (490)");
            return Err(msg);
        }
        Ok(Layout { top, right, bottom, left, start, clockwise })
    }

    /// The LED count of the top edge.
    pub fn top(&self) -> (r: usize)
        ensures
            r == self@.top,
    {
        self.top
    }

    /// The LED count of the right edge.
    pub fn right(&self) -> (r: usize)
        ensures
            r == self@.right,
    {
        self.right
    }

    /// The LED count of the bottom edge.
    pub fn bottom(&self) -> (r: usize)
        ensures
            r == self@.bottom,
    {
        self.bottom
    }

    /// The LED count of the left edge.
    pub fn left(&self) -> (r: usize)
        ensures
            r == self@.left,
    {
        self.left
    }

    /// The corner of the first LED.
    pub fn start(&self) -> (r: Corner)
        ensures
            r == self@.start,
    {
        self.start
    }

    /// Whether the strip runs clockwise seen from the front.
    pub fn clockwise(&self) -> (r: bool)
        ensures
            r == self@.clockwise,
    {
        self.clockwise
    }

    /// The number of LEDs, between 1 and 490.
    pub fn count(&self) -> (r: usize)
        ensures
            r == self@.count(),
            1 <= r <= MAX_LEDS,
    {
        proof {
            use_type_invariant(self);
        }
        self.top + self.right + self.bottom + self.left
    }
}

impl Clone for Layout {
    fn clone(&self) -> (r: Layout)
        ensures
            r@ == self@,
    {
        proof {
            use_type_invariant(self);
        }
        Layout {
            top: self.top,
            right: self.right,
            bottom: self.bottom,
            left: self.left,
            start: self.start,
            clockwise: self.clockwise,
        }
    }
}

/// One colour (or other value) per zone of each screen edge, in canonical
/// reading order: top and bottom run left to right, left and right run top
/// to bottom.
pub struct EdgeColors<T> {
    pub top: Vec<T>,
    pub right: Vec<T>,
    pub bottom: Vec<T>,
    pub left: Vec<T>,
}

/// An edge of the screen.
#[derive(Clone, Copy, Debug, PartialEq, Eq, Structural)]
pub enum Edge {
    Top,
    Right,
    Bottom,
    Left,
}

/// The zones of one edge.
pub open spec fn edge_zones<T>(e: EdgeColors<T>, edge: Edge) -> Seq<T> {
    match edge {
        Edge::Top => e.top@,
        Edge::Right => e.right@,
        Edge::Bottom => e.bottom@,
        Edge::Left => e.left@,
    }
}

/// Whether each edge holds as many zones as the layout has LEDs there.
pub open spec fn edges_fit<T>(e: EdgeColors<T>, l: LayoutModel) -> bool {
    &&& e.top@.len() == l.top
    &&& e.right@.len() == l.right
    &&& e.bottom@.len() == l.bottom
    &&& e.left@.len() == l.left
}

/// The strip's four legs, clockwise from the bottom-left corner: left edge
/// upward, top left to right, right edge downward, bottom right to left.
/// The flag says that the leg runs against the edge's reading order.
pub open spec fn base_leg(i: int) -> (Edge, bool) {
    if i == 0 {
        (Edge::Left, true)
    } else if i == 1 {
        (Edge::Top, false)
    } else if i == 2 {
        (Edge::Right, false)
    } else {
        (Edge::Bottom, true)
    }
}

/// How many legs the clockwise walk from the bottom-left corner takes to
/// reach a corner.
pub open spec fn corner_offset(c: Corner) -> int {
    match c {
        Corner::Bl => 0,
        Corner::Tl => 1,
        Corner::Tr => 2,
        Corner::Br => 3,
    }
}

/// The `k`-th leg of the strip, first LED first. A counterclockwise strip
/// walks the clockwise legs backward, each against its clockwise direction.
pub open spec fn leg(l: LayoutModel, k: int) -> (Edge, bool) {
    if l.clockwise {
        base_leg((corner_offset(l.start) + k) % 4)
    } else {
        let (edge, flip) = base_leg((corner_offset(l.start) + 3 - k) % 4);
        (edge, !flip)
    }
}

/// A sequence walked forward, or backward when `flip`.
pub open spec fn oriented<T>(s: Seq<T>, flip: bool) -> Seq<T> {
    if flip {
        s.reverse()
    } else {
        s
    }
}

/// The zones of the `k`-th leg in strip order.
pub open spec fn leg_zones<T>(e: EdgeColors<T>, l: LayoutModel, k: int) -> Seq<T> {
    oriented(edge_zones(e, leg(l, k).0), leg(l, k).1)
}

/// The zones of the first `k` legs in strip order.
pub open spec fn chain_prefix<T>(e: EdgeColors<T>, l: LayoutModel, k: int) -> Seq<T>
    decreases k,
{
    if k <= 0 {
        Seq::empty()
    } else {
        chain_prefix(e, l, k - 1) + leg_zones(e, l, k - 1)
    }
}

/// The zones along the whole strip, first LED first.
pub open spec fn chain_order<T>(e: EdgeColors<T>, l: LayoutModel) -> Seq<T> {
    leg_zones(e, l, 0) + leg_zones(e, l, 1) + leg_zones(e, l, 2) + leg_zones(e, l, 3)
}

fn corner_offset_of(c: Corner) -> (r: usize)
    ensures
        r == corner_offset(c),
{
    match c {
        Corner::Bl => 0,
        Corner::Tl => 1,
        Corner::Tr => 2,
        Corner::Br => 3,
    }
}

fn base_leg_of(i: usize) -> (r: (Edge, bool))
    requires
        i < 4,
    ensures
        r == base_leg(i as int),
{
    if i == 0 {
        (Edge::Left, true)
    } else if i == 1 {
        (Edge::Top, false)
    } else if i == 2 {
        (Edge::Right, false)
    } else {
        (Edge::Bottom, true)
    }
}

fn leg_of(l: &Layout, k: usize) -> (r: (Edge, bool))
    requires
        k < 4,
    ensures
        r == leg(l@, k as int),
{
    let offset = corner_offset_of(l.start());
    if l.clockwise() {
        base_leg_of((offset + k) % 4)
    } else {
        let (edge, flip) = base_leg_of((offset + 3 - k) % 4);
        (edge, !flip)
    }
}

/// Orders the edge zones along the physical strip, first LED first.
///
/// The base sequence is clockwise as seen from the front, anchored at the
/// bottom-left corner: left edge upward, top left to right, right edge
/// downward, bottom right to left. A leg that is flipped walks its edge
/// against the edge's canonical reading order.
pub fn chain<T: Copy>(e: &EdgeColors<T>, l: &Layout) -> (out: Vec<T>)
    ensures
        out@ == chain_order(*e, l@),
        edges_fit(*e, l@) ==> out@.len() == l@.count(),
        ({
            let l = l@;
            let e = *e;
            match (l.start, l.clockwise) {
            (Corner::Bl, true) => out@ == e.left@.reverse() + e.top@ + e.right@ + e.bottom@.reverse(),
            (Corner::Tl, true) => out@ == e.top@ + e.right@ + e.bottom@.reverse() + e.left@.reverse(),
            (Corner::Tr, true) => out@ == e.right@ + e.bottom@.reverse() + e.left@.reverse() + e.top@,
            (Corner::Br, true) => out@ == e.bottom@.reverse() + e.left@.reverse() + e.top@ + e.right@,
            (Corner::Bl, false) => out@ == e.bottom@ + e.right@.reverse() + e.top@.reverse() + e.left@,
            (Corner::Tl, false) => out@ == e.left@ + e.bottom@ + e.right@.reverse() + e.top@.reverse(),
            (Corner::Tr, false) => out@ == e.top@.reverse() + e.left@ + e.bottom@ + e.right@.reverse(),
            (Corner::Br, false) => out@ == e.right@.reverse() + e.top@.reverse() + e.left@ + e.bottom@,
        }
        }),
{
    let mut out: Vec<T> = Vec::new();
    for k in 0..4usize
        invariant
            out@ == chain_prefix(*e, l@, k as int),
    {
        let (edge, flip) = leg_of(l, k);
        let v: &Vec<T> = match edge {
            Edge::Top => &e.top,
            Edge::Right => &e.right,
            Edge::Bottom => &e.bottom,
            Edge::Left => &e.left,
        };
        let ghost before = out@;
        let n = v.len();
        assert(v@ == edge_zones(*e, edge));
        if flip {
            for i in 0..n
                invariant
                    n == v@.len(),
                    out@ == before + v@.reverse().take(i as int),
            {
                out.push(v[n - 1 - i]);
                assert(v@.reverse().take(i + 1) =~= v@.reverse().take(i as int).push(v@[n - 1 - i]));
            }
            assert(v@.reverse().take(n as int) =~= v@.reverse());
        } else {
            for i in 0..n
                invariant
                    n == v@.len(),
                    out@ == before + v@.take(i as int),
            {
                out.push(v[i]);
                assert(v@.take(i + 1) =~= v@.take(i as int).push(v@[i as int]));
            }
            assert(v@.take(n as int) =~= v@);
        }
        assert(out@ =~= chain_prefix(*e, l@, k + 1));
    }
    proof {
        reveal_with_fuel(chain_prefix, 5);
        assert(chain_prefix(*e, l@, 4) =~= chain_order(*e, l@));
        if edges_fit(*e, l@) {
            lemma_chain_order_len(*e, l@);
        }
        lemma_strip_walk(*e, l@);
    }
    out
}

proof fn lemma_chain_order_len<T>(e: EdgeColors<T>, l: LayoutModel)
    requires
        edges_fit(e, l),
    ensures
        chain_order(e, l).len() == l.count(),
{
    assert(chain_order(e, l).len() == leg_zones(e, l, 0).len() + leg_zones(e, l, 1).len()
        + leg_zones(e, l, 2).len() + leg_zones(e, l, 3).len());
}

/// Every zone of every edge lights exactly one LED: the strip order is a
/// permutation of the four edges' zones.
pub proof fn lemma_chain_is_permutation<T>(e: EdgeColors<T>, l: LayoutModel)
    ensures
        chain_order(e, l).to_multiset() =~= e.top@.to_multiset().add(e.right@.to_multiset()).add(
            e.bottom@.to_multiset(),
        ).add(e.left@.to_multiset()),
{
    broadcast use vstd::seq_lib::lemma_multiset_commutative;
    broadcast use vstd::multiset::group_multiset_axioms;

    assert forall|k: int| 0 <= k < 4 implies #[trigger] leg_zones(e, l, k).to_multiset()
        =~= edge_zones(e, leg(l, k).0).to_multiset() by {
        edge_zones(e, leg(l, k).0).lemma_reverse_to_multiset();
    }
    let m0 = leg_zones(e, l, 0).to_multiset();
    let m1 = leg_zones(e, l, 1).to_multiset();
    let m2 = leg_zones(e, l, 2).to_multiset();
    let m3 = leg_zones(e, l, 3).to_multiset();
    assert(chain_order(e, l).to_multiset() =~= m0.add(m1).add(m2).add(m3));
}

proof fn lemma_reverse_twice<T>(s: Seq<T>)
    ensures
        s.reverse().reverse() =~= s,
{
}

proof fn lemma_reverse_concat4<T>(a: Seq<T>, b: Seq<T>, c: Seq<T>, d: Seq<T>)
    ensures
        (a + b + c + d).reverse() =~= d.reverse() + c.reverse() + b.reverse() + a.reverse(),
{
}

proof fn lemma_counterclockwise_leg<T>(e: EdgeColors<T>, cw: LayoutModel, ccw: LayoutModel, k: int)
    requires
        cw.clockwise,
        !ccw.clockwise,
        cw.start == ccw.start,
        0 <= k < 4,
    ensures
        leg_zones(e, ccw, k) =~= leg_zones(e, cw, 3 - k).reverse(),
{
    assert(leg(ccw, k).0 == leg(cw, 3 - k).0 && leg(ccw, k).1 == !leg(cw, 3 - k).1);
    lemma_reverse_twice(edge_zones(e, leg(cw, 3 - k).0));
}

/// A strip that runs counterclockwise from a corner shows the zones of the
/// strip that runs clockwise from the same corner, in reverse order.
pub proof fn lemma_counterclockwise_reverses<T>(e: EdgeColors<T>, cw: LayoutModel, ccw: LayoutModel)
    requires
        cw.clockwise,
        !ccw.clockwise,
        cw.start == ccw.start,
    ensures
        chain_order(e, ccw) =~= chain_order(e, cw).reverse(),
{
    lemma_counterclockwise_leg(e, cw, ccw, 0);
    lemma_counterclockwise_leg(e, cw, ccw, 1);
    lemma_counterclockwise_leg(e, cw, ccw, 2);
    lemma_counterclockwise_leg(e, cw, ccw, 3);
    lemma_reverse_concat4(leg_zones(e, cw, 0), leg_zones(e, cw, 1), leg_zones(e, cw, 2), leg_zones(e, cw, 3));
}

/// The number of samples that a line of `len` pixels gives when every
/// `step`-th pixel is taken, starting with the first.
pub open spec fn sampled_len(len: nat, step: nat) -> nat {
    if len % step == 0 {
        len / step
    } else {
        len / step + 1
    }
}

/// How many pixels of a line of `len` are sampled at `step`.
pub fn sampled_count(len: usize, step: usize) -> (r: usize)
    requires
        step >= 1,
    ensures
        r == sampled_len(len as nat, step as nat),
{
    if len % step == 0 {
        len / step
    } else {
        proof {
            vstd::arithmetic::div_mod::lemma_fundamental_div_mod(len as int, step as int);
            assert(len / step < len) by (nonlinear_arith)
                requires
                    len % step != 0,
                    step >= 1,
                    len == step * (len / step) + len % step,
                    len % step < step,
            ;
        }
        len / step + 1
    }
}

/// A borrowed BGRx frame plus the subsampling step. With the requested
/// size in effect the frame is already small and the step is 1; the step
/// covers the full-resolution fallback.
pub struct Frame<'a> {
    pub data: &'a [u8],
    pub width: usize,
    pub height: usize,
    pub stride: usize,
    pub step: usize,
}

impl<'a> Frame<'a> {
    /// The number of sampled columns.
    pub open spec fn sampled_width(&self) -> nat {
        sampled_len(self.width as nat, self.step as nat)
    }

    /// The number of sampled rows.
    pub open spec fn sampled_height(&self) -> nat {
        sampled_len(self.height as nat, self.step as nat)
    }

    /// The offset of the first byte of the sample at column `sx`, row `sy`.
    pub open spec fn offset(&self, sx: int, sy: int) -> int {
        sy * self.step * self.stride + sx * self.step * 4
    }

    /// A frame whose rows hold 4 bytes a pixel and whose last sample lies
    /// inside the data.
    pub open spec fn wf(&self) -> bool {
        &&& self.step >= 1
        &&& self.width * 4 <= self.stride
        &&& (self.width >= 1 && self.height >= 1) ==> self.offset(
            self.sampled_width() - 1,
            self.sampled_height() - 1,
        ) + 2 < self.data@.len()
    }

    /// Channel `c` (0 red, 1 green, 2 blue) of the sample at `sx`, `sy`.
    /// The bytes of a pixel are blue, green, red and a pad byte.
    pub open spec fn channel(&self, sx: int, sy: int, c: int) -> u8 {
        self.data@[self.offset(sx, sy) + 2 - c]
    }
}

pub(crate) proof fn lemma_sampled_len_le(len: nat, step: nat)
    requires
        step >= 1,
    ensures
        sampled_len(len, step) <= len,
        len >= 1 ==> sampled_len(len, step) >= 1,
        len >= 1 ==> (sampled_len(len, step) - 1) * step <= len - 1,
{
    vstd::arithmetic::div_mod::lemma_fundamental_div_mod(len as int, step as int);
    assert(sampled_len(len, step) <= len) by (nonlinear_arith)
        requires
            step >= 1,
            len == step * (len / step) + len % step,
            0 <= len % step < step,
            len / step >= 0,
            sampled_len(len, step) == if len % step == 0 { len / step } else { len / step + 1 },
    ;
    if len >= 1 && len / step == 0 {
        assert(len % step != 0);
    }
    if len >= 1 {
        assert((sampled_len(len, step) - 1) * step <= len - 1) by (nonlinear_arith)
            requires
                step >= 1,
                len >= 1,
                len == step * (len / step) + len % step,
                0 <= len % step < step,
                len / step >= 0,
                sampled_len(len, step) == if len % step == 0 { len / step } else { len / step + 1 },
        ;
    }
}

/// Every sample of a well-formed frame lies inside the data, and the
/// number of samples fits the data's length.
proof fn lemma_frame_bounds(f: &Frame, sx: int, sy: int)
    requires
        f.wf(),
        f.width >= 1,
        f.height >= 1,
        0 <= sx < f.sampled_width(),
        0 <= sy < f.sampled_height(),
    ensures
        0 <= f.offset(sx, sy),
        f.offset(sx, sy) + 2 < f.data@.len(),
        0 <= sy * f.step * f.stride <= f.offset(sx, sy),
        0 <= sx * f.step * 4 <= f.offset(sx, sy),
        0 <= sy * f.step <= f.height - 1,
        0 <= sx * f.step <= f.width - 1,
        f.sampled_width() * f.sampled_height() <= f.data@.len(),
{
    lemma_sampled_len_le(f.width as nat, f.step as nat);
    lemma_sampled_len_le(f.height as nat, f.step as nat);
    let sw = f.sampled_width() as int;
    let sh = f.sampled_height() as int;
    let step = f.step as int;
    let stride = f.stride as int;
    let w = f.width as int;
    assert(0 <= sy * step * stride <= (sh - 1) * step * stride) by (nonlinear_arith)
        requires
            0 <= sy <= sh - 1,
            step >= 1,
            stride >= 0,
    ;
    assert(0 <= sx * step * 4 <= (sw - 1) * step * 4) by (nonlinear_arith)
        requires
            0 <= sx <= sw - 1,
            step >= 1,
    ;
    assert(0 <= sy * step <= (sh - 1) * step) by (nonlinear_arith)
        requires
            0 <= sy <= sh - 1,
            step >= 1,
    ;
    assert(0 <= sx * step <= (sw - 1) * step) by (nonlinear_arith)
        requires
            0 <= sx <= sw - 1,
            step >= 1,
    ;
    assert(sw * sh <= (sh - 1) * step * stride + (sw - 1) * step * 4 + 3) by (nonlinear_arith)
        requires
            1 <= sw <= w,
            sh >= 1,
            step >= 1,
            w * 4 <= stride,
    ;
}

/// The sum of channel `c` over the samples of row `sy` in columns
/// `c0 .. c1`.
pub open spec fn row_sum(f: &Frame, sy: int, c0: int, c1: int, c: int) -> int
    decreases c1 - c0,
{
    if c1 <= c0 {
        0
    } else {
        row_sum(f, sy, c0, c1 - 1, c) + f.channel(c1 - 1, sy, c)
    }
}

/// The sum of channel `c` over the samples of rows `r0 .. r1` and columns
/// `c0 .. c1`.
pub open spec fn rect_sum(f: &Frame, r0: int, r1: int, c0: int, c1: int, c: int) -> int
    decreases r1 - r0,
{
    if r1 <= r0 {
        0
    } else {
        rect_sum(f, r0, r1 - 1, c0, c1, c) + row_sum(f, r1 - 1, c0, c1, c)
    }
}

/// The channel sums and the sample count of one zone of the frame. The
/// zone's mean colour is each sum divided by the count.
pub struct ZoneSum {
    pub r: u128,
    pub g: u128,
    pub b: u128,
    pub count: usize,
}

/// The sums of the samples of rows `r0 .. r1` and columns `c0 .. c1`.
pub open spec fn zone_of(f: &Frame, r0: int, r1: int, c0: int, c1: int) -> ZoneSum {
    ZoneSum {
        r: rect_sum(f, r0, r1, c0, c1, 0) as u128,
        g: rect_sum(f, r0, r1, c0, c1, 1) as u128,
        b: rect_sum(f, r0, r1, c0, c1, 2) as u128,
        count: ((r1 - r0) * (c1 - c0)) as usize,
    }
}

/// The sample at column `sx`, row `sy` as red, green, blue.
fn pixel(f: &Frame, sx: usize, sy: usize) -> (p: [u8; 3])
    requires
        f.wf(),
        f.width >= 1,
        f.height >= 1,
        sx < f.sampled_width(),
        sy < f.sampled_height(),
    ensures
        p[0] == f.channel(sx as int, sy as int, 0),
        p[1] == f.channel(sx as int, sy as int, 1),
        p[2] == f.channel(sx as int, sy as int, 2),
{
    let _len = f.data.len();
    proof {
        lemma_frame_bounds(f, sx as int, sy as int);
    }
    let i = sy * f.step * f.stride + sx * f.step * 4;
    [f.data[i + 2], f.data[i + 1], f.data[i]]
}

/// The sums over the samples of rows `r0 .. r1` and columns `c0 .. c1`.
fn zone_sum(f: &Frame, r0: usize, r1: usize, c0: usize, c1: usize) -> (z: ZoneSum)
    requires
        f.wf(),
        f.width >= 1,
        f.height >= 1,
        r0 <= r1 <= f.sampled_height(),
        c0 <= c1 <= f.sampled_width(),
    ensures
        z == zone_of(f, r0 as int, r1 as int, c0 as int, c1 as int),
        r0 < r1 && c0 < c1 ==> z.count >= 1,
{
    let ghost sw = f.sampled_width() as int;
    let ghost sh = f.sampled_height() as int;
    let ghost cols = c1 - c0;
    let len = f.data.len();
    proof {
        lemma_sampled_len_le(f.width as nat, f.step as nat);
        lemma_sampled_len_le(f.height as nat, f.step as nat);
        lemma_frame_bounds(f, 0, 0);
        assert((r1 - r0) * cols <= sw * sh) by (nonlinear_arith)
            requires
                0 <= r1 - r0 <= sh,
                0 <= cols <= sw,
        ;
    }
    let mut r: u128 = 0;
    let mut g: u128 = 0;
    let mut b: u128 = 0;
    let mut count: usize = 0;
    let mut sy = r0;
    while sy < r1
        invariant
            f.wf(),
            f.width >= 1,
            f.height >= 1,
            r0 <= sy <= r1 <= sh,
            c0 <= c1 <= sw,
            cols == c1 - c0,
            sw == f.sampled_width(),
            sh == f.sampled_height(),
            (r1 - r0) * cols <= f.data@.len(),
            f.data@.len() == len,
            count == (sy - r0) * cols,
            r == rect_sum(f, r0 as int, sy as int, c0 as int, c1 as int, 0),
            g == rect_sum(f, r0 as int, sy as int, c0 as int, c1 as int, 1),
            b == rect_sum(f, r0 as int, sy as int, c0 as int, c1 as int, 2),
            r <= 255 * count,
            g <= 255 * count,
            b <= 255 * count,
        decreases r1 - sy,
    {
        assert((sy - r0 + 1) * cols <= (r1 - r0) * cols) by (nonlinear_arith)
            requires
                sy + 1 <= r1,
                cols >= 0,
        ;
        assert((sy - r0 + 1) * cols == (sy - r0) * cols + cols) by (nonlinear_arith);
        let mut sx = c0;
        while sx < c1
            invariant
                f.wf(),
                f.width >= 1,
                f.height >= 1,
                r0 <= sy < r1 <= sh,
                c0 <= sx <= c1 <= sw,
                cols == c1 - c0,
                sw == f.sampled_width(),
                sh == f.sampled_height(),
                (sy - r0 + 1) * cols <= f.data@.len(),
                f.data@.len() == len,
                count == (sy - r0) * cols + (sx - c0),
                (sy - r0 + 1) * cols == (sy - r0) * cols + cols,
                r == rect_sum(f, r0 as int, sy as int, c0 as int, c1 as int, 0) + row_sum(f, sy as int, c0 as int, sx as int, 0),
                g == rect_sum(f, r0 as int, sy as int, c0 as int, c1 as int, 1) + row_sum(f, sy as int, c0 as int, sx as int, 1),
                b == rect_sum(f, r0 as int, sy as int, c0 as int, c1 as int, 2) + row_sum(f, sy as int, c0 as int, sx as int, 2),
                r <= 255 * count,
                g <= 255 * count,
                b <= 255 * count,
            decreases c1 - sx,
        {
            let p = pixel(f, sx, sy);
            r = r + p[0] as u128;
            g = g + p[1] as u128;
            b = b + p[2] as u128;
            count = count + 1;
            sx = sx + 1;
        }
        sy = sy + 1;
    }
    assert(r0 < r1 && c0 < c1 ==> (r1 - r0) * cols >= 1) by (nonlinear_arith)
        requires
            cols == c1 - c0,
    ;
    ZoneSum { r, g, b, count }
}

/// The first sample of zone `z` when `len` samples are split into `n`
/// zones.
pub open spec fn zone_start(z: int, len: int, n: int) -> int {
    z * len / n
}

/// One past the last sample of zone `z`; every zone holds at least one
/// sample.
pub open spec fn zone_end(z: int, len: int, n: int) -> int {
    if (z + 1) * len / n >= zone_start(z, len, n) + 1 {
        (z + 1) * len / n
    } else {
        zone_start(z, len, n) + 1
    }
}

/// Every zone holds at least one sample and lies within the edge.
pub proof fn lemma_zone_bounds(z: int, len: int, n: int)
    requires
        0 <= z < n,
        len >= 1,
    ensures
        0 <= zone_start(z, len, n) < zone_end(z, len, n) <= len,
        zone_start(z, len, n) * n <= z * len < (zone_start(z, len, n) + 1) * n,
        zone_end(z, len, n) == zone_start(z, len, n) + 1 || zone_end(z, len, n) * n <= (z + 1) * len < (
        zone_end(z, len, n) + 1) * n,
{
    vstd::arithmetic::div_mod::lemma_fundamental_div_mod(z * len, n);
    vstd::arithmetic::div_mod::lemma_fundamental_div_mod((z + 1) * len, n);
    vstd::arithmetic::div_mod::lemma_mod_bound(z * len, n);
    vstd::arithmetic::div_mod::lemma_mod_bound((z + 1) * len, n);
    assert(zone_start(z, len, n) * n <= z * len < (zone_start(z, len, n) + 1) * n) by (nonlinear_arith)
        requires
            z * len == n * (z * len / n) + (z * len) % n,
            0 <= (z * len) % n < n,
            zone_start(z, len, n) == z * len / n,
    ;
    assert((z + 1) * len / n * n <= (z + 1) * len < ((z + 1) * len / n + 1) * n) by (nonlinear_arith)
        requires
            (z + 1) * len == n * ((z + 1) * len / n) + ((z + 1) * len) % n,
            0 <= ((z + 1) * len) % n < n,
    ;
    assert(z * len < n * len) by (nonlinear_arith)
        requires
            0 <= z < n,
            len >= 1,
    ;
    assert((z + 1) * len <= n * len) by (nonlinear_arith)
        requires
            0 <= z < n,
            len >= 1,
    ;
    assert(0 <= z * len) by (nonlinear_arith)
        requires
            0 <= z,
            len >= 1,
    ;
    vstd::arithmetic::div_mod::lemma_multiply_divide_lt(z * len, n, len);
    vstd::arithmetic::div_mod::lemma_multiply_divide_le((z + 1) * len, n, len);
    vstd::arithmetic::div_mod::lemma_div_pos_is_pos(z * len, n);
}

fn zone_bounds(z: usize, len: usize, n: usize) -> (r: (usize, usize))
    requires
        z < n,
        len >= 1,
    ensures
        r.0 == zone_start(z as int, len as int, n as int),
        r.1 == zone_end(z as int, len as int, n as int),
        r.0 < r.1 <= len,
{
    proof {
        lemma_zone_bounds(z as int, len as int, n as int);
        assert((z as u128) * (len as u128) < u128::MAX) by (nonlinear_arith)
            requires
                z < n,
                n <= usize::MAX,
                len <= usize::MAX,
                usize::MAX < 0x1_0000_0000_0000_0000,
        ;
        assert(((z + 1) as u128) * (len as u128) <= u128::MAX) by (nonlinear_arith)
            requires
                z < n,
                n <= usize::MAX,
                len <= usize::MAX,
                usize::MAX < 0x1_0000_0000_0000_0000,
        ;
    }
    let start = ((z as u128) * (len as u128) / (n as u128)) as usize;
    let next = (((z as u128) + 1) * (len as u128) / (n as u128)) as usize;
    let end = if next >= start + 1 {
        next
    } else {
        start + 1
    };
    (start, end)
}

/// `n` zones side by side across the sampled width, over rows `r0 .. r1`.
fn zones_across(f: &Frame, r0: usize, r1: usize, n: usize) -> (out: Vec<ZoneSum>)
    requires
        f.wf(),
        f.width >= 1,
        f.height >= 1,
        r0 <= r1 <= f.sampled_height(),
    ensures
        out@.len() == n,
        forall|z: int|
            0 <= z < n ==> #[trigger] out@[z] == zone_of(
                f,
                r0 as int,
                r1 as int,
                zone_start(z, f.sampled_width() as int, n as int),
                zone_end(z, f.sampled_width() as int, n as int),
            ),
        r0 < r1 ==> forall|z: int| 0 <= z < n ==> #[trigger] out@[z].count >= 1,
{
    let sw = sampled_count(f.width, f.step);
    proof {
        lemma_sampled_len_le(f.width as nat, f.step as nat);
    }
    let mut out: Vec<ZoneSum> = Vec::new();
    for z in 0..n
        invariant
            f.wf(),
            f.width >= 1,
            f.height >= 1,
            r0 <= r1 <= f.sampled_height(),
            sw == f.sampled_width(),
            sw >= 1,
            out@.len() == z,
            r0 < r1 ==> forall|k: int| 0 <= k < z ==> #[trigger] out@[k].count >= 1,
            forall|k: int|
                0 <= k < z ==> #[trigger] out@[k] == zone_of(
                    f,
                    r0 as int,
                    r1 as int,
                    zone_start(k, sw as int, n as int),
                    zone_end(k, sw as int, n as int),
                ),
    {
        let (c0, c1) = zone_bounds(z, sw, n);
        out.push(zone_sum(f, r0, r1, c0, c1));
    }
    out
}

/// `n` zones stacked down the sampled height, over columns `c0 .. c1`.
fn zones_down(f: &Frame, c0: usize, c1: usize, n: usize) -> (out: Vec<ZoneSum>)
    requires
        f.wf(),
        f.width >= 1,
        f.height >= 1,
        c0 <= c1 <= f.sampled_width(),
    ensures
        out@.len() == n,
        forall|z: int|
            0 <= z < n ==> #[trigger] out@[z] == zone_of(
                f,
                zone_start(z, f.sampled_height() as int, n as int),
                zone_end(z, f.sampled_height() as int, n as int),
                c0 as int,
                c1 as int,
            ),
        c0 < c1 ==> forall|z: int| 0 <= z < n ==> #[trigger] out@[z].count >= 1,
{
    let sh = sampled_count(f.height, f.step);
    proof {
        lemma_sampled_len_le(f.height as nat, f.step as nat);
    }
    let mut out: Vec<ZoneSum> = Vec::new();
    for z in 0..n
        invariant
            f.wf(),
            f.width >= 1,
            f.height >= 1,
            c0 <= c1 <= f.sampled_width(),
            sh == f.sampled_height(),
            sh >= 1,
            out@.len() == z,
            c0 < c1 ==> forall|k: int| 0 <= k < z ==> #[trigger] out@[k].count >= 1,
            forall|k: int|
                0 <= k < z ==> #[trigger] out@[k] == zone_of(
                    f,
                    zone_start(k, sh as int, n as int),
                    zone_end(k, sh as int, n as int),
                    c0 as int,
                    c1 as int,
                ),
    {
        let (r0, r1) = zone_bounds(z, sh, n);
        out.push(zone_sum(f, r0, r1, c0, c1));
    }
    out
}

/// The band depth in sampled rows: the requested depth clamped to
/// `1 ..= sh`.
pub open spec fn band_depth(band: int, sh: int) -> int {
    if band < 1 {
        1
    } else if band > sh {
        sh
    } else {
        band
    }
}

/// The band width in sampled columns of the side edges: the band depth,
/// but no more than the sampled width.
pub open spec fn band_width(band: int, sh: int, sw: int) -> int {
    if band_depth(band, sh) < sw {
        band_depth(band, sh)
    } else {
        sw
    }
}

/// The zone sums of every edge, in canonical reading order: top and bottom
/// run left to right, left and right run top to bottom. `band` is the
/// depth, in sampled rows, of the band along each edge that the zones
/// cover; it is clamped to the sampled height, and to the sampled width for
/// the side edges.
pub fn edge_sums(f: &Frame, band: usize, l: &Layout) -> (e: EdgeColors<ZoneSum>)
    requires
        f.wf(),
        f.width >= 1,
        f.height >= 1,
    ensures
        edges_fit(e, l@),
        forall|z: int| 0 <= z < l@.top ==> #[trigger] e.top@[z].count >= 1,
        forall|z: int| 0 <= z < l@.right ==> #[trigger] e.right@[z].count >= 1,
        forall|z: int| 0 <= z < l@.bottom ==> #[trigger] e.bottom@[z].count >= 1,
        forall|z: int| 0 <= z < l@.left ==> #[trigger] e.left@[z].count >= 1,
        ({
            let sw = f.sampled_width() as int;
            let sh = f.sampled_height() as int;
            let b = band_depth(band as int, sh);
            let bw = band_width(band as int, sh, sw);
            &&& forall|z: int|
                0 <= z < l@.top ==> #[trigger] e.top@[z] == zone_of(
                    f,
                    0,
                    b,
                    zone_start(z, sw, l@.top as int),
                    zone_end(z, sw, l@.top as int),
                )
            &&& forall|z: int|
                0 <= z < l@.bottom ==> #[trigger] e.bottom@[z] == zone_of(
                    f,
                    sh - b,
                    sh,
                    zone_start(z, sw, l@.bottom as int),
                    zone_end(z, sw, l@.bottom as int),
                )
            &&& forall|z: int|
                0 <= z < l@.left ==> #[trigger] e.left@[z] == zone_of(
                    f,
                    zone_start(z, sh, l@.left as int),
                    zone_end(z, sh, l@.left as int),
                    0,
                    bw,
                )
            &&& forall|z: int|
                0 <= z < l@.right ==> #[trigger] e.right@[z] == zone_of(
                    f,
                    zone_start(z, sh, l@.right as int),
                    zone_end(z, sh, l@.right as int),
                    sw - bw,
                    sw,
                )
        }),
{
    let sw = sampled_count(f.width, f.step);
    let sh = sampled_count(f.height, f.step);
    proof {
        lemma_sampled_len_le(f.width as nat, f.step as nat);
        lemma_sampled_len_le(f.height as nat, f.step as nat);
    }
    let b = if band < 1 {
        1
    } else if band > sh {
        sh
    } else {
        band
    };
    let bw = if b < sw {
        b
    } else {
        sw
    };
    EdgeColors {
        top: zones_across(f, 0, b, l.top()),
        bottom: zones_across(f, sh - b, sh, l.bottom()),
        left: zones_down(f, 0, bw, l.left()),
        right: zones_down(f, sw - bw, sw, l.right()),
    }
}

/// The sampled rows `0 .. rows` of the frame as packed red, green, blue
/// bytes, row after row.
pub open spec fn sampled_rows(f: &Frame, rows: int) -> Seq<u8>
    decreases rows,
{
    if rows <= 0 {
        Seq::empty()
    } else {
        sampled_rows(f, rows - 1) + sampled_row(f, rows - 1, f.sampled_width() as int)
    }
}

/// The first `cols` samples of row `sy` as packed red, green, blue bytes.
pub open spec fn sampled_row(f: &Frame, sy: int, cols: int) -> Seq<u8>
    decreases cols,
{
    if cols <= 0 {
        Seq::empty()
    } else {
        sampled_row(f, sy, cols - 1) + seq![
            f.channel(cols - 1, sy, 0),
            f.channel(cols - 1, sy, 1),
            f.channel(cols - 1, sy, 2),
        ]
    }
}

/// The subsampled frame as packed RGB, with its width and height.
pub fn sampled_rgb(f: &Frame) -> (r: (Vec<u8>, usize, usize))
    requires
        f.wf(),
    ensures
        r.1 == f.sampled_width(),
        r.2 == f.sampled_height(),
        r.0@ == sampled_rows(f, r.2 as int),
        r.0@.len() == r.1 * r.2 * 3,
        forall|x: int, y: int, c: int|
            0 <= x < r.1 && 0 <= y < r.2 && 0 <= c < 3 ==> #[trigger] r.0@[(y * r.1 + x) * 3 + c]
                == f.channel(x, y, c),
        forall|x: int, y: int|
            0 <= x < r.1 && 0 <= y < r.2 ==> {
                let i = y * f.step * f.stride + x * f.step * 4;
                &&& #[trigger] r.0@[(y * r.1 + x) * 3] == f.data@[i + 2]
                &&& r.0@[(y * r.1 + x) * 3 + 1] == f.data@[i + 1]
                &&& r.0@[(y * r.1 + x) * 3 + 2] == f.data@[i]
            },
{
    let sw = sampled_count(f.width, f.step);
    let sh = sampled_count(f.height, f.step);
    proof {
        lemma_sampled_len_le(f.width as nat, f.step as nat);
        lemma_sampled_len_le(f.height as nat, f.step as nat);
    }
    let mut out: Vec<u8> = Vec::new();
    let mut sy: usize = 0;
    while sy < sh
        invariant
            f.wf(),
            sw == f.sampled_width(),
            sh == f.sampled_height(),
            sw <= f.width,
            sh <= f.height,
            sy <= sh,
            out@ == sampled_rows(f, sy as int),
            out@.len() == sy * sw * 3,
        decreases sh - sy,
    {
        let ghost before = out@;
        let mut sx: usize = 0;
        while sx < sw
            invariant
                f.wf(),
                sw == f.sampled_width(),
                sh == f.sampled_height(),
                sw <= f.width,
                sh <= f.height,
                sy < sh,
                sx <= sw,
                out@ == before + sampled_row(f, sy as int, sx as int),
                before.len() == sy * sw * 3,
                out@.len() == before.len() + sx * 3,
            decreases sw - sx,
        {
            let p = pixel(f, sx, sy);
            out.push(p[0]);
            out.push(p[1]);
            out.push(p[2]);
            assert(out@ =~= before + sampled_row(f, sy as int, sx + 1));
            sx = sx + 1;
        }
        assert(out@ =~= sampled_rows(f, sy + 1));
        assert((sy + 1) * sw * 3 == sy * sw * 3 + sw * 3) by (nonlinear_arith);
        sy = sy + 1;
    }
    assert(sh * sw * 3 == sw * sh * 3) by (nonlinear_arith);
    proof {
        assert forall|x: int, y: int, c: int|
            0 <= x < sw && 0 <= y < sh && 0 <= c < 3 implies #[trigger] out@[(y * sw + x) * 3 + c]
                == f.channel(x, y, c) by {
            lemma_sampled_rows_index(f, sh as int, x, y, c);
        }
        assert forall|x: int, y: int| 0 <= x < sw && 0 <= y < sh implies {
            let i = y * f.step * f.stride + x * f.step * 4;
            &&& #[trigger] out@[(y * sw + x) * 3] == f.data@[i + 2]
            &&& out@[(y * sw + x) * 3 + 1] == f.data@[i + 1]
            &&& out@[(y * sw + x) * 3 + 2] == f.data@[i]
        } by {
            lemma_sampled_rows_index(f, sh as int, x, y, 0);
            lemma_sampled_rows_index(f, sh as int, x, y, 1);
            lemma_sampled_rows_index(f, sh as int, x, y, 2);
        }
    }
    (out, sw, sh)
}

/// Where an edge has at least as many samples as zones, its zones tile it:
/// the first starts at its beginning, each ends where the next starts, and
/// the last ends at its end.
pub proof fn lemma_zones_tile(len: int, n: int)
    requires
        1 <= n <= len,
    ensures
        zone_start(0, len, n) == 0,
        zone_end(n - 1, len, n) == len,
        forall|z: int| 0 <= z < n - 1 ==> #[trigger] zone_end(z, len, n) == zone_start(z + 1, len, n),
{
    assert forall|z: int| 0 <= z < n implies #[trigger] zone_end(z, len, n) == (z + 1) * len / n by {
        let q = z * len / n;
        assert(0 <= z * len) by (nonlinear_arith)
            requires
                0 <= z,
                len >= 1,
        ;
        vstd::arithmetic::div_mod::lemma_fundamental_div_mod(z * len, n);
        vstd::arithmetic::div_mod::lemma_div_pos_is_pos(z * len, n);
        assert(n * (q + 1) <= (z + 1) * len) by (nonlinear_arith)
            requires
                z * len == n * q + (z * len) % n,
                0 <= (z * len) % n,
                n <= len,
        ;
        vstd::arithmetic::div_mod::lemma_div_is_ordered(n * (q + 1), (z + 1) * len, n);
        vstd::arithmetic::div_mod::lemma_div_by_multiple(q + 1, n);
        assert(n * (q + 1) == (q + 1) * n) by (nonlinear_arith);
    }
    assert(zone_end(n - 1, len, n) == len) by {
        vstd::arithmetic::div_mod::lemma_div_by_multiple(len, n);
        assert(n * len == len * n) by (nonlinear_arith);
    }
}

/// A corner's name reads back as the corner.
pub proof fn lemma_corner_name_parses(c: Corner)
    ensures
        corner_named(corner_name(c)) == Some(c),
{
}

proof fn lemma_sampled_row_index(f: &Frame, sy: int, cols: int, x: int, c: int)
    requires
        0 <= x < cols,
        0 <= c < 3,
    ensures
        sampled_row(f, sy, cols).len() == 3 * cols,
        sampled_row(f, sy, cols)[3 * x + c] == f.channel(x, sy, c),
    decreases cols,
{
    lemma_sampled_row_len(f, sy, cols - 1);
    if x < cols - 1 {
        lemma_sampled_row_index(f, sy, cols - 1, x, c);
    }
}

proof fn lemma_sampled_row_len(f: &Frame, sy: int, cols: int)
    requires
        cols >= 0,
    ensures
        sampled_row(f, sy, cols).len() == 3 * cols,
    decreases cols,
{
    if cols > 0 {
        lemma_sampled_row_len(f, sy, cols - 1);
    }
}

/// The dump of the sampled frame is packed row after row: the byte for
/// channel `c` of the sample at column `x`, row `y` stands at
/// `(y * width + x) * 3 + c`.
pub proof fn lemma_sampled_rows_index(f: &Frame, rows: int, x: int, y: int, c: int)
    requires
        0 <= y < rows,
        0 <= x < f.sampled_width(),
        0 <= c < 3,
    ensures
        sampled_rows(f, rows).len() == rows * f.sampled_width() * 3,
        sampled_rows(f, rows)[(y * f.sampled_width() + x) * 3 + c] == f.channel(x, y, c),
    decreases rows,
{
    let sw = f.sampled_width() as int;
    lemma_sampled_rows_len(f, rows - 1);
    lemma_sampled_row_len(f, rows - 1, sw);
    assert((rows - 1) * sw * 3 + 3 * sw == rows * sw * 3) by (nonlinear_arith);
    if y < rows - 1 {
        lemma_sampled_rows_index(f, rows - 1, x, y, c);
        assert((y * sw + x) * 3 + c < (rows - 1) * sw * 3) by (nonlinear_arith)
            requires
                0 <= y < rows - 1,
                0 <= x < sw,
                0 <= c < 3,
        ;
    } else {
        lemma_sampled_row_index(f, y, sw, x, c);
        assert((y * sw + x) * 3 + c == (rows - 1) * sw * 3 + (3 * x + c)) by (nonlinear_arith)
            requires
                y == rows - 1,
        ;
    }
}

proof fn lemma_sampled_rows_len(f: &Frame, rows: int)
    requires
        rows >= 0,
    ensures
        sampled_rows(f, rows).len() == rows * f.sampled_width() * 3,
    decreases rows,
{
    if rows > 0 {
        lemma_sampled_rows_len(f, rows - 1);
        lemma_sampled_row_len(f, rows - 1, f.sampled_width() as int);
        assert((rows - 1) * f.sampled_width() * 3 + 3 * f.sampled_width() == rows * f.sampled_width() * 3)
            by (nonlinear_arith);
    } else {
        assert(rows * f.sampled_width() * 3 == 0) by (nonlinear_arith)
            requires
                rows == 0,
        ;
    }
}

/// Where the strip starts and which way it runs fix the walk. Clockwise
/// from the bottom-left corner: left edge upward, top left to right, right
/// edge downward, bottom right to left; from another corner the same loop
/// begins at that corner; counterclockwise walks the loop backward.
pub proof fn lemma_strip_walk<T>(e: EdgeColors<T>, l: LayoutModel)
    ensures
        match (l.start, l.clockwise) {
            (Corner::Bl, true) => chain_order(e, l) == e.left@.reverse() + e.top@ + e.right@ + e.bottom@.reverse(),
            (Corner::Tl, true) => chain_order(e, l) == e.top@ + e.right@ + e.bottom@.reverse() + e.left@.reverse(),
            (Corner::Tr, true) => chain_order(e, l) == e.right@ + e.bottom@.reverse() + e.left@.reverse() + e.top@,
            (Corner::Br, true) => chain_order(e, l) == e.bottom@.reverse() + e.left@.reverse() + e.top@ + e.right@,
            (Corner::Bl, false) => chain_order(e, l) == e.bottom@ + e.right@.reverse() + e.top@.reverse() + e.left@,
            (Corner::Tl, false) => chain_order(e, l) == e.left@ + e.bottom@ + e.right@.reverse() + e.top@.reverse(),
            (Corner::Tr, false) => chain_order(e, l) == e.top@.reverse() + e.left@ + e.bottom@ + e.right@.reverse(),
            (Corner::Br, false) => chain_order(e, l) == e.right@.reverse() + e.top@.reverse() + e.left@ + e.bottom@,
        },
{
    reveal_with_fuel(chain_prefix, 5);
}

/// A zone of one sample sums that sample: red is the third byte of a BGRx
/// pixel, green the second, blue the first.
pub proof fn lemma_one_sample_zone(f: &Frame, x: int, y: int)
    ensures
        ({
            let i = y * f.step * f.stride + x * f.step * 4;
            let z = zone_of(f, y, y + 1, x, x + 1);
            &&& z.r == f.data@[i + 2]
            &&& z.g == f.data@[i + 1]
            &&& z.b == f.data@[i]
            &&& z.count == 1
        }),
{
    assert forall|c: int| #[trigger] rect_sum(f, y, y + 1, x, x + 1, c) == f.channel(x, y, c) by {
        assert(rect_sum(f, y, y, x, x + 1, c) == 0);
        assert(row_sum(f, y, x, x, c) == 0);
        assert(row_sum(f, y, x, x + 1, c) == f.channel(x, y, c));
    }
    assert(rect_sum(f, y, y + 1, x, x + 1, 0) == f.channel(x, y, 0));
    assert(rect_sum(f, y, y + 1, x, x + 1, 1) == f.channel(x, y, 1));
    assert(rect_sum(f, y, y + 1, x, x + 1, 2) == f.channel(x, y, 2));
    let i = y * f.step * f.stride + x * f.step * 4;
    let z = zone_of(f, y, y + 1, x, x + 1);
    assert(f.offset(x, y) == i);
    assert(z.r == f.channel(x, y, 0));
    assert((y + 1 - y) * (x + 1 - x) == 1) by (nonlinear_arith);
}

/// Zones add up: the sums over rows `r0 .. r2` are those over `r0 .. r1`
/// plus those over `r1 .. r2`.
pub proof fn lemma_rect_sum_splits(f: &Frame, r0: int, r1: int, r2: int, c0: int, c1: int, c: int)
    requires
        r0 <= r1 <= r2,
    ensures
        rect_sum(f, r0, r2, c0, c1, c) == rect_sum(f, r0, r1, c0, c1, c) + rect_sum(f, r1, r2, c0, c1, c),
    decreases r2 - r1,
{
    if r2 > r1 {
        lemma_rect_sum_splits(f, r0, r1, r2 - 1, c0, c1, c);
    }
}

/// The band along an edge is the requested depth when it lies between one
/// row and the sampled height, one row below that, the whole height above;
/// the side bands are no wider than the sampled width.
pub proof fn lemma_band_clamps(band: int, sh: int, sw: int)
    requires
        sh >= 1,
        sw >= 1,
    ensures
        1 <= band <= sh ==> band_depth(band, sh) == band,
        band < 1 ==> band_depth(band, sh) == 1,
        band > sh ==> band_depth(band, sh) == sh,
        band_width(band, sh, sw) <= sw,
        band_width(band, sh, sw) <= band_depth(band, sh),
        band_width(band, sh, sw) == band_depth(band, sh) || band_width(band, sh, sw) == sw,
        band_width(band, sh, sw) >= 1,
{
}

/// A corner's name says where it is: `b` for bottom or `t` for top, then
/// `l` for left or `r` for right.
pub proof fn lemma_corner_name_says_where(c: Corner)
    ensures
        corner_name(c).len() == 2,
        corner_name(c)[0] == (if c == Corner::Bl || c == Corner::Br { 'b' } else { 't' }),
        corner_name(c)[1] == (if c == Corner::Bl || c == Corner::Tl { 'l' } else { 'r' }),
{
}

} // verus!
