//! Box-layout solver.
//!
//! A tree of sizing declarations ([`Element`]) is resolved to a flat, ordered
//! list of draw rectangles ([`Instruction`]). Solving runs in two passes:
//! a bottom-up fit pass that computes every node's content-driven minimum
//! size, and a top-down grow pass that distributes leftover space among
//! `Grow` children, assigns absolute positions, and emits the rectangles in
//! pre-order. Content that cannot fit is reported as [`LayoutError`], never
//! wrapped or clamped. Both passes recurse over the tree, so the stack
//! depth a build needs is the depth of the tree.

use vstd::prelude::*;

verus! {

/// Sizing policy for one axis of an element.
#[derive(Debug, Clone, Copy, PartialEq, Eq, Structural)]
pub enum Sizing {
    /// Exactly large enough to contain the padded content.
    Fit,
    /// Consume a fair share of the parent's leftover space on that axis.
    Grow,
    /// Exactly this many pixels, independent of content or siblings.
    Fixed(u32),
}

/// Main-axis direction: the axis along which children are laid out in sequence.
#[derive(Debug, Clone, Copy, PartialEq, Eq, Structural)]
pub enum Direction {
    /// Children run horizontally; the cross axis is vertical.
    LeftRight,
    /// Children run vertically; the cross axis is horizontal.
    TopBottom,
}

/// A single draw command for an external renderer.
#[derive(Debug, Clone, Copy, PartialEq, Eq)]
pub enum Instruction {
    Rectangle { position: (u32, u32), size: (u32, u32) },
}

/// Why a layout could not be built. The path lists child indices from the
/// root down to the node where the failure was detected.
#[derive(Debug, Clone, PartialEq, Eq)]
pub enum LayoutError {
    /// The node's children require more main-axis space than the node has,
    /// or a size or coordinate would exceed the pixel range.
    Unsatisfiable(Vec<usize>),
}

/// A layout tree node: a sizing policy per axis, a uniform padding inset,
/// an inter-child gap along the main axis, and the ordered children.
#[derive(Debug)]
pub struct Element {
    /// Sizing policies: `size.0` governs the width, `size.1` the height.
    pub size: (Sizing, Sizing),
    /// Uniform inset applied on all four sides.
    pub padding: u32,
    /// Space inserted between consecutive children along the main axis.
    pub gap: u32,
    /// Which axis the children run along.
    pub direction: Direction,
    /// Ordered children; order affects gaps, positions and emission order.
    pub children: Vec<Element>,
}

impl Default for Element {
    /// A leaf with `Fit` sizing on both axes, no padding, no gap, laid out
    /// left-to-right.
    fn default() -> (r: Self)
        ensures
            r.size == (Sizing::Fit, Sizing::Fit),
            r.padding == 0u32,
            r.gap == 0u32,
            r.direction == Direction::LeftRight,
            r.children@.len() == 0,
    {
        Self {
            size: (Sizing::Fit, Sizing::Fit),
            padding: 0,
            gap: 0,
            direction: Direction::LeftRight,
            children: Vec::new(),
        }
    }
}

impl Element {
    /// A leaf with `Fit` sizing on both axes, no padding, no gap, laid out
    /// left-to-right.
    pub fn new() -> (r: Self)
        ensures
            r.size == (Sizing::Fit, Sizing::Fit),
            r.padding == 0u32,
            r.gap == 0u32,
            r.direction == Direction::LeftRight,
            r.children@.len() == 0,
    {
        Self {
            size: (Sizing::Fit, Sizing::Fit),
            padding: 0,
            gap: 0,
            direction: Direction::LeftRight,
            children: Vec::new(),
        }
    }
}

// ---------------------------------------------------------------------------
// Fit pass: the mathematical model.
// ---------------------------------------------------------------------------

/// The sizing policy an element declares for the given absolute axis
/// (`horiz` true picks the width policy).
pub open spec fn axis_policy(e: Element, horiz: bool) -> Sizing {
    if horiz {
        e.size.0
    } else {
        e.size.1
    }
}

/// Whether the element's main axis is the horizontal one.
pub open spec fn main_is_horiz(e: Element) -> bool {
    e.direction is LeftRight
}

/// Total main-axis space taken by the gaps between consecutive children.
pub open spec fn gap_total(e: Element) -> int {
    if e.children@.len() == 0 {
        0
    } else {
        e.gap * (e.children@.len() - 1)
    }
}

/// Content-driven minimum size of an element on the given absolute axis:
/// the declared pixel count for `Fixed`, else the padded content size.
pub open spec fn fit_size(e: Element, horiz: bool) -> int
    decreases e, 1nat,
{
    match axis_policy(e, horiz) {
        Sizing::Fixed(v) => v as int,
        _ => content_size(e, horiz) + 2 * e.padding,
    }
}

/// Aggregate size of the children on the given absolute axis: the gapped sum
/// along the main axis, the maximum across it.
pub open spec fn content_size(e: Element, horiz: bool) -> int
    decreases e, 0nat,
{
    if main_is_horiz(e) == horiz {
        fit_sum(e.children@, horiz, e.children@.len() as int) + gap_total(e)
    } else {
        fit_max(e.children@, horiz, e.children@.len() as int)
    }
}

/// Sum of the fit sizes of the first `k` elements on the given axis.
pub open spec fn fit_sum(cs: Seq<Element>, horiz: bool, k: int) -> int
    decreases cs, k,
{
    if k <= 0 || k > cs.len() {
        0
    } else {
        fit_sum(cs, horiz, k - 1) + fit_size(cs[k - 1], horiz)
    }
}

/// Maximum of the fit sizes of the first `k` elements on the given axis
/// (zero when there are none).
pub open spec fn fit_max(cs: Seq<Element>, horiz: bool, k: int) -> int
    decreases cs, k,
{
    if k <= 0 || k > cs.len() {
        0
    } else {
        let rest = fit_max(cs, horiz, k - 1);
        let last = fit_size(cs[k - 1], horiz);
        if last > rest {
            last
        } else {
            rest
        }
    }
}

/// Whether every node's content sums stay within the pixel range, checked
/// children first, in declared order; on failure, the path to the node.
pub open spec fn fit_check(e: Element) -> Result<(), Seq<usize>>
    decreases e, 1nat,
{
    match fit_check_from(e.children@, 0) {
        Err(p) => Err(p),
        Ok(u) => {
            if content_size(e, true) + 2 * e.padding <= u32::MAX
                && content_size(e, false) + 2 * e.padding <= u32::MAX {
                Ok(())
            } else {
                Err(Seq::empty())
            }
        },
    }
}

/// Fit check over the children from index `i` on; the first failure wins.
pub open spec fn fit_check_from(cs: Seq<Element>, i: int) -> Result<(), Seq<usize>>
    decreases cs, cs.len() - i,
{
    if i < 0 || i >= cs.len() {
        Ok(())
    } else {
        match fit_check(cs[i]) {
            Err(p) => Err(seq![i as usize] + p),
            Ok(u) => fit_check_from(cs, i + 1),
        }
    }
}

proof fn lemma_fit_nonneg(e: Element, horiz: bool)
    ensures
        fit_size(e, horiz) >= 0,
        content_size(e, horiz) >= 0,
    decreases e, 1nat,
{
    lemma_fit_seq_nonneg(e.children@, horiz, e.children@.len() as int);
}

proof fn lemma_fit_seq_nonneg(cs: Seq<Element>, horiz: bool, k: int)
    ensures
        fit_sum(cs, horiz, k) >= 0,
        fit_max(cs, horiz, k) >= 0,
    decreases cs, k,
{
    if k > 0 && k <= cs.len() {
        lemma_fit_seq_nonneg(cs, horiz, k - 1);
        lemma_fit_nonneg(cs[k - 1], horiz);
    }
}

/// A node that passes the fit check has both fit sizes in the pixel range.
proof fn lemma_fit_bounds(e: Element, horiz: bool)
    requires
        fit_check(e) is Ok,
    ensures
        0 <= fit_size(e, horiz) <= u32::MAX,
{
    lemma_fit_nonneg(e, horiz);
}

/// If the first `i` children pass the fit check, checking from the start is
/// the same as checking from `i`.
proof fn lemma_fit_check_from_skip(cs: Seq<Element>, i: int)
    requires
        0 <= i <= cs.len(),
        forall|j: int| 0 <= j < i ==> fit_check(cs[j]) is Ok,
    ensures
        fit_check_from(cs, 0) == fit_check_from(cs, i),
    decreases i,
{
    if i > 0 {
        lemma_fit_check_from_skip_step(cs, i - 1);
        lemma_fit_check_from_skip(cs, i - 1);
    }
}

proof fn lemma_fit_check_from_skip_step(cs: Seq<Element>, i: int)
    requires
        0 <= i < cs.len(),
        fit_check(cs[i]) is Ok,
    ensures
        fit_check_from(cs, i) == fit_check_from(cs, i + 1),
{
}

// ---------------------------------------------------------------------------
// Fit pass: the executable bottom-up traversal.
// ---------------------------------------------------------------------------

/// A size-annotated copy of the layout tree, produced by [`pass_fit`]:
/// each node carries its content-driven minimum size next to its declaration.
struct Fitted {
    width: u32,
    height: u32,
    size: (Sizing, Sizing),
    padding: u32,
    gap: u32,
    direction: Direction,
    children: Vec<Fitted>,
}

/// The annotated tree mirrors the element tree and stores its fit sizes.
spec fn annotated(e: Element, f: Fitted) -> bool
    decreases e,
{
    &&& f.size == e.size
    &&& f.padding == e.padding
    &&& f.gap == e.gap
    &&& f.direction == e.direction
    &&& f.width == fit_size(e, true)
    &&& f.height == fit_size(e, false)
    &&& f.children@.len() == e.children@.len()
    &&& forall|i: int|
        0 <= i < e.children@.len() ==> annotated(e.children@[i], #[trigger] f.children@[i])
}

/// Bottom-up fit pass: computes every node's content-driven minimum size.
/// Fails exactly when some node's padded content sum leaves the pixel range,
/// naming that node.
fn pass_fit(e: &Element) -> (r: Result<Fitted, LayoutError>)
    ensures
        match r {
            Ok(f) => fit_check(*e) is Ok && annotated(*e, f),
            Err(le) => match le {
                LayoutError::Unsatisfiable(p) => fit_check(*e) == Err::<(), Seq<usize>>(p@),
            },
        },
    decreases *e,
{
    let ghost cs = e.children@;
    let ghost mh = main_is_horiz(*e);
    let n = e.children.len();
    let mut kids: Vec<Fitted> = Vec::new();
    // Running gapped sum of child main-axis fit sizes, with an overflow flag
    // that latches once the sum leaves the pixel range.
    let mut sum_main: u64 = 0;
    let mut over: bool = false;
    let mut max_cross: u32 = 0;
    let mut i: usize = 0;
    while i < n
        invariant
            n == cs.len(),
            cs == e.children@,
            mh == main_is_horiz(*e),
            i <= n,
            kids@.len() == i,
            forall|j: int| 0 <= j < i ==> fit_check(cs[j]) is Ok,
            forall|j: int| 0 <= j < i ==> annotated(cs[j], #[trigger] kids@[j]),
            !over ==> sum_main == fit_sum(cs, mh, i as int) + (if i == 0 {
                0int
            } else {
                e.gap * (i - 1)
            }) && sum_main <= u32::MAX,
            over ==> fit_sum(cs, mh, i as int) + (if i == 0 {
                0int
            } else {
                e.gap * (i - 1)
            }) > u32::MAX,
            max_cross == fit_max(cs, !mh, i as int),
        decreases n - i,
    {
        match pass_fit(&e.children[i]) {
            Err(le) => {
                match le {
                    LayoutError::Unsatisfiable(mut p) => {
                        let ghost p0 = p@;
                        p.insert(0, i);
                        proof {
                            lemma_fit_check_from_skip(cs, i as int);
                            assert(p@ =~= seq![i] + p0);
                        }
                        return Err(LayoutError::Unsatisfiable(p));
                    },
                }
            },
            Ok(f) => {
                proof {
                    lemma_fit_bounds(cs[i as int], mh);
                    lemma_fit_bounds(cs[i as int], !mh);
                    lemma_fit_seq_nonneg(cs, mh, i as int);
                    lemma_fit_nonneg(cs[i as int], mh);
                }
                let fm = if e.direction_is_horiz() { f.width } else { f.height };
                let fc = if e.direction_is_horiz() { f.height } else { f.width };
                if !over {
                    if i > 0 {
                        sum_main = sum_main + e.gap as u64;
                    }
                    sum_main = sum_main + fm as u64;
                    if sum_main > u32::MAX as u64 {
                        over = true;
                    }
                }
                if fc > max_cross {
                    max_cross = fc;
                }
                kids.push(f);
                proof {
                    assert(fit_sum(cs, mh, i + 1) == fit_sum(cs, mh, i as int) + fit_size(
                        cs[i as int],
                        mh,
                    ));
                    assert(fit_max(cs, !mh, i + 1) == (if fit_size(cs[i as int], !mh) > fit_max(
                        cs,
                        !mh,
                        i as int,
                    ) {
                        fit_size(cs[i as int], !mh)
                    } else {
                        fit_max(cs, !mh, i as int)
                    }));
                    if i > 0 {
                        assert(e.gap * (i as int) == e.gap * (i as int - 1) + e.gap)
                            by (nonlinear_arith);
                    }
                }
            },
        }
        i = i + 1;
    }
    proof {
        lemma_fit_check_from_skip(cs, n as int);
        lemma_fit_seq_nonneg(cs, mh, n as int);
        lemma_fit_seq_nonneg(cs, !mh, n as int);
        assert(fit_sum(cs, mh, n as int) + gap_total(*e) == fit_sum(cs, mh, n as int) + (if n
            == 0 {
            0int
        } else {
            e.gap * (n - 1)
        }));
    }
    let pad2: u64 = 2 * (e.padding as u64);
    let main_total: u64 = if over { u32::MAX as u64 + 1 } else { sum_main + pad2 };
    let cross_total: u64 = max_cross as u64 + pad2;
    if main_total > u32::MAX as u64 || cross_total > u32::MAX as u64 {
        let empty: Vec<usize> = Vec::new();
        proof {
            assert(empty@ =~= Seq::<usize>::empty());
        }
        return Err(LayoutError::Unsatisfiable(empty));
    }
    let content_main: u32 = (main_total - pad2) as u32;
    let content_w: u32 = if e.direction_is_horiz() { content_main } else { max_cross };
    let content_h: u32 = if e.direction_is_horiz() { max_cross } else { content_main };
    let width: u32 = match e.size.0 {
        Sizing::Fixed(v) => v,
        _ => content_w + 2 * e.padding,
    };
    let height: u32 = match e.size.1 {
        Sizing::Fixed(v) => v,
        _ => content_h + 2 * e.padding,
    };
    Ok(Fitted {
        width,
        height,
        size: e.size,
        padding: e.padding,
        gap: e.gap,
        direction: e.direction,
        children: kids,
    })
}

impl Element {
    /// Whether this element lays its children out horizontally.
    fn direction_is_horiz(&self) -> (r: bool)
        ensures
            r == main_is_horiz(*self),
    {
        match self.direction {
            Direction::LeftRight => true,
            Direction::TopBottom => false,
        }
    }
}

// ---------------------------------------------------------------------------
// Grow pass: the equalize algorithm on the main axis.
// ---------------------------------------------------------------------------

/// The sizes of a child row as mathematical integers.
pub open spec fn ints(s: Seq<u32>) -> Seq<int> {
    Seq::new(s.len(), |i: int| s[i] as int)
}

/// How many of the first `k` entries are marked growable.
pub open spec fn count_masked(g: Seq<bool>, k: int) -> int
    decreases k,
{
    if k <= 0 || k > g.len() {
        0
    } else {
        count_masked(g, k - 1) + if g[k - 1] {
            1int
        } else {
            0int
        }
    }
}

/// Sum of the first `k` entries.
pub open spec fn psum(ms: Seq<int>, k: int) -> int
    decreases k,
{
    if k <= 0 || k > ms.len() {
        0
    } else {
        psum(ms, k - 1) + ms[k - 1]
    }
}

/// Minimum among growable entries from index `k` on, folded into `acc`.
pub open spec fn min_masked(ms: Seq<int>, g: Seq<bool>, k: int, acc: Option<int>) -> Option<int>
    decreases ms.len() - k,
{
    if k < 0 || k >= ms.len() {
        acc
    } else {
        let acc2 = if g[k] {
            match acc {
                None => Some(ms[k]),
                Some(a) => if ms[k] < a {
                    Some(ms[k])
                } else {
                    acc
                },
            }
        } else {
            acc
        };
        min_masked(ms, g, k + 1, acc2)
    }
}

/// Minimum among growable entries strictly greater than `m`, from `k` on.
pub open spec fn next_tier(ms: Seq<int>, g: Seq<bool>, k: int, m: int, acc: Option<int>) -> Option<
    int,
>
    decreases ms.len() - k,
{
    if k < 0 || k >= ms.len() {
        acc
    } else {
        let acc2 = if g[k] && ms[k] > m {
            match acc {
                None => Some(ms[k]),
                Some(a) => if ms[k] < a {
                    Some(ms[k])
                } else {
                    acc
                },
            }
        } else {
            acc
        };
        next_tier(ms, g, k + 1, m, acc2)
    }
}

/// How many of the first `k` entries are growable and currently at size `m`.
pub open spec fn count_at(ms: Seq<int>, g: Seq<bool>, m: int, k: int) -> int
    decreases k,
{
    if k <= 0 || k > ms.len() {
        0
    } else {
        count_at(ms, g, m, k - 1) + if g[k - 1] && ms[k - 1] == m {
            1int
        } else {
            0int
        }
    }
}

/// Adds `d` to every growable entry currently at size `m`.
pub open spec fn bump(ms: Seq<int>, g: Seq<bool>, m: int, d: int) -> Seq<int> {
    Seq::new(
        ms.len(),
        |i: int|
            if g[i] && ms[i] == m {
                ms[i] + d
            } else {
                ms[i]
            },
    )
}

/// Gives one extra pixel to the first `r` growable entries, in declared order.
pub open spec fn ones(ms: Seq<int>, g: Seq<bool>, r: int) -> Seq<int> {
    Seq::new(
        ms.len(),
        |i: int|
            if g[i] && count_masked(g, i) < r {
                ms[i] + 1
            } else {
                ms[i]
            },
    )
}

proof fn lemma_count_masked_mono(g: Seq<bool>, k1: int, k2: int)
    requires
        k1 <= k2 <= g.len(),
    ensures
        count_masked(g, k1) <= count_masked(g, k2),
    decreases k2 - k1,
{
    if k1 < k2 {
        lemma_count_masked_mono(g, k1, k2 - 1);
    }
}

proof fn lemma_count_masked_exists(g: Seq<bool>, k: int)
    requires
        count_masked(g, k) > 0,
    ensures
        exists|i: int| 0 <= i < k && i < g.len() && g[i],
    decreases k,
{
    if k > 0 && k <= g.len() {
        if g[k - 1] {
        } else {
            lemma_count_masked_exists(g, k - 1);
        }
    }
}

proof fn lemma_count_masked_strict(g: Seq<bool>, i: int, k: int)
    requires
        0 <= i < k <= g.len(),
        g[i],
    ensures
        count_masked(g, i) < count_masked(g, k),
{
    lemma_count_masked_mono(g, i + 1, k);
}

/// What the accumulator fold for the minimum over growable entries computes.
proof fn lemma_min_masked_props(ms: Seq<int>, g: Seq<bool>, k: int, acc: Option<int>)
    requires
        ms.len() == g.len(),
        0 <= k,
    ensures
        match min_masked(ms, g, k, acc) {
            None => acc is None && forall|i: int| k <= i < ms.len() ==> !g[i],
            Some(m) => {
                &&& (acc == Some(m) || exists|i: int| k <= i < ms.len() && g[i] && ms[i] == m)
                &&& forall|i: int| k <= i < ms.len() && g[i] ==> m <= ms[i]
                &&& match acc {
                    Some(a) => m <= a,
                    None => true,
                }
            },
        },
    decreases ms.len() - k,
{
    if k < ms.len() {
        let acc2 = if g[k] {
            match acc {
                None => Some(ms[k]),
                Some(a) => if ms[k] < a {
                    Some(ms[k])
                } else {
                    acc
                },
            }
        } else {
            acc
        };
        lemma_min_masked_props(ms, g, k + 1, acc2);
        match min_masked(ms, g, k, acc) {
            None => {},
            Some(m) => {
                if acc2 == Some(m) && acc != Some(m) {
                    assert(g[k] && ms[k] == m);
                } else if acc2 != Some(m) {
                    let w = choose|i: int| k + 1 <= i < ms.len() && g[i] && ms[i] == m;
                    assert(k <= w < ms.len() && g[w] && ms[w] == m);
                }
            },
        }
    }
}

/// What the accumulator fold for the next size tier computes.
proof fn lemma_next_tier_props(ms: Seq<int>, g: Seq<bool>, k: int, m: int, acc: Option<int>)
    requires
        ms.len() == g.len(),
        0 <= k,
        match acc {
            Some(a) => a > m,
            None => true,
        },
    ensures
        match next_tier(ms, g, k, m, acc) {
            None => acc is None && forall|i: int| k <= i < ms.len() && g[i] ==> ms[i] <= m,
            Some(v) => v > m && (acc == Some(v) || exists|i: int|
                k <= i < ms.len() && g[i] && ms[i] == v),
        },
    decreases ms.len() - k,
{
    if k < ms.len() {
        let acc2 = if g[k] && ms[k] > m {
            match acc {
                None => Some(ms[k]),
                Some(a) => if ms[k] < a {
                    Some(ms[k])
                } else {
                    acc
                },
            }
        } else {
            acc
        };
        lemma_next_tier_props(ms, g, k + 1, m, acc2);
        match next_tier(ms, g, k, m, acc) {
            None => {},
            Some(v) => {
                if acc2 == Some(v) && acc != Some(v) {
                    assert(g[k] && ms[k] == v);
                } else if acc2 != Some(v) {
                    let w = choose|i: int| k + 1 <= i < ms.len() && g[i] && ms[i] == v;
                    assert(k <= w < ms.len() && g[w] && ms[w] == v);
                }
            },
        }
    }
}

proof fn lemma_count_at_pos(ms: Seq<int>, g: Seq<bool>, m: int, k: int, i: int)
    requires
        ms.len() == g.len(),
        0 <= i < k <= ms.len(),
        g[i],
        ms[i] == m,
    ensures
        count_at(ms, g, m, k) >= 1,
    decreases k,
{
    if i < k - 1 {
        lemma_count_at_pos(ms, g, m, k - 1, i);
    } else {
        lemma_count_at_le(ms, g, m, k - 1);
    }
}

proof fn lemma_count_at_le(ms: Seq<int>, g: Seq<bool>, m: int, k: int)
    requires
        ms.len() == g.len(),
    ensures
        0 <= count_at(ms, g, m, k) <= count_masked(g, k),
    decreases k,
{
    if k > 0 {
        lemma_count_at_le(ms, g, m, k - 1);
    }
}

/// The facts the equalize recursion needs to make progress: at least one
/// pixel is handed out per round, and never more than remain.
pub proof fn lemma_equalize_round(ms: Seq<int>, g: Seq<bool>, r: int)
    requires
        ms.len() == g.len(),
        r >= 1,
        count_masked(g, g.len() as int) >= 1,
        r / count_masked(g, g.len() as int) >= 1,
    ensures
        min_masked(ms, g, 0, None) is Some,
        ({
            let n = count_masked(g, g.len() as int);
            let share = r / n;
            let m = min_masked(ms, g, 0, None)->Some_0;
            let delta = match next_tier(ms, g, 0, m, None) {
                None => share,
                Some(m2) => if m2 - m < share {
                    m2 - m
                } else {
                    share
                },
            };
            let cnt = count_at(ms, g, m, ms.len() as int);
            1 <= delta && 1 <= cnt && 1 <= delta * cnt && delta * cnt <= r
        }),
{
    let n = count_masked(g, g.len() as int);
    let share = r / n;
    lemma_count_masked_exists(g, g.len() as int);
    lemma_min_masked_props(ms, g, 0, None);
    let m = min_masked(ms, g, 0, None)->Some_0;
    let wit = choose|i: int| 0 <= i < ms.len() && g[i] && ms[i] == m;
    lemma_count_at_pos(ms, g, m, ms.len() as int, wit);
    lemma_count_at_le(ms, g, m, ms.len() as int);
    lemma_next_tier_props(ms, g, 0, m, None);
    let delta = match next_tier(ms, g, 0, m, None) {
        None => share,
        Some(m2) => if m2 - m < share {
            m2 - m
        } else {
            share
        },
    };
    let cnt = count_at(ms, g, m, ms.len() as int);
    vstd::arithmetic::div_mod::lemma_fundamental_div_mod(r, n);
    vstd::arithmetic::div_mod::lemma_mod_bound(r, n);
    assert(share * n <= r) by (nonlinear_arith)
        requires
            r == n * share + r % n,
            r % n >= 0,
    ;
    assert(delta * cnt <= share * n && 1 <= delta * cnt) by (nonlinear_arith)
        requires
            1 <= delta,
            delta <= share,
            1 <= cnt,
            cnt <= n,
    ;
}

/// The equalize algorithm: repeatedly raise the currently-smallest growable
/// entries, by at most the gap to the next size tier and at most an even
/// share of what remains; once fewer pixels remain than growable entries,
/// hand one each to the earliest-declared ones.
pub open spec fn equalize(ms: Seq<int>, g: Seq<bool>, r: int) -> Seq<int>
    decreases r,
{
    let n = count_masked(g, g.len() as int);
    if r <= 0 || n <= 0 || ms.len() != g.len() {
        ms
    } else {
        let share = r / n;
        if share == 0 {
            ones(ms, g, r)
        } else {
            match min_masked(ms, g, 0, None) {
                None => ms,
                Some(m) => {
                    let delta = match next_tier(ms, g, 0, m, None) {
                        None => share,
                        Some(m2) => if m2 - m < share {
                            m2 - m
                        } else {
                            share
                        },
                    };
                    let cnt = count_at(ms, g, m, ms.len() as int);
                    proof {
                        lemma_equalize_round(ms, g, r);
                    }
                    equalize(bump(ms, g, m, delta), g, r - delta * cnt)
                },
            }
        }
    }
}

proof fn lemma_psum_bump(ms: Seq<int>, g: Seq<bool>, m: int, d: int, k: int)
    requires
        ms.len() == g.len(),
        0 <= k <= ms.len(),
    ensures
        psum(bump(ms, g, m, d), k) == psum(ms, k) + d * count_at(ms, g, m, k),
    decreases k,
{
    if k > 0 {
        lemma_psum_bump(ms, g, m, d, k - 1);
        assert(d * (count_at(ms, g, m, k - 1) + 1) == d * count_at(ms, g, m, k - 1) + d)
            by (nonlinear_arith);
    }
}

proof fn lemma_psum_ones(ms: Seq<int>, g: Seq<bool>, r: int, k: int)
    requires
        ms.len() == g.len(),
        0 <= r,
        0 <= k <= ms.len(),
    ensures
        psum(ones(ms, g, r), k) == psum(ms, k) + (if count_masked(g, k) <= r {
            count_masked(g, k)
        } else {
            r
        }),
    decreases k,
{
    if k > 0 {
        lemma_psum_ones(ms, g, r, k - 1);
        lemma_count_masked_mono(g, 0, k - 1);
    }
}

/// The equalize algorithm hands out exactly the remaining pixels: the total
/// of the sizes afterwards is the total before plus the remainder.
pub proof fn lemma_equalize_conserves(ms: Seq<int>, g: Seq<bool>, r: int)
    requires
        ms.len() == g.len(),
        r >= 0,
        count_masked(g, g.len() as int) >= 1,
    ensures
        equalize(ms, g, r).len() == ms.len(),
        psum(equalize(ms, g, r), ms.len() as int) == psum(ms, ms.len() as int) + r,
    decreases r,
{
    let n = count_masked(g, g.len() as int);
    if r > 0 {
        let share = r / n;
        if share == 0 {
            vstd::arithmetic::div_mod::lemma_fundamental_div_mod(r, n);
            vstd::arithmetic::div_mod::lemma_mod_bound(r, n);
            lemma_count_masked_mono(g, 0, g.len() as int);
            lemma_psum_ones(ms, g, r, ms.len() as int);
        } else {
            lemma_equalize_round(ms, g, r);
            let m = min_masked(ms, g, 0, None)->Some_0;
            let delta = match next_tier(ms, g, 0, m, None) {
                None => share,
                Some(m2) => if m2 - m < share {
                    m2 - m
                } else {
                    share
                },
            };
            let cnt = count_at(ms, g, m, ms.len() as int);
            lemma_psum_bump(ms, g, m, delta, ms.len() as int);
            lemma_equalize_conserves(bump(ms, g, m, delta), g, r - delta * cnt);
        }
    }
}

/// The equalize algorithm never touches a non-growable entry and never
/// shrinks a growable one.
pub proof fn lemma_equalize_pointwise(ms: Seq<int>, g: Seq<bool>, r: int)
    requires
        ms.len() == g.len(),
    ensures
        equalize(ms, g, r).len() == ms.len(),
        forall|i: int| 0 <= i < ms.len() && !g[i] ==> equalize(ms, g, r)[i] == ms[i],
        forall|i: int| 0 <= i < ms.len() && g[i] ==> ms[i] <= equalize(ms, g, r)[i],
    decreases r,
{
    let n = count_masked(g, g.len() as int);
    if r > 0 && n > 0 {
        let share = r / n;
        if share == 0 {
        } else {
            lemma_equalize_round(ms, g, r);
            let m = min_masked(ms, g, 0, None)->Some_0;
            let delta = match next_tier(ms, g, 0, m, None) {
                None => share,
                Some(m2) => if m2 - m < share {
                    m2 - m
                } else {
                    share
                },
            };
            let cnt = count_at(ms, g, m, ms.len() as int);
            lemma_equalize_pointwise(bump(ms, g, m, delta), g, r - delta * cnt);
        }
    }
}

/// Grow equalization: when the growable entries enter the distribution at a
/// common size, they leave it within one pixel of each other, and any
/// leftover single pixels go to the earliest-declared entries, so the final
/// sizes never increase from left to right.
pub proof fn lemma_equalize_balanced(ms: Seq<int>, g: Seq<bool>, r: int)
    requires
        ms.len() == g.len(),
        r >= 0,
        count_masked(g, g.len() as int) >= 1,
        forall|i: int, j: int| 0 <= i < ms.len() && 0 <= j < ms.len() && g[i] && g[j] ==> ms[i]
            == ms[j],
    ensures
        forall|i: int, j: int|
            0 <= i <= j < ms.len() && g[i] && g[j] ==> equalize(ms, g, r)[j] <= equalize(
                ms,
                g,
                r,
            )[i] <= equalize(ms, g, r)[j] + 1,
    decreases r,
{
    let n = count_masked(g, g.len() as int);
    if r == 0 {
    } else {
        let share = r / n;
        if share == 0 {
            assert forall|i: int, j: int| 0 <= i <= j < ms.len() && g[i] && g[j] implies ones(
                ms,
                g,
                r,
            )[j] <= ones(ms, g, r)[i] <= ones(ms, g, r)[j] + 1 by {
                if i < j {
                    lemma_count_masked_strict(g, i, j);
                    lemma_count_masked_mono(g, 0, i);
                }
            }
        } else {
            lemma_equalize_round(ms, g, r);
            lemma_min_masked_props(ms, g, 0, None);
            let m = min_masked(ms, g, 0, None)->Some_0;
            lemma_next_tier_props(ms, g, 0, m, None);
            // Every growable entry sits at the common minimum, so there is no
            // next tier and the whole row is raised evenly.
            let delta = match next_tier(ms, g, 0, m, None) {
                None => share,
                Some(m2) => if m2 - m < share {
                    m2 - m
                } else {
                    share
                },
            };
            let cnt = count_at(ms, g, m, ms.len() as int);
            assert(forall|i: int| 0 <= i < ms.len() && g[i] ==> ms[i] == m);
            lemma_equalize_balanced(bump(ms, g, m, delta), g, r - delta * cnt);
        }
    }
}

proof fn lemma_psum_nonneg(ms: Seq<int>, k: int)
    requires
        forall|j: int| 0 <= j < ms.len() ==> ms[j] >= 0,
    ensures
        psum(ms, k) >= 0,
    decreases k,
{
    if k > 0 && k <= ms.len() {
        lemma_psum_nonneg(ms, k - 1);
    }
}

proof fn lemma_psum_ge_elem(ms: Seq<int>, k: int, i: int)
    requires
        0 <= i < k <= ms.len(),
        forall|j: int| 0 <= j < ms.len() ==> ms[j] >= 0,
    ensures
        psum(ms, k) >= ms[i],
    decreases k,
{
    if i < k - 1 {
        lemma_psum_ge_elem(ms, k - 1, i);
    } else {
        lemma_psum_nonneg(ms, k - 1);
    }
}

proof fn lemma_count_at_mono(ms: Seq<int>, g: Seq<bool>, m: int, k1: int, k2: int)
    requires
        ms.len() == g.len(),
        k1 <= k2 <= ms.len(),
    ensures
        count_at(ms, g, m, k1) <= count_at(ms, g, m, k2),
    decreases k2 - k1,
{
    if k1 < k2 {
        lemma_count_at_mono(ms, g, m, k1, k2 - 1);
    }
}

/// Distributes `rem0` leftover pixels among the growable entries of `ms`
/// by the equalize algorithm.
fn grow_distribute(ms: &mut Vec<u32>, grow: &Vec<bool>, rem0: u32)
    requires
        old(ms)@.len() == grow@.len(),
        count_masked(grow@, grow@.len() as int) >= 1,
        psum(ints(old(ms)@), old(ms)@.len() as int) + rem0 <= u32::MAX,
    ensures
        final(ms)@.len() == old(ms)@.len(),
        ints(final(ms)@) == equalize(ints(old(ms)@), grow@, rem0 as int),
{
    let ghost orig = ints(ms@);
    let len = ms.len();
    let mut n_grow: usize = 0;
    let mut i: usize = 0;
    while i < len
        invariant
            i <= len,
            len == grow@.len(),
            n_grow == count_masked(grow@, i as int),
            n_grow <= i,
        decreases len - i,
    {
        if grow[i] {
            n_grow = n_grow + 1;
        }
        i = i + 1;
    }
    let mut rem: u32 = rem0;
    while rem > 0
        invariant
            ms@.len() == len,
            len == grow@.len(),
            n_grow == count_masked(grow@, len as int),
            1 <= n_grow,
            psum(ints(ms@), len as int) + rem == psum(orig, len as int) + rem0,
            psum(orig, len as int) + rem0 <= u32::MAX,
            equalize(ints(ms@), grow@, rem as int) == equalize(orig, grow@, rem0 as int),
        decreases rem,
    {
        let ghost cur = ints(ms@);
        let ghost rem_in = rem as int;
        proof {
            assert(forall|j: int| 0 <= j < cur.len() ==> cur[j] >= 0);
            lemma_psum_nonneg(cur, len as int);
        }
        let share64: u64 = (rem as u64) / (n_grow as u64);
        proof {
            vstd::arithmetic::div_mod::lemma_fundamental_div_mod(rem as int, n_grow as int);
            vstd::arithmetic::div_mod::lemma_mod_bound(rem as int, n_grow as int);
            assert(share64 * n_grow <= rem) by (nonlinear_arith)
                requires
                    rem as int == n_grow as int * share64 + (rem as int) % (n_grow as int),
                    0 <= (rem as int) % (n_grow as int),
            ;
            assert(share64 as int <= share64 * n_grow) by (nonlinear_arith)
                requires
                    1 <= n_grow as int,
                    0 <= share64 as int,
            ;
        }
        let share: u32 = share64 as u32;
        if share == 0 {
            // Fewer pixels left than growable entries: one pixel each, in
            // declared order, to the first `rem` of them.
            proof {
                assert((n_grow as int) * ((rem as int) / (n_grow as int)) == 0)
                    by (nonlinear_arith)
                    requires
                        (rem as int) / (n_grow as int) == 0,
                ;
                assert(rem < n_grow);
            }
            let mut given: u32 = 0;
            let mut j: usize = 0;
            while j < len
                invariant
                    j <= len,
                    ms@.len() == len,
                    len == grow@.len(),
                    cur.len() == len,
                    1 <= rem,
                    forall|t: int| 0 <= t < cur.len() ==> cur[t] >= 0,
                    given == (if count_masked(grow@, j as int) <= rem {
                        count_masked(grow@, j as int)
                    } else {
                        rem as int
                    }),
                    forall|t: int| 0 <= t < j ==> ms@[t] as int == ones(cur, grow@, rem as int)[t],
                    forall|t: int| j <= t < len ==> ms@[t] as int == cur[t],
                    psum(cur, len as int) + rem <= u32::MAX,
                decreases len - j,
            {
                let ghost cmj = count_masked(grow@, j as int);
                if grow[j] && given < rem {
                    proof {
                        lemma_psum_ge_elem(cur, len as int, j as int);
                        assert(cmj < rem);
                    }
                    let v = ms[j];
                    ms[j] = v + 1;
                    given = given + 1;
                    proof {
                        assert(ones(cur, grow@, rem as int)[j as int] == cur[j as int] + 1);
                    }
                } else {
                    proof {
                        if grow@[j as int] {
                            assert(cmj >= rem);
                            assert(ones(cur, grow@, rem as int)[j as int] == cur[j as int]);
                        } else {
                            assert(ones(cur, grow@, rem as int)[j as int] == cur[j as int]);
                        }
                    }
                }
                j = j + 1;
            }
            proof {
                assert(ints(ms@) =~= ones(cur, grow@, rem as int));
                lemma_count_masked_mono(grow@, 0, len as int);
                lemma_psum_ones(cur, grow@, rem as int, len as int);
                assert(equalize(cur, grow@, rem as int) == ones(cur, grow@, rem as int));
                assert(equalize(ints(ms@), grow@, 0int) == ints(ms@));
                assert(rem < n_grow);
                assert(ints(ms@) == ones(cur, grow@, rem as int));
                assert(psum(ones(cur, grow@, rem as int), len as int) == psum(cur, len as int)
                    + rem);
                assert(psum(ints(ms@), len as int) == psum(cur, len as int) + rem);
            }
            rem = 0;
        } else {
            // Find the smallest growable size.
            let mut m: u32 = 0;
            let mut found: bool = false;
            let mut j: usize = 0;
            while j < len
                invariant
                    j <= len,
                    ms@.len() == len,
                    len == grow@.len(),
                    cur == ints(ms@),
                    min_masked(cur, grow@, j as int, if found {
                        Some(m as int)
                    } else {
                        None
                    }) == min_masked(cur, grow@, 0, None),
                decreases len - j,
            {
                if grow[j] && (!found || ms[j] < m) {
                    m = ms[j];
                    found = true;
                }
                j = j + 1;
            }
            proof {
                lemma_min_masked_props(cur, grow@, 0, None);
                if !found {
                    lemma_count_masked_exists(grow@, len as int);
                }
                assert(found);
                assert(min_masked(cur, grow@, 0, None) == Some(m as int));
            }
            // Find the next size tier above the minimum.
            let mut m2: u32 = 0;
            let mut found2: bool = false;
            j = 0;
            while j < len
                invariant
                    j <= len,
                    ms@.len() == len,
                    len == grow@.len(),
                    cur == ints(ms@),
                    next_tier(cur, grow@, j as int, m as int, if found2 {
                        Some(m2 as int)
                    } else {
                        None
                    }) == next_tier(cur, grow@, 0, m as int, None),
                decreases len - j,
            {
                if grow[j] && ms[j] > m && (!found2 || ms[j] < m2) {
                    m2 = ms[j];
                    found2 = true;
                }
                j = j + 1;
            }
            proof {
                lemma_next_tier_props(cur, grow@, 0, m as int, None);
                lemma_equalize_round(cur, grow@, rem as int);
            }
            let delta: u32 = if found2 {
                let tier_gap = m2 - m;
                if tier_gap < share {
                    tier_gap
                } else {
                    share
                }
            } else {
                share
            };
            let ghost cnt = count_at(cur, grow@, m as int, len as int);
            proof {
                let w = choose|t: int| 0 <= t < cur.len() && grow@[t] && cur[t] == m as int;
                lemma_psum_ge_elem(cur, len as int, w);
                assert(m as int + delta <= u32::MAX);
            }
            // Raise every growable entry at the minimum by `delta`.
            let mut used: u32 = 0;
            j = 0;
            while j < len
                invariant
                    j <= len,
                    ms@.len() == len,
                    len == grow@.len(),
                    cur.len() == len,
                    forall|t: int| 0 <= t < cur.len() ==> cur[t] >= 0,
                    1 <= delta,
                    used == delta * count_at(cur, grow@, m as int, j as int),
                    used <= delta * cnt,
                    delta * cnt <= rem,
                    cnt == count_at(cur, grow@, m as int, len as int),
                    psum(cur, len as int) + rem <= u32::MAX,
                    m as int + delta <= u32::MAX,
                    forall|t: int|
                        0 <= t < j ==> ms@[t] as int == bump(cur, grow@, m as int, delta as int)[t],
                    forall|t: int| j <= t < len ==> ms@[t] as int == cur[t],
                decreases len - j,
            {
                if grow[j] && ms[j] == m {
                    proof {
                        lemma_count_at_pos(cur, grow@, m as int, len as int, j as int);
                        lemma_count_at_mono(cur, grow@, m as int, j as int + 1, len as int);
                        assert(delta * (count_at(cur, grow@, m as int, j as int) + 1) == delta
                            * count_at(cur, grow@, m as int, j as int) + delta)
                            by (nonlinear_arith);
                        assert(delta * (count_at(cur, grow@, m as int, j as int) + 1) <= delta
                            * cnt) by (nonlinear_arith)
                            requires
                                1 <= delta,
                                count_at(cur, grow@, m as int, j as int) + 1 <= cnt,
                        ;
                    }
                    let v = ms[j];
                    ms[j] = v + delta;
                    used = used + delta;
                    proof {
                        assert(bump(cur, grow@, m as int, delta as int)[j as int] == cur[j as int]
                            + delta);
                    }
                } else {
                    proof {
                        assert(bump(cur, grow@, m as int, delta as int)[j as int]
                            == cur[j as int]);
                    }
                }
                j = j + 1;
            }
            proof {
                assert(ints(ms@) =~= bump(cur, grow@, m as int, delta as int));
                lemma_psum_bump(cur, grow@, m as int, delta as int, len as int);
                assert(used == delta * cnt);
                assert(equalize(cur, grow@, rem_in) == equalize(
                    bump(cur, grow@, m as int, delta as int),
                    grow@,
                    rem_in - delta * cnt,
                ));
                assert(psum(ints(ms@), len as int) == psum(cur, len as int) + used);
            }
            rem = rem - used;
        }
    }
}


// ---------------------------------------------------------------------------
// Placement: the mathematical model of the grow and position passes.
// ---------------------------------------------------------------------------

/// The children's main-axis fit sizes: the row the equalize algorithm works on.
pub open spec fn child_fit_mains(e: Element) -> Seq<int> {
    Seq::new(e.children@.len() as nat, |i: int| fit_size(e.children@[i], main_is_horiz(e)))
}

/// Which children declare `Grow` on the parent's main axis.
pub open spec fn grow_mask(e: Element) -> Seq<bool> {
    Seq::new(
        e.children@.len() as nat,
        |i: int| axis_policy(e.children@[i], main_is_horiz(e)) is Grow,
    )
}

/// Which children declare `Grow` on the parent's cross axis.
pub open spec fn cross_mask(e: Element) -> Seq<bool> {
    Seq::new(
        e.children@.len() as nat,
        |i: int| axis_policy(e.children@[i], !main_is_horiz(e)) is Grow,
    )
}

/// Main-axis space left for distribution once padding, gaps and the
/// children's fit content are taken out of the node's final size.
/// Negative when the content cannot fit.
pub open spec fn leftover(e: Element, s_main: int) -> int {
    s_main - 2 * e.padding - gap_total(e) - psum(child_fit_mains(e), e.children@.len() as int)
}

/// The children's final main-axis sizes: their fit sizes, with any positive
/// leftover distributed among the growable ones by the equalize algorithm.
pub open spec fn final_mains(e: Element, s_main: int) -> Seq<int> {
    let ms = child_fit_mains(e);
    let g = grow_mask(e);
    let r = leftover(e, s_main);
    if r > 0 && count_masked(g, g.len() as int) > 0 {
        equalize(ms, g, r)
    } else {
        ms
    }
}

/// The final cross-axis size of child `i`: the full padded cross space for a
/// `Grow` child, its fit size otherwise.
pub open spec fn final_cross(e: Element, s_cross: int, i: int) -> int {
    if axis_policy(e.children@[i], !main_is_horiz(e)) is Grow {
        s_cross - 2 * e.padding
    } else {
        fit_size(e.children@[i], !main_is_horiz(e))
    }
}

/// The absolute frame `(x, y, width, height)` of child `i` of a node placed
/// at `(x, y)` with final size `(w, h)`.
pub open spec fn child_frame(e: Element, x: int, y: int, w: int, h: int, i: int) -> (
    int,
    int,
    int,
    int,
) {
    let mh = main_is_horiz(e);
    let s_main = if mh {
        w
    } else {
        h
    };
    let s_cross = if mh {
        h
    } else {
        w
    };
    let fm = final_mains(e, s_main);
    let pos_main = (if mh {
        x
    } else {
        y
    }) + e.padding + psum(fm, i) + e.gap * i;
    let pos_cross = (if mh {
        y
    } else {
        x
    }) + e.padding;
    let size_cross = final_cross(e, s_cross, i);
    if mh {
        (pos_main, pos_cross, fm[i], size_cross)
    } else {
        (pos_cross, pos_main, size_cross, fm[i])
    }
}

/// Places a node at `(x, y)` with final size `(w, h)` and emits its subtree
/// in pre-order: the node's own rectangle, then each child's subtree in
/// declared order. Fails with the path to the first node whose content does
/// not fit its main-axis space (growable children count at their fit
/// minimum, below which they cannot shrink), whose stretched cross space
/// would be negative, or whose frame leaves the pixel range.
pub open spec fn place(e: Element, x: int, y: int, w: int, h: int) -> Result<
    Seq<Instruction>,
    Seq<usize>,
>
    decreases e, 1nat, 0nat,
{
    let n = e.children@.len() as int;
    let mh = main_is_horiz(e);
    let s_main = if mh {
        w
    } else {
        h
    };
    let s_cross = if mh {
        h
    } else {
        w
    };
    if leftover(e, s_main) < 0 {
        Err(Seq::empty())
    } else if count_masked(cross_mask(e), n) > 0 && s_cross - 2 * e.padding < 0 {
        Err(Seq::empty())
    } else if !(0 <= x && 0 <= y && 0 <= w && 0 <= h && x + w <= u32::MAX && y + h
        <= u32::MAX) {
        Err(Seq::empty())
    } else {
        let own = Instruction::Rectangle {
            position: (x as u32, y as u32),
            size: (w as u32, h as u32),
        };
        match place_seq(e, x, y, w, h, 0) {
            Ok(rest) => Ok(seq![own] + rest),
            Err(p) => Err(p),
        }
    }
}

/// Places the children of a node from index `i` on and concatenates their
/// emitted subtrees; a failing child contributes its index to the path.
pub open spec fn place_seq(e: Element, x: int, y: int, w: int, h: int, i: int) -> Result<
    Seq<Instruction>,
    Seq<usize>,
>
    decreases e, 0nat, e.children@.len() - i,
{
    if i < 0 || i >= e.children@.len() {
        Ok(Seq::empty())
    } else {
        let fr = child_frame(e, x, y, w, h, i);
        match place(e.children@[i], fr.0, fr.1, fr.2, fr.3) {
            Err(p) => Err(seq![i as usize] + p),
            Ok(a) => match place_seq(e, x, y, w, h, i + 1) {
                Err(p) => Err(p),
                Ok(b) => Ok(a + b),
            },
        }
    }
}

/// The size the root resolves to on one axis: the declared pixel count for
/// `Fixed`, the fit size for `Fit`, and the caller's viewport for `Grow`,
/// which has no ancestor to take leftover space from.
pub open spec fn root_size(e: Element, horiz: bool, viewport: int) -> int {
    match axis_policy(e, horiz) {
        Sizing::Fixed(v) => v as int,
        Sizing::Fit => fit_size(e, horiz),
        Sizing::Grow => viewport,
    }
}

/// The whole build, as a function of the tree, the viewport and the origin.
pub open spec fn build_spec(e: Element, viewport: (u32, u32), origin: (u32, u32)) -> Result<
    Seq<Instruction>,
    Seq<usize>,
> {
    match fit_check(e) {
        Err(p) => Err(p),
        Ok(u) => place(
            e,
            origin.0 as int,
            origin.1 as int,
            root_size(e, true, viewport.0 as int),
            root_size(e, false, viewport.1 as int),
        ),
    }
}

/// Appends a successful tail to already-emitted instructions; a failure
/// passes through.
pub open spec fn appended(acc: Seq<Instruction>, r: Result<Seq<Instruction>, Seq<usize>>) -> Result<
    Seq<Instruction>,
    Seq<usize>,
> {
    match r {
        Ok(s) => Ok(acc + s),
        Err(p) => Err(p),
    }
}

proof fn lemma_row_eq_fit_sum(e: Element, k: int)
    requires
        0 <= k <= e.children@.len(),
    ensures
        psum(child_fit_mains(e), k) == fit_sum(e.children@, main_is_horiz(e), k),
    decreases k,
{
    if k > 0 {
        lemma_row_eq_fit_sum(e, k - 1);
    }
}

proof fn lemma_psum_mono(ms: Seq<int>, k1: int, k2: int)
    requires
        0 <= k1 <= k2 <= ms.len(),
        forall|j: int| 0 <= j < ms.len() ==> ms[j] >= 0,
    ensures
        psum(ms, k1) <= psum(ms, k2),
    decreases k2 - k1,
{
    if k1 < k2 {
        lemma_psum_mono(ms, k1, k2 - 1);
    }
}

proof fn lemma_fit_check_from_ok(cs: Seq<Element>, j: int, i: int)
    requires
        fit_check_from(cs, j) is Ok,
        0 <= j <= i < cs.len(),
    ensures
        fit_check(cs[i]) is Ok,
    decreases i - j,
{
    if j < i {
        lemma_fit_check_from_ok(cs, j + 1, i);
    }
}


// ---------------------------------------------------------------------------
// Grow pass: the executable top-down traversal.
// ---------------------------------------------------------------------------

/// Top-down grow, position and emission pass over the size-annotated tree:
/// distributes the node's leftover main-axis space among its `Grow`
/// children, stretches `Grow` cross-axis children, emits the node's own
/// rectangle and then each child's subtree in declared order.
fn pass_grow(
    f: &Fitted,
    e: Ghost<Element>,
    x: u32,
    y: u32,
    w: u32,
    h: u32,
    out: &mut Vec<Instruction>,
) -> (r: Result<(), LayoutError>)
    requires
        annotated(e@, *f),
        fit_check(e@) is Ok,
    ensures
        match r {
            Ok(u) => place(e@, x as int, y as int, w as int, h as int) is Ok && final(out)@
                == old(out)@ + place(e@, x as int, y as int, w as int, h as int)->Ok_0,
            Err(le) => match le {
                LayoutError::Unsatisfiable(p) => place(e@, x as int, y as int, w as int, h as int)
                    == Err::<Seq<Instruction>, Seq<usize>>(p@),
            },
        },
    decreases *f,
{
    let ghost el = e@;
    let ghost row = child_fit_mains(el);
    let ghost mask = grow_mask(el);
    let ghost cmask = cross_mask(el);
    let n = f.children.len();
    let mh = match f.direction {
        Direction::LeftRight => true,
        Direction::TopBottom => false,
    };
    let s_main: u32 = if mh { w } else { h };
    let s_cross: u32 = if mh { h } else { w };
    let ghost gs_main = s_main as int;
    proof {
        assert(mh == main_is_horiz(el));
        assert(n == el.children@.len());
        lemma_row_eq_fit_sum(el, n as int);
    }
    // Gather the children's main-axis fit sizes and grow declarations.
    let mut ms: Vec<u32> = Vec::new();
    let mut grow: Vec<bool> = Vec::new();
    let mut n_grow: usize = 0;
    let mut n_cross: usize = 0;
    let mut i: usize = 0;
    while i < n
        invariant
            i <= n,
            annotated(el, *f),
            fit_check(el) is Ok,
            n == f.children@.len(),
            n == el.children@.len(),
            mh == main_is_horiz(el),
            row == child_fit_mains(el),
            mask == grow_mask(el),
            cmask == cross_mask(el),
            ms@.len() == i,
            grow@.len() == i,
            forall|j: int| 0 <= j < i ==> ms@[j] as int == row[j],
            forall|j: int| 0 <= j < i ==> grow@[j] == mask[j],
            n_grow == count_masked(mask, i as int),
            n_cross == count_masked(cmask, i as int),
            n_grow <= i,
            n_cross <= i,
        decreases n - i,
    {
        proof {
            assert(annotated(el.children@[i as int], f.children@[i as int]));
            lemma_fit_check_from_ok(el.children@, 0, i as int);
            lemma_fit_bounds(el.children@[i as int], mh);
        }
        let c = &f.children[i];
        let cm: u32 = if mh { c.width } else { c.height };
        ms.push(cm);
        let main_policy = if mh { c.size.0 } else { c.size.1 };
        let gm: bool = match main_policy {
            Sizing::Grow => true,
            _ => false,
        };
        grow.push(gm);
        if gm {
            n_grow = n_grow + 1;
        }
        let cross_policy = if mh { c.size.1 } else { c.size.0 };
        let gc: bool = match cross_policy {
            Sizing::Grow => true,
            _ => false,
        };
        if gc {
            n_cross = n_cross + 1;
        }
        i = i + 1;
    }
    proof {
        assert(ints(ms@) =~= row);
        assert(grow@ =~= mask);
    }
    // The main-axis space the children and chrome require of this node.
    let pad2: u64 = 2 * (f.padding as u64);
    let mut need: u64 = pad2;
    let mut j: usize = 0;
    proof {
        assert(forall|t: int| 0 <= t < row.len() ==> row[t] >= 0) by {
            assert forall|t: int| 0 <= t < row.len() implies row[t] >= 0 by {
                lemma_fit_nonneg(el.children@[t], mh);
            }
        }
        lemma_fit_seq_nonneg(el.children@, mh, n as int);
    }
    while j < n
        invariant
            j <= n,
            annotated(el, *f),
            n == el.children@.len(),
            mh == main_is_horiz(el),
            fit_check(el) is Ok,
            row == child_fit_mains(el),
            ms@.len() == n,
            forall|t: int| 0 <= t < n ==> ms@[t] as int == row[t],
            forall|t: int| 0 <= t < row.len() ==> row[t] >= 0,
            psum(row, n as int) == fit_sum(el.children@, mh, n as int),
            pad2 == 2 * (el.padding as int),
            need == pad2 + psum(row, j as int) + (if j == 0 {
                0int
            } else {
                el.gap * (j - 1)
            }),
            need <= pad2 + psum(row, n as int) + gap_total(el),
        decreases n - j,
    {
        proof {
            assert(psum(row, j as int + 1) == psum(row, j as int) + row[j as int]);
            lemma_psum_mono(row, j as int + 1, n as int);
            assert(gap_total(el) == el.gap * (n as int - 1));
            assert(0 <= el.gap * (n as int - 1)) by (nonlinear_arith)
                requires
                    0 <= el.gap,
                    0 <= n as int - 1,
            ;
            if j > 0 {
                assert(el.gap * (j as int) == el.gap * (j as int - 1) + el.gap)
                    by (nonlinear_arith);
                assert(el.gap * (j as int) <= el.gap * (n as int - 1)) by (nonlinear_arith)
                    requires
                        0 <= el.gap,
                        j as int <= n as int - 1,
                ;
            }
            assert(el.gap == f.gap && el.padding == f.padding);
        }
        if j > 0 {
            need = need + f.gap as u64;
        }
        need = need + ms[j] as u64;
        j = j + 1;
    }
    proof {
        // The fit check bounds this node's main-axis content.
        assert(content_size(el, mh) + 2 * el.padding <= u32::MAX);
        assert(need == pad2 + psum(row, n as int) + gap_total(el));
    }
    if need > s_main as u64 {
        let empty: Vec<usize> = Vec::new();
        proof {
            assert(empty@ =~= Seq::<usize>::empty());
        }
        return Err(LayoutError::Unsatisfiable(empty));
    }
    let remaining: u32 = (s_main as u64 - need) as u32;
    proof {
        assert(remaining as int == leftover(el, gs_main));
    }
    // A stretched cross-axis child needs the padded cross space to exist.
    if n_cross > 0 && (s_cross as u64) < pad2 {
        let empty: Vec<usize> = Vec::new();
        proof {
            assert(empty@ =~= Seq::<usize>::empty());
        }
        return Err(LayoutError::Unsatisfiable(empty));
    }
    // The node's own frame must stay within the pixel range.
    if x as u64 + w as u64 > u32::MAX as u64 || y as u64 + h as u64 > u32::MAX as u64 {
        let empty: Vec<usize> = Vec::new();
        proof {
            assert(empty@ =~= Seq::<usize>::empty());
        }
        return Err(LayoutError::Unsatisfiable(empty));
    }
    let own = Instruction::Rectangle { position: (x, y), size: (w, h) };
    out.push(own);
    // Distribute the leftover main-axis space among the growable children.
    if remaining > 0 && n_grow > 0 {
        proof {
            assert(psum(ints(ms@), ms@.len() as int) + remaining <= u32::MAX);
        }
        grow_distribute(&mut ms, &grow, remaining);
    }
    let ghost fmn = final_mains(el, gs_main);
    proof {
        assert(ints(ms@) == fmn);
        if remaining > 0 && n_grow > 0 {
            lemma_equalize_conserves(row, mask, remaining as int);
            lemma_equalize_pointwise(row, mask, remaining as int);
        }
        assert(fmn.len() == n);
        assert(forall|t: int| 0 <= t < n ==> fmn[t] >= 0);
        assert(psum(fmn, n as int) + 2 * el.padding + gap_total(el) <= gs_main);
    }
    // Walk the children, assigning positions along the main axis.
    let main_org: u64 = (if mh { x } else { y }) as u64 + f.padding as u64;
    let cross_org: u64 = (if mh { y } else { x }) as u64 + f.padding as u64;
    let mut cursor: u64 = main_org;
    let ghost gx = x as int;
    let ghost gy = y as int;
    let ghost gw = w as int;
    let ghost gh = h as int;
    let ghost mut acc: Seq<Instruction> = Seq::empty();
    proof {
        assert(appended(acc, place_seq(el, gx, gy, gw, gh, 0)) == place_seq(
            el,
            gx,
            gy,
            gw,
            gh,
            0,
        )) by {
            match place_seq(el, gx, gy, gw, gh, 0) {
                Ok(s) => {
                    assert(acc + s =~= s);
                },
                Err(p) => {},
            }
        }
    }
    let mut i2: usize = 0;
    while i2 < n
        invariant
            i2 <= n,
            el == e@,
            annotated(el, *f),
            fit_check(el) is Ok,
            n == f.children@.len(),
            n == el.children@.len(),
            mh == main_is_horiz(el),
            gx == x as int,
            gy == y as int,
            gw == w as int,
            gh == h as int,
            gs_main == if mh {
                gw
            } else {
                gh
            },
            s_cross as int == if mh {
                gh
            } else {
                gw
            },
            fmn == final_mains(el, gs_main),
            fmn.len() == n,
            forall|t: int| 0 <= t < n ==> fmn[t] >= 0,
            ms@.len() == n,
            forall|t: int| 0 <= t < n ==> ms@[t] as int == fmn[t],
            psum(fmn, n as int) + 2 * el.padding + gap_total(el) <= gs_main,
            n_cross == count_masked(cross_mask(el), n as int),
            n_cross > 0 ==> s_cross as int - 2 * el.padding >= 0,
            leftover(el, gs_main) >= 0,
            gx + gw <= u32::MAX,
            gy + gh <= u32::MAX,
            main_org == (if mh {
                gx
            } else {
                gy
            }) + el.padding,
            cross_org == (if mh {
                gy
            } else {
                gx
            }) + el.padding,
            cursor == main_org + psum(fmn, i2 as int) + el.gap * i2,
            out@ == old(out)@ + seq![own] + acc,
            own == (Instruction::Rectangle {
                position: ((gx as u32), (gy as u32)),
                size: ((gw as u32), (gh as u32)),
            }),
            appended(acc, place_seq(el, gx, gy, gw, gh, i2 as int)) == place_seq(
                el,
                gx,
                gy,
                gw,
                gh,
                0,
            ),
        decreases n - i2,
    {
        proof {
            assert(annotated(el.children@[i2 as int], f.children@[i2 as int]));
            lemma_fit_check_from_ok(el.children@, 0, i2 as int);
            lemma_fit_bounds(el.children@[i2 as int], !mh);
            lemma_psum_mono(fmn, i2 as int, n as int);
            lemma_psum_mono(fmn, i2 as int + 1, n as int);
            if n as int >= 1 {
                assert(el.gap * (i2 as int) <= el.gap * (n as int - 1)) by (nonlinear_arith)
                    requires
                        0 <= el.gap,
                        i2 as int <= n as int - 1,
                ;
                assert(el.gap * (i2 as int + 1) == el.gap * (i2 as int) + el.gap)
                    by (nonlinear_arith);
                assert(el.gap * (i2 as int + 1) <= el.gap * (n as int - 1) + el.gap)
                    by (nonlinear_arith)
                    requires
                        0 <= el.gap,
                        i2 as int + 1 <= n as int,
                ;
            }
        }
        let c = &f.children[i2];
        let cw: u32 = ms[i2];
        let cross_policy = if mh { c.size.1 } else { c.size.0 };
        let gc: bool = match cross_policy {
            Sizing::Grow => true,
            _ => false,
        };
        let crossv: u32 = if gc {
            proof {
                assert(cross_mask(el)[i2 as int]);
                lemma_count_masked_strict(cross_mask(el), i2 as int, n as int);
                lemma_count_masked_mono(cross_mask(el), 0, i2 as int);
                assert(el.padding == f.padding);
                assert(s_cross as int >= 2 * el.padding);
            }
            ((s_cross as u64) - 2 * (f.padding as u64)) as u32
        } else {
            if mh {
                c.height
            } else {
                c.width
            }
        };
        let cx64: u64 = if mh { cursor } else { cross_org };
        let cy64: u64 = if mh { cross_org } else { cursor };
        let cw64: u64 = if mh { cw as u64 } else { crossv as u64 };
        let ch64: u64 = if mh { crossv as u64 } else { cw as u64 };
        let ghost fr = child_frame(el, gx, gy, gw, gh, i2 as int);
        proof {
            assert(fr.0 == cx64 && fr.1 == cy64 && fr.2 == cw64 && fr.3 == ch64);
        }
        if cx64 + cw64 > u32::MAX as u64 || cy64 + ch64 > u32::MAX as u64 {
            // The child's frame leaves the pixel range: it reports failure
            // at its own guard.
            let mut p: Vec<usize> = Vec::new();
            p.push(i2);
            proof {
                assert(place(el.children@[i2 as int], fr.0, fr.1, fr.2, fr.3)
                    == Err::<Seq<Instruction>, Seq<usize>>(Seq::empty()));
                assert(p@ =~= seq![i2] + Seq::<usize>::empty());
                assert(place_seq(el, gx, gy, gw, gh, i2 as int) == Err::<
                    Seq<Instruction>,
                    Seq<usize>,
                >(seq![i2] + Seq::<usize>::empty()));
                assert(place(el, gx, gy, gw, gh) == Err::<Seq<Instruction>, Seq<usize>>(
                    seq![i2] + Seq::<usize>::empty(),
                ));
            }
            return Err(LayoutError::Unsatisfiable(p));
        }
        proof {
            assert(cx64 <= u32::MAX && cy64 <= u32::MAX && cw64 <= u32::MAX && ch64
                <= u32::MAX);
            assert((cx64 as u32) as int == fr.0 && (cy64 as u32) as int == fr.1 && (cw64
                as u32) as int == fr.2 && (ch64 as u32) as int == fr.3);
        }
        match pass_grow(
            c,
            Ghost(el.children@[i2 as int]),
            cx64 as u32,
            cy64 as u32,
            cw64 as u32,
            ch64 as u32,
            out,
        ) {
            Err(le) => {
                match le {
                    LayoutError::Unsatisfiable(mut p) => {
                        let ghost p0 = p@;
                        p.insert(0, i2);
                        proof {
                            assert(p@ =~= seq![i2] + p0);
                            assert(place(el.children@[i2 as int], fr.0, fr.1, fr.2, fr.3)
                                == Err::<Seq<Instruction>, Seq<usize>>(p0));
                            assert(place_seq(el, gx, gy, gw, gh, i2 as int)
                                == Err::<Seq<Instruction>, Seq<usize>>(seq![i2] + p0));
                            assert(place(el, gx, gy, gw, gh) == Err::<
                                Seq<Instruction>,
                                Seq<usize>,
                            >(seq![i2] + p0));
                        }
                        return Err(LayoutError::Unsatisfiable(p));
                    },
                }
            },
            Ok(u) => {
                let ghost a = place(el.children@[i2 as int], fr.0, fr.1, fr.2, fr.3)->Ok_0;
                proof {
                    let acc_old = acc;
                    match place_seq(el, gx, gy, gw, gh, i2 as int + 1) {
                        Ok(b) => {
                            assert((acc_old + a) + b =~= acc_old + (a + b));
                        },
                        Err(p) => {},
                    }
                    acc = acc + a;
                    assert((old(out)@ + seq![own] + acc_old) + a =~= old(out)@ + seq![own]
                        + acc);
                }
                cursor = cursor + cw as u64 + f.gap as u64;
            },
        }
        i2 = i2 + 1;
    }
    proof {
        match place_seq(el, gx, gy, gw, gh, n as int) {
            Ok(s) => {
                assert(acc + s =~= acc);
            },
            Err(p) => {},
        }
        assert(place(el, gx, gy, gw, gh) == Ok::<Seq<Instruction>, Seq<usize>>(
            seq![own] + acc,
        ));
    }
    Ok(())
}


/// Builds the layout for a tree: the fit pass, then the grow and placement
/// pass, emitting one rectangle per node in pre-order. The root's size on
/// each axis is its declared `Fixed` count, its fit size for `Fit`, or the
/// viewport for `Grow`.
fn build(root: Element, viewport: (u32, u32), origin: (u32, u32)) -> (r: Result<
    Vec<Instruction>,
    LayoutError,
>)
    ensures
        match r {
            Ok(v) => build_spec(root, viewport, origin) == Ok::<Seq<Instruction>, Seq<usize>>(
                v@,
            ),
            Err(le) => match le {
                LayoutError::Unsatisfiable(p) => build_spec(root, viewport, origin) == Err::<
                    Seq<Instruction>,
                    Seq<usize>,
                >(p@),
            },
        },
{
    let f = match pass_fit(&root) {
        Err(le) => {
            return Err(le);
        },
        Ok(f) => f,
    };
    let w: u32 = match root.size.0 {
        Sizing::Fixed(v) => v,
        Sizing::Fit => f.width,
        Sizing::Grow => viewport.0,
    };
    let h: u32 = match root.size.1 {
        Sizing::Fixed(v) => v,
        Sizing::Fit => f.height,
        Sizing::Grow => viewport.1,
    };
    proof {
        assert(w as int == root_size(root, true, viewport.0 as int));
        assert(h as int == root_size(root, false, viewport.1 as int));
    }
    let mut out: Vec<Instruction> = Vec::new();
    let res = pass_grow(&f, Ghost(root), origin.0, origin.1, w, h, &mut out);
    match res {
        Ok(u) => {
            proof {
                assert(out@ =~= Seq::<Instruction>::empty() + place(
                    root,
                    origin.0 as int,
                    origin.1 as int,
                    w as int,
                    h as int,
                )->Ok_0);
            }
            Ok(out)
        },
        Err(le) => Err(le),
    }
}

impl Element {
    /// Consumes the tree and builds its layout: given the viewport that a
    /// `Grow` root fills and the root's absolute position, returns one draw
    /// rectangle per node in pre-order, or the error naming the first node
    /// whose content does not fit.
    pub fn build(self, viewport: (u32, u32), origin: (u32, u32)) -> (r: Result<
        Vec<Instruction>,
        LayoutError,
    >)
        ensures
            match r {
                Ok(v) => build_spec(self, viewport, origin) == Ok::<Seq<Instruction>, Seq<usize>>(
                    v@,
                ),
                Err(le) => match le {
                    LayoutError::Unsatisfiable(p) => build_spec(self, viewport, origin) == Err::<
                        Seq<Instruction>,
                        Seq<usize>,
                    >(p@),
                },
            },
    {
        build(self, viewport, origin)
    }
}


// ---------------------------------------------------------------------------
// Laws of the solver.
// ---------------------------------------------------------------------------

/// Containment: at a node that places successfully, the children's final
/// main-axis sizes, the inter-child gaps and both paddings together never
/// exceed the node's main size; with at least one growable child they
/// consume it exactly. `place` runs on every subtree with that subtree's
/// final frame, so instantiating this lemma at any node of a built tree
/// bounds that node's children.
pub proof fn lemma_containment(e: Element, x: int, y: int, w: int, h: int)
    requires
        place(e, x, y, w, h) is Ok,
    ensures
        ({
            let s_main = if main_is_horiz(e) {
                w
            } else {
                h
            };
            let used = psum(final_mains(e, s_main), e.children@.len() as int) + gap_total(e) + 2
                * e.padding;
            &&& used <= s_main
            &&& count_masked(grow_mask(e), e.children@.len() as int) > 0 ==> used == s_main
        }),
{
    let s_main = if main_is_horiz(e) {
        w
    } else {
        h
    };
    let ms = child_fit_mains(e);
    let g = grow_mask(e);
    let r = leftover(e, s_main);
    assert(r >= 0);
    if r > 0 && count_masked(g, g.len() as int) > 0 {
        lemma_equalize_conserves(ms, g, r);
    }
}

/// Fixed fidelity: a child declaring `Fixed(v)` on an axis is placed with
/// exactly `v` pixels on that axis, whatever its content, siblings or the
/// leftover space. (A `Fixed` root resolves to its declared count directly
/// in `root_size`.)
pub proof fn lemma_fixed_fidelity(e: Element, x: int, y: int, w: int, h: int, i: int)
    requires
        0 <= i < e.children@.len(),
    ensures
        ({
            let fr = child_frame(e, x, y, w, h, i);
            &&& match e.children@[i].size.0 {
                Sizing::Fixed(v) => fr.2 == v,
                _ => true,
            }
            &&& match e.children@[i].size.1 {
                Sizing::Fixed(v) => fr.3 == v,
                _ => true,
            }
        }),
{
    let mh = main_is_horiz(e);
    let s_main = if mh {
        w
    } else {
        h
    };
    let ms = child_fit_mains(e);
    let g = grow_mask(e);
    let r = leftover(e, s_main);
    let fm = final_mains(e, s_main);
    lemma_equalize_pointwise(ms, g, r);
    assert(!g[i] ==> fm[i] == ms[i]);
    let c = e.children@[i];
    match axis_policy(c, mh) {
        Sizing::Fixed(v) => {
            assert(!g[i]);
            assert(ms[i] == v);
        },
        _ => {},
    }
    match axis_policy(c, !mh) {
        Sizing::Fixed(v) => {
            assert(final_cross(e, if mh {
                h
            } else {
                w
            }, i) == v);
        },
        _ => {},
    }
}

/// Cross stretch: a child declaring `Grow` on the parent's cross axis is
/// placed with exactly the parent's cross size less both paddings.
pub proof fn lemma_cross_stretch(e: Element, x: int, y: int, w: int, h: int, i: int)
    requires
        0 <= i < e.children@.len(),
        axis_policy(e.children@[i], !main_is_horiz(e)) is Grow,
    ensures
        ({
            let fr = child_frame(e, x, y, w, h, i);
            let s_cross = if main_is_horiz(e) {
                h
            } else {
                w
            };
            (if main_is_horiz(e) {
                fr.3
            } else {
                fr.2
            }) == s_cross - 2 * e.padding
        }),
{
}

/// The main-axis position and size of child `i`'s frame.
pub open spec fn child_main_span(e: Element, x: int, y: int, w: int, h: int, i: int) -> (int, int) {
    let fr = child_frame(e, x, y, w, h, i);
    if main_is_horiz(e) {
        (fr.0, fr.2)
    } else {
        (fr.1, fr.3)
    }
}

/// Position assignment keeps siblings apart: each child's main-axis extent
/// ends exactly one gap before the next child starts, and the extents begin
/// at or after the content origin, inside the parent's padding.
pub proof fn lemma_siblings_ordered(e: Element, x: int, y: int, w: int, h: int, i: int)
    requires
        0 <= i < e.children@.len(),
    ensures
        (if main_is_horiz(e) {
            x
        } else {
            y
        }) + e.padding <= child_main_span(e, x, y, w, h, i).0,
        i + 1 < e.children@.len() ==> child_main_span(e, x, y, w, h, i).0 + child_main_span(
            e,
            x,
            y,
            w,
            h,
            i,
        ).1 + e.gap == child_main_span(e, x, y, w, h, i + 1).0,
{
    let mh = main_is_horiz(e);
    let s_main = if mh {
        w
    } else {
        h
    };
    let ms0 = child_fit_mains(e);
    let fm = final_mains(e, s_main);
    lemma_equalize_pointwise(ms0, grow_mask(e), leftover(e, s_main));
    assert(fm.len() == e.children@.len());
    assert forall|t: int| 0 <= t < fm.len() implies fm[t] >= 0 by {
        lemma_fit_nonneg(e.children@[t], mh);
        assert(ms0[t] >= 0);
    }
    lemma_psum_nonneg(fm, i);
    assert(0 <= e.gap * i) by (nonlinear_arith)
        requires
            0 <= e.gap,
            0 <= i,
    ;
    if i + 1 < e.children@.len() {
        assert(psum(fm, i + 1) == psum(fm, i) + fm[i]);
        assert(e.gap * (i + 1) == e.gap * i + e.gap) by (nonlinear_arith);
    }
}

/// Determinism: the whole build is a function of the tree, the viewport and
/// the origin; equal configurations yield identical instruction sequences.
pub proof fn lemma_layout_deterministic(
    e1: Element,
    e2: Element,
    viewport: (u32, u32),
    origin: (u32, u32),
)
    requires
        e1 == e2,
    ensures
        build_spec(e1, viewport, origin) == build_spec(e2, viewport, origin),
{
}

/// Grow equalization: when the growable children of a node enter the grow
/// pass at a common main-axis fit size, their final main sizes differ by at
/// most one pixel, and the single leftover pixels go to the earliest
/// declared children, so the final sizes never increase from left to right.
pub proof fn lemma_grow_equalization(e: Element, s_main: int)
    requires
        forall|i: int, j: int|
            0 <= i < e.children@.len() && 0 <= j < e.children@.len() && grow_mask(e)[i]
                && grow_mask(e)[j] ==> child_fit_mains(e)[i] == child_fit_mains(e)[j],
    ensures
        forall|i: int, j: int|
            0 <= i <= j < e.children@.len() && grow_mask(e)[i] && grow_mask(e)[j] ==> final_mains(
                e,
                s_main,
            )[j] <= final_mains(e, s_main)[i] <= final_mains(e, s_main)[j] + 1,
{
    let ms = child_fit_mains(e);
    let g = grow_mask(e);
    let r = leftover(e, s_main);
    if r > 0 && count_masked(g, g.len() as int) > 0 {
        lemma_equalize_balanced(ms, g, r);
    }
}

} // verus!
