//! Pointer interaction: element paths, the hover and active elements, which
//! mouse events a frame dispatches and to whom, and the pointer state that
//! carries over from frame to frame.
//!
//! Hit testing and running handlers need the scene and stay with the
//! caller; these functions decide what to dispatch and keep the state.

use vstd::prelude::*;

verus! {

/// An element of the scene: the index of its root node and the child
/// indices on the way down.
#[derive(Clone, Debug)]
pub struct ElementPath {
    pub root: usize,
    pub children: Vec<usize>,
}

/// The mathematical model of an element path.
pub struct PathModel {
    pub root: usize,
    pub children: Seq<usize>,
}

impl View for ElementPath {
    type V = PathModel;

    open spec fn view(&self) -> PathModel {
        PathModel { root: self.root, children: self.children@ }
    }
}

impl ElementPath {
    /// The path of root node `root`.
    pub fn root(root: usize) -> (p: Self)
        ensures
            p@ == (PathModel { root, children: Seq::empty() }),
    {
        ElementPath { root, children: Vec::new() }
    }

    /// The path of child `index` of this element.
    pub fn with_child(&self, index: usize) -> (p: Self)
        ensures
            p@ == (PathModel { root: self.root, children: self.children@.push(index) }),
    {
        let mut children = copy_indices(&self.children);
        children.push(index);
        ElementPath { root: self.root, children }
    }

    /// A copy of the path.
    pub fn copy(&self) -> (p: Self)
        ensures
            p@ == self@,
    {
        ElementPath { root: self.root, children: copy_indices(&self.children) }
    }
}

/// A copy of a list of indices.
fn copy_indices(indices: &Vec<usize>) -> (r: Vec<usize>)
    ensures
        r@ == indices@,
{
    let r = indices.clone();
    proof {
        assert(r@ =~= indices@);
    }
    r
}

/// Whether two paths name the same element.
pub fn same_path(a: &ElementPath, b: &ElementPath) -> (r: bool)
    ensures
        r == (a@ == b@),
{
    if a.root != b.root || a.children.len() != b.children.len() {
        proof {
            if a@ == b@ {
                assert(a.children@.len() == b.children@.len());
            }
        }
        return false;
    }
    let mut i: usize = 0;
    while i < a.children.len()
        invariant
            a.root == b.root,
            a.children@.len() == b.children@.len(),
            0 <= i <= a.children@.len(),
            forall|j: int| 0 <= j < i ==> a.children@[j] == b.children@[j],
        decreases a.children@.len() - i,
    {
        if a.children[i] != b.children[i] {
            proof {
                if a@ == b@ {
                    assert(a.children@[i as int] == b.children@[i as int]);
                }
            }
            return false;
        }
        i = i + 1;
    }
    proof {
        assert(a.children@ =~= b.children@);
    }
    true
}

/// Whether two optional paths name the same element (or both none).
pub fn same_optional_path(a: Option<&ElementPath>, b: Option<&ElementPath>) -> (r: bool)
    ensures
        r == (match (a, b) {
            (Some(x), Some(y)) => x@ == y@,
            (None, None) => true,
            _ => false,
        }),
{
    match (a, b) {
        (Some(x), Some(y)) => same_path(x, y),
        (None, None) => true,
        _ => false,
    }
}

/// The element and its ancestors, from the root down: entry `i` keeps the
/// first `i` child indices.
pub open spec fn path_chain(p: PathModel) -> Seq<PathModel> {
    Seq::new(
        (p.children.len() + 1) as nat,
        |i: int| PathModel { root: p.root, children: p.children.subrange(0, i) },
    )
}

/// The chain of ancestors of an element, from its root down to itself.
pub fn element_path_chain(path: &ElementPath) -> (chain: Vec<ElementPath>)
    requires
        path.children@.len() < usize::MAX,
    ensures
        chain@.len() == path_chain(path@).len(),
        forall|i: int| 0 <= i < chain@.len() ==> #[trigger] chain@[i]@ == path_chain(path@)[i],
{
    let mut chain: Vec<ElementPath> = Vec::new();
    let mut current = ElementPath::root(path.root);
    chain.push(current.copy());
    let mut i: usize = 0;
    proof {
        assert(path.children@.subrange(0, 0) =~= Seq::<usize>::empty());
        assert(current@ == path_chain(path@)[0]);
    }
    while i < path.children.len()
        invariant
            0 <= i <= path.children@.len(),
            chain@.len() == i + 1,
            current@ == path_chain(path@)[i as int],
            forall|j: int| 0 <= j <= i ==> #[trigger] chain@[j]@ == path_chain(path@)[j],
        decreases path.children@.len() - i,
    {
        current = current.with_child(path.children[i]);
        proof {
            assert(path.children@.subrange(0, i as int).push(path.children@[i as int]) =~= path.children@.subrange(
                0,
                i + 1,
            ));
        }
        chain.push(current.copy());
        i = i + 1;
    }
    chain
}

/// The length of the longest common start of two chains.
pub open spec fn is_shared_prefix_len(left: Seq<PathModel>, right: Seq<PathModel>, n: int) -> bool {
    &&& 0 <= n <= left.len()
    &&& n <= right.len()
    &&& forall|i: int| 0 <= i < n ==> left[i] == right[i]
    &&& (n < left.len() && n < right.len()) ==> left[n] != right[n]
}

/// How many leading entries two chains of paths share.
pub fn shared_path_prefix_len(left: &Vec<ElementPath>, right: &Vec<ElementPath>) -> (n: usize)
    ensures
        is_shared_prefix_len(left@.map_values(|p: ElementPath| p@), right@.map_values(|p: ElementPath| p@), n as int),
{
    let ghost l = left@.map_values(|p: ElementPath| p@);
    let ghost r = right@.map_values(|p: ElementPath| p@);
    let mut n: usize = 0;
    while n < left.len() && n < right.len() && same_path(&left[n], &right[n])
        invariant
            0 <= n <= left@.len(),
            n <= right@.len(),
            l == left@.map_values(|p: ElementPath| p@),
            r == right@.map_values(|p: ElementPath| p@),
            forall|i: int| 0 <= i < n ==> l[i] == r[i],
        decreases left@.len() - n,
    {
        n = n + 1;
    }
    n
}

/// A pointer event a handler can listen for.
#[derive(Clone, Copy, Debug, PartialEq, Eq, Structural)]
pub enum MouseEventKind {
    Click,
    ContextMenu,
    DblClick,
    MouseDown,
    MouseEnter,
    MouseLeave,
    MouseMove,
    MouseOut,
    MouseOver,
    MouseUp,
}

/// An event to dispatch to the element at a path.
#[derive(Clone, Debug)]
pub struct PathEvent {
    pub path: ElementPath,
    pub kind: MouseEventKind,
}

/// The events that moving the hover from one element to another dispatches,
/// in order: `MouseOut` on the old element, `MouseLeave` on each element it
/// leaves (innermost first), `MouseOver` on the new element, `MouseEnter` on
/// each element it enters (outermost first). Nothing when the hover stays.
pub open spec fn hover_transition(previous: Option<PathModel>, hovered: Option<PathModel>) -> Seq<(PathModel, MouseEventKind)> {
    if previous == hovered {
        Seq::empty()
    } else {
        let previous_chain = match previous {
            Some(p) => path_chain(p),
            None => Seq::empty(),
        };
        let hovered_chain = match hovered {
            Some(p) => path_chain(p),
            None => Seq::empty(),
        };
        let shared = choose|n: int| is_shared_prefix_len(previous_chain, hovered_chain, n);
        let leaving = previous_chain.subrange(shared, previous_chain.len() as int).reverse();
        let entering = hovered_chain.subrange(shared, hovered_chain.len() as int);
        let out = match previous {
            Some(p) => seq![(p, MouseEventKind::MouseOut)],
            None => Seq::empty(),
        };
        let over = match hovered {
            Some(p) => seq![(p, MouseEventKind::MouseOver)],
            None => Seq::empty(),
        };
        out + leaving.map_values(|p: PathModel| (p, MouseEventKind::MouseLeave)) + over + entering.map_values(
            |p: PathModel| (p, MouseEventKind::MouseEnter),
        )
    }
}

/// The model of an optional path.
pub open spec fn optional_path(p: Option<&ElementPath>) -> Option<PathModel> {
    match p {
        Some(x) => Some(x@),
        None => None,
    }
}

/// The model of an optional owned path.
pub open spec fn owned_path(p: Option<ElementPath>) -> Option<PathModel> {
    match p {
        Some(x) => Some(x@),
        None => None,
    }
}

/// The model of a list of events.
pub open spec fn events_model(events: Seq<PathEvent>) -> Seq<(PathModel, MouseEventKind)> {
    events.map_values(|e: PathEvent| (e.path@, e.kind))
}

proof fn lemma_shared_prefix_len_unique(left: Seq<PathModel>, right: Seq<PathModel>, a: int, b: int)
    requires
        is_shared_prefix_len(left, right, a),
        is_shared_prefix_len(left, right, b),
    ensures
        a == b,
{
    if a < b {
        assert(left[a] == right[a]);
    } else if b < a {
        assert(left[b] == right[b]);
    }
}

/// The element and its ancestors, or nothing for no element.
pub open spec fn optional_chain(p: Option<PathModel>) -> Seq<PathModel> {
    match p {
        Some(q) => path_chain(q),
        None => Seq::empty(),
    }
}

proof fn lemma_shared_prefix_exists(left: Seq<PathModel>, right: Seq<PathModel>, k: int)
    requires
        0 <= k <= left.len(),
        k <= right.len(),
        forall|i: int| 0 <= i < k ==> left[i] == right[i],
    ensures
        exists|n: int| is_shared_prefix_len(left, right, n),
    decreases left.len() - k,
{
    if k < left.len() && k < right.len() && left[k] == right[k] {
        lemma_shared_prefix_exists(left, right, k + 1);
    } else {
        assert(is_shared_prefix_len(left, right, k));
    }
}

/// Past the shared start of two chains, no entry of the first is an entry
/// of the second.
proof fn lemma_chains_part_after_shared(p: PathModel, q: PathModel, shared: int, a: int, b: int)
    requires
        is_shared_prefix_len(path_chain(p), path_chain(q), shared),
        shared <= a < path_chain(p).len(),
        0 <= b < path_chain(q).len(),
    ensures
        path_chain(p)[a] != path_chain(q)[b],
{
    let pc = path_chain(p);
    let qc = path_chain(q);
    if pc[a] == qc[b] {
        assert(pc[a].children.len() == a);
        assert(qc[b].children.len() == b);
        assert(shared < qc.len());
        assert(p.children.subrange(0, shared) =~= pc[a].children.subrange(0, shared));
        assert(q.children.subrange(0, shared) =~= qc[b].children.subrange(0, shared));
        assert(pc[shared] == qc[shared]);
    }
}

/// Moving the hover leaves only elements that the new hover is not inside,
/// and enters only elements that the old hover was not inside: the
/// ancestors the two share get neither a leave nor an enter.
pub proof fn lemma_hover_spares_shared_ancestors(previous: Option<PathModel>, hovered: Option<PathModel>, i: int)
    requires
        0 <= i < hover_transition(previous, hovered).len(),
    ensures
        ({
            let event = hover_transition(previous, hovered)[i];
            &&& event.1 == MouseEventKind::MouseLeave ==> optional_chain(previous).contains(event.0)
                && !optional_chain(hovered).contains(event.0)
            &&& event.1 == MouseEventKind::MouseEnter ==> optional_chain(hovered).contains(event.0)
                && !optional_chain(previous).contains(event.0)
        }),
{
    let pc = optional_chain(previous);
    let hc = optional_chain(hovered);
    lemma_shared_prefix_exists(pc, hc, 0);
    let shared = choose|n: int| is_shared_prefix_len(pc, hc, n);
    let leaving = pc.subrange(shared, pc.len() as int).reverse();
    let entering = hc.subrange(shared, hc.len() as int);
    let out: Seq<(PathModel, MouseEventKind)> = match previous {
        Some(p) => seq![(p, MouseEventKind::MouseOut)],
        None => Seq::empty(),
    };
    let over: Seq<(PathModel, MouseEventKind)> = match hovered {
        Some(p) => seq![(p, MouseEventKind::MouseOver)],
        None => Seq::empty(),
    };
    let leaves = leaving.map_values(|p: PathModel| (p, MouseEventKind::MouseLeave));
    let enters = entering.map_values(|p: PathModel| (p, MouseEventKind::MouseEnter));
    let events = hover_transition(previous, hovered);
    if previous != hovered {
        assert(events == out + leaves + over + enters);
        let event = events[i];
        let o = out.len() as int;
        let l = leaves.len() as int;
        let v = over.len() as int;
        if event.1 == MouseEventKind::MouseLeave {
            assert(o <= i < o + l) by {
                if i < o {
                    assert(event == out[i]);
                } else if o + l <= i < o + l + v {
                    assert(event == over[i - o - l]);
                } else if o + l + v <= i {
                    assert(event == enters[i - o - l - v]);
                }
            }
            let a = pc.len() - 1 - (i - o);
            assert(event == leaves[i - o]);
            assert(event.0 == pc[a]);
            assert(pc.contains(event.0));
            if hc.contains(event.0) {
                let b = choose|b: int| 0 <= b < hc.len() && hc[b] == event.0;
                lemma_chains_part_after_shared(previous.unwrap(), hovered.unwrap(), shared, a, b);
            }
        }
        if event.1 == MouseEventKind::MouseEnter {
            assert(o + l + v <= i) by {
                if i < o {
                    assert(event == out[i]);
                } else if o <= i < o + l {
                    assert(event == leaves[i - o]);
                } else if o + l <= i < o + l + v {
                    assert(event == over[i - o - l]);
                }
            }
            let b = shared + (i - o - l - v);
            assert(event == enters[i - o - l - v]);
            assert(event.0 == hc[b]);
            assert(hc.contains(event.0));
            if pc.contains(event.0) {
                let a = choose|a: int| 0 <= a < pc.len() && pc[a] == event.0;
                assert(is_shared_prefix_len(hc, pc, shared));
                lemma_chains_part_after_shared(hovered.unwrap(), previous.unwrap(), shared, b, a);
            }
        }
    }
}

/// The events that moving the hover dispatches (see `hover_transition`).
pub fn hover_transition_events(previous: Option<&ElementPath>, hovered: Option<&ElementPath>) -> (events:
    Vec<PathEvent>)
    requires
        previous matches Some(p) ==> p.children@.len() < usize::MAX,
        hovered matches Some(h) ==> h.children@.len() < usize::MAX,
    ensures
        events_model(events@) == hover_transition(optional_path(previous), optional_path(hovered)),
{
    let mut events: Vec<PathEvent> = Vec::new();
    if same_optional_path(previous, hovered) {
        proof {
            assert(events_model(events@) =~= Seq::<(PathModel, MouseEventKind)>::empty());
        }
        return events;
    }
    let previous_chain = match previous {
        Some(p) => element_path_chain(p),
        None => Vec::new(),
    };
    let hovered_chain = match hovered {
        Some(h) => element_path_chain(h),
        None => Vec::new(),
    };
    let ghost pc = match optional_path(previous) {
        Some(p) => path_chain(p),
        None => Seq::empty(),
    };
    let ghost hc = match optional_path(hovered) {
        Some(p) => path_chain(p),
        None => Seq::empty(),
    };
    proof {
        assert(previous_chain@.map_values(|p: ElementPath| p@) =~= pc);
        assert(hovered_chain@.map_values(|p: ElementPath| p@) =~= hc);
    }
    let shared = shared_path_prefix_len(&previous_chain, &hovered_chain);
    let ghost chosen = choose|n: int| is_shared_prefix_len(pc, hc, n);
    proof {
        lemma_shared_prefix_len_unique(pc, hc, shared as int, chosen);
    }
    let ghost out = match optional_path(previous) {
        Some(p) => seq![(p, MouseEventKind::MouseOut)],
        None => Seq::<(PathModel, MouseEventKind)>::empty(),
    };
    let ghost leaving = pc.subrange(shared as int, pc.len() as int).reverse().map_values(
        |p: PathModel| (p, MouseEventKind::MouseLeave),
    );
    let ghost over = match optional_path(hovered) {
        Some(p) => seq![(p, MouseEventKind::MouseOver)],
        None => Seq::<(PathModel, MouseEventKind)>::empty(),
    };
    let ghost entering = hc.subrange(shared as int, hc.len() as int).map_values(
        |p: PathModel| (p, MouseEventKind::MouseEnter),
    );
    match previous {
        Some(p) => {
            events.push(PathEvent { path: p.copy(), kind: MouseEventKind::MouseOut });
        },
        None => {},
    }
    proof {
        assert(events_model(events@) =~= out);
    }
    let mut i = previous_chain.len();
    while i > shared
        invariant
            shared <= i <= previous_chain@.len(),
            previous_chain@.len() == pc.len(),
            forall|j: int| 0 <= j < pc.len() ==> #[trigger] previous_chain@[j]@ == pc[j],
            leaving == pc.subrange(shared as int, pc.len() as int).reverse().map_values(
                |p: PathModel| (p, MouseEventKind::MouseLeave),
            ),
            events_model(events@) == out + leaving.subrange(0, pc.len() - i),
        decreases i,
    {
        i = i - 1;
        let ghost before = events@;
        events.push(PathEvent { path: previous_chain[i].copy(), kind: MouseEventKind::MouseLeave });
        proof {
            assert(events_model(events@) =~= events_model(before).push((pc[i as int], MouseEventKind::MouseLeave)));
            let sub = pc.subrange(shared as int, pc.len() as int);
            assert(sub.reverse()[pc.len() - i - 1] == sub[sub.len() - 1 - (pc.len() - i - 1)]);
            assert(leaving[pc.len() - i - 1] == (pc[i as int], MouseEventKind::MouseLeave));
            assert(out + leaving.subrange(0, pc.len() - i) =~= (out + leaving.subrange(0, pc.len() - i - 1)).push(
                leaving[pc.len() - i - 1],
            ));
            assert(events_model(events@) =~= out + leaving.subrange(0, pc.len() - i));
        }
    }
    proof {
        assert(leaving.subrange(0, pc.len() - i) =~= leaving);
    }
    match hovered {
        Some(h) => {
            events.push(PathEvent { path: h.copy(), kind: MouseEventKind::MouseOver });
        },
        None => {},
    }
    proof {
        assert(events_model(events@) =~= out + leaving + over);
    }
    let mut k = shared;
    while k < hovered_chain.len()
        invariant
            shared <= k <= hovered_chain@.len(),
            shared <= hc.len(),
            hovered_chain@.len() == hc.len(),
            forall|j: int| 0 <= j < hc.len() ==> #[trigger] hovered_chain@[j]@ == hc[j],
            entering == hc.subrange(shared as int, hc.len() as int).map_values(
                |p: PathModel| (p, MouseEventKind::MouseEnter),
            ),
            events_model(events@) == out + leaving + over + entering.subrange(0, k - shared),
        decreases hovered_chain@.len() - k,
    {
        let ghost before = events@;
        events.push(PathEvent { path: hovered_chain[k].copy(), kind: MouseEventKind::MouseEnter });
        proof {
            assert(events_model(events@) =~= events_model(before).push((hc[k as int], MouseEventKind::MouseEnter)));
            assert(entering[k - shared] == (hc[k as int], MouseEventKind::MouseEnter));
            assert(out + leaving + over + entering.subrange(0, k + 1 - shared) =~= (out + leaving + over
                + entering.subrange(0, k - shared)).push(entering[k - shared]));
            assert(events_model(events@) =~= out + leaving + over + entering.subrange(0, k + 1 - shared));
        }
        k = k + 1;
    }
    proof {
        assert(entering.subrange(0, k - shared) =~= entering);
        assert(optional_path(previous) != optional_path(hovered));
    }
    events
}

// ---------------------------------------------------------------------------
// Hovered and active elements.
// ---------------------------------------------------------------------------

/// The element under the pointer and the element being pressed.
#[derive(Clone, Debug)]
pub struct ElementInteractionState {
    pub hovered: Option<ElementPath>,
    pub active: Option<ElementPath>,
}

/// A copy of an optional path.
pub fn copy_optional_path(p: Option<&ElementPath>) -> (r: Option<ElementPath>)
    ensures
        owned_path(r) == optional_path(p),
        r is Some <==> p is Some,
{
    match p {
        Some(x) => Some(x.copy()),
        None => None,
    }
}

/// The interaction after a pointer update: the new hover; the active
/// element is the hovered one when a press starts, stays while the left
/// button is held, and is cleared otherwise.
pub fn next_element_interaction_state(
    previous: &ElementInteractionState,
    hovered: Option<ElementPath>,
    left_down: bool,
    press_started: bool,
) -> (next: ElementInteractionState)
    ensures
        owned_path(next.hovered) == owned_path(hovered),
        owned_path(next.active) == (if press_started {
            owned_path(hovered)
        } else if left_down {
            owned_path(previous.active)
        } else {
            None
        }),
{
    let active = if press_started {
        copy_optional_path(hovered.as_ref())
    } else if left_down {
        copy_optional_path(previous.active.as_ref())
    } else {
        None
    };
    ElementInteractionState { hovered, active }
}

/// Whether two interaction states name the same elements.
pub fn same_interaction(a: &ElementInteractionState, b: &ElementInteractionState) -> (r: bool)
    ensures
        r == (owned_path(a.hovered) == owned_path(b.hovered) && owned_path(a.active) == owned_path(b.active)),
{
    same_optional_path(a.hovered.as_ref(), b.hovered.as_ref()) && same_optional_path(
        a.active.as_ref(),
        b.active.as_ref(),
    )
}

// ---------------------------------------------------------------------------
// Pointer buttons from frame to frame.
// ---------------------------------------------------------------------------

/// Two clicks on the same element at most this many microseconds apart
/// make a double click.
pub const DOUBLE_CLICK_THRESHOLD_US: u64 = 500_000;

/// The last click: when (in microseconds on the frame clock) and on what.
#[derive(Clone, Debug)]
pub struct LastClick {
    pub at_us: u64,
    pub target: ElementPath,
}

/// The model of the last click.
pub open spec fn last_click_model(c: Option<LastClick>) -> Option<(u64, PathModel)> {
    match c {
        Some(x) => Some((x.at_us, x.target@)),
        None => None,
    }
}

/// The pointer buttons: held now and at the last frame, whether the left
/// button is being ignored until it is released (it started a window drag),
/// the element where the left press began, and the last click.
#[derive(Clone, Debug)]
pub struct PointerState {
    pub left_down: bool,
    pub right_down: bool,
    pub middle_down: bool,
    pub previous_left_down: bool,
    pub previous_right_down: bool,
    pub previous_middle_down: bool,
    pub suppress_left_pointer_until_release: bool,
    pub left_press_target: Option<ElementPath>,
    pub last_click: Option<LastClick>,
}

/// What the buttons do in this frame.
#[derive(Clone, Copy, Debug, PartialEq, Eq, Structural)]
pub struct PointerFrame {
    pub interactive_left_down: bool,
    pub click_started: bool,
    pub right_press_started: bool,
    pub middle_click_started: bool,
}

impl PointerState {
    /// No button held, nothing pressed or clicked.
    pub fn new() -> (s: Self)
        ensures
            s.is_released(),
            s.last_click is None,
    {
        PointerState {
            left_down: false,
            right_down: false,
            middle_down: false,
            previous_left_down: false,
            previous_right_down: false,
            previous_middle_down: false,
            suppress_left_pointer_until_release: false,
            left_press_target: None,
            last_click: None,
        }
    }

    /// No button is held, now or at the last frame, and no press is
    /// pending.
    pub open spec fn is_released(&self) -> bool {
        &&& !self.left_down
        &&& !self.right_down
        &&& !self.middle_down
        &&& !self.previous_left_down
        &&& !self.previous_right_down
        &&& !self.previous_middle_down
        &&& !self.suppress_left_pointer_until_release
        &&& self.left_press_target is None
    }

    /// Forgets the buttons (the window lost focus or was suspended); the
    /// last click is kept.
    pub fn clear(&mut self)
        ensures
            final(self).is_released(),
            last_click_model(final(self).last_click) == last_click_model(old(self).last_click),
    {
        self.left_down = false;
        self.right_down = false;
        self.middle_down = false;
        self.previous_left_down = false;
        self.previous_right_down = false;
        self.previous_middle_down = false;
        self.suppress_left_pointer_until_release = false;
        self.left_press_target = None;
    }

    /// Starts a frame: a left press with a Super key held starts a window
    /// drag, and the left button is ignored until it is released; presses
    /// start when a button is down now and was not at the last frame.
    pub fn begin_frame(&mut self, super_key: bool) -> (frame: PointerFrame)
        ensures
            ({
                let dragging = old(self).left_down && super_key;
                let suppressed = if dragging {
                    true
                } else if !old(self).left_down {
                    false
                } else {
                    old(self).suppress_left_pointer_until_release
                };
                let interactive = old(self).left_down && !dragging && !suppressed;
                &&& final(self).suppress_left_pointer_until_release == suppressed
                &&& frame == (PointerFrame {
                    interactive_left_down: interactive,
                    click_started: interactive && !old(self).previous_left_down,
                    right_press_started: old(self).right_down && !old(self).previous_right_down,
                    middle_click_started: old(self).middle_down && !old(self).previous_middle_down,
                })
                &&& final(self).left_down == old(self).left_down
                &&& final(self).right_down == old(self).right_down
                &&& final(self).middle_down == old(self).middle_down
                &&& final(self).previous_left_down == old(self).previous_left_down
                &&& final(self).previous_right_down == old(self).previous_right_down
                &&& final(self).previous_middle_down == old(self).previous_middle_down
                &&& owned_path(final(self).left_press_target) == owned_path(old(self).left_press_target)
                &&& last_click_model(final(self).last_click) == last_click_model(old(self).last_click)
            }),
    {
        let dragging = crate::frame::should_suspend_updates(self.left_down, super_key, false);
        if dragging {
            self.suppress_left_pointer_until_release = true;
        } else if !self.left_down {
            self.suppress_left_pointer_until_release = false;
        }
        let interactive = self.left_down && !dragging && !self.suppress_left_pointer_until_release;
        PointerFrame {
            interactive_left_down: interactive,
            click_started: interactive && !self.previous_left_down,
            right_press_started: self.right_down && !self.previous_right_down,
            middle_click_started: self.middle_down && !self.previous_middle_down,
        }
    }

    /// Ends a frame: the buttons as seen in it become the previous ones.
    pub fn end_frame(&mut self, interactive_left_down: bool)
        ensures
            final(self).previous_left_down == interactive_left_down,
            final(self).previous_right_down == old(self).right_down,
            final(self).previous_middle_down == old(self).middle_down,
            final(self).left_down == old(self).left_down,
            final(self).right_down == old(self).right_down,
            final(self).middle_down == old(self).middle_down,
            final(self).suppress_left_pointer_until_release == old(self).suppress_left_pointer_until_release,
            owned_path(final(self).left_press_target) == owned_path(old(self).left_press_target),
            last_click_model(final(self).last_click) == last_click_model(old(self).last_click),
    {
        self.previous_left_down = interactive_left_down;
        self.previous_right_down = self.right_down;
        self.previous_middle_down = self.middle_down;
    }
}

/// `a - b`, or 0 when `b` is later.
pub open spec fn elapsed_us(now: u64, then: u64) -> int {
    if now >= then { now - then } else { 0 }
}

/// The events of a left release and the press target and last click after
/// it: the release; a click when the press began on the hovered element; a
/// double click when that element was also clicked at most
/// `DOUBLE_CLICK_THRESHOLD_US` before.
pub open spec fn release_outcome(
    target: Option<PathModel>,
    last_click: Option<(u64, PathModel)>,
    hovered: Option<PathModel>,
    has_mouse: bool,
    now_us: u64,
) -> (Seq<MouseEventKind>, Option<PathModel>, Option<(u64, PathModel)>) {
    let ups = if has_mouse { seq![MouseEventKind::MouseUp] } else { Seq::empty() };
    let clicked = target == hovered && has_mouse;
    let clicks = if clicked { seq![MouseEventKind::Click] } else { Seq::empty() };
    let double = clicked && hovered is Some && (match last_click {
        Some((at, t)) => t == hovered.unwrap() && elapsed_us(now_us, at) <= DOUBLE_CLICK_THRESHOLD_US,
        None => false,
    });
    let doubles = if double { seq![MouseEventKind::DblClick] } else { Seq::empty() };
    let next_click = if clicked && hovered is Some { Some((now_us, hovered.unwrap())) } else { last_click };
    (ups + clicks + doubles, None, next_click)
}

/// The events a frame dispatches at the pointer position, in order, with
/// the press target and last click after it (see `pointer_button_events`).
pub open spec fn pointer_button_outcome(
    press_target: Option<PathModel>,
    last_click: Option<(u64, PathModel)>,
    previous_left_down: bool,
    previous_right_down: bool,
    right_down: bool,
    frame: PointerFrame,
    normal_click_started: bool,
    hovered: Option<PathModel>,
    has_mouse: bool,
    mouse_moved: bool,
    now_us: u64,
) -> (Seq<MouseEventKind>, Option<PathModel>, Option<(u64, PathModel)>) {
    let moves = if mouse_moved && has_mouse { seq![MouseEventKind::MouseMove] } else { Seq::empty() };
    let target = if normal_click_started {
        hovered
    } else if frame.click_started {
        None
    } else {
        press_target
    };
    let downs = if normal_click_started && has_mouse { seq![MouseEventKind::MouseDown] } else { Seq::empty() };
    let released = previous_left_down && !frame.interactive_left_down;
    let release = if released {
        release_outcome(target, last_click, hovered, has_mouse, now_us)
    } else {
        (Seq::empty(), target, last_click)
    };
    let rights = if frame.right_press_started && has_mouse {
        seq![MouseEventKind::MouseDown, MouseEventKind::ContextMenu]
    } else {
        Seq::empty()
    };
    let right_ups = if previous_right_down && !right_down && has_mouse {
        seq![MouseEventKind::MouseUp]
    } else {
        Seq::empty()
    };
    (moves + downs + release.0 + rights + right_ups, release.1, release.2)
}

/// A sequence of events without `DblClick`.
pub open spec fn lacks_double_click(events: Seq<MouseEventKind>) -> bool {
    forall|i: int| 0 <= i < events.len() ==> events[i] != MouseEventKind::DblClick
}

proof fn lemma_concat_lacks_double_click(a: Seq<MouseEventKind>, b: Seq<MouseEventKind>)
    requires
        lacks_double_click(a),
        lacks_double_click(b),
    ensures
        lacks_double_click(a + b),
{
    assert forall|i: int| 0 <= i < (a + b).len() implies (a + b)[i] != MouseEventKind::DblClick by {
        if i < a.len() {
            assert((a + b)[i] == a[i]);
        } else {
            assert((a + b)[i] == b[i - a.len()]);
        }
    }
}

proof fn lemma_release_without_double(
    target: Option<PathModel>,
    last_click: Option<(u64, PathModel)>,
    hovered: Option<PathModel>,
    has_mouse: bool,
    now_us: u64,
)
    requires
        !(last_click matches Some((at, t)) && hovered == Some(t) && elapsed_us(now_us, at)
            <= DOUBLE_CLICK_THRESHOLD_US),
    ensures
        lacks_double_click(release_outcome(target, last_click, hovered, has_mouse, now_us).0),
{
    let ups: Seq<MouseEventKind> = if has_mouse { seq![MouseEventKind::MouseUp] } else { Seq::empty() };
    let clicked = target == hovered && has_mouse;
    let clicks: Seq<MouseEventKind> = if clicked { seq![MouseEventKind::Click] } else { Seq::empty() };
    assert(release_outcome(target, last_click, hovered, has_mouse, now_us).0 =~= ups + clicks
        + Seq::<MouseEventKind>::empty());
    lemma_concat_lacks_double_click(ups, clicks);
    lemma_concat_lacks_double_click(ups + clicks, Seq::<MouseEventKind>::empty());
}

/// A double click is reported only for a second click on the same element:
/// when a frame's events hold `DblClick`, the last click was on the hovered
/// element, at most `DOUBLE_CLICK_THRESHOLD_US` before.
pub proof fn lemma_double_click_needs_same_element(
    press_target: Option<PathModel>,
    last_click: Option<(u64, PathModel)>,
    previous_left_down: bool,
    previous_right_down: bool,
    right_down: bool,
    frame: PointerFrame,
    normal_click_started: bool,
    hovered: Option<PathModel>,
    has_mouse: bool,
    mouse_moved: bool,
    now_us: u64,
)
    ensures
        pointer_button_outcome(
            press_target,
            last_click,
            previous_left_down,
            previous_right_down,
            right_down,
            frame,
            normal_click_started,
            hovered,
            has_mouse,
            mouse_moved,
            now_us,
        ).0.contains(MouseEventKind::DblClick) ==> (last_click matches Some((at, t)) && hovered == Some(t) && (if now_us
            >= at {
            now_us - at
        } else {
            0
        }) <= DOUBLE_CLICK_THRESHOLD_US),
{
    let events = pointer_button_outcome(
        press_target,
        last_click,
        previous_left_down,
        previous_right_down,
        right_down,
        frame,
        normal_click_started,
        hovered,
        has_mouse,
        mouse_moved,
        now_us,
    ).0;
    if !(last_click matches Some((at, t)) && hovered == Some(t) && elapsed_us(now_us, at)
        <= DOUBLE_CLICK_THRESHOLD_US) {
        let moves: Seq<MouseEventKind> = if mouse_moved && has_mouse {
            seq![MouseEventKind::MouseMove]
        } else {
            Seq::empty()
        };
        let target = if normal_click_started {
            hovered
        } else if frame.click_started {
            None
        } else {
            press_target
        };
        let downs: Seq<MouseEventKind> = if normal_click_started && has_mouse {
            seq![MouseEventKind::MouseDown]
        } else {
            Seq::empty()
        };
        let released = previous_left_down && !frame.interactive_left_down;
        let release: Seq<MouseEventKind> = if released {
            release_outcome(target, last_click, hovered, has_mouse, now_us).0
        } else {
            Seq::empty()
        };
        let rights: Seq<MouseEventKind> = if frame.right_press_started && has_mouse {
            seq![MouseEventKind::MouseDown, MouseEventKind::ContextMenu]
        } else {
            Seq::empty()
        };
        let right_ups: Seq<MouseEventKind> = if previous_right_down && !right_down && has_mouse {
            seq![MouseEventKind::MouseUp]
        } else {
            Seq::empty()
        };
        if released {
            lemma_release_without_double(target, last_click, hovered, has_mouse, now_us);
        }
        assert(lacks_double_click(rights)) by {
            if frame.right_press_started && has_mouse {
                assert(rights[0] == MouseEventKind::MouseDown && rights[1] == MouseEventKind::ContextMenu);
            }
        }
        lemma_concat_lacks_double_click(moves, downs);
        lemma_concat_lacks_double_click(moves + downs, release);
        lemma_concat_lacks_double_click(moves + downs + release, rights);
        lemma_concat_lacks_double_click(moves + downs + release + rights, right_ups);
        assert(events == moves + downs + release + rights + right_ups);
        if events.contains(MouseEventKind::DblClick) {
            let i = choose|i: int| 0 <= i < events.len() && events[i] == MouseEventKind::DblClick;
            assert(events[i] != MouseEventKind::DblClick);
        }
    }
}

/// The events of a left release (see `release_outcome`), updating the press
/// target and the last click.
fn release_events(state: &mut PointerState, hovered: Option<&ElementPath>, has_mouse: bool, now_us: u64) -> (events:
    Vec<MouseEventKind>)
    ensures
        ({
            let outcome = release_outcome(
                owned_path(old(state).left_press_target),
                last_click_model(old(state).last_click),
                optional_path(hovered),
                has_mouse,
                now_us,
            );
            &&& events@ == outcome.0
            &&& owned_path(final(state).left_press_target) == outcome.1
            &&& last_click_model(final(state).last_click) == outcome.2
            &&& final(state).left_down == old(state).left_down
            &&& final(state).right_down == old(state).right_down
            &&& final(state).middle_down == old(state).middle_down
            &&& final(state).previous_left_down == old(state).previous_left_down
            &&& final(state).previous_right_down == old(state).previous_right_down
            &&& final(state).previous_middle_down == old(state).previous_middle_down
            &&& final(state).suppress_left_pointer_until_release == old(
                state,
            ).suppress_left_pointer_until_release
        }),
{
    let mut events: Vec<MouseEventKind> = Vec::new();
    if has_mouse {
        events.push(MouseEventKind::MouseUp);
    }
    if same_optional_path(state.left_press_target.as_ref(), hovered) && has_mouse {
        events.push(MouseEventKind::Click);
        match hovered {
            Some(target) => {
                let is_double = match &state.last_click {
                    Some(last) => same_path(&last.target, target) && (if now_us >= last.at_us {
                        now_us - last.at_us
                    } else {
                        0
                    }) <= DOUBLE_CLICK_THRESHOLD_US,
                    None => false,
                };
                state.last_click = Some(LastClick { at_us: now_us, target: target.copy() });
                if is_double {
                    events.push(MouseEventKind::DblClick);
                }
            },
            None => {},
        }
    }
    state.left_press_target = None;
    proof {
        let outcome = release_outcome(
            owned_path(old(state).left_press_target),
            last_click_model(old(state).last_click),
            optional_path(hovered),
            has_mouse,
            now_us,
        );
        assert(events@ =~= outcome.0);
    }
    events
}

/// The pointer events of a frame, dispatched at the pointer position in
/// this order: a move; a left press on the hovered element (which becomes
/// the press target); on a left release, the release, and a click when it
/// ends on the element where the press began (a double click when the same
/// element was clicked at most `DOUBLE_CLICK_THRESHOLD_US` before); a right
/// press and the context menu; a right release. Events need the pointer in
/// the window.
#[verifier::rlimit(40)]
#[verifier::spinoff_prover]
pub fn pointer_button_events(
    state: &mut PointerState,
    frame: PointerFrame,
    normal_click_started: bool,
    hovered: Option<&ElementPath>,
    has_mouse: bool,
    mouse_moved: bool,
    now_us: u64,
) -> (events: Vec<MouseEventKind>)
    ensures
        ({
            let outcome = pointer_button_outcome(
                owned_path(old(state).left_press_target),
                last_click_model(old(state).last_click),
                old(state).previous_left_down,
                old(state).previous_right_down,
                old(state).right_down,
                frame,
                normal_click_started,
                optional_path(hovered),
                has_mouse,
                mouse_moved,
                now_us,
            );
            &&& events@ == outcome.0
            &&& owned_path(final(state).left_press_target) == outcome.1
            &&& last_click_model(final(state).last_click) == outcome.2
            &&& final(state).left_down == old(state).left_down
            &&& final(state).right_down == old(state).right_down
            &&& final(state).middle_down == old(state).middle_down
            &&& final(state).previous_left_down == old(state).previous_left_down
            &&& final(state).previous_right_down == old(state).previous_right_down
            &&& final(state).previous_middle_down == old(state).previous_middle_down
            &&& final(state).suppress_left_pointer_until_release == old(
                state,
            ).suppress_left_pointer_until_release
        }),
{
    let mut events: Vec<MouseEventKind> = Vec::new();
    if mouse_moved && has_mouse {
        events.push(MouseEventKind::MouseMove);
    }
    if normal_click_started {
        state.left_press_target = copy_optional_path(hovered);
        if has_mouse {
            events.push(MouseEventKind::MouseDown);
        }
    } else if frame.click_started {
        state.left_press_target = None;
    }
    let ghost before = events@;
    if state.previous_left_down && !frame.interactive_left_down {
        let mut released = release_events(state, hovered, has_mouse, now_us);
        events.append(&mut released);
    }
    let ghost middle = events@;
    if frame.right_press_started && has_mouse {
        events.push(MouseEventKind::MouseDown);
        events.push(MouseEventKind::ContextMenu);
    }
    if state.previous_right_down && !state.right_down && has_mouse {
        events.push(MouseEventKind::MouseUp);
    }
    proof {
        let outcome = pointer_button_outcome(
            owned_path(old(state).left_press_target),
            last_click_model(old(state).last_click),
            old(state).previous_left_down,
            old(state).previous_right_down,
            old(state).right_down,
            frame,
            normal_click_started,
            optional_path(hovered),
            has_mouse,
            mouse_moved,
            now_us,
        );
        assert(events@ =~= outcome.0);
    }
    events
}

} // verus!
