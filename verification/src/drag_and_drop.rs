//! The decisions taken while a tab is dragged over a dock: where it would land, and
//! how the overlay lock reacts.
//!
//! The pointer's position is floating-point geometry measured by the rendering layer;
//! it reaches these functions as the comparisons that the decisions read.
use vstd::prelude::*;

use crate::destination::{Split, TabDestination, TabInsert};
use crate::dock_state::{node_at, node_error, DockState};
use crate::index::{NodeIndex, NodePath, SurfaceIndex, TabPath};
use crate::node::node_tabs;
use crate::surface::Surface;

verus! {

/// Which splits a dock offers when a tab is dropped on a leaf.
#[derive(Clone, Copy, Debug, PartialEq, Eq, Hash, Structural)]
pub enum AllowedSplits {
    /// Every direction.
    All,
    /// Only to the left or to the right.
    LeftRightOnly,
    /// Only above or below.
    TopBottomOnly,
    /// No split at all.
    NoSplit,
}

/// `split` is offered under `allowed`.
pub open spec fn split_allowed(allowed: AllowedSplits, split: Split) -> bool {
    match allowed {
        AllowedSplits::All => true,
        AllowedSplits::LeftRightOnly => split is Left || split is Right,
        AllowedSplits::TopBottomOnly => split is Above || split is Below,
        AllowedSplits::NoSplit => false,
    }
}

impl AllowedSplits {
    /// Returns `true` if `split` is offered.
    pub fn allows(&self, split: Split) -> (r: bool)
        ensures
            r == split_allowed(*self, split),
    {
        match self {
            AllowedSplits::All => true,
            AllowedSplits::LeftRightOnly => split.is_left_right(),
            AllowedSplits::TopBottomOnly => split.is_top_bottom(),
            AllowedSplits::NoSplit => false,
        }
    }

    /// The splits offered by both `self` and `other`.
    pub fn intersect(self, other: AllowedSplits) -> (r: AllowedSplits)
        ensures
            forall|s: Split| split_allowed(r, s) == (split_allowed(self, s) && split_allowed(other, s)),
    {
        match (self, other) {
            (AllowedSplits::NoSplit, _) | (_, AllowedSplits::NoSplit) => AllowedSplits::NoSplit,
            (AllowedSplits::All, o) => o,
            (s, AllowedSplits::All) => s,
            (AllowedSplits::LeftRightOnly, AllowedSplits::LeftRightOnly) => AllowedSplits::LeftRightOnly,
            (AllowedSplits::TopBottomOnly, AllowedSplits::TopBottomOnly) => AllowedSplits::TopBottomOnly,
            _ => AllowedSplits::NoSplit,
        }
    }

    /// The split buttons shown by the icon overlay, in the order in which they are
    /// drawn and read.
    pub fn offered_splits(&self) -> (r: Vec<Split>)
        ensures
            r@ == seq![Split::Below, Split::Right, Split::Above, Split::Left].filter(|s: Split| split_allowed(*self, s)),
    {
        let mut r = Vec::new();
        if self.allows(Split::Below) {
            r.push(Split::Below);
        }
        if self.allows(Split::Right) {
            r.push(Split::Right);
        }
        if self.allows(Split::Above) {
            r.push(Split::Above);
        }
        if self.allows(Split::Left) {
            r.push(Split::Left);
        }
        proof {
            let all = seq![Split::Below, Split::Right, Split::Above, Split::Left];
            let p = |s: Split| split_allowed(*self, s);
            reveal_with_fuel(Seq::filter, 5);
            assert(all.drop_last() =~= seq![Split::Below, Split::Right, Split::Above]);
            assert(all.drop_last().drop_last() =~= seq![Split::Below, Split::Right]);
            assert(all.drop_last().drop_last().drop_last() =~= seq![Split::Below]);
            assert(all.drop_last().drop_last().drop_last().drop_last() =~= Seq::<Split>::empty());
            assert(r@ =~= all.filter(p));
        }
        r
    }
}

/// A part of the dock under the pointer or being dragged: a whole surface, a node or
/// a tab.
#[derive(Clone, Copy, Debug, PartialEq, Eq, Structural)]
pub enum TreeComponent {
    Surface(SurfaceIndex),
    Node(NodePath),
    Tab(TabPath),
}

/// The surface of a component.
pub open spec fn component_surface(c: TreeComponent) -> SurfaceIndex {
    match c {
        TreeComponent::Surface(s) => s,
        TreeComponent::Node(p) => p.surface,
        TreeComponent::Tab(p) => p.surface,
    }
}

/// Where a tab dropped on component `c` goes.
pub open spec fn component_destination<R>(c: TreeComponent) -> TabDestination<R> {
    match c {
        TreeComponent::Surface(s) => TabDestination::EmptySurface(s),
        TreeComponent::Node(p) => TabDestination::Node(p, TabInsert::Append),
        TreeComponent::Tab(p) => TabDestination::Node(p.node_path(), TabInsert::Insert(p.tab)),
    }
}

impl TreeComponent {
    /// Where a tab dropped on this component goes: an empty surface receives it, a node
    /// gets it appended, a tab gets it inserted at its own position.
    pub fn as_tab_destination<R>(&self) -> (r: TabDestination<R>)
        ensures
            r == component_destination::<R>(*self),
    {
        match *self {
            TreeComponent::Surface(surface) => TabDestination::EmptySurface(surface),
            TreeComponent::Node(dst) => TabDestination::Node(dst, TabInsert::Append),
            TreeComponent::Tab(dst) => TabDestination::Node(dst.node_path(), TabInsert::Insert(dst.tab)),
        }
    }

    /// The surface of this component and, unless it is a whole surface, its node.
    pub fn node_address(&self) -> (r: (SurfaceIndex, Option<NodeIndex>))
        ensures
            *self matches TreeComponent::Surface(s) ==> r == (s, None::<NodeIndex>),
            *self matches TreeComponent::Node(p) ==> r == (p.surface, Some(p.node)),
            *self matches TreeComponent::Tab(p) ==> r == (p.surface, Some(p.node)),
    {
        match *self {
            TreeComponent::Surface(surface) => (surface, None),
            TreeComponent::Node(dst) => (dst.surface, Some(dst.node)),
            TreeComponent::Tab(dst) => (dst.surface, Some(dst.node)),
        }
    }

    /// The surface of this component.
    pub fn surface_address(&self) -> (r: SurfaceIndex)
        ensures
            r == component_surface(*self),
    {
        match *self {
            TreeComponent::Surface(surface) => surface,
            TreeComponent::Node(p) => p.surface,
            TreeComponent::Tab(p) => p.surface,
        }
    }

    /// Returns `true` if this component is a whole surface.
    pub fn is_surface(&self) -> (r: bool)
        ensures
            r == (*self is Surface),
    {
        match *self {
            TreeComponent::Surface(_) => true,
            _ => false,
        }
    }
}

/// How strongly the overlay holds on to the current hover target.
#[derive(Clone, Copy, Debug, PartialEq, Eq, Structural)]
pub enum LockState {
    /// Not held.
    Unlocked,
    /// Held, but released once the pointer leaves.
    SoftLock,
    /// Held, and the hold is renewed.
    HardLock,
}

/// What happens to the overlay lock in one frame.
#[derive(Clone, Copy, Debug, PartialEq, Eq, Structural)]
pub enum LockStep {
    /// Leave the lock as it is.
    Keep,
    /// Lock now (or renew the lock) at the current time.
    Restart,
    /// Release the lock.
    Release,
}

/// The next step of the overlay lock.
///
/// `locked` says whether the lock is held, `target` is what this frame asks for,
/// `over_window` whether the hovered surface is a window, and `still_held` whether the
/// hold time of a held lock has not yet run out.
pub fn lock_step(locked: bool, target: LockState, over_window: bool, still_held: bool) -> (r: LockStep)
    ensures
        locked && target is HardLock ==> r is Restart,
        locked && target is SoftLock ==> r is Keep,
        locked && target is Unlocked ==> r == (if over_window && still_held { LockStep::Keep } else { LockStep::Release }),
        !locked ==> r == (if target is Unlocked { LockStep::Keep } else { LockStep::Restart }),
{
    if locked {
        match target {
            LockState::HardLock => LockStep::Restart,
            LockState::SoftLock => LockStep::Keep,
            LockState::Unlocked => {
                if over_window && still_held {
                    LockStep::Keep
                } else {
                    LockStep::Release
                }
            },
        }
    } else {
        match target {
            LockState::Unlocked => LockStep::Keep,
            _ => LockStep::Restart,
        }
    }
}

/// The sign of a measured coordinate; `Unordered` when the measure is not a number.
#[derive(Clone, Copy, Debug, PartialEq, Eq, Structural)]
pub enum Sign {
    Negative,
    Zero,
    Positive,
    Unordered,
}

/// Where the pointer lies in the hovered leaf, as the highlighted-area overlay reads it.
///
/// The offset `(x, y)` runs from the leaf's centre (`(0, 0)`) to its corners
/// (`(±0.5, ±0.5)`), `y` growing downward.
#[derive(Clone, Copy, Debug, PartialEq, Eq, Structural)]
pub enum PointerRegion {
    /// Inside the central square, where a drop appends to the leaf.
    Center,
    /// Outside the central square but inside the larger window square.
    WindowZone,
    /// Outside both squares: the signs of `x` and `y`, and whether `x - y > 0` and
    /// `-x - y > 0`.
    Edge { x: Sign, y: Sign, x_minus_y_positive: bool, minus_x_minus_y_positive: bool },
}

/// The insertion chosen for a pointer at the edge of a leaf, once the offset is
/// restricted to the allowed directions; `None` where nothing is left of it.
pub open spec fn edge_insert(allowed: AllowedSplits, x: Sign, y: Sign, d1: bool, d2: bool) -> Option<TabInsert> {
    let at_centre = match allowed {
        AllowedSplits::All => x is Zero && y is Zero,
        AllowedSplits::LeftRightOnly => x is Zero,
        AllowedSplits::TopBottomOnly => y is Zero,
        AllowedSplits::NoSplit => true,
    };
    let (a, b) = match allowed {
        AllowedSplits::LeftRightOnly => (x is Positive, x is Negative),
        AllowedSplits::TopBottomOnly => (y is Negative, y is Negative),
        _ => (d1, d2),
    };
    if at_centre {
        None
    } else if a && b {
        Some(TabInsert::Split(Split::Above))
    } else if !a && b {
        Some(TabInsert::Split(Split::Left))
    } else if a && !b {
        Some(TabInsert::Split(Split::Right))
    } else {
        Some(TabInsert::Split(Split::Below))
    }
}

/// Where a pointer at the edge of a leaf splits it: only in a direction `allowed` offers
/// (a coordinate that is not a number aside); restricted to left and right, the side of
/// the centre the pointer is on; restricted to top and bottom, likewise above or below;
/// with every direction offered, the diagonal quarter the pointer is in; never anything
/// but a split, and nothing when no split is offered or the pointer is at the centre.
pub proof fn lemma_edge_insert(allowed: AllowedSplits, x: Sign, y: Sign, d1: bool, d2: bool)
    ensures
        edge_insert(allowed, x, y, d1, d2) is None || edge_insert(allowed, x, y, d1, d2) matches Some(TabInsert::Split(_)),
        edge_insert(allowed, x, y, d1, d2) matches Some(TabInsert::Split(s)) ==> (split_allowed(allowed, s)
            || (allowed is LeftRightOnly && x is Unordered) || (allowed is TopBottomOnly && y is Unordered)),
        allowed is NoSplit ==> edge_insert(allowed, x, y, d1, d2) is None,
        allowed is LeftRightOnly ==> {
            &&& x is Zero ==> edge_insert(allowed, x, y, d1, d2) is None
            &&& x is Positive ==> edge_insert(allowed, x, y, d1, d2) == Some(TabInsert::Split(Split::Right))
            &&& x is Negative ==> edge_insert(allowed, x, y, d1, d2) == Some(TabInsert::Split(Split::Left))
        },
        allowed is TopBottomOnly ==> {
            &&& y is Zero ==> edge_insert(allowed, x, y, d1, d2) is None
            &&& y is Positive ==> edge_insert(allowed, x, y, d1, d2) == Some(TabInsert::Split(Split::Below))
            &&& y is Negative ==> edge_insert(allowed, x, y, d1, d2) == Some(TabInsert::Split(Split::Above))
        },
        allowed is All ==> {
            &&& x is Zero && y is Zero ==> edge_insert(allowed, x, y, d1, d2) is None
            &&& !(x is Zero && y is Zero) ==> edge_insert(allowed, x, y, d1, d2) == Some(TabInsert::Split(
                if d1 && d2 {
                    Split::Above
                } else if d2 {
                    Split::Left
                } else if d1 {
                    Split::Right
                } else {
                    Split::Below
                },
            ))
        },
{
}

/// The insertion for a pointer in `region`: `None` stands for "a new window".
pub open spec fn region_insert(region: PointerRegion, allowed: AllowedSplits, windows_allowed: bool) -> Option<TabInsert> {
    match region {
        PointerRegion::Center => Some(TabInsert::Append),
        PointerRegion::WindowZone => if windows_allowed { None } else { Some(TabInsert::Append) },
        PointerRegion::Edge { x, y, x_minus_y_positive, minus_x_minus_y_positive } => {
            match edge_insert(allowed, x, y, x_minus_y_positive, minus_x_minus_y_positive) {
                Some(i) => Some(i),
                None => if windows_allowed { None } else { Some(TabInsert::Append) },
            }
        },
    }
}

/// What the highlighted-area overlay decided in one frame.
#[derive(Clone, Copy, Debug, PartialEq, Eq)]
pub struct TraditionalDrop<R> {
    /// Where the tab would go if released now.
    pub destination: Option<TabDestination<R>>,
    /// The insertion read from the pointer's place in the leaf, which the overlay shades.
    pub insert: Option<TabInsert>,
    /// The lock the overlay asks for, if it asks for one.
    pub lock_target: Option<LockState>,
}

/// The decision of the highlighted-area overlay.
///
/// `hover` is what the pointer is over; `over_tab_bar` whether it is over a tab title
/// or the tab bar, and `in_tab_rect` whether it is inside that title's rectangle;
/// `new_window` is the placement of a new window, should the tab go into one.
pub fn traditional_destination<R: Copy>(
    hover: TreeComponent,
    over_tab_bar: bool,
    in_tab_rect: bool,
    region: PointerRegion,
    allowed: AllowedSplits,
    windows_allowed: bool,
    docking_allowed: bool,
    new_window: R,
) -> (r: TraditionalDrop<R>)
    ensures
        !windows_allowed && component_surface(hover).0 != 0 ==> r == (TraditionalDrop::<R> {
            destination: None,
            insert: None,
            lock_target: None,
        }),
        (windows_allowed || component_surface(hover).0 == 0) && over_tab_bar ==> r == (TraditionalDrop::<R> {
            destination: Some(component_destination(hover)),
            insert: None,
            lock_target: Some(if in_tab_rect { LockState::SoftLock } else { LockState::Unlocked }),
        }),
        (windows_allowed || component_surface(hover).0 == 0) && !over_tab_bar && !docking_allowed ==> r == (TraditionalDrop::<R> {
            destination: if windows_allowed { Some(TabDestination::Window(new_window)) } else { None },
            insert: None,
            lock_target: None,
        }),
        (windows_allowed || component_surface(hover).0 == 0) && !over_tab_bar && docking_allowed ==> r == (TraditionalDrop::<R> {
            destination: match region_insert(region, allowed, windows_allowed) {
                None => if windows_allowed { Some(TabDestination::Window(new_window)) } else { None },
                Some(i) => match hover {
                    TreeComponent::Surface(s) => Some(TabDestination::EmptySurface(s)),
                    TreeComponent::Node(p) => Some(TabDestination::Node(p, i)),
                    TreeComponent::Tab(_) => None,
                },
            },
            insert: region_insert(region, allowed, windows_allowed),
            lock_target: Some(LockState::SoftLock),
        }),
        (windows_allowed || component_surface(hover).0 == 0) && !over_tab_bar && docking_allowed ==> (region matches PointerRegion::Edge {
            x,
            y,
            ..
        } ==> {
            &&& allowed is TopBottomOnly && y is Positive ==> r.insert == Some(TabInsert::Split(Split::Below))
            &&& allowed is TopBottomOnly && y is Negative ==> r.insert == Some(TabInsert::Split(Split::Above))
            &&& allowed is LeftRightOnly && x is Positive ==> r.insert == Some(TabInsert::Split(Split::Right))
            &&& allowed is LeftRightOnly && x is Negative ==> r.insert == Some(TabInsert::Split(Split::Left))
        }),
        (windows_allowed || component_surface(hover).0 == 0) && !over_tab_bar && docking_allowed ==> {
            &&& region is Center ==> r.insert == Some(TabInsert::Append)
            &&& region is WindowZone ==> r.insert == (if windows_allowed { None } else { Some(TabInsert::Append) })
            &&& r.insert is None ==> r.destination == (if windows_allowed { Some(TabDestination::Window(new_window)) } else { None })
            &&& hover matches TreeComponent::Node(p) ==> (r.insert matches Some(i) ==> r.destination == Some(TabDestination::<R>::Node(p, i)))
        },
        r.insert matches Some(TabInsert::Split(s)) ==> (split_allowed(allowed, s) || (region matches PointerRegion::Edge { x, y, .. }
            && ((allowed is LeftRightOnly && x is Unordered) || (allowed is TopBottomOnly && y is Unordered)))),
{
    proof {
        if let PointerRegion::Edge { x, y, x_minus_y_positive, minus_x_minus_y_positive } = region {
            lemma_edge_insert(allowed, x, y, x_minus_y_positive, minus_x_minus_y_positive);
        }
    }
    if !windows_allowed && !hover.surface_address().is_main() {
        return TraditionalDrop { destination: None, insert: None, lock_target: None };
    }
    if over_tab_bar {
        let lock = if in_tab_rect {
            LockState::SoftLock
        } else {
            LockState::Unlocked
        };
        return TraditionalDrop { destination: Some(hover.as_tab_destination()), insert: None, lock_target: Some(lock) };
    }
    let window = if windows_allowed {
        Some(TabDestination::Window(new_window))
    } else {
        None
    };
    if !docking_allowed {
        return TraditionalDrop { destination: window, insert: None, lock_target: None };
    }
    let insert = match region {
        PointerRegion::Center => Some(TabInsert::Append),
        PointerRegion::WindowZone => {
            if windows_allowed {
                None
            } else {
                Some(TabInsert::Append)
            }
        },
        PointerRegion::Edge { x, y, x_minus_y_positive, minus_x_minus_y_positive } => {
            let at_centre = match allowed {
                AllowedSplits::All => x == Sign::Zero && y == Sign::Zero,
                AllowedSplits::LeftRightOnly => x == Sign::Zero,
                AllowedSplits::TopBottomOnly => y == Sign::Zero,
                AllowedSplits::NoSplit => true,
            };
            if at_centre {
                if windows_allowed {
                    None
                } else {
                    Some(TabInsert::Append)
                }
            } else {
                let (a, b) = match allowed {
                    AllowedSplits::LeftRightOnly => (x == Sign::Positive, x == Sign::Negative),
                    AllowedSplits::TopBottomOnly => (y == Sign::Negative, y == Sign::Negative),
                    _ => (x_minus_y_positive, minus_x_minus_y_positive),
                };
                if a && b {
                    Some(TabInsert::Split(Split::Above))
                } else if !a && b {
                    Some(TabInsert::Split(Split::Left))
                } else if a && !b {
                    Some(TabInsert::Split(Split::Right))
                } else {
                    Some(TabInsert::Split(Split::Below))
                }
            }
        },
    };
    let destination = match insert {
        None => window,
        Some(i) => match hover {
            TreeComponent::Surface(s) => Some(TabDestination::EmptySurface(s)),
            TreeComponent::Node(p) => Some(TabDestination::Node(p, i)),
            TreeComponent::Tab(_) => None,
        },
    };
    TraditionalDrop { destination, insert, lock_target: Some(LockState::SoftLock) }
}

/// Which of the icon overlay's split buttons the pointer is over.
#[derive(Clone, Copy, Debug, PartialEq, Eq, Structural)]
pub struct SplitButtons {
    pub below: bool,
    pub right: bool,
    pub above: bool,
    pub left: bool,
}

/// The button for `split` is offered under `allowed` and hovered.
pub open spec fn split_chosen(buttons: SplitButtons, allowed: AllowedSplits, split: Split) -> bool {
    split_allowed(allowed, split) && match split {
        Split::Below => buttons.below,
        Split::Right => buttons.right,
        Split::Above => buttons.above,
        Split::Left => buttons.left,
    }
}

/// The split of the last hovered button, in drawing order, if any.
pub open spec fn last_chosen_split(buttons: SplitButtons, allowed: AllowedSplits) -> Option<Split> {
    if split_chosen(buttons, allowed, Split::Left) {
        Some(Split::Left)
    } else if split_chosen(buttons, allowed, Split::Above) {
        Some(Split::Above)
    } else if split_chosen(buttons, allowed, Split::Right) {
        Some(Split::Right)
    } else if split_chosen(buttons, allowed, Split::Below) {
        Some(Split::Below)
    } else {
        None
    }
}

/// The split a hovered button picks is offered by `allowed` and its button is hovered;
/// none is picked only when no offered button is hovered.
pub proof fn lemma_last_chosen_split(buttons: SplitButtons, allowed: AllowedSplits)
    ensures
        last_chosen_split(buttons, allowed) matches Some(s) ==> split_allowed(allowed, s) && match s {
            Split::Below => buttons.below,
            Split::Right => buttons.right,
            Split::Above => buttons.above,
            Split::Left => buttons.left,
        },
        last_chosen_split(buttons, allowed) is None ==> {
            &&& !(split_allowed(allowed, Split::Below) && buttons.below)
            &&& !(split_allowed(allowed, Split::Right) && buttons.right)
            &&& !(split_allowed(allowed, Split::Above) && buttons.above)
            &&& !(split_allowed(allowed, Split::Left) && buttons.left)
        },
{
}

/// The decision of the icon overlay.
///
/// `center` and `buttons` say which buttons the pointer is over (only buttons that were
/// shown count), `in_hover_rect` whether it is inside the hovered leaf; the result is
/// the destination and the lock the overlay asks for.
pub fn icon_destination<R: Copy>(
    hover: TreeComponent,
    center: bool,
    buttons: SplitButtons,
    allowed: AllowedSplits,
    windows_allowed: bool,
    docking_allowed: bool,
    in_hover_rect: bool,
    new_window: R,
) -> (r: (Option<TabDestination<R>>, LockState))
    ensures
        r.0 == (if !docking_allowed {
            if windows_allowed { Some(TabDestination::Window(new_window)) } else { None }
        } else {
            match (hover, last_chosen_split(buttons, allowed)) {
                (TreeComponent::Node(p), Some(s)) => Some(TabDestination::Node(p, TabInsert::Split(s))),
                (TreeComponent::Node(p), None) if center => Some(TabDestination::Node(p, TabInsert::Append)),
                (TreeComponent::Surface(s), _) if center => Some(TabDestination::EmptySurface(s)),
                _ => if windows_allowed { Some(TabDestination::Window(new_window)) } else { None },
            }
        }),
        r.0 matches Some(TabDestination::Node(_, TabInsert::Split(s))) ==> split_allowed(allowed, s) && match s {
            Split::Below => buttons.below,
            Split::Right => buttons.right,
            Split::Above => buttons.above,
            Split::Left => buttons.left,
        },
        r.1 == (if docking_allowed && (center || last_chosen_split(buttons, allowed) is Some) {
            LockState::HardLock
        } else if in_hover_rect {
            LockState::SoftLock
        } else {
            LockState::Unlocked
        }),
{
    proof {
        lemma_last_chosen_split(buttons, allowed);
    }
    let mut destination = if windows_allowed {
        Some(TabDestination::Window(new_window))
    } else {
        None
    };
    let mut hovering_buttons = false;
    if docking_allowed {
        if center {
            hovering_buttons = true;
            match hover {
                TreeComponent::Node(p) => {
                    destination = Some(TabDestination::Node(p, TabInsert::Append));
                },
                TreeComponent::Surface(s) => {
                    destination = Some(TabDestination::EmptySurface(s));
                },
                _ => {},
            }
        }
        if allowed.allows(Split::Below) && buttons.below {
            hovering_buttons = true;
            if let TreeComponent::Node(p) = hover {
                destination = Some(TabDestination::Node(p, TabInsert::Split(Split::Below)));
            }
        }
        if allowed.allows(Split::Right) && buttons.right {
            hovering_buttons = true;
            if let TreeComponent::Node(p) = hover {
                destination = Some(TabDestination::Node(p, TabInsert::Split(Split::Right)));
            }
        }
        if allowed.allows(Split::Above) && buttons.above {
            hovering_buttons = true;
            if let TreeComponent::Node(p) = hover {
                destination = Some(TabDestination::Node(p, TabInsert::Split(Split::Above)));
            }
        }
        if allowed.allows(Split::Left) && buttons.left {
            hovering_buttons = true;
            if let TreeComponent::Node(p) = hover {
                destination = Some(TabDestination::Node(p, TabInsert::Split(Split::Left)));
            }
        }
    }
    let lock = if hovering_buttons {
        LockState::HardLock
    } else if in_hover_rect {
        LockState::SoftLock
    } else {
        LockState::Unlocked
    };
    (destination, lock)
}

/// How a tab released over no dock target becomes a window.
#[derive(Clone, Copy, Debug, PartialEq, Eq, Structural)]
pub enum WindowDropKind {
    /// A panel floating inside the viewport it was dragged from.
    FloatingPanel,
    /// A window drawn inside the viewport rather than as a native one.
    ContainedWindow,
    /// A native window.
    NativeWindow,
}

/// The kind of window a released tab becomes, from the dock's options and whether the
/// control key is held.
pub fn window_drop_kind(tear_off_to_floating_on_ctrl: bool, contained_window_on_ctrl: bool, ctrl: bool) -> (r: WindowDropKind)
    ensures
        r == (if tear_off_to_floating_on_ctrl && ctrl {
            WindowDropKind::FloatingPanel
        } else if contained_window_on_ctrl && ctrl {
            WindowDropKind::ContainedWindow
        } else {
            WindowDropKind::NativeWindow
        }),
{
    if tear_off_to_floating_on_ctrl && ctrl {
        WindowDropKind::FloatingPanel
    } else if contained_window_on_ctrl && ctrl {
        WindowDropKind::ContainedWindow
    } else {
        WindowDropKind::NativeWindow
    }
}

/// `src` and `dst` are the same node, and it holds a single tab: moving that tab next
/// to itself would leave the node empty.
pub open spec fn deserted_node<Tab>(ss: Seq<Surface<Tab>>, src: TreeComponent, dst: TreeComponent) -> bool {
    match (src, dst) {
        (TreeComponent::Surface(_), _) | (_, TreeComponent::Surface(_)) => false,
        _ => {
            let (a, b) = (component_node(src), component_node(dst));
            a == b && node_tabs(node_at(ss, a)).len() == 1
        },
    }
}

/// The node of a component that is not a whole surface.
pub open spec fn component_node(c: TreeComponent) -> NodePath {
    match c {
        TreeComponent::Surface(s) => NodePath { surface: s, node: NodeIndex(0) },
        TreeComponent::Node(p) => p,
        TreeComponent::Tab(p) => p.node_path(),
    }
}

impl<Tab> DockState<Tab> {
    /// The splits offered when the tab dragged from `src` hovers `dst`: none over a
    /// whole surface or over the node it would leave empty, else those of `allowed`.
    pub fn drop_splits(&self, src: TreeComponent, dst: TreeComponent, allowed: AllowedSplits) -> (r: AllowedSplits)
        requires
            !(src is Surface) && !(dst is Surface) && component_node(src) == component_node(dst)
                ==> node_error(self.surface_seq(), component_node(src)) is None,
        ensures
            forall|s: Split| split_allowed(r, s) == (split_allowed(allowed, s) && !(dst is Surface)
                && !deserted_node(self.surface_seq(), src, dst)),
    {
        let deserted = match (src.node_address(), dst.node_address()) {
            ((src_surf, Some(src_node)), (dst_surf, Some(dst_node))) => {
                src_surf == dst_surf && src_node == dst_node
                    && self.node(NodePath::new(src_surf, src_node)).unwrap().tabs_count() == 1
            },
            _ => false,
        };
        let restricted = if dst.is_surface() || deserted {
            AllowedSplits::NoSplit
        } else {
            AllowedSplits::All
        };
        allowed.intersect(restricted)
    }
}

} // verus!
