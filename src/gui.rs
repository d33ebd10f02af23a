//! The widget store: a flat, depth-tagged sequence of widgets with stable
//! handles, the traversal that places every widget inside its parent, mouse
//! focus, dragging and click-to-front, and render jobs.
use vstd::prelude::*;

verus! {

/// Stable identity of a widget, handed out by `UI::add_widget`.
pub type WidgetHandle = i32;

/// Nesting level of a widget: roots have depth 0.
pub type Depth = u32;

/// A position relative to the parent's origin.
#[derive(Clone, Copy, Debug, PartialEq, Eq)]
pub struct Position {
    pub x: i32,
    pub y: i32,
}

/// A width and a height.
#[derive(Clone, Copy, Debug, PartialEq, Eq)]
pub struct Size {
    pub w: i32,
    pub h: i32,
}

/// An axis-aligned rectangle in screen coordinates.
#[derive(Clone, Copy, Debug, PartialEq, Eq)]
pub struct Rect {
    pub x: i32,
    pub y: i32,
    pub w: i32,
    pub h: i32,
}

/// The widget kinds: a form (container), a label (text without a box), a
/// button (with a pressed state) and a text box.
#[derive(Clone, Debug)]
pub enum Widget {
    Empty,
    Form { position: Position, size: Size, title: String },
    Label { position: Position, text: String },
    Button { position: Position, size: Size, pressed: bool, text: String },
    Textbox { position: Position, size: Size, text: String },
}

/// The draw intent of one widget, for an outside renderer.
#[derive(Debug)]
pub enum RenderJob {
    Nul,
    Form { index: WidgetHandle, focus: bool, x: i32, y: i32, w: i32, h: i32, title: String },
    Button {
        index: WidgetHandle,
        pressed: bool,
        focus: bool,
        x: i32,
        y: i32,
        w: i32,
        h: i32,
        text: String,
    },
    Label { index: WidgetHandle, x: i32, y: i32, text: String },
}

/// An event that a widget raises for the application.
pub enum WidgetEvent {
    ButtonClicked(i32),
}

/// How a container arranges its children.
pub enum Layout {
    NoLayout,
    Vertical,
    Horizontal,
}

/// `v` clamped to the range of `i32`.
pub open spec fn clamp_i32(v: int) -> i32 {
    if v < i32::MIN {
        i32::MIN
    } else if v > i32::MAX {
        i32::MAX
    } else {
        v as i32
    }
}

/// Adds two coordinates, saturating at the bounds of `i32`.
pub fn sat_add(a: i32, b: i32) -> (r: i32)
    ensures
        r == clamp_i32(a + b),
{
    let s: i64 = a as i64 + b as i64;
    if s < i32::MIN as i64 {
        i32::MIN
    } else if s > i32::MAX as i64 {
        i32::MAX
    } else {
        s as i32
    }
}

/// Subtracts two coordinates, saturating at the bounds of `i32`.
pub fn sat_sub(a: i32, b: i32) -> (r: i32)
    ensures
        r == clamp_i32(a - b),
{
    let s: i64 = a as i64 - b as i64;
    if s < i32::MIN as i64 {
        i32::MIN
    } else if s > i32::MAX as i64 {
        i32::MAX
    } else {
        s as i32
    }
}

/// A form (a container with a title) at `(ix, iy)` of size `iw` by `ih`.
pub fn new_form(ix: i32, iy: i32, iw: i32, ih: i32, title: &str) -> (r: Widget)
    ensures
        r matches Widget::Form { position, size, title: t } && position == (Position { x: ix, y: iy })
            && size == (Size { w: iw, h: ih }) && t@ == title@,
{
    Widget::Form {
        position: Position { x: ix, y: iy },
        size: Size { w: iw, h: ih },
        title: title.to_owned(),
    }
}

/// A label at `(ix, iy)`.
pub fn new_label(ix: i32, iy: i32, itext: &str) -> (r: Widget)
    ensures
        r matches Widget::Label { position, text } && position == (Position { x: ix, y: iy })
            && text@ == itext@,
{
    Widget::Label { position: Position { x: ix, y: iy }, text: itext.to_owned() }
}

/// A button at `(ix, iy)` of size `iw` by `ih`, not pressed.
pub fn new_button(ix: i32, iy: i32, iw: i32, ih: i32, itext: &str) -> (r: Widget)
    ensures
        r matches Widget::Button { position, size, pressed, text } && position == (Position {
            x: ix,
            y: iy,
        }) && size == (Size { w: iw, h: ih }) && !pressed && text@ == itext@,
{
    Widget::Button {
        position: Position { x: ix, y: iy },
        size: Size { w: iw, h: ih },
        pressed: false,
        text: itext.to_owned(),
    }
}

/// The rectangle at `pos` of size `size`.
pub fn new_rect(pos: &Position, size: &Size) -> (r: Rect)
    ensures
        r == (Rect { x: pos.x, y: pos.y, w: size.w, h: size.h }),
{
    Rect { x: pos.x, y: pos.y, w: size.w, h: size.h }
}

/// The relative box of a widget that carries a size.
pub open spec fn spec_widget_rect(w: Widget) -> Option<Rect> {
    match w {
        Widget::Form { position, size, .. } => Some(
            Rect { x: position.x, y: position.y, w: size.w, h: size.h },
        ),
        Widget::Button { position, size, .. } => Some(
            Rect { x: position.x, y: position.y, w: size.w, h: size.h },
        ),
        Widget::Textbox { position, size, .. } => Some(
            Rect { x: position.x, y: position.y, w: size.w, h: size.h },
        ),
        _ => None,
    }
}

/// The position of a widget relative to its parent's origin.
pub open spec fn spec_widget_position(w: Widget) -> (i32, i32) {
    match w {
        Widget::Empty => (0, 0),
        Widget::Form { position, .. } => (position.x, position.y),
        Widget::Label { position, .. } => (position.x, position.y),
        Widget::Button { position, .. } => (position.x, position.y),
        Widget::Textbox { position, .. } => (position.x, position.y),
    }
}

/// The relative box of a widget that carries a size; `None` for the others.
pub fn get_widget_rect(widget: &Widget) -> (r: Option<Rect>)
    ensures
        r == spec_widget_rect(*widget),
{
    match widget {
        Widget::Empty => None,
        Widget::Form { position, size, .. } => Some(new_rect(position, size)),
        Widget::Label { .. } => None,
        Widget::Button { position, size, .. } => Some(new_rect(position, size)),
        Widget::Textbox { position, size, .. } => Some(new_rect(position, size)),
    }
}

/// The position of a widget relative to its parent's origin.
pub fn get_widget_position(widget: &Widget) -> (r: (i32, i32))
    ensures
        r == spec_widget_position(*widget),
{
    match widget {
        Widget::Empty => (0, 0),
        Widget::Form { position, .. } => (position.x, position.y),
        Widget::Label { position, .. } => (position.x, position.y),
        Widget::Button { position, .. } => (position.x, position.y),
        Widget::Textbox { position, .. } => (position.x, position.y),
    }
}

/// `w` with its pressed flag set to `p` if it is a Button; other widgets are unchanged.
pub open spec fn with_pressed(w: Widget, p: bool) -> Widget {
    match w {
        Widget::Button { position, size, text, .. } => Widget::Button {
            position,
            size,
            pressed: p,
            text,
        },
        _ => w,
    }
}

/// Sets the pressed flag of a Button; other widgets are left as they are.
pub fn set_pressed(widget: &mut Widget, p: bool)
    ensures
        *final(widget) == with_pressed(*old(widget), p),
{
    match widget {
        Widget::Button { pressed, .. } => {
            *pressed = p;
        },
        _ => {},
    }
}

/// Presses a Button; other widgets do not react.
pub fn widget_event_mousedown(widget: &mut Widget)
    ensures
        *final(widget) == with_pressed(*old(widget), true),
{
    set_pressed(widget, true);
}

/// Whether `(x, y)` lies inside `r`, leaving out its last row and column.
pub open spec fn spec_inside(r: Rect, x: i32, y: i32) -> bool {
    x >= r.x && x < r.x + r.w - 1 && y >= r.y && y < r.y + r.h - 1
}

/// Whether `(x, y)` lies inside `rect`, leaving out its last row and column.
pub fn inside_rect(rect: Rect, x: i32, y: i32) -> (r: bool)
    ensures
        r == spec_inside(rect, x, y),
{
    let rx: i64 = rect.x as i64;
    let ry: i64 = rect.y as i64;
    x as i64 >= rx && (x as i64) < rx + rect.w as i64 - 1 && y as i64 >= ry && (y as i64) < ry
        + rect.h as i64 - 1
}

/// The absolute rectangle of a widget whose parent occupies `parent`: the
/// widget's box moved by the parent's origin and clipped to the parent's
/// extent; a widget without a box reaches to the parent's far edges.
#[verifier::opaque]
pub open spec fn spec_place(w: Widget, parent: Rect) -> Rect {
    match spec_widget_rect(w) {
        Some(r) => Rect {
            x: clamp_i32(r.x + parent.x),
            y: clamp_i32(r.y + parent.y),
            w: if r.x + r.w > parent.w {
                clamp_i32(parent.w - r.x)
            } else {
                r.w
            },
            h: if r.y + r.h > parent.h {
                clamp_i32(parent.h - r.y)
            } else {
                r.h
            },
        },
        None => {
            let (ix, iy) = spec_widget_position(w);
            Rect {
                x: clamp_i32(ix + parent.x),
                y: clamp_i32(iy + parent.y),
                w: clamp_i32(parent.w - ix),
                h: clamp_i32(parent.h - iy),
            }
        },
    }
}

/// The absolute rectangle of `widget` inside a parent that occupies `parent`.
pub fn place_widget(widget: &Widget, parent: Rect) -> (r: Rect)
    ensures
        r == spec_place(*widget, parent),
{
    reveal(spec_place);
    match get_widget_rect(widget) {
        Some(rect) => {
            let final_x = sat_add(rect.x, parent.x);
            let final_y = sat_add(rect.y, parent.y);
            let mut final_w = rect.w;
            let mut final_h = rect.h;
            if rect.x as i64 + rect.w as i64 > parent.w as i64 {
                final_w = sat_sub(parent.w, rect.x);
            }
            if rect.y as i64 + rect.h as i64 > parent.h as i64 {
                final_h = sat_sub(parent.h, rect.y);
            }
            Rect { x: final_x, y: final_y, w: final_w, h: final_h }
        },
        None => {
            let (ix, iy) = get_widget_position(widget);
            Rect {
                x: sat_add(ix, parent.x),
                y: sat_add(iy, parent.y),
                w: sat_sub(parent.w, ix),
                h: sat_sub(parent.h, iy),
            }
        },
    }
}


/// The render job of a form.
pub fn render_form(index: WidgetHandle, focus: bool, rect: Rect, title: &str) -> (r: RenderJob)
    ensures
        r matches RenderJob::Form { index: i, focus: f, x, y, w, h, title: t } && i == index && f == focus
            && x == rect.x && y == rect.y && w == rect.w && h == rect.h && t@ == title@,
{
    RenderJob::Form {
        index: index,
        focus: focus,
        x: rect.x,
        y: rect.y,
        w: rect.w,
        h: rect.h,
        title: title.to_owned(),
    }
}

/// The render job of a button.
pub fn render_button(index: WidgetHandle, pressed: bool, focus: bool, rect: Rect, text: &str) -> (r: RenderJob)
    ensures
        r matches RenderJob::Button { index: i, pressed: p, focus: f, x, y, w, h, text: t } && i == index
            && p == pressed && f == focus && x == rect.x && y == rect.y && w == rect.w && h == rect.h
            && t@ == text@,
{
    RenderJob::Button {
        index: index,
        pressed: pressed,
        focus: focus,
        x: rect.x,
        y: rect.y,
        w: rect.w,
        h: rect.h,
        text: text.to_owned(),
    }
}

/// The render job of a label.
pub fn render_text(index: WidgetHandle, x: i32, y: i32, text: &str) -> (r: RenderJob)
    ensures
        r matches RenderJob::Label { index: i, x: rx, y: ry, text: t } && i == index && rx == x && ry == y
            && t@ == text@,
{
    RenderJob::Label { index: index, text: text.to_owned(), x: x, y: y }
}

/// Whether a widget gets a render job: Forms, Labels and Buttons do.
pub open spec fn renders(w: Widget) -> bool {
    w is Form || w is Label || w is Button
}

/// The positions among the first `i` entries that get a render job, in order.
pub open spec fn rendered_upto(s: Seq<Entry>, i: int) -> Seq<int>
    decreases i,
{
    if i <= 0 {
        Seq::empty()
    } else if renders(s[i - 1].widget) {
        rendered_upto(s, i - 1).push(i - 1)
    } else {
        rendered_upto(s, i - 1)
    }
}

/// Whether `job` is the render job of the entry at `p`, drawn in `rect`,
/// given the focus set `focus`.
pub open spec fn job_matches(job: RenderJob, s: Seq<Entry>, focus: Seq<usize>, rect: Rect, p: int) -> bool {
    let hd = s[p].handle;
    let fc = focus.contains(hd);
    match s[p].widget {
        Widget::Form { title, .. } => job matches RenderJob::Form { index, focus: jf, x, y, w, h, title: jt }
            && index == hd && jf == fc && x == rect.x && y == rect.y && w == rect.w && h == rect.h && jt@
            == title@,
        Widget::Label { text, .. } => job matches RenderJob::Label { index, x, y, text: jt } && index == hd
            && x == rect.x && y == rect.y && jt@ == text@,
        Widget::Button { pressed, text, .. } => job matches RenderJob::Button {
            index,
            pressed: jp,
            focus: jf,
            x,
            y,
            w,
            h,
            text: jt,
        } && index == hd && jp == pressed && jf == fc && x == rect.x && y == rect.y && w == rect.w && h
            == rect.h && jt@ == text@,
        _ => false,
    }
}

/// One slot of the widget store: the widget, its nesting depth and its handle.
#[derive(Debug)]
pub struct Entry {
    pub depth: Depth,
    pub handle: usize,
    pub widget: Widget,
}

/// Why `UI::add_widget` refused to add a widget.
#[derive(Clone, Copy, Debug, PartialEq, Eq)]
pub enum UiError {
    /// Every handle that fits in a `WidgetHandle` is taken.
    TooManyWidgets,
    /// The parent handle names no widget.
    UnknownParent,
}

/// Every entry is at most one level deeper than the one before it, and the
/// first is a root: each widget's subtree is the run of deeper entries right
/// after it.
pub open spec fn depths_ok(s: Seq<Entry>) -> bool {
    &&& s.len() > 0 ==> s[0].depth == 0
    &&& forall|i: int| 0 < i < s.len() ==> #[trigger] depth_step_ok(s, i)
}

/// The entry at `i` is at most one level deeper than the one before it.
pub open spec fn depth_step_ok(s: Seq<Entry>, i: int) -> bool {
    s[i].depth <= s[i - 1].depth + 1
}

/// The last position at or before `j` whose depth is below `d`, or -1.
pub open spec fn last_below(s: Seq<Entry>, j: int, d: int) -> int
    decreases j + 1,
{
    if j < 0 {
        -1
    } else if s[j].depth < d {
        j
    } else {
        last_below(s, j - 1, d)
    }
}

/// The position of the parent of the entry at `i`, or -1 for a root.
pub open spec fn parent_pos(s: Seq<Entry>, i: int) -> int {
    last_below(s, i - 1, s[i].depth as int)
}

/// The absolute, parent-clipped rectangle of the entry at `i` when the roots
/// are placed in `root`.
pub open spec fn abs_rect(s: Seq<Entry>, root: Rect, i: int) -> Rect
    decreases i,
{
    let p = parent_pos(s, i);
    if 0 <= p < i {
        spec_place(s[i].widget, abs_rect(s, root, p))
    } else {
        spec_place(s[i].widget, root)
    }
}

/// `last_below` finds a shallower entry at or before `j`, and everything after
/// it up to `j` is at least as deep as `d`.
pub proof fn lemma_last_below_bounds(s: Seq<Entry>, j: int, d: int)
    requires
        -1 <= j < s.len(),
    ensures
        -1 <= last_below(s, j, d) <= j,
        last_below(s, j, d) >= 0 ==> s[last_below(s, j, d)].depth < d,
        forall|k: int| last_below(s, j, d) < k <= j ==> s[k].depth >= d,
    decreases j + 1,
{
    if j >= 0 && s[j].depth >= d {
        lemma_last_below_bounds(s, j - 1, d);
    }
}

/// Depths never exceed positions.
pub proof fn lemma_depth_bounded(s: Seq<Entry>, i: int)
    requires
        depths_ok(s),
        0 <= i < s.len(),
    ensures
        s[i].depth <= i,
    decreases i,
{
    if i > 0 {
        lemma_depth_bounded(s, i - 1);
        assert(depth_step_ok(s, i));
    }
}

/// Below a depth that some earlier entry has, an entry of exactly one level
/// less is found.
pub proof fn lemma_last_below_exists(s: Seq<Entry>, j: int, d: int)
    requires
        depths_ok(s),
        0 <= j < s.len(),
        1 <= d <= s[j].depth + 1,
    ensures
        0 <= last_below(s, j, d) <= j,
        s[last_below(s, j, d)].depth == d - 1,
    decreases j,
{
    if s[j].depth >= d {
        assert(j > 0);
        assert(depth_step_ok(s, j));
        lemma_last_below_exists(s, j - 1, d);
    }
}

/// Whether hit-testing at `(mx, my)` reaches the entry at `p`: every
/// ancestor's rectangle contains the point.
pub open spec fn reached(s: Seq<Entry>, root: Rect, mx: i32, my: i32, p: int) -> bool
    decreases p,
{
    let q = parent_pos(s, p);
    if 0 <= q < p {
        reached(s, root, mx, my, q) && spec_inside(abs_rect(s, root, q), mx, my)
    } else {
        true
    }
}

/// Whether the entry at `p` takes the mouse focus at `(mx, my)`: it is
/// reached, contains the point and is a Form, Button or Textbox.
pub open spec fn hit(s: Seq<Entry>, root: Rect, mx: i32, my: i32, p: int) -> bool {
    &&& reached(s, root, mx, my, p)
    &&& spec_inside(abs_rect(s, root, p), mx, my)
    &&& !(s[p].widget is Label)
    &&& !(s[p].widget is Empty)
}

/// `f` without its trailing positions of depth `d` or more.
pub open spec fn evict(s: Seq<Entry>, f: Seq<int>, d: int) -> Seq<int>
    decreases f.len(),
{
    if f.len() > 0 && s[f.last()].depth >= d {
        evict(s, f.drop_last(), d)
    } else {
        f
    }
}

/// The positions that hold the focus after hit-testing the first `i`
/// entries: each hit evicts the earlier ones at its depth or deeper, so that
/// only the topmost of overlapping siblings keeps the focus.
pub open spec fn focus_upto(s: Seq<Entry>, root: Rect, mx: i32, my: i32, i: int) -> Seq<int>
    decreases i,
{
    if i <= 0 {
        Seq::empty()
    } else {
        let f = focus_upto(s, root, mx, my, i - 1);
        if hit(s, root, mx, my, i - 1) {
            evict(s, f, s[i - 1].depth as int).push(i - 1)
        } else {
            f
        }
    }
}

/// The focus set, as handles, that a mouse move to `(mx, my)` computes.
pub open spec fn focus_at(s: Seq<Entry>, root: Rect, mx: i32, my: i32) -> Seq<usize> {
    focus_upto(s, root, mx, my, s.len() as int).map_values(|p: int| s[p].handle)
}

/// Positions strictly increasing, in range, and of strictly increasing depth.
pub open spec fn chain(s: Seq<Entry>, f: Seq<int>, i: int) -> bool {
    &&& forall|k: int| 0 <= k < f.len() ==> 0 <= #[trigger] f[k] < i
    &&& forall|k1: int, k2: int|
        0 <= k1 < k2 < f.len() ==> #[trigger] f[k1] < #[trigger] f[k2] && s[f[k1]].depth < s[f[k2]].depth
}

/// Eviction keeps a prefix of a focus chain, all shallower than `d`.
pub proof fn lemma_evict(s: Seq<Entry>, f: Seq<int>, d: int, i: int)
    requires
        chain(s, f, i),
        i <= s.len(),
    ensures
        chain(s, evict(s, f, d), i),
        evict(s, f, d).len() <= f.len(),
        evict(s, f, d) == f.subrange(0, evict(s, f, d).len() as int),
        forall|k: int| 0 <= k < evict(s, f, d).len() ==> s[#[trigger] evict(s, f, d)[k]].depth < d,
    decreases f.len(),
{
    if f.len() > 0 && s[f.last()].depth >= d {
        let g = f.drop_last();
        assert(chain(s, g, i));
        lemma_evict(s, g, d, i);
        let e = evict(s, g, d);
        assert(e == f.subrange(0, e.len() as int));
    } else if f.len() > 0 {
        assert forall|k: int| 0 <= k < f.len() implies s[#[trigger] f[k]].depth < d by {
            if k < f.len() - 1 {
                assert(s[f[k]].depth < s[f[f.len() - 1]].depth);
            }
        }
        assert(f == f.subrange(0, f.len() as int));
    } else {
        assert(f == f.subrange(0, 0));
    }
}

/// The focus positions always form a chain of strictly increasing depth.
pub proof fn lemma_focus_chain(s: Seq<Entry>, root: Rect, mx: i32, my: i32, i: int)
    requires
        0 <= i <= s.len(),
    ensures
        chain(s, focus_upto(s, root, mx, my, i), i),
    decreases i,
{
    if i > 0 {
        lemma_focus_chain(s, root, mx, my, i - 1);
        let f = focus_upto(s, root, mx, my, i - 1);
        if hit(s, root, mx, my, i - 1) {
            let d = s[i - 1].depth as int;
            lemma_evict(s, f, d, i - 1);
            let e = evict(s, f, d);
            let g = e.push(i - 1);
            assert forall|k1: int, k2: int| 0 <= k1 < k2 < g.len() implies #[trigger] g[k1] < #[trigger] g[k2]
                && s[g[k1]].depth < s[g[k2]].depth by {
                if k2 == g.len() - 1 {
                    assert(s[e[k1]].depth < d);
                } else {
                    assert(g[k1] == e[k1] && g[k2] == e[k2]);
                }
            }
        }
    }
}

/// `w` moved by `(dx, dy)` if it is a Form; other widgets do not move.
pub open spec fn moved_by(w: Widget, dx: int, dy: int) -> Widget {
    match w {
        Widget::Form { position, size, title } => Widget::Form {
            position: Position { x: clamp_i32(position.x + dx), y: clamp_i32(position.y + dy) },
            size,
            title,
        },
        _ => w,
    }
}

/// `a + to - from`, saturating at the bounds of `i32`.
pub fn shift(a: i32, from: i32, to: i32) -> (r: i32)
    ensures
        r == clamp_i32(a + (to - from)),
{
    let v: i64 = a as i64 + (to as i64 - from as i64);
    if v < i32::MIN as i64 {
        i32::MIN
    } else if v > i32::MAX as i64 {
        i32::MAX
    } else {
        v as i32
    }
}

/// Moves a Form by the cursor's displacement; other widgets stay.
pub fn drag_widget(widget: &mut Widget, last_mx: i32, last_my: i32, mx: i32, my: i32)
    ensures
        *final(widget) == moved_by(*old(widget), mx - last_mx, my - last_my),
{
    match widget {
        Widget::Form { position, .. } => {
            position.x = shift(position.x, last_mx, mx);
            position.y = shift(position.y, last_my, my);
        },
        _ => {},
    }
}

/// Whether `f` holds `x`.
pub fn contains_handle(f: &Vec<usize>, x: usize) -> (r: bool)
    ensures
        r == f@.contains(x),
{
    let mut k: usize = 0;
    while k < f.len()
        invariant
            k <= f@.len(),
            forall|j: int| 0 <= j < k ==> f@[j] != x,
        decreases f@.len() - k,
    {
        if f[k] == x {
            return true;
        }
        k = k + 1;
    }
    false
}

/// `s` with the Buttons released whose handles are in `lost` but not in `kept`.
pub open spec fn released(s: Seq<Entry>, lost: Seq<usize>, kept: Seq<usize>) -> Seq<Entry> {
    Seq::new(
        s.len(),
        |p: int|
            if lost.contains(s[p].handle) && !kept.contains(s[p].handle) {
                Entry { widget: with_pressed(s[p].widget, false), ..s[p] }
            } else {
                s[p]
            },
    )
}

/// The first position at or after `j` whose depth is below `d`, or the end.
pub open spec fn next_shallower(s: Seq<Entry>, j: int, d: int) -> int
    decreases s.len() - j,
{
    if j >= s.len() {
        s.len() as int
    } else if s[j].depth < d {
        j
    } else {
        next_shallower(s, j + 1, d)
    }
}

/// The end of the subtree of the entry at `i`: its descendants are the
/// entries from `i + 1` up to there.
pub open spec fn subtree_end(s: Seq<Entry>, i: int) -> int {
    next_shallower(s, i + 1, s[i].depth + 1)
}

/// The end of the siblings that follow the subtree of the entry at `i`,
/// with their own subtrees.
pub open spec fn siblings_end(s: Seq<Entry>, i: int) -> int {
    next_shallower(s, subtree_end(s, i), s[i].depth as int)
}

/// The store after the subtree of the entry at `i` is moved behind the
/// siblings that follow it.
pub open spec fn promoted(s: Seq<Entry>, i: int) -> Seq<Entry> {
    let a = subtree_end(s, i);
    let b = siblings_end(s, i);
    s.subrange(0, i) + s.subrange(a, b) + s.subrange(i, a) + s.subrange(b, s.len() as int)
}

/// Where the entry at new position `p` stood before the promotion that
/// swaps `[i, a)` with `[a, b)`.
pub open spec fn promoted_from(i: int, a: int, b: int, p: int) -> int {
    if i <= p < i + (b - a) {
        a + (p - i)
    } else if i + (b - a) <= p < b {
        i + (p - i - (b - a))
    } else {
        p
    }
}

/// Where the entry at old position `q` stands after that promotion.
pub open spec fn promoted_to(i: int, a: int, b: int, q: int) -> int {
    if i <= q < a {
        q + (b - a)
    } else if a <= q < b {
        q - (a - i)
    } else {
        q
    }
}

/// `next_shallower` stops at the first entry shallower than `d`, or at the end.
pub proof fn lemma_next_shallower(s: Seq<Entry>, j: int, d: int)
    requires
        0 <= j <= s.len(),
    ensures
        j <= next_shallower(s, j, d) <= s.len(),
        next_shallower(s, j, d) < s.len() ==> s[next_shallower(s, j, d)].depth < d,
        forall|k: int| j <= k < next_shallower(s, j, d) ==> s[k].depth >= d,
    decreases s.len() - j,
{
    if j < s.len() && s[j].depth >= d {
        lemma_next_shallower(s, j + 1, d);
    }
}

/// The promoted store is the old one with positions renamed.
pub proof fn lemma_promoted_index(s: Seq<Entry>, i: int)
    requires
        0 <= i < s.len(),
    ensures
        i < subtree_end(s, i) <= siblings_end(s, i) <= s.len(),
        promoted(s, i).len() == s.len(),
        forall|p: int|
            0 <= p < s.len() ==> #[trigger] promoted(s, i)[p] == s[promoted_from(
                i,
                subtree_end(s, i),
                siblings_end(s, i),
                p,
            )],
{
    let a = subtree_end(s, i);
    let b = siblings_end(s, i);
    lemma_next_shallower(s, i + 1, s[i].depth + 1);
    lemma_next_shallower(s, a, s[i].depth as int);
    let r = promoted(s, i);
    assert forall|p: int| 0 <= p < s.len() implies #[trigger] r[p] == s[promoted_from(i, a, b, p)] by {
        if p < i {
        } else if p < i + (b - a) {
        } else if p < b {
        } else {
        }
    }
}

/// Promotion keeps the depths consistent.
pub proof fn lemma_promoted_depths(s: Seq<Entry>, i: int)
    requires
        0 <= i < s.len(),
        depths_ok(s),
    ensures
        depths_ok(promoted(s, i)),
{
    let a = subtree_end(s, i);
    let b = siblings_end(s, i);
    let d = s[i].depth as int;
    lemma_next_shallower(s, i + 1, d + 1);
    lemma_next_shallower(s, a, d);
    lemma_promoted_index(s, i);
    let r = promoted(s, i);
    let lb = b - a;
    if a < b {
        assert(s[a].depth == d);
    }
    if i > 0 {
        assert(depth_step_ok(s, i));
    }
    assert forall|p: int| 0 < p < r.len() implies #[trigger] depth_step_ok(r, p) by {
        assert(r[p] == s[promoted_from(i, a, b, p)]);
        assert(r[p - 1] == s[promoted_from(i, a, b, p - 1)]);
        if p < i || p > b {
            assert(depth_step_ok(s, p));
        } else if p == i {
        } else if p < i + lb {
            assert(depth_step_ok(s, a + (p - i)));
        } else if p == i + lb {
        } else if p < b {
            assert(depth_step_ok(s, i + (p - i - lb)));
        } else {
            assert(p == b);
        }
    }
    if i == 0 && a < b {
        assert(r[0] == s[a]);
    }
}

/// After a promotion the updated handle table again inverts the store, and
/// every handle resolves to the entry it resolved to before.
pub proof fn lemma_promoted_table(s: Seq<Entry>, t: Seq<usize>, t2: Seq<usize>, ia: int, ae: int, be: int)
    requires
        0 <= ia < ae <= be <= s.len(),
        t.len() == s.len(),
        t2.len() == s.len(),
        ae == subtree_end(s, ia),
        be == siblings_end(s, ia),
        forall|h: int| 0 <= h < s.len() ==> #[trigger] t[h] < s.len() && s[t[h] as int].handle == h,
        forall|q: int| 0 <= q < s.len() ==> #[trigger] s[q].handle < s.len() && t[s[q].handle as int] == q,
        forall|h: int|
            0 <= h < s.len() ==> #[trigger] t2[h] == if ia <= t[h] < be && promoted_to(ia, ae, be, t[h] as int)
                < be {
                promoted_to(ia, ae, be, t[h] as int)
            } else {
                t[h] as int
            },
    ensures
        forall|h: int|
            0 <= h < s.len() ==> #[trigger] t2[h] < s.len() && promoted(s, ia)[t2[h] as int].handle == h
                && promoted(s, ia)[t2[h] as int] == s[t[h] as int],
        forall|q: int|
            0 <= q < s.len() ==> #[trigger] promoted(s, ia)[q].handle < s.len() && t2[promoted(s, ia)[q].handle as int]
                == q,
{
    let n = s.len() as int;
    lemma_promoted_index(s, ia);
    let s2 = promoted(s, ia);
    assert forall|h: int| 0 <= h < n implies #[trigger] t2[h] < n && s2[t2[h] as int].handle == h && s2[t2[h] as int]
        == s[t[h] as int] by {
        let q = t[h] as int;
        if ia <= q < be {
            assert(promoted_from(ia, ae, be, promoted_to(ia, ae, be, q)) == q);
        }
        assert(s2[t2[h] as int] == s[promoted_from(ia, ae, be, t2[h] as int)]);
    }
    assert forall|q: int| 0 <= q < n implies #[trigger] s2[q].handle < n && t2[s2[q].handle as int] == q by {
        let q0 = promoted_from(ia, ae, be, q);
        assert(s2[q] == s[q0]);
        assert(t[s[q0].handle as int] == q0);
        if ia <= q < be {
            assert(promoted_to(ia, ae, be, q0) == q);
        }
    }
}

/// Whether the entry at `a` is a proper ancestor of the entry at `p`.
pub open spec fn is_ancestor(s: Seq<Entry>, a: int, p: int) -> bool
    decreases p,
{
    let q = parent_pos(s, p);
    0 <= q < p && (q == a || is_ancestor(s, a, q))
}

proof fn lemma_ancestor_in_block(s: Seq<Entry>, a: int, p: int)
    requires
        depths_ok(s),
        0 <= p < s.len(),
        is_ancestor(s, a, p),
    ensures
        0 <= a < p,
        forall|k: int| a < k <= p ==> s[k].depth > s[a].depth,
    decreases p,
{
    let q = parent_pos(s, p);
    lemma_last_below_bounds(s, p - 1, s[p].depth as int);
    if q != a {
        lemma_ancestor_in_block(s, a, q);
    }
}

proof fn lemma_block_has_ancestor(s: Seq<Entry>, a: int, p: int)
    requires
        depths_ok(s),
        0 <= a < p < s.len(),
        forall|k: int| a < k <= p ==> s[k].depth > s[a].depth,
    ensures
        is_ancestor(s, a, p),
    decreases p,
{
    let q = parent_pos(s, p);
    lemma_last_below_bounds(s, p - 1, s[p].depth as int);
    assert(q >= a) by {
        if q < a {
            assert(s[a].depth >= s[p].depth);
        }
    }
    if q > a {
        lemma_block_has_ancestor(s, a, q);
    }
}

/// In a store with consistent depths, the descendants of every entry are
/// exactly the contiguous run of entries that follows it up to the end of
/// its subtree, and every entry is one level deeper than its parent.
pub proof fn lemma_subtrees_contiguous(s: Seq<Entry>)
    requires
        depths_ok(s),
    ensures
        forall|p: int|
            0 <= p < s.len() && parent_pos(s, p) >= 0 ==> s[parent_pos(s, p)].depth + 1 == s[p].depth,
        forall|a: int, p: int|
            0 <= a < s.len() && 0 <= p < s.len() ==> (#[trigger] is_ancestor(s, a, p) <==> a < p
                < subtree_end(s, a)),
{
    assert forall|p: int| 0 <= p < s.len() && parent_pos(s, p) >= 0 implies s[parent_pos(s, p)].depth + 1
        == s[p].depth by {
        lemma_last_below_bounds(s, p - 1, s[p].depth as int);
        if p > 0 && s[p].depth >= 1 {
            assert(depth_step_ok(s, p));
            lemma_last_below_exists(s, p - 1, s[p].depth as int);
        }
    }
    assert forall|a: int, p: int| 0 <= a < s.len() && 0 <= p < s.len() implies (#[trigger] is_ancestor(s, a, p)
        <==> a < p < subtree_end(s, a)) by {
        lemma_next_shallower(s, a + 1, s[a].depth + 1);
        if is_ancestor(s, a, p) {
            lemma_ancestor_in_block(s, a, p);
            assert(p < subtree_end(s, a)) by {
                if p >= subtree_end(s, a) {
                    let e = subtree_end(s, a);
                    assert(s[e].depth < s[a].depth + 1);
                }
            }
        }
        if a < p < subtree_end(s, a) {
            lemma_block_has_ancestor(s, a, p);
        }
    }
}

/// The position of the root whose subtree holds the entry at `p`.
pub open spec fn root_of(s: Seq<Entry>, p: int) -> int {
    last_below(s, p, 1)
}

/// Whether the entry at `p` has no later sibling: the entry right after its
/// subtree, if any, is shallower than it.
pub open spec fn frontmost(s: Seq<Entry>, p: int) -> bool {
    let e = subtree_end(s, p);
    e >= s.len() || s[e].depth < s[p].depth
}

/// Promoting the entry at `i` puts it in front of its siblings, and every
/// entry of its subtree that was in front of its own siblings stays so.
pub proof fn lemma_promoted_frontmost(s: Seq<Entry>, i: int, q: int)
    requires
        0 <= i <= q < subtree_end(s, i),
        subtree_end(s, i) <= s.len(),
        q == i || frontmost(s, q),
    ensures
        frontmost(promoted(s, i), q + (siblings_end(s, i) - subtree_end(s, i))),
{
    let n = s.len() as int;
    let ae = subtree_end(s, i);
    let be = siblings_end(s, i);
    let lb = be - ae;
    let d = s[i].depth as int;
    lemma_next_shallower(s, i + 1, d + 1);
    lemma_next_shallower(s, ae, d);
    lemma_promoted_index(s, i);
    let s2 = promoted(s, i);
    let q2 = q + lb;
    let dq = s[q].depth as int;
    assert(s2[q2] == s[q]) by {
        assert(promoted_from(i, ae, be, q2) == q);
    }
    assert forall|k: int| i + lb <= k < be implies #[trigger] s2[k] == s[k - lb] by {
        assert(promoted_from(i, ae, be, k) == k - lb);
    }
    if be < n {
        assert(s2[be] == s[be]) by {
            assert(promoted_from(i, ae, be, be) == be);
        }
    }
    lemma_next_shallower(s, q + 1, dq + 1);
    let e = subtree_end(s, q);
    // The old subtree of `q` ends inside the block of `i`.
    let e_in = if e < ae { e } else { ae };
    assert(e == e_in) by {
        if e > ae {
            assert(s[ae].depth >= dq + 1);
            if q > i {
                assert(dq > d) by {
                    assert(s[q].depth >= d + 1);
                }
            }
        }
    }
    // Where the new subtree of `q` ends.
    let target = if e < ae { e + lb } else { be };
    lemma_next_shallower(s2, q2 + 1, dq + 1);
    let e2 = subtree_end(s2, q2);
    assert forall|k: int| q2 < k < target implies s2[k].depth >= dq + 1 by {
        assert(s2[k] == s[k - lb]);
    }
    if e < ae {
        assert(s2[target] == s[e]);
        assert(s[e].depth < dq + 1);
    } else if be < n {
        assert(s2[be].depth < d);
        assert(dq >= d);
    }
    assert(e2 == target) by {
        if e2 < target {
            assert(s2[e2].depth < dq + 1);
        } else if e2 > target {
            assert(target < n);
            assert(s2[target].depth >= dq + 1);
        }
    }
    if e < ae {
        if q == i {
            assert(s[e].depth < d + 1);
        }
    }
}

/// The handle of the parent of the entry at `p`, or -1 for a root.
pub open spec fn parent_handle(s: Seq<Entry>, p: int) -> int {
    let q = parent_pos(s, p);
    if q >= 0 {
        s[q].handle as int
    } else {
        -1
    }
}

/// `last_below` is characterised by what it finds and what it passes over.
pub proof fn lemma_last_below_is(s: Seq<Entry>, j: int, d: int, k: int)
    requires
        -1 <= k <= j < s.len(),
        k >= 0 ==> s[k].depth < d,
        forall|m: int| k < m <= j ==> s[m].depth >= d,
    ensures
        last_below(s, j, d) == k,
{
    lemma_last_below_bounds(s, j, d);
    let r = last_below(s, j, d);
    if r < k {
        assert(s[k].depth >= d);
    } else if r > k {
        assert(s[r].depth >= d);
    }
}

/// Promotion keeps every entry's parent: the parent of an entry's new
/// position is the new position of its old parent.
pub proof fn lemma_promoted_parent(s: Seq<Entry>, i: int, q: int)
    requires
        depths_ok(s),
        0 <= i < s.len(),
        0 <= q < s.len(),
    ensures
        ({
            let ae = subtree_end(s, i);
            let be = siblings_end(s, i);
            let p = parent_pos(s, q);
            parent_pos(promoted(s, i), promoted_to(i, ae, be, q)) == if p >= 0 {
                promoted_to(i, ae, be, p)
            } else {
                -1
            }
        }),
{
    let n = s.len() as int;
    let ae = subtree_end(s, i);
    let be = siblings_end(s, i);
    let la = ae - i;
    let lb = be - ae;
    let d = s[i].depth as int;
    lemma_next_shallower(s, i + 1, d + 1);
    lemma_next_shallower(s, ae, d);
    lemma_promoted_index(s, i);
    let s2 = promoted(s, i);
    let dq = s[q].depth as int;
    let p = parent_pos(s, q);
    lemma_last_below_bounds(s, q - 1, dq);
    let q2 = promoted_to(i, ae, be, q);
    let p2 = if p >= 0 {
        promoted_to(i, ae, be, p)
    } else {
        -1
    };
    assert(promoted_from(i, ae, be, q2) == q);
    assert(s2[q2] == s[q]);
    if p >= 0 {
        assert(promoted_from(i, ae, be, p2) == p);
        assert(s2[p2] == s[p]);
    }
    if ae < be {
        assert(s[ae].depth == d);
    }
    // Where the old parent can lie.
    if q >= be && 0 <= p && i <= p < be {
        assert(s[p].depth >= d);
        assert(dq == s[p].depth + 1) by {
            assert(depth_step_ok(s, q));
            lemma_last_below_exists(s, q - 1, dq);
        }
        if be < q {
            assert(s[be].depth >= dq);
        }
        assert(false);
    }
    if i < q < ae {
        assert(p >= i) by {
            if p < i {
                assert(s[i].depth >= dq);
            }
        }
    }
    if ae <= q < be && dq > d {
        assert(p >= ae) by {
            if p < ae {
                assert(s[ae].depth >= dq);
            }
        }
    }
    if ae <= q < be && dq == d {
        assert(p < i) by {
            if p >= i {
                assert(s[p].depth >= d);
            }
        }
    }
    if q == i {
        assert(p < i);
    }
    assert forall|m: int| p2 < m <= q2 - 1 implies s2[m].depth >= dq by {
        let m0 = promoted_from(i, ae, be, m);
        assert(s2[m] == s[m0]);
        if q < i || q >= be {
            if i <= m < be {
                assert(i <= m0 < be);
            }
        }
    }
    lemma_last_below_is(s2, q2 - 1, dq, p2);
}

/// Parents depend on depths only.
pub proof fn lemma_same_shape_last_below(s: Seq<Entry>, s2: Seq<Entry>, j: int, d: int)
    requires
        s.len() == s2.len(),
        j < s.len(),
        forall|i: int| 0 <= i < s.len() ==> #[trigger] s[i].depth == s2[i].depth,
    ensures
        last_below(s, j, d) == last_below(s2, j, d),
    decreases j + 1,
{
    if j >= 0 {
        assert(s[j].depth == s2[j].depth);
        lemma_same_shape_last_below(s, s2, j - 1, d);
    }
}

/// Two stores with the same depths and handles give every entry the same
/// parent handle.
pub proof fn lemma_same_shape_parents(s: Seq<Entry>, s2: Seq<Entry>)
    requires
        s.len() == s2.len(),
        forall|i: int| 0 <= i < s.len() ==> (#[trigger] s[i]).depth == s2[i].depth && s[i].handle == s2[i].handle,
    ensures
        forall|p: int| 0 <= p < s.len() ==> #[trigger] parent_handle(s2, p) == parent_handle(s, p),
{
    assert forall|p: int| 0 <= p < s.len() implies #[trigger] parent_handle(s2, p) == parent_handle(s, p) by {
        assert(s[p].depth == s2[p].depth && s[p].handle == s2[p].handle);
        lemma_same_shape_last_below(s, s2, p - 1, s[p].depth as int);
        lemma_last_below_bounds(s, p - 1, s[p].depth as int);
        let q = parent_pos(s, p);
        if q >= 0 {
            assert(s[q].depth == s2[q].depth && s[q].handle == s2[q].handle);
        }
    }
}

/// Whether `w` is a Button that is pressed.
pub open spec fn is_pressed(w: Widget) -> bool {
    w matches Widget::Button { pressed, .. } && pressed
}

/// The session: the widget store, its handle table, the focus set, the drag
/// target and the screen rectangle.
pub struct UI {
    widgets: Vec<Entry>,
    widget_indices: Vec<usize>,
    mouse_focused_widgets: Vec<usize>,
    events: Vec<WidgetEvent>,
    screen_rect: Rect,
    dragged_window: WidgetHandle,
}

impl UI {
    /// The store, in drawing order.
    pub closed spec fn entries(&self) -> Seq<Entry> {
        self.widgets@
    }

    /// The handle table: the position of each handle in the store.
    pub closed spec fn handle_table(&self) -> Seq<usize> {
        self.widget_indices@
    }

    /// The handles under the cursor, outermost first.
    pub closed spec fn focus(&self) -> Seq<usize> {
        self.mouse_focused_widgets@
    }

    /// The handle of the form being dragged, or -1.
    pub closed spec fn dragged(&self) -> int {
        self.dragged_window as int
    }

    /// The events raised since they were last cleared.
    pub closed spec fn events(&self) -> Seq<WidgetEvent> {
        self.events@
    }

    /// The root clipping rectangle.
    pub closed spec fn screen(&self) -> Rect {
        self.screen_rect
    }

    pub open spec fn len(&self) -> int {
        self.entries().len() as int
    }

    pub open spec fn pos_of(&self, h: int) -> int {
        self.handle_table()[h] as int
    }

    /// The entry that handle `h` resolves to.
    pub open spec fn entry_of(&self, h: int) -> Entry {
        self.entries()[self.pos_of(h)]
    }

    /// The handle of the parent of the widget with handle `h`, or -1.
    pub open spec fn parent_of(&self, h: int) -> int {
        parent_handle(self.entries(), self.pos_of(h))
    }

    pub open spec fn depth_of(&self, h: int) -> int {
        self.entry_of(h).depth as int
    }

    /// The rectangle that hit-testing and rendering give the entry at `p`.
    pub open spec fn rect_at(&self, p: int) -> Rect {
        abs_rect(self.entries(), self.screen(), p)
    }

    /// The handle table and the store agree, depths are consistent, the
    /// focus set is a chain of valid handles of strictly increasing depth and
    /// the drag target is valid.
    pub open spec fn wf(&self) -> bool {
        let s = self.entries();
        let t = self.handle_table();
        &&& t.len() == s.len()
        &&& s.len() <= i32::MAX
        &&& forall|h: int| 0 <= h < s.len() ==> #[trigger] t[h] < s.len() && s[t[h] as int].handle == h
        &&& forall|p: int| 0 <= p < s.len() ==> #[trigger] s[p].handle < s.len() && t[s[p].handle as int] == p
        &&& depths_ok(s)
        &&& forall|k: int| 0 <= k < self.focus().len() ==> #[trigger] self.focus()[k] < s.len()
        &&& forall|k1: int, k2: int|
            0 <= k1 < k2 < self.focus().len() ==> #[trigger] self.depth_of(self.focus()[k1] as int)
                < #[trigger] self.depth_of(self.focus()[k2] as int)
        &&& self.dragged() == -1 || 0 <= self.dragged() < s.len()
    }

    /// Whether the root that holds the widget with handle `h` comes last:
    /// its subtree runs to the end of the store, so it is drawn on top of
    /// every other root.
    pub open spec fn in_last_root(&self, h: int) -> bool {
        let r = root_of(self.entries(), self.pos_of(h));
        0 <= r && subtree_end(self.entries(), r) == self.len()
    }

    /// Every pressed Button is in the focus set.
    pub open spec fn presses_focused(&self) -> bool {
        forall|p: int|
            0 <= p < self.len() && is_pressed((#[trigger] self.entries()[p]).widget) ==> self.focus().contains(
                self.entries()[p].handle,
            )
    }

    /// Whatever sequence of calls built the store, each widget's descendants
    /// are the contiguous run right after it, and each widget is one level
    /// deeper than its parent.
    pub proof fn lemma_insertion_contiguity(&self)
        requires
            self.wf(),
        ensures
            forall|p: int|
                0 <= p < self.len() && parent_pos(self.entries(), p) >= 0 ==> self.entries()[parent_pos(
                    self.entries(),
                    p,
                )].depth + 1 == self.entries()[p].depth,
            forall|a: int, p: int|
                0 <= a < self.len() && 0 <= p < self.len() ==> (#[trigger] is_ancestor(self.entries(), a, p)
                    <==> a < p < subtree_end(self.entries(), a)),
    {
        lemma_subtrees_contiguous(self.entries());
    }

    /// Rendering and hit-testing agree: the rectangle in the render job of an
    /// entry is the one that hit-testing tests the cursor against.
    pub proof fn lemma_render_matches_hit_test(&self, jobs: Seq<RenderJob>, k: int, mx: i32, my: i32)
        requires
            self.wf(),
            jobs.len() == rendered_upto(self.entries(), self.len()).len(),
            forall|j: int|
                0 <= j < jobs.len() ==> job_matches(
                    #[trigger] jobs[j],
                    self.entries(),
                    self.focus(),
                    self.rect_at(rendered_upto(self.entries(), self.len())[j]),
                    rendered_upto(self.entries(), self.len())[j],
                ),
            0 <= k < jobs.len(),
        ensures
            ({
                let p = rendered_upto(self.entries(), self.len())[k];
                &&& jobs[k] matches RenderJob::Form { x, y, w, h, .. } ==> (Rect { x, y, w, h }) == abs_rect(
                    self.entries(),
                    self.screen(),
                    p,
                ) && (hit(self.entries(), self.screen(), mx, my, p) <==> reached(
                    self.entries(),
                    self.screen(),
                    mx,
                    my,
                    p,
                ) && spec_inside(Rect { x, y, w, h }, mx, my))
                &&& jobs[k] matches RenderJob::Button { x, y, w, h, .. } ==> (Rect { x, y, w, h }) == abs_rect(
                    self.entries(),
                    self.screen(),
                    p,
                ) && (hit(self.entries(), self.screen(), mx, my, p) <==> reached(
                    self.entries(),
                    self.screen(),
                    mx,
                    my,
                    p,
                ) && spec_inside(Rect { x, y, w, h }, mx, my))
            }),
    {
        let p = rendered_upto(self.entries(), self.len())[k];
        assert(job_matches(jobs[k], self.entries(), self.focus(), self.rect_at(p), p));
    }

    /// At most one pressed Button per depth: no two siblings are pressed at
    /// once, as long as every pressed Button has the focus (which every
    /// mouse event keeps).
    pub proof fn lemma_focus_exclusivity(&self, pa: int, pb: int)
        requires
            self.wf(),
            self.presses_focused(),
            0 <= pa < self.len(),
            0 <= pb < self.len(),
            pa != pb,
            is_pressed(self.entries()[pa].widget),
            is_pressed(self.entries()[pb].widget),
        ensures
            self.entries()[pa].depth != self.entries()[pb].depth,
    {
        let s = self.entries();
        let f = self.focus();
        let h1 = s[pa].handle;
        let h2 = s[pb].handle;
        assert(f.contains(h1));
        assert(f.contains(h2));
        let k1 = choose|k: int| 0 <= k < f.len() && f[k] == h1;
        let k2 = choose|k: int| 0 <= k < f.len() && f[k] == h2;
        assert(self.handle_table()[h1 as int] == pa);
        assert(self.handle_table()[h2 as int] == pb);
        assert(k1 != k2);
        if k1 < k2 {
            assert(self.depth_of(f[k1] as int) < self.depth_of(f[k2] as int));
        } else {
            assert(self.depth_of(f[k2] as int) < self.depth_of(f[k1] as int));
        }
    }

    /// An empty store whose roots are clipped to a screen of the given size.
    pub fn new(screen_width: i32, screen_height: i32) -> (r: UI)
        ensures
            r.wf(),
            r.len() == 0,
            r.focus().len() == 0,
            r.dragged() == -1,
            r.screen() == (Rect { x: 0, y: 0, w: screen_width, h: screen_height }),
    {
        UI {
            widgets: Vec::new(),
            widget_indices: Vec::new(),
            mouse_focused_widgets: Vec::new(),
            events: Vec::new(),
            screen_rect: Rect { x: 0, y: 0, w: screen_width, h: screen_height },
            dragged_window: -1,
        }
    }

    /// Drops the events gathered during the last frame.
    pub fn clear_events(&mut self)
        ensures
            final(self).events().len() == 0,
            final(self).entries() == old(self).entries(),
            final(self).handle_table() == old(self).handle_table(),
            final(self).focus() == old(self).focus(),
            final(self).dragged() == old(self).dragged(),
            final(self).screen() == old(self).screen(),
    {
        self.events.clear();
    }

    /// The number of widgets.
    pub fn num_widgets(&self) -> (r: usize)
        ensures
            r == self.len(),
    {
        self.widgets.len()
    }

    /// The store position of the widget with handle `handle`.
    fn find_widget_index_by_handle(&self, handle: usize) -> (r: usize)
        requires
            self.wf(),
            handle < self.len(),
        ensures
            r == self.pos_of(handle as int),
            r < self.len(),
    {
        self.widget_indices[handle]
    }

    /// The handle of the widget at store position `index`.
    fn find_widget_handle_by_index(&self, index: usize) -> (r: usize)
        requires
            self.wf(),
            index < self.len(),
        ensures
            r == self.entries()[index as int].handle,
            r < self.len(),
            self.pos_of(r as int) == index,
    {
        self.widgets[index].handle
    }

    /// Adds `w` as a new root when `parent` is -1, otherwise as the first
    /// child of `parent`, right after it in the store and one level deeper.
    /// Returns the new widget's handle, which is the number of widgets before
    /// the call.
    pub fn add_widget(&mut self, parent: WidgetHandle, w: Widget) -> (r: Result<WidgetHandle, UiError>)
        requires
            old(self).wf(),
        ensures
            final(self).wf(),
            final(self).focus() == old(self).focus(),
            final(self).dragged() == old(self).dragged(),
            final(self).screen() == old(self).screen(),
            old(self).len() >= i32::MAX ==> r == Err::<WidgetHandle, UiError>(UiError::TooManyWidgets),
            old(self).len() < i32::MAX && parent != -1 && !(0 <= parent < old(self).len()) ==> r
                == Err::<WidgetHandle, UiError>(UiError::UnknownParent),
            r is Ok <==> old(self).len() < i32::MAX && (parent == -1 || 0 <= parent < old(self).len()),
            r is Err ==> final(self).entries() == old(self).entries() && final(self).handle_table()
                == old(self).handle_table(),
            r is Ok ==> r->Ok_0 == old(self).len() && final(self).pos_of(r->Ok_0 as int)
                == (if parent == -1 { old(self).len() } else { old(self).pos_of(parent as int) + 1 }),
            r is Ok && parent == -1 ==> final(self).entries() == old(self).entries().push(
                Entry { depth: 0, handle: old(self).len() as usize, widget: w },
            ),
            r is Ok && parent != -1 ==> final(self).entries() == old(self).entries().insert(
                old(self).pos_of(parent as int) + 1,
                Entry {
                    depth: (old(self).depth_of(parent as int) + 1) as Depth,
                    handle: old(self).len() as usize,
                    widget: w,
                },
            ),
            forall|h: int| 0 <= h < old(self).len() ==> #[trigger] final(self).entry_of(h) == old(self).entry_of(h),
            r is Ok ==> parent_pos(final(self).entries(), final(self).pos_of(r->Ok_0 as int)) == if parent == -1 {
                -1
            } else {
                final(self).pos_of(parent as int)
            },
            r is Ok ==> final(self).parent_of(r->Ok_0 as int) == parent as int,
            r is Ok ==> forall|g: int|
                0 <= g < old(self).len() ==> #[trigger] final(self).pos_of(g) == old(self).pos_of(g) + if parent != -1
                    && old(self).pos_of(g) > old(self).pos_of(parent as int) {
                    1int
                } else {
                    0int
                },
            old(self).presses_focused() && !is_pressed(w) ==> final(self).presses_focused(),
    {
        let n = self.widget_indices.len();
        if n >= i32::MAX as usize {
            return Err(UiError::TooManyWidgets);
        }
        let ghost s = self.entries();
        let ghost t = self.handle_table();
        if parent != -1 {
            if parent < 0 || parent as usize >= n {
                return Err(UiError::UnknownParent);
            }
            let pp = self.find_widget_index_by_handle(parent as usize);
            let parent_depth = self.widgets[pp].depth;
            proof {
                lemma_depth_bounded(s, pp as int);
            }
            // Every entry after the parent moves one place down.
            let mut i = pp + 1;
            while i < n
                invariant
                    self.widgets@ == s,
                    s.len() == n,
                    t.len() == n,
                    pp < n,
                    pp + 1 <= i <= n,
                    self.widget_indices@.len() == n,
                    self.mouse_focused_widgets@ == old(self).mouse_focused_widgets@,
                    self.dragged_window == old(self).dragged_window,
                    self.screen_rect == old(self).screen_rect,
                    forall|q: int| 0 <= q < n ==> (#[trigger] s[q]).handle < n && t[s[q].handle as int] == q,
                    forall|h: int| 0 <= h < n ==> #[trigger] t[h] < n && s[t[h] as int].handle == h,
                    forall|h: int|
                        0 <= h < n ==> #[trigger] self.widget_indices@[h] == if pp < t[h] < i {
                            t[h] + 1
                        } else {
                            t[h] as int
                        },
                decreases n - i,
            {
                let h = self.widgets[i].handle;
                self.widget_indices.set(h, i + 1);
                i = i + 1;
            }
            self.widget_indices.push(pp + 1);
            self.widgets.insert(pp + 1, Entry { depth: parent_depth + 1, handle: n, widget: w });
            proof {
                let s2 = self.widgets@;
                let t2 = self.widget_indices@;
                assert(s2[pp as int] == s[pp as int]);
                assert(last_below(s2, pp as int, parent_depth + 1) == pp);
                assert(t2[parent as int] == pp);
                assert forall|h: int| 0 <= h < n + 1 implies #[trigger] t2[h] < n + 1 && s2[t2[h] as int].handle == h by {
                    if h < n {
                        assert(t2[h] == if t[h] > pp { t[h] + 1 } else { t[h] as int });
                    }
                }
                assert forall|q: int| 0 <= q < n + 1 implies #[trigger] s2[q].handle < n + 1 && t2[s2[q].handle as int] == q by {
                    if q < pp + 1 {
                        assert(s2[q] == s[q]);
                    } else if q > pp + 1 {
                        assert(s2[q] == s[q - 1]);
                    }
                }
                assert forall|i: int| 0 < i < s2.len() implies #[trigger] depth_step_ok(s2, i) by {
                    if i < pp + 1 {
                        assert(depth_step_ok(s, i));
                    } else if i > pp + 2 {
                        assert(depth_step_ok(s, i - 1));
                    } else if i == pp + 2 {
                        assert(depth_step_ok(s, i - 1));
                    }
                }
                assert forall|h: int| 0 <= h < n implies #[trigger] self.entry_of(h) == s[t[h] as int] by {
                    assert(t2[h] == if t[h] > pp { t[h] + 1 } else { t[h] as int });
                }
                let f = self.focus();
                assert(f == old(self).focus());
                assert forall|k1: int, k2: int| 0 <= k1 < k2 < f.len() implies #[trigger] self.depth_of(f[k1] as int)
                    < #[trigger] self.depth_of(f[k2] as int) by {
                    assert(f[k1] < n && f[k2] < n);
                    assert(old(self).depth_of(f[k1] as int) < old(self).depth_of(f[k2] as int));
                    assert(self.entry_of(f[k1] as int) == old(self).entry_of(f[k1] as int));
                    assert(self.entry_of(f[k2] as int) == old(self).entry_of(f[k2] as int));
                }
            }
        } else {
            let index = self.widgets.len();
            self.widget_indices.push(index);
            self.widgets.push(Entry { depth: 0, handle: n, widget: w });
            proof {
                let s2 = self.widgets@;
                lemma_last_below_bounds(s2, n - 1, 0);
                assert forall|i: int| 0 < i < s2.len() implies #[trigger] depth_step_ok(s2, i) by {
                    if i < n {
                        assert(depth_step_ok(s, i));
                    }
                }
                assert forall|h: int| 0 <= h < n implies #[trigger] self.entry_of(h) == s[t[h] as int] by {
                }
                let f = self.focus();
                assert(f == old(self).focus());
                assert forall|k1: int, k2: int| 0 <= k1 < k2 < f.len() implies #[trigger] self.depth_of(f[k1] as int)
                    < #[trigger] self.depth_of(f[k2] as int) by {
                    assert(f[k1] < n && f[k2] < n);
                    assert(old(self).depth_of(f[k1] as int) < old(self).depth_of(f[k2] as int));
                    assert(self.entry_of(f[k1] as int) == old(self).entry_of(f[k1] as int));
                    assert(self.entry_of(f[k2] as int) == old(self).entry_of(f[k2] as int));
                }
            }
        }
        Ok(n as WidgetHandle)
    }

    /// The position of each entry's parent, `None` for a root.
    fn parent_positions(&self) -> (ps: Vec<Option<usize>>)
        requires
            self.wf(),
        ensures
            ps@.len() == self.len(),
            forall|i: int|
                0 <= i < self.len() ==> #[trigger] ps@[i] == if parent_pos(self.entries(), i) >= 0 {
                    Some(parent_pos(self.entries(), i) as usize)
                } else {
                    None::<usize>
                },
            forall|i: int| 0 <= i < self.len() ==> parent_pos(self.entries(), i) < i,
    {
        let ghost s = self.entries();
        let n = self.widgets.len();
        let mut stack: Vec<usize> = Vec::new();
        let mut ps: Vec<Option<usize>> = Vec::new();
        let mut i: usize = 0;
        while i < n
            invariant
                s == self.entries(),
                n == s.len(),
                depths_ok(s),
                i <= n,
                ps@.len() == i,
                forall|k: int|
                    0 <= k < i ==> #[trigger] ps@[k] == if parent_pos(s, k) >= 0 {
                        Some(parent_pos(s, k) as usize)
                    } else {
                        None::<usize>
                    },
                forall|k: int| 0 <= k < i ==> #[trigger] parent_pos(s, k) < k,
                i == 0 ==> stack@.len() == 0,
                i > 0 ==> stack@.len() == s[i - 1].depth + 1,
                forall|k: int| 0 <= k < stack@.len() ==> #[trigger] stack@[k] == last_below(s, i - 1, k + 1),
            decreases n - i,
        {
            let d = self.widgets[i].depth as usize;
            proof {
                if i > 0 {
                    assert(depth_step_ok(s, i as int));
                } else {
                    assert(s[0].depth == 0);
                }
                lemma_last_below_bounds(s, i - 1, d as int);
                lemma_depth_bounded(s, i as int);
            }
            let parent = if d == 0 {
                None
            } else {
                Some(stack[d - 1])
            };
            proof {
                if d == 0 {
                    assert(parent_pos(s, i as int) < 0);
                } else {
                    assert(stack@[d - 1] == last_below(s, i - 1, d as int));
                }
            }
            ps.push(parent);
            stack.truncate(d);
            stack.push(i);
            proof {
                assert forall|k: int| 0 <= k < stack@.len() implies #[trigger] stack@[k] == last_below(s, i as int, k + 1) by {
                    if k < d as int {
                        assert(last_below(s, i as int, k + 1) == last_below(s, i - 1, k + 1));
                    }
                }
            }
            i = i + 1;
        }
        ps
    }

    /// Sets the pressed flag of the widget at position `p` (Buttons only).
    fn set_pressed_at(&mut self, p: usize, v: bool)
        requires
            p < old(self).len(),
        ensures
            final(self).entries() == old(self).entries().update(
                p as int,
                Entry { widget: with_pressed(old(self).entries()[p as int].widget, v), ..old(self).entries()[p as int] },
            ),
            final(self).handle_table() == old(self).handle_table(),
            final(self).focus() == old(self).focus(),
            final(self).dragged() == old(self).dragged(),
            final(self).screen() == old(self).screen(),
    {
        set_pressed(&mut self.widgets[p].widget, v);
    }

    /// Handles a mouse move from `(last_mx, last_my)` to `(mx, my)`. While a
    /// form is dragged it moves by the displacement; otherwise the focus set is
    /// computed anew and the Buttons that lost the focus are released.
    pub fn mousemove(&mut self, last_mx: i32, last_my: i32, mx: i32, my: i32)
        requires
            old(self).wf(),
        ensures
            final(self).wf(),
            final(self).handle_table() == old(self).handle_table(),
            final(self).dragged() == old(self).dragged(),
            final(self).screen() == old(self).screen(),
            old(self).presses_focused() ==> final(self).presses_focused(),
            old(self).dragged() >= 0 ==> final(self).focus() == old(self).focus() && final(self).entries()
                == old(self).entries().update(
                old(self).pos_of(old(self).dragged()),
                Entry {
                    widget: moved_by(old(self).entry_of(old(self).dragged()).widget, mx - last_mx, my - last_my),
                    ..old(self).entry_of(old(self).dragged())
                },
            ),
            old(self).dragged() < 0 ==> final(self).focus() == focus_at(old(self).entries(), old(self).screen(), mx, my)
                && final(self).entries() == released(old(self).entries(), old(self).focus(), final(self).focus()),
    {
        let ghost s = self.entries();
        let ghost t = self.handle_table();
        let ghost root = self.screen_rect;
        if self.dragged_window >= 0 {
            let index = self.find_widget_index_by_handle(self.dragged_window as usize);
            drag_widget(&mut self.widgets[index].widget, last_mx, last_my, mx, my);
            proof {
                let s2 = self.entries();
                assert forall|i: int| 0 < i < s2.len() implies #[trigger] depth_step_ok(s2, i) by {
                    assert(depth_step_ok(s, i));
                }
                assert forall|h: int| 0 <= h < s.len() implies #[trigger] self.depth_of(h) == old(self).depth_of(h) by {
                }
                let f = self.focus();
                assert forall|k1: int, k2: int| 0 <= k1 < k2 < f.len() implies #[trigger] self.depth_of(f[k1] as int)
                    < #[trigger] self.depth_of(f[k2] as int) by {
                    assert(f[k1] < s.len() && f[k2] < s.len());
                    assert(old(self).depth_of(f[k1] as int) < old(self).depth_of(f[k2] as int));
                }
            }
            return ;
        }
        let n = self.widgets.len();
        let rects = self.compute_rects(self.screen_rect);
        let parents = self.parent_positions();
        let mut reach: Vec<bool> = Vec::new();
        let mut focused: Vec<usize> = Vec::new();
        let mut i: usize = 0;
        while i < n
            invariant
                s == self.entries(),
                root == self.screen(),
                n == s.len(),
                self.wf(),
                i <= n,
                rects@.len() == n,
                parents@.len() == n,
                forall|k: int| 0 <= k < n ==> #[trigger] rects@[k] == abs_rect(s, root, k),
                forall|k: int|
                    0 <= k < n ==> #[trigger] parents@[k] == if parent_pos(s, k) >= 0 {
                        Some(parent_pos(s, k) as usize)
                    } else {
                        None::<usize>
                    },
                forall|k: int| 0 <= k < n ==> parent_pos(s, k) < k,
                reach@.len() == i,
                forall|k: int| 0 <= k < i ==> #[trigger] reach@[k] == reached(s, root, mx, my, k),
                focused@.len() == focus_upto(s, root, mx, my, i as int).len(),
                forall|k: int|
                    0 <= k < focused@.len() ==> #[trigger] focused@[k] as int == focus_upto(s, root, mx, my, i as int)[k],
            decreases n - i,
        {
            proof {
                lemma_focus_chain(s, root, mx, my, i as int);
            }
            let ghost pp = parent_pos(s, i as int);
            let r = match parents[i] {
                None => true,
                Some(q) => reach[q] && inside_rect(rects[q], mx, my),
            };
            proof {
                assert(r == reached(s, root, mx, my, i as int));
            }
            reach.push(r);
            let ghost f0 = focus_upto(s, root, mx, my, i as int);
            if r && inside_rect(rects[i], mx, my) && !matches!(self.widgets[i].widget, Widget::Label { .. })
                && !matches!(self.widgets[i].widget, Widget::Empty) {
                let d = self.widgets[i].depth;
                let ghost target = evict(s, f0, d as int);
                proof {
                    assert(focused@.map_values(|p: usize| p as int) == f0);
                }
                while focused.len() > 0 && self.widgets[focused[focused.len() - 1]].depth >= d
                    invariant
                        s == self.entries(),
                        n == s.len(),
                        chain(s, focused@.map_values(|p: usize| p as int), n as int),
                        evict(s, focused@.map_values(|p: usize| p as int), d as int) == target,
                    decreases focused@.len(),
                {
                    let ghost g = focused@.map_values(|p: usize| p as int);
                    assert(g.last() == focused@[focused@.len() - 1] as int);
                    focused.pop();
                    proof {
                        assert(focused@.map_values(|p: usize| p as int) == g.drop_last());
                    }
                }
                proof {
                    let g = focused@.map_values(|p: usize| p as int);
                    if g.len() > 0 {
                        assert(g.last() == focused@[focused@.len() - 1] as int);
                    }
                    assert(g == target);
                }
                focused.push(i);
                proof {
                    let g = focused@.map_values(|p: usize| p as int);
                    assert(g == focus_upto(s, root, mx, my, i + 1));
                }
            } else {
                proof {
                    assert(focus_upto(s, root, mx, my, i + 1) == f0);
                }
            }
            i = i + 1;
        }
        proof {
            lemma_focus_chain(s, root, mx, my, n as int);
        }
        let ghost fp = focus_upto(s, root, mx, my, n as int);
        let mut new_focus: Vec<usize> = Vec::new();
        let mut k: usize = 0;
        while k < focused.len()
            invariant
                s == self.entries(),
                self.wf(),
                n == s.len(),
                k <= focused@.len(),
                focused@.len() == fp.len(),
                forall|j: int| 0 <= j < focused@.len() ==> #[trigger] focused@[j] as int == fp[j],
                chain(s, fp, n as int),
                new_focus@.len() == k,
                forall|j: int| 0 <= j < k ==> #[trigger] new_focus@[j] == s[fp[j]].handle,
            decreases focused@.len() - k,
        {
            new_focus.push(self.find_widget_handle_by_index(focused[k]));
            k = k + 1;
        }
        proof {
            assert(new_focus@ == focus_at(s, root, mx, my));
        }
        let ghost lost = self.focus();
        let mut k: usize = 0;
        while k < self.mouse_focused_widgets.len()
            invariant
                t == self.handle_table(),
                lost == self.focus(),
                root == self.screen(),
                self.dragged() == old(self).dragged(),
                s.len() == n,
                t.len() == n,
                forall|h: int| 0 <= h < n ==> #[trigger] t[h] < n && s[t[h] as int].handle == h,
                forall|q: int| 0 <= q < n ==> t[(#[trigger] s[q]).handle as int] == q,
                forall|j: int| 0 <= j < lost.len() ==> #[trigger] lost[j] < n,
                k <= lost.len(),
                self.entries() == released(s, lost.subrange(0, k as int), new_focus@),
            decreases lost.len() - k,
        {
            let w = self.mouse_focused_widgets[k];
            if !contains_handle(&new_focus, w) {
                let p = self.widget_indices[w];
                self.set_pressed_at(p, false);
            }
            proof {
                let cur = lost.subrange(0, k + 1);
                assert(cur == lost.subrange(0, k as int).push(w));
                assert(cur[k as int] == w);
                assert(self.entries() =~= released(s, cur, new_focus@)) by {
                    assert forall|q: int| 0 <= q < n implies (#[trigger] self.entries()[q]) == released(s, cur, new_focus@)[q] by {
                        if s[q].handle == w {
                            assert(cur.contains(w));
                            assert(t[w as int] == q);
                        } else {
                            assert(cur.contains(s[q].handle) == lost.subrange(0, k as int).contains(s[q].handle));
                        }
                    }
                }
            }
            k = k + 1;
        }
        proof {
            assert(lost.subrange(0, lost.len() as int) == lost);
        }
        self.mouse_focused_widgets = new_focus;
        proof {
            let s2 = self.entries();
            assert forall|i: int| 0 < i < s2.len() implies #[trigger] depth_step_ok(s2, i) by {
                assert(depth_step_ok(s, i));
            }
            let f = self.focus();
            assert forall|j: int| 0 <= j < f.len() implies #[trigger] self.depth_of(f[j] as int) == s[fp[j]].depth by {
                assert(t[s[fp[j]].handle as int] == fp[j]);
            }
            assert forall|k1: int, k2: int| 0 <= k1 < k2 < f.len() implies #[trigger] self.depth_of(f[k1] as int)
                < #[trigger] self.depth_of(f[k2] as int) by {
                assert(self.depth_of(f[k1] as int) == s[fp[k1]].depth);
                assert(self.depth_of(f[k2] as int) == s[fp[k2]].depth);
            }
        }
    }

    /// One render job per Form, Label and Button, in store order, each with
    /// the rectangle that hit-testing uses and whether it has the focus.
    pub fn render(&self) -> (jobs: Vec<RenderJob>)
        requires
            self.wf(),
        ensures
            jobs@.len() == rendered_upto(self.entries(), self.len()).len(),
            forall|k: int|
                0 <= k < jobs@.len() ==> job_matches(
                    #[trigger] jobs@[k],
                    self.entries(),
                    self.focus(),
                    self.rect_at(rendered_upto(self.entries(), self.len())[k]),
                    rendered_upto(self.entries(), self.len())[k],
                ),
    {
        let ghost s = self.entries();
        let n = self.widgets.len();
        let rects = self.compute_rects(self.screen_rect);
        let mut jobs: Vec<RenderJob> = Vec::new();
        let mut i: usize = 0;
        while i < n
            invariant
                s == self.entries(),
                n == s.len(),
                self.wf(),
                i <= n,
                rects@.len() == n,
                forall|k: int| 0 <= k < n ==> #[trigger] rects@[k] == self.rect_at(k),
                jobs@.len() == rendered_upto(s, i as int).len(),
                forall|k: int|
                    0 <= k < jobs@.len() ==> job_matches(
                        #[trigger] jobs@[k],
                        s,
                        self.focus(),
                        self.rect_at(rendered_upto(s, i as int)[k]),
                        rendered_upto(s, i as int)[k],
                    ),
            decreases n - i,
        {
            let handle = self.find_widget_handle_by_index(i);
            let focus = contains_handle(&self.mouse_focused_widgets, handle);
            let rect = rects[i];
            let ghost before = jobs@;
            match &self.widgets[i].widget {
                Widget::Form { title, .. } => {
                    jobs.push(render_form(handle as WidgetHandle, focus, rect, title.as_str()));
                },
                Widget::Label { text, .. } => {
                    jobs.push(render_text(handle as WidgetHandle, rect.x, rect.y, text.as_str()));
                },
                Widget::Button { text, pressed, .. } => {
                    jobs.push(render_button(handle as WidgetHandle, *pressed, focus, rect, text.as_str()));
                },
                _ => {},
            }
            proof {
                let r = rendered_upto(s, i + 1);
                assert forall|k: int| 0 <= k < jobs@.len() implies job_matches(
                    #[trigger] jobs@[k],
                    s,
                    self.focus(),
                    self.rect_at(r[k]),
                    r[k],
                ) by {
                    if k < before.len() {
                        assert(jobs@[k] == before[k]);
                    }
                }
            }
            i = i + 1;
        }
        jobs
    }

    /// Moves the widget at position `index`, with its subtree, behind all the
    /// siblings that follow it (with their subtrees), so that it is drawn on
    /// top of them; the handle table follows every moved entry.
    pub fn move_widget_to_front(&mut self, index: usize)
        requires
            old(self).wf(),
            index < old(self).len(),
        ensures
            final(self).wf(),
            final(self).entries() == promoted(old(self).entries(), index as int),
            forall|g: int| 0 <= g < old(self).len() ==> #[trigger] final(self).parent_of(g) == old(self).parent_of(g),
            final(self).focus() == old(self).focus(),
            old(self).presses_focused() ==> final(self).presses_focused(),
            final(self).dragged() == old(self).dragged(),
            final(self).screen() == old(self).screen(),
            forall|h: int| 0 <= h < old(self).len() ==> #[trigger] final(self).entry_of(h) == old(self).entry_of(h),
    {
        let ghost s = self.entries();
        let ghost t = self.handle_table();
        let n = self.widgets.len();
        let d = self.widgets[index].depth;
        proof {
            lemma_next_shallower(s, index + 1, d + 1);
            lemma_promoted_index(s, index as int);
            lemma_promoted_depths(s, index as int);
        }
        let mut a_end = index + 1;
        while a_end < n && self.widgets[a_end].depth > d
            invariant
                s == self.entries(),
                n == s.len(),
                index < a_end <= n,
                d == s[index as int].depth,
                next_shallower(s, a_end as int, d + 1) == subtree_end(s, index as int),
            decreases n - a_end,
        {
            a_end = a_end + 1;
        }
        proof {
            lemma_next_shallower(s, a_end as int, d as int);
        }
        let mut b_end = a_end;
        while b_end < n && self.widgets[b_end].depth >= d
            invariant
                s == self.entries(),
                n == s.len(),
                a_end <= b_end <= n,
                d == s[index as int].depth,
                a_end == subtree_end(s, index as int),
                next_shallower(s, b_end as int, d as int) == siblings_end(s, index as int),
            decreases n - b_end,
        {
            b_end = b_end + 1;
        }
        let mut tail = self.widgets.split_off(b_end);
        let mut siblings = self.widgets.split_off(a_end);
        let mut block = self.widgets.split_off(index);
        self.widgets.append(&mut siblings);
        self.widgets.append(&mut block);
        self.widgets.append(&mut tail);
        proof {
            assert(self.widgets@ =~= promoted(s, index as int));
        }
        let ghost s2 = self.widgets@;
        let mut p = index;
        while p < b_end
            invariant
                s2 == self.widgets@,
                s2 == promoted(s, index as int),
                n == s.len(),
                s2.len() == n,
                t.len() == n,
                index <= p <= b_end,
                index < a_end <= b_end,
                a_end == subtree_end(s, index as int),
                b_end == siblings_end(s, index as int),
                b_end <= n,
                forall|h: int| 0 <= h < n ==> #[trigger] t[h] < n && s[t[h] as int].handle == h,
                forall|q: int| 0 <= q < n ==> #[trigger] s[q].handle < n && t[s[q].handle as int] == q,
                forall|q: int|
                    0 <= q < n ==> #[trigger] s2[q] == s[promoted_from(index as int, a_end as int, b_end as int, q)],
                self.widget_indices@.len() == n,
                self.mouse_focused_widgets@ == old(self).mouse_focused_widgets@,
                self.dragged_window == old(self).dragged_window,
                self.screen_rect == old(self).screen_rect,
                forall|h: int|
                    0 <= h < n ==> #[trigger] self.widget_indices@[h] == if index <= t[h] < b_end
                        && promoted_to(index as int, a_end as int, b_end as int, t[h] as int) < p {
                        promoted_to(index as int, a_end as int, b_end as int, t[h] as int)
                    } else {
                        t[h] as int
                    },
            decreases b_end - p,
        {
            let h = self.widgets[p].handle;
            proof {
                let q = promoted_from(index as int, a_end as int, b_end as int, p as int);
                assert(t[h as int] == q);
                assert(promoted_to(index as int, a_end as int, b_end as int, q) == p);
            }
            self.widget_indices.set(h, p);
            proof {
                assert forall|h2: int| 0 <= h2 < n implies #[trigger] self.widget_indices@[h2] == if index
                    <= t[h2] < b_end && promoted_to(index as int, a_end as int, b_end as int, t[h2] as int) < p
                    + 1 {
                    promoted_to(index as int, a_end as int, b_end as int, t[h2] as int)
                } else {
                    t[h2] as int
                } by {
                    if h2 != h as int && index <= t[h2] < b_end {
                        let q2 = t[h2] as int;
                        if promoted_to(index as int, a_end as int, b_end as int, q2) == p {
                            assert(promoted_from(index as int, a_end as int, b_end as int, p as int) == q2);
                        }
                    }
                }
            }
            p = p + 1;
        }
        proof {
            lemma_promoted_table(s, t, self.widget_indices@, index as int, a_end as int, b_end as int);
            assert forall|g: int| 0 <= g < n implies #[trigger] self.parent_of(g) == old(self).parent_of(g) by {
                let q = t[g] as int;
                let ia = index as int;
                let ae = a_end as int;
                let be = b_end as int;
                assert(self.widget_indices@[g] == promoted_to(ia, ae, be, q));
                lemma_promoted_parent(s, ia, q);
                let p = parent_pos(s, q);
                if p >= 0 {
                    lemma_last_below_bounds(s, q - 1, s[q].depth as int);
                    assert(promoted_from(ia, ae, be, promoted_to(ia, ae, be, p)) == p);
                    assert(self.entries()[promoted_to(ia, ae, be, p)] == s[p]);
                }
            }
            assert(self.focus() == old(self).focus());
            assert forall|h: int| 0 <= h < n implies #[trigger] self.entry_of(h) == old(self).entry_of(h) by {
                assert(self.widget_indices@[h] < n);
            }
            let f = self.focus();
            assert forall|k1: int, k2: int| 0 <= k1 < k2 < f.len() implies #[trigger] self.depth_of(f[k1] as int)
                < #[trigger] self.depth_of(f[k2] as int) by {
                assert(f[k1] < n && f[k2] < n);
                assert(old(self).depth_of(f[k1] as int) < old(self).depth_of(f[k2] as int));
                assert(self.entry_of(f[k1] as int) == old(self).entry_of(f[k1] as int));
                assert(self.entry_of(f[k2] as int) == old(self).entry_of(f[k2] as int));
            }
        }
    }

    /// Whether a widget stops the mouse-down scan: Forms and Buttons do.
    pub open spec fn blocking(w: Widget) -> bool {
        w is Form || w is Button
    }

    /// The last of the first `k` focus entries that stops the mouse-down
    /// scan, or -1.
    pub open spec fn last_blocking(&self, k: int) -> int
        decreases k,
    {
        if k <= 0 {
            -1
        } else if Self::blocking(self.entry_of(self.focus()[k - 1] as int).widget) {
            k - 1
        } else {
            self.last_blocking(k - 1)
        }
    }

    /// The last Button among the first `k` focus entries, or -1.
    pub open spec fn last_button(&self, k: int) -> int
        decreases k,
    {
        if k <= 0 {
            -1
        } else if self.entry_of(self.focus()[k - 1] as int).widget is Button {
            k - 1
        } else {
            self.last_button(k - 1)
        }
    }

    /// `last_blocking` is -1 or one of the first `k` positions.
    pub proof fn lemma_last_blocking_range(&self, k: int)
        ensures
            -1 <= self.last_blocking(k) < if k > 0 { k } else { 0 },
        decreases k,
    {
        if k > 0 {
            self.lemma_last_blocking_range(k - 1);
        }
    }

    /// The position of the parent of the entry at `p`, found by walking back.
    fn parent_of_pos(&self, p: usize) -> (r: Option<usize>)
        requires
            self.wf(),
            p < self.len(),
        ensures
            r == if parent_pos(self.entries(), p as int) >= 0 {
                Some(parent_pos(self.entries(), p as int) as usize)
            } else {
                None::<usize>
            },
    {
        let ghost s = self.entries();
        let d = self.widgets[p].depth;
        let mut j = p;
        while j > 0
            invariant
                s == self.entries(),
                j <= p < s.len(),
                d == s[p as int].depth,
                last_below(s, p - 1, d as int) == last_below(s, j - 1, d as int),
            decreases j,
        {
            j = j - 1;
            if self.widgets[j].depth < d {
                return Some(j);
            }
        }
        None
    }

    /// Brings the widget with handle `h` to the front: it moves behind its
    /// later siblings, then its parent behind the parent's later siblings,
    /// and so on up to its root.
    #[verifier::rlimit(40)]
    fn bring_to_front(&mut self, h: usize)
        requires
            old(self).wf(),
            h < old(self).len(),
        ensures
            final(self).wf(),
            final(self).len() == old(self).len(),
            final(self).focus() == old(self).focus(),
            final(self).dragged() == old(self).dragged(),
            final(self).screen() == old(self).screen(),
            forall|g: int| 0 <= g < old(self).len() ==> #[trigger] final(self).entry_of(g) == old(self).entry_of(g),
            final(self).in_last_root(h as int),
            frontmost(final(self).entries(), final(self).pos_of(h as int)),
            forall|g: int| 0 <= g < old(self).len() ==> #[trigger] final(self).parent_of(g) == old(self).parent_of(g),
    {
        let mut p = self.find_widget_index_by_handle(h);
        proof {
            lemma_next_shallower(self.entries(), p + 1, self.entries()[p as int].depth + 1);
        }
        loop
            invariant_except_break
                p <= self.pos_of(h as int) < subtree_end(self.entries(), p as int),
                p < self.pos_of(h as int) ==> frontmost(self.entries(), self.pos_of(h as int)),
            invariant
                self.wf(),
                self.len() == old(self).len(),
                h < self.len(),
                p < self.len(),
                self.focus() == old(self).focus(),
                self.dragged() == old(self).dragged(),
                self.screen() == old(self).screen(),
                forall|g: int| 0 <= g < old(self).len() ==> #[trigger] self.entry_of(g) == old(self).entry_of(g),
                forall|g: int| 0 <= g < old(self).len() ==> #[trigger] self.parent_of(g) == old(self).parent_of(g),
            ensures
                self.in_last_root(h as int),
                frontmost(self.entries(), self.pos_of(h as int)),
            decreases self.entries()[p as int].depth,
        {
            let ghost s = self.entries();
            let ghost hp = self.pos_of(h as int);
            let ghost n = s.len() as int;
            let parent = self.parent_of_pos(p);
            proof {
                lemma_last_below_bounds(s, p - 1, s[p as int].depth as int);
                lemma_next_shallower(s, p + 1, s[p as int].depth + 1);
                lemma_next_shallower(s, subtree_end(s, p as int), s[p as int].depth as int);
                lemma_promoted_index(s, p as int);
                lemma_promoted_frontmost(s, p as int, hp);
            }
            self.move_widget_to_front(p);
            proof {
                let s2 = self.entries();
                let ae = subtree_end(s, p as int);
                let be = siblings_end(s, p as int);
                let lb = be - ae;
                let hp2 = hp + lb;
                let d = s[p as int].depth as int;
                assert(s2[hp2] == s[hp]) by {
                    assert(promoted_from(p as int, ae, be, hp2) == hp);
                }
                assert(self.pos_of(h as int) == hp2) by {
                    assert(s[hp].handle == h);
                    assert(self.handle_table()[s2[hp2].handle as int] == hp2);
                }
                // The moved block keeps its depths: deeper than its first entry.
                assert forall|k: int| p + lb < k <= hp2 implies s2[k].depth > d by {
                    assert(promoted_from(p as int, ae, be, k) == k - lb);
                    assert(s2[k] == s[k - lb]);
                }
                assert(s2[p + lb] == s[p as int]) by {
                    assert(promoted_from(p as int, ae, be, p + lb) == p);
                }
                if d == 0 {
                    assert(be == n) by {
                        if be < n {
                            assert(s[be].depth < 0);
                        }
                    }
                    lemma_last_below_bounds(s2, hp2, 1);
                    let r = root_of(s2, hp2);
                    assert(r == p + lb) by {
                        if r < p + lb {
                            assert(s2[p + lb].depth < 1);
                        }
                    }
                    assert forall|k: int| p + lb < k < n implies s2[k].depth >= 1 by {
                        assert(promoted_from(p as int, ae, be, k) == k - lb);
                        assert(s2[k] == s[k - lb]);
                    }
                    lemma_next_shallower(s2, p + lb + 1, 1);
                }
            }
            match parent {
                None => {
                    break ;
                },
                Some(q) => {
                    proof {
                        let s2 = self.entries();
                        let ae = subtree_end(s, p as int);
                        let be = siblings_end(s, p as int);
                        let lb = be - ae;
                        let hp2 = self.pos_of(h as int);
                        let dp = s[p as int].depth as int;
                        assert(self.entries()[q as int] == s[q as int]);
                        assert(s[q as int].depth + 1 == dp) by {
                            assert(depth_step_ok(s, p as int));
                            lemma_last_below_exists(s, p - 1, dp);
                        }
                        assert forall|k: int| q < k <= hp2 implies s2[k].depth >= dp by {
                            let k0 = promoted_from(p as int, ae, be, k);
                            assert(s2[k] == s[k0]);
                            if k < p {
                                assert(k0 == k);
                            } else {
                                assert(p <= k0 < be);
                            }
                        }
                        lemma_next_shallower(s2, q + 1, dp);
                    }
                    p = q;
                },
            }
        }
    }

    /// Handles a mouse-down: scanning the focus set from the innermost
    /// widget out, the first Form becomes the drag target, or the first
    /// Button is pressed, and the scan stops there. Every widget scanned is
    /// brought to the front with its ancestors.
    pub fn mousedown(&mut self)
        requires
            old(self).wf(),
        ensures
            final(self).wf(),
            final(self).len() == old(self).len(),
            final(self).focus() == old(self).focus(),
            final(self).screen() == old(self).screen(),
            old(self).presses_focused() ==> final(self).presses_focused(),
            forall|g: int| 0 <= g < old(self).len() ==> #[trigger] final(self).parent_of(g) == old(self).parent_of(g),
            old(self).focus().len() == 0 ==> final(self).entries() == old(self).entries()
                && final(self).handle_table() == old(self).handle_table() && final(self).dragged()
                == old(self).dragged(),
            ({
                let kb = old(self).last_blocking(old(self).focus().len() as int);
                let t = old(self).focus()[if kb >= 0 {
                    kb
                } else {
                    0
                }] as int;
                old(self).focus().len() > 0 ==> final(self).in_last_root(t) && frontmost(
                    final(self).entries(),
                    final(self).pos_of(t),
                )
            }),
            ({
                let kb = old(self).last_blocking(old(self).focus().len() as int);
                &&& final(self).dragged() == if kb >= 0 && old(self).entry_of(old(self).focus()[kb] as int).widget is Form {
                    old(self).focus()[kb] as int
                } else {
                    old(self).dragged()
                }
                &&& forall|g: int|
                    0 <= g < old(self).len() ==> #[trigger] final(self).entry_of(g) == if kb >= 0 && g
                        == old(self).focus()[kb] {
                        Entry { widget: with_pressed(old(self).entry_of(g).widget, true), ..old(self).entry_of(g) }
                    } else {
                        old(self).entry_of(g)
                    }
            }),
    {
        let ghost n = self.len();
        let ghost f = self.focus();
        let ghost kb = self.last_blocking(f.len() as int);
        let mut touched: Vec<usize> = Vec::new();
        let mut k = self.mouse_focused_widgets.len();
        while k > 0
            invariant_except_break
                self.last_blocking(k as int) == kb,
                self.entries() == old(self).entries(),
                self.dragged() == old(self).dragged(),
            invariant
                self.wf(),
                old(self).wf(),
                f == old(self).focus(),
                n == old(self).len(),
                self.len() == n,
                self.focus() == f,
                self.handle_table() == old(self).handle_table(),
                self.screen() == old(self).screen(),
                k <= f.len(),
                forall|j: int| 0 <= j < touched@.len() ==> #[trigger] touched@[j] < n,
                touched@.len() == f.len() - k,
                forall|j: int| 0 <= j < touched@.len() ==> #[trigger] touched@[j] == f[f.len() - 1 - j],
            ensures
                f.len() > 0 ==> touched@.len() > 0 && touched@.last() == f[if kb >= 0 {
                    kb
                } else {
                    0
                }],
                kb >= 0 ==> self.dragged() == if old(self).entry_of(f[kb] as int).widget is Form {
                    f[kb] as int
                } else {
                    old(self).dragged()
                },
                kb < 0 ==> self.dragged() == old(self).dragged(),
                kb >= 0 ==> self.entries() == old(self).entries().update(
                    old(self).pos_of(f[kb] as int),
                    Entry {
                        widget: with_pressed(old(self).entry_of(f[kb] as int).widget, true),
                        ..old(self).entry_of(f[kb] as int)
                    },
                ),
                kb < 0 ==> self.entries() == old(self).entries(),
            decreases k,
        {
            k = k - 1;
            let w = self.mouse_focused_widgets[k];
            let i = self.find_widget_index_by_handle(w);
            let block = match &self.widgets[i].widget {
                Widget::Form { .. } => true,
                Widget::Button { .. } => true,
                _ => false,
            };
            touched.push(w);
            if block {
                proof {
                    assert(self.last_blocking(k + 1) == k);
                }
                if matches!(self.widgets[i].widget, Widget::Form { .. }) {
                    self.dragged_window = w as WidgetHandle;
                } else {
                    self.set_pressed_at(i, true);
                }
                proof {
                    let s2 = self.entries();
                    let s = old(self).entries();
                    assert forall|q: int| 0 < q < s2.len() implies #[trigger] depth_step_ok(s2, q) by {
                        assert(depth_step_ok(s, q));
                    }
                    assert forall|h: int| 0 <= h < n implies #[trigger] self.depth_of(h) == old(self).depth_of(h) by {
                    }
                    assert forall|k1: int, k2: int| 0 <= k1 < k2 < f.len() implies #[trigger] self.depth_of(
                        f[k1] as int,
                    ) < #[trigger] self.depth_of(f[k2] as int) by {
                        assert(f[k1] < n && f[k2] < n);
                        assert(old(self).depth_of(f[k1] as int) < old(self).depth_of(f[k2] as int));
                    }
                }
                break;
            }
        }
        let ghost mid = *self;
        proof {
            let s0 = old(self).entries();
            let s1 = mid.entries();
            assert forall|i: int| 0 <= i < s0.len() implies (#[trigger] s0[i]).depth == s1[i].depth && s0[i].handle
                == s1[i].handle by {}
            lemma_same_shape_parents(s0, s1);
            assert forall|g: int| 0 <= g < n implies #[trigger] mid.parent_of(g) == old(self).parent_of(g) by {
                assert(mid.pos_of(g) == old(self).pos_of(g));
            }
            old(self).lemma_last_blocking_range(f.len() as int);
            assert forall|g: int| 0 <= g < n implies #[trigger] mid.entry_of(g) == if kb >= 0 && g == f[kb] {
                Entry { widget: with_pressed(old(self).entry_of(g).widget, true), ..old(self).entry_of(g) }
            } else {
                old(self).entry_of(g)
            } by {
                if kb >= 0 && g != f[kb] {
                    assert(f[kb] < n);
                    assert(old(self).entries()[old(self).pos_of(g)].handle == g);
                    assert(old(self).pos_of(g) != old(self).pos_of(f[kb] as int));
                }
            }
        }
        let mut j: usize = 0;
        while j < touched.len()
            invariant
                self.wf(),
                self.len() == n,
                self.focus() == f,
                self.screen() == old(self).screen(),
                self.dragged() == mid.dragged(),
                forall|q: int| 0 <= q < touched@.len() ==> #[trigger] touched@[q] < n,
                forall|g: int| 0 <= g < n ==> #[trigger] self.entry_of(g) == mid.entry_of(g),
                j <= touched@.len(),
                forall|g: int| 0 <= g < n ==> #[trigger] self.parent_of(g) == mid.parent_of(g),
                touched@.len() == 0 ==> self.entries() == mid.entries() && self.handle_table()
                    == mid.handle_table(),
                j > 0 ==> self.in_last_root(touched@[j - 1] as int) && frontmost(
                    self.entries(),
                    self.pos_of(touched@[j - 1] as int),
                ),
            decreases touched@.len() - j,
        {
            self.bring_to_front(touched[j]);
            j = j + 1;
        }
        proof {
            if old(self).presses_focused() {
                assert forall|p: int|
                    0 <= p < self.len() && is_pressed((#[trigger] self.entries()[p]).widget) implies self.focus().contains(
                    self.entries()[p].handle,
                ) by {
                    let g = self.entries()[p].handle as int;
                    assert(self.entry_of(g) == self.entries()[p]);
                    if !(kb >= 0 && g == f[kb]) {
                        let q = old(self).pos_of(g);
                        assert(old(self).entries()[q] == old(self).entry_of(g));
                        assert(old(self).entries()[q].handle == g);
                    } else {
                        assert(f[kb] == g);
                    }
                }
            }
        }
    }

    /// Handles a mouse-up: dragging ends, and the innermost focused Button,
    /// if any, is released.
    pub fn mouseup(&mut self)
        requires
            old(self).wf(),
        ensures
            final(self).wf(),
            final(self).dragged() == -1,
            final(self).focus() == old(self).focus(),
            old(self).presses_focused() ==> final(self).presses_focused(),
            final(self).handle_table() == old(self).handle_table(),
            final(self).screen() == old(self).screen(),
            ({
                let kb = old(self).last_button(old(self).focus().len() as int);
                &&& kb >= 0 ==> final(self).entries() == old(self).entries().update(
                    old(self).pos_of(old(self).focus()[kb] as int),
                    Entry {
                        widget: with_pressed(old(self).entry_of(old(self).focus()[kb] as int).widget, false),
                        ..old(self).entry_of(old(self).focus()[kb] as int)
                    },
                )
                &&& kb < 0 ==> final(self).entries() == old(self).entries()
            }),
    {
        self.dragged_window = -1;
        let ghost f = self.focus();
        let ghost kb = old(self).last_button(f.len() as int);
        proof {
            assert(f == old(self).focus());
            assert(self.entries() == old(self).entries());
            assert(self.handle_table() == old(self).handle_table());
            assert forall|k1: int, k2: int| 0 <= k1 < k2 < f.len() implies #[trigger] self.depth_of(f[k1] as int)
                < #[trigger] self.depth_of(f[k2] as int) by {
                assert(old(self).depth_of(f[k1] as int) < old(self).depth_of(f[k2] as int));
            }
        }
        let mut k = self.mouse_focused_widgets.len();
        while k > 0
            invariant
                self.wf(),
                old(self).wf(),
                f == old(self).focus(),
                kb == old(self).last_button(f.len() as int),
                self.focus() == f,
                self.entries() == old(self).entries(),
                self.handle_table() == old(self).handle_table(),
                self.dragged() == -1,
                self.screen() == old(self).screen(),
                k <= f.len(),
                old(self).last_button(k as int) == kb,
            decreases k,
        {
            k = k - 1;
            let w = self.mouse_focused_widgets[k];
            let i = self.find_widget_index_by_handle(w);
            if matches!(self.widgets[i].widget, Widget::Button { .. }) {
                proof {
                    assert(old(self).entry_of(w as int) == self.entries()[i as int]);
                    assert(old(self).last_button(k + 1) == k as int);
                    assert(kb == k as int);
                    assert(f[kb] == w);
                    assert(old(self).pos_of(f[kb] as int) == i as int);
                }
                self.set_pressed_at(i, false);
                proof {
                    assert(self.entries() == old(self).entries().update(
                        old(self).pos_of(f[kb] as int),
                        Entry {
                            widget: with_pressed(old(self).entry_of(f[kb] as int).widget, false),
                            ..old(self).entry_of(f[kb] as int)
                        },
                    ));
                    let s2 = self.entries();
                    let s = old(self).entries();
                    let n = s.len();
                    assert forall|q: int| 0 < q < s2.len() implies #[trigger] depth_step_ok(s2, q) by {
                        assert(depth_step_ok(s, q));
                    }
                    assert forall|h: int| 0 <= h < n implies #[trigger] self.depth_of(h) == old(self).depth_of(h) by {
                    }
                    assert forall|k1: int, k2: int| 0 <= k1 < k2 < f.len() implies #[trigger] self.depth_of(
                        f[k1] as int,
                    ) < #[trigger] self.depth_of(f[k2] as int) by {
                        assert(f[k1] < n && f[k2] < n);
                        assert(old(self).depth_of(f[k1] as int) < old(self).depth_of(f[k2] as int));
                    }
                }
                return ;
            }
        }
    }

    /// The absolute rectangle of every entry, in store order, with the roots
    /// placed in `root`: one pass that keeps the frames of the current
    /// ancestor chain on a stack indexed by depth.
    fn compute_rects(&self, root: Rect) -> (rects: Vec<Rect>)
        requires
            self.wf(),
        ensures
            rects@.len() == self.len(),
            forall|i: int| 0 <= i < self.len() ==> #[trigger] rects@[i] == abs_rect(self.entries(), root, i),
    {
        let ghost s = self.entries();
        let n = self.widgets.len();
        let mut stack: Vec<Rect> = Vec::new();
        stack.push(root);
        let mut rects: Vec<Rect> = Vec::new();
        let mut i: usize = 0;
        while i < n
            invariant
                s == self.entries(),
                n == s.len(),
                depths_ok(s),
                i <= n,
                rects@.len() == i,
                forall|k: int| 0 <= k < i ==> #[trigger] rects@[k] == abs_rect(s, root, k),
                i == 0 ==> stack@.len() == 1,
                i > 0 ==> stack@.len() == s[i - 1].depth + 2,
                stack@[0] == root,
                forall|k: int|
                    1 <= k < stack@.len() ==> 0 <= #[trigger] last_below(s, i - 1, k) < i
                        && stack@[k] == abs_rect(s, root, last_below(s, i - 1, k)),
            decreases n - i,
        {
            let d = self.widgets[i].depth as usize;
            let ghost p = parent_pos(s, i as int);
            proof {
                if i > 0 {
                    assert(depth_step_ok(s, i as int));
                } else {
                    assert(s[0].depth == 0);
                }
                lemma_last_below_bounds(s, i - 1, d as int);
                lemma_depth_bounded(s, i as int);
                assert(p == last_below(s, i - 1, d as int));
            }
            stack.truncate(d + 1);
            let frame = stack[d];
            proof {
                if d == 0 {
                    assert(frame == root);
                    assert(p < 0);
                } else {
                    assert(0 <= p < i);
                    assert(frame == abs_rect(s, root, p));
                }
            }
            let r = place_widget(&self.widgets[i].widget, frame);
            proof {
                assert(r == abs_rect(s, root, i as int));
            }
            stack.push(r);
            rects.push(r);
            proof {
                assert forall|k: int| 1 <= k < stack@.len() implies 0 <= #[trigger] last_below(s, i as int, k) < i + 1
                    && stack@[k] == abs_rect(s, root, last_below(s, i as int, k)) by {
                    if k <= d as int {
                        assert(last_below(s, i as int, k) == last_below(s, i - 1, k));
                    }
                }
            }
            i = i + 1;
        }
        rects
    }
}

} // verus!
