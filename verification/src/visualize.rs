//! Layout of a proof tree as nested boxes: each node is a box with two lines of text (its
//! goal and the rule that proved it); children are laid out side by side below their parent.
//! Every quantity is a `u32`; the layout is only computed where none of them overflows.
use vstd::prelude::*;
use vstd::utf8::encode_utf8;
use crate::text::{push_char, push_str, strings_view};
use crate::types::{ProofTree, ProofTreeModel, proofs_model, lemma_proofs_model_len, lemma_proofs_model_index};
use crate::engine::backward::{format_term, format_term_spec};

verus! {

broadcast use vstd::std_specs::vec::group_vec_axioms;

/// Width of one byte of text, in pixels.
pub const CHAR_WIDTH: u32 = 9;
/// Height of one line of text.
pub const LINE_HEIGHT: u32 = 18;
/// Space between the text and the left and right sides of its box.
pub const PAD_X: u32 = 12;
/// Space between the text and the top and bottom of its box.
pub const PAD_Y: u32 = 8;
/// Space between two neighbouring subtrees.
pub const H_GAP: u32 = 24;
/// Space between a node and its children.
pub const V_GAP: u32 = 48;
/// Space around the whole picture.
pub const MARGIN: u32 = 20;

/// The mathematical value of a laid-out node: its position relative to the top left corner
/// of the picture's drawing area, its size, its lines of text and its children.
pub struct LayoutModel {
    pub x: int,
    pub y: int,
    pub width: int,
    pub height: int,
    pub lines: Seq<Seq<char>>,
    pub children: Seq<LayoutModel>,
}

/// A laid-out node of a proof tree.
pub struct NodeLayout {
    pub x: u32,
    pub y: u32,
    pub width: u32,
    pub height: u32,
    pub lines: Vec<String>,
    pub children: Vec<NodeLayout>,
}

pub open spec fn layout_model(l: &NodeLayout) -> LayoutModel
    decreases l,
{
    LayoutModel {
        x: l.x as int,
        y: l.y as int,
        width: l.width as int,
        height: l.height as int,
        lines: strings_view(l.lines@),
        children: layouts_model(l.children@),
    }
}

pub open spec fn layouts_model(ls: Seq<NodeLayout>) -> Seq<LayoutModel>
    decreases ls,
{
    if ls.len() == 0 {
        Seq::empty()
    } else {
        layouts_model(ls.drop_last()).push(layout_model(&ls.last()))
    }
}

impl View for NodeLayout {
    type V = LayoutModel;

    open spec fn view(&self) -> LayoutModel {
        layout_model(self)
    }
}

pub broadcast proof fn lemma_layouts_model_len(ls: Seq<NodeLayout>)
    ensures
        #[trigger] layouts_model(ls).len() == ls.len(),
    decreases ls.len(),
{
    if ls.len() > 0 {
        lemma_layouts_model_len(ls.drop_last());
    }
}

pub broadcast proof fn lemma_layouts_model_index(ls: Seq<NodeLayout>, i: int)
    requires
        0 <= i < ls.len(),
    ensures
        #[trigger] layouts_model(ls)[i] == ls[i]@,
    decreases ls.len(),
{
    lemma_layouts_model_len(ls);
    if i < ls.len() - 1 {
        lemma_layouts_model_index(ls.drop_last(), i);
    }
}

pub broadcast group group_layouts_model {
    lemma_layouts_model_len,
    lemma_layouts_model_index,
}

/// The number of bytes of a text in UTF-8.
pub open spec fn byte_len(s: Seq<char>) -> nat {
    encode_utf8(s).len()
}

/// The two lines of a node: its goal, and the rule that proved it in brackets, or `[fact]`.
pub open spec fn node_lines_spec(t: ProofTreeModel) -> Seq<Seq<char>> {
    seq![
        format_term_spec(t.goal),
        match t.rule_used {
            Some(r) => seq!['['] + r + seq![']'],
            None => "[fact]"@,
        },
    ]
}

/// The greatest byte length of the lines, each count (a `usize`) taken as a `u32`.
pub open spec fn max_line_len(lines: Seq<Seq<char>>) -> int
    decreases lines.len(),
{
    if lines.len() == 0 {
        0
    } else {
        let m = max_line_len(lines.drop_last());
        let l = ((byte_len(lines.last()) as usize) as u32) as int;
        if l > m {
            l
        } else {
            m
        }
    }
}

/// The width of a box: its longest line plus the side padding.
pub open spec fn node_width_spec(lines: Seq<Seq<char>>) -> int {
    max_line_len(lines) * CHAR_WIDTH + PAD_X * 2
}

/// The height of a box: its lines plus the top and bottom padding.
pub open spec fn node_height_spec(lines: Seq<Seq<char>>) -> int {
    lines.len() * LINE_HEIGHT + PAD_Y * 2
}

pub open spec fn max(a: int, b: int) -> int {
    if a >= b {
        a
    } else {
        b
    }
}

/// The width of a subtree: its box, or its children side by side if they are wider.
pub open spec fn subtree_width_spec(l: LayoutModel) -> int
    decreases l,
{
    if l.children.len() == 0 {
        l.width
    } else {
        max(l.width, widths_sum(l.children) + (l.children.len() - 1) * H_GAP)
    }
}

/// The sum of the subtree widths.
pub open spec fn widths_sum(cs: Seq<LayoutModel>) -> int
    decreases cs,
{
    if cs.len() == 0 {
        0
    } else {
        widths_sum(cs.drop_last()) + subtree_width_spec(cs.last())
    }
}

/// The width of the subtrees side by side, with a gap between two neighbours.
pub open spec fn children_total(cs: Seq<LayoutModel>) -> int {
    if cs.len() == 0 {
        0
    } else {
        widths_sum(cs) + (cs.len() - 1) * H_GAP
    }
}

/// The height of a subtree: its box, the gap, and its tallest child subtree.
pub open spec fn subtree_height_spec(l: LayoutModel) -> int
    decreases l,
{
    if l.children.len() == 0 {
        l.height
    } else {
        l.height + V_GAP + heights_max(l.children)
    }
}

/// The greatest subtree height, 0 for no subtree.
pub open spec fn heights_max(cs: Seq<LayoutModel>) -> int
    decreases cs,
{
    if cs.len() == 0 {
        0
    } else {
        max(heights_max(cs.drop_last()), subtree_height_spec(cs.last()))
    }
}

/// The subtree moved `dx` to the right.
pub open spec fn shift_spec(l: LayoutModel, dx: int) -> LayoutModel
    decreases l,
{
    LayoutModel {
        x: l.x + dx,
        y: l.y,
        width: l.width,
        height: l.height,
        lines: l.lines,
        children: shift_all(l.children, dx),
    }
}

/// Each subtree moved `dx` to the right.
pub open spec fn shift_all(cs: Seq<LayoutModel>, dx: int) -> Seq<LayoutModel>
    decreases cs,
{
    if cs.len() == 0 {
        Seq::empty()
    } else {
        shift_all(cs.drop_last(), dx).push(shift_spec(cs.last(), dx))
    }
}

/// Where the `i`-th subtree starts, the first one starting at 0: after the widths of the
/// subtrees before it and one gap after each.
pub open spec fn offset(cs: Seq<LayoutModel>, i: int) -> int {
    widths_sum(cs.take(i)) + i * H_GAP
}

/// The subtrees placed side by side from `start` on.
pub open spec fn place(cs: Seq<LayoutModel>, start: int) -> Seq<LayoutModel> {
    Seq::new(cs.len(), |i: int| shift_spec(cs[i], start + offset(cs, i)))
}

/// Where the children start: centred under their parent when the parent's box is wider.
pub open spec fn children_start(w: int, total: int) -> int {
    if w > total {
        (w - total) / 2
    } else {
        0
    }
}

/// The layout of a proof tree: the box of the root, centred over its children when they
/// are wider; the children's subtrees side by side below it.
pub open spec fn layout_spec(t: ProofTreeModel) -> LayoutModel
    decreases t,
{
    let lines = node_lines_spec(t);
    let w = node_width_spec(lines);
    let cs = layouts_of(t.subgoals);
    let total = children_total(cs);
    LayoutModel {
        x: if total > w {
            (total - w) / 2
        } else {
            0
        },
        y: 0,
        width: w,
        height: node_height_spec(lines),
        lines,
        children: place(cs, children_start(w, total)),
    }
}

/// The layouts of the proof trees, each on its own.
pub open spec fn layouts_of(ps: Seq<ProofTreeModel>) -> Seq<LayoutModel>
    decreases ps,
{
    if ps.len() == 0 {
        Seq::empty()
    } else {
        layouts_of(ps.drop_last()).push(layout_spec(ps.last()))
    }
}

/// Every horizontal position in the subtree fits in a `u32`.
pub open spec fn xs_fit(l: LayoutModel) -> bool
    decreases l,
{
    &&& l.x <= u32::MAX
    &&& forall|j: int| 0 <= j < l.children.len() ==> xs_fit(#[trigger] l.children[j])
}

/// Every width that `subtree_width` computes in the subtree fits in a `u32`.
pub open spec fn widths_fit(l: LayoutModel) -> bool
    decreases l,
{
    &&& children_total(l.children) <= u32::MAX
    &&& forall|j: int| 0 <= j < l.children.len() ==> widths_fit(#[trigger] l.children[j])
}

/// Every height that `subtree_height` computes in the subtree fits in a `u32`.
pub open spec fn heights_fit(l: LayoutModel) -> bool
    decreases l,
{
    &&& subtree_height_spec(l) <= u32::MAX
    &&& forall|j: int| 0 <= j < l.children.len() ==> heights_fit(#[trigger] l.children[j])
}

/// Every quantity that laying out the proof tree computes fits in a `u32`: the width of
/// each box, the width of the children side by side, each position where a child is placed
/// (up to the one after the last child), and each horizontal position once moved.
pub open spec fn fits(t: ProofTreeModel) -> bool
    decreases t,
{
    let lines = node_lines_spec(t);
    let w = node_width_spec(lines);
    let cs = layouts_of(t.subgoals);
    let start = children_start(w, children_total(cs));
    &&& w <= u32::MAX
    &&& forall|j: int| 0 <= j < t.subgoals.len() ==> fits(#[trigger] t.subgoals[j])
    &&& children_total(cs) <= u32::MAX
    &&& start + offset(cs, cs.len() as int) <= u32::MAX
    &&& forall|i: int| 0 <= i < cs.len() ==> xs_fit(#[trigger] place(cs, start)[i])
}

pub proof fn lemma_layouts_of_len(ps: Seq<ProofTreeModel>)
    ensures
        layouts_of(ps).len() == ps.len(),
    decreases ps.len(),
{
    if ps.len() > 0 {
        lemma_layouts_of_len(ps.drop_last());
    }
}

pub proof fn lemma_layouts_of_index(ps: Seq<ProofTreeModel>, i: int)
    requires
        0 <= i < ps.len(),
    ensures
        layouts_of(ps)[i] == layout_spec(ps[i]),
    decreases ps.len(),
{
    lemma_layouts_of_len(ps);
    if i < ps.len() - 1 {
        lemma_layouts_of_index(ps.drop_last(), i);
    }
}

/// A subtree is at least as wide as its own box.
pub proof fn lemma_subtree_width_at_least_box(l: LayoutModel)
    ensures
        subtree_width_spec(l) >= l.width,
{
}

pub proof fn lemma_widths_sum_step(cs: Seq<LayoutModel>, i: int)
    requires
        0 <= i < cs.len(),
    ensures
        widths_sum(cs.take(i + 1)) == widths_sum(cs.take(i)) + subtree_width_spec(cs[i]),
{
    assert(cs.take(i + 1).drop_last() =~= cs.take(i));
}

/// With no negative subtree width, the widths of a prefix add up to no more than those of a
/// longer prefix.
pub proof fn lemma_widths_sum_mono(cs: Seq<LayoutModel>, i: int, j: int)
    requires
        0 <= i <= j <= cs.len(),
        forall|k: int| 0 <= k < cs.len() ==> subtree_width_spec(#[trigger] cs[k]) >= 0,
    ensures
        widths_sum(cs.take(i)) <= widths_sum(cs.take(j)),
    decreases j - i,
{
    if i < j {
        lemma_widths_sum_mono(cs, i, j - 1);
        lemma_widths_sum_step(cs, j - 1);
    }
}

pub proof fn lemma_heights_max_nonneg(cs: Seq<LayoutModel>)
    ensures
        heights_max(cs) >= 0,
    decreases cs.len(),
{
    if cs.len() > 0 {
        lemma_heights_max_nonneg(cs.drop_last());
    }
}

/// The subtree widths of laid-out nodes are not negative.
pub proof fn lemma_view_widths_nonneg(ls: Seq<NodeLayout>)
    ensures
        forall|k: int| 0 <= k < ls.len() ==> subtree_width_spec(#[trigger] layouts_model(ls)[k]) >= 0,
{
    broadcast use group_layouts_model;
    assert forall|k: int| 0 <= k < ls.len() implies subtree_width_spec(#[trigger] layouts_model(ls)[k]) >= 0 by {
        lemma_subtree_width_at_least_box(layouts_model(ls)[k]);
    }
}

/// The two lines of a node, as `node_lines_spec` says.
pub fn node_lines(tree: &ProofTree) -> (r: Vec<String>)
    ensures
        strings_view(r@) == node_lines_spec(tree@),
{
    let goal = format_term(&tree.goal);
    let rule = match &tree.rule_used {
        Some(name) => {
            let mut s = String::new();
            push_char(&mut s, '[');
            push_str(&mut s, name.as_str());
            push_char(&mut s, ']');
            proof {
                assert(s@ =~= seq!['['] + name@ + seq![']']);
            }
            s
        },
        None => "[fact]".to_owned(),
    };
    let ghost g = goal@;
    let ghost ru = rule@;
    let r = vec![goal, rule];
    proof {
        assert(r@[0]@ == g && r@[1]@ == ru);
        assert(strings_view(r@) =~= seq![g, ru]);
        assert(node_lines_spec(tree@) =~= seq![g, ru]);
    }
    r
}

/// The width and height of a box with these lines, when the width fits in a `u32`.
fn node_size_checked(lines: &[String]) -> (r: Option<(u32, u32)>)
    requires
        node_height_spec(strings_view(lines@)) <= u32::MAX,
    ensures
        r is Some <==> node_width_spec(strings_view(lines@)) <= u32::MAX,
        r matches Some((w, h)) ==> w == node_width_spec(strings_view(lines@)) && h == node_height_spec(
            strings_view(lines@),
        ),
{
    let ghost lv = strings_view(lines@);
    let mut max_chars: u32 = 0;
    let mut i: usize = 0;
    while i < lines.len()
        invariant
            i <= lines.len(),
            lv == strings_view(lines@),
            max_chars == max_line_len(lv.take(i as int)),
        decreases lines.len() - i,
    {
        #[verifier::truncate]
        let l = lines[i].as_str().len() as u32;
        proof {
            assert(lv.take(i + 1).drop_last() =~= lv.take(i as int));
            assert(lv.take(i + 1).last() == lines@[i as int]@);
        }
        if l > max_chars {
            max_chars = l;
        }
        i += 1;
    }
    proof {
        assert(lv.take(lines@.len() as int) =~= lv);
    }
    let n = lines.len() as u32;
    let h = n * LINE_HEIGHT + PAD_Y * 2;
    match max_chars.checked_mul(CHAR_WIDTH) {
        Some(m) => match m.checked_add(PAD_X * 2) {
            Some(w) => Some((w, h)),
            None => None,
        },
        None => None,
    }
}

/// The width and height of a box with these lines.
pub fn node_size(lines: &[String]) -> (r: (u32, u32))
    requires
        node_width_spec(strings_view(lines@)) <= u32::MAX,
        node_height_spec(strings_view(lines@)) <= u32::MAX,
    ensures
        r.0 == node_width_spec(strings_view(lines@)),
        r.1 == node_height_spec(strings_view(lines@)),
{
    match node_size_checked(lines) {
        Some(r) => r,
        None => (0, 0),
    }
}

/// The width of the subtree, as `subtree_width_spec` says.
pub fn subtree_width(layout: &NodeLayout) -> (r: u32)
    requires
        widths_fit(layout@),
    ensures
        r == subtree_width_spec(layout@),
    decreases layout,
{
    broadcast use group_layouts_model;
    let ghost cm = layout@.children;
    if layout.children.len() == 0 {
        return layout.width;
    }
    proof {
        lemma_layouts_model_len(layout.children@);
        lemma_view_widths_nonneg(layout.children@);
        assert(decreases_to!(*layout => layout.children));
        assert(cm.take(0) =~= Seq::<LayoutModel>::empty());
    }
    let mut sum: u32 = 0;
    let mut i: usize = 0;
    while i < layout.children.len()
        invariant
            decreases_to!(*layout => layout.children),
            cm == layout@.children,
            cm.len() == layout.children@.len(),
            widths_fit(layout@),
            i <= layout.children.len(),
            sum == widths_sum(cm.take(i as int)),
            forall|k: int| 0 <= k < cm.len() ==> subtree_width_spec(#[trigger] cm[k]) >= 0,
        decreases layout.children.len() - i,
    {
        proof {
            assert(decreases_to!(layout.children => layout.children@[i as int]));
            lemma_layouts_model_index(layout.children@, i as int);
            assert(widths_fit(cm[i as int]));
            lemma_widths_sum_step(cm, i as int);
            lemma_widths_sum_mono(cm, i + 1, cm.len() as int);
            assert(cm.take(cm.len() as int) =~= cm);
        }
        let w = subtree_width(&layout.children[i]);
        sum = sum + w;
        i += 1;
    }
    proof {
        assert(cm.take(cm.len() as int) =~= cm);
    }
    let n = layout.children.len() as u32;
    let total = sum + (n - 1) * H_GAP;
    if layout.width >= total {
        layout.width
    } else {
        total
    }
}

/// The height of the subtree, when every height computed on the way fits in a `u32`.
fn subtree_height_checked(layout: &NodeLayout) -> (r: Option<u32>)
    ensures
        r is Some <==> heights_fit(layout@),
        r matches Some(h) ==> h == subtree_height_spec(layout@),
    decreases layout,
{
    broadcast use group_layouts_model;
    let ghost cm = layout@.children;
    if layout.children.len() == 0 {
        return Some(layout.height);
    }
    proof {
        lemma_layouts_model_len(layout.children@);
        assert(decreases_to!(*layout => layout.children));
        assert(cm.take(0) =~= Seq::<LayoutModel>::empty());
    }
    let mut m: u32 = 0;
    let mut i: usize = 0;
    while i < layout.children.len()
        invariant
            decreases_to!(*layout => layout.children),
            cm == layout@.children,
            cm.len() == layout.children@.len(),
            i <= layout.children.len(),
            m == heights_max(cm.take(i as int)),
            forall|k: int| 0 <= k < i ==> heights_fit(#[trigger] cm[k]),
        decreases layout.children.len() - i,
    {
        proof {
            assert(decreases_to!(layout.children => layout.children@[i as int]));
            assert(cm.take(i + 1).drop_last() =~= cm.take(i as int));
            assert(cm.take(i + 1).last() == cm[i as int]);
            lemma_layouts_model_index(layout.children@, i as int);
        }
        match subtree_height_checked(&layout.children[i]) {
            Some(h) => {
                if h > m {
                    m = h;
                }
            },
            None => {
                return None;
            },
        }
        i += 1;
    }
    proof {
        assert(cm.take(cm.len() as int) =~= cm);
        lemma_heights_max_nonneg(cm);
    }
    match layout.height.checked_add(V_GAP) {
        Some(a) => a.checked_add(m),
        None => None,
    }
}

/// The height of the subtree, as `subtree_height_spec` says.
pub fn subtree_height(layout: &NodeLayout) -> (r: u32)
    requires
        heights_fit(layout@),
    ensures
        r == subtree_height_spec(layout@),
{
    match subtree_height_checked(layout) {
        Some(h) => h,
        None => 0,
    }
}

pub proof fn lemma_shift_all(cs: Seq<LayoutModel>, dx: int)
    ensures
        shift_all(cs, dx).len() == cs.len(),
        forall|i: int| 0 <= i < cs.len() ==> #[trigger] shift_all(cs, dx)[i] == shift_spec(cs[i], dx),
    decreases cs.len(),
{
    if cs.len() > 0 {
        lemma_shift_all(cs.drop_last(), dx);
    }
}

/// Moving a subtree sideways does not change its width.
pub proof fn lemma_shift_width(l: LayoutModel, dx: int)
    ensures
        subtree_width_spec(shift_spec(l, dx)) == subtree_width_spec(l),
        children_total(shift_spec(l, dx).children) == children_total(l.children),
        widths_fit(shift_spec(l, dx)) == widths_fit(l),
    decreases l, 1int,
{
    lemma_shift_widths_sum(l.children, dx);
    lemma_shift_all(l.children, dx);
    let sl = shift_spec(l, dx);
    assert forall|j: int| 0 <= j < l.children.len() implies widths_fit(#[trigger] sl.children[j]) == widths_fit(
        l.children[j],
    ) by {
        assert(decreases_to!(l => l.children));
        assert(decreases_to!(l.children => l.children[j]));
        lemma_shift_width(l.children[j], dx);
    }
    if widths_fit(l) {
        assert forall|j: int| 0 <= j < sl.children.len() implies widths_fit(#[trigger] sl.children[j]) by {
            assert(widths_fit(l.children[j]));
        }
    }
    if widths_fit(sl) {
        assert forall|j: int| 0 <= j < l.children.len() implies widths_fit(#[trigger] l.children[j]) by {
            assert(widths_fit(sl.children[j]));
        }
    }
}

pub proof fn lemma_shift_widths_sum(cs: Seq<LayoutModel>, dx: int)
    ensures
        widths_sum(shift_all(cs, dx)) == widths_sum(cs),
    decreases cs, 0int,
{
    if cs.len() > 0 {
        lemma_shift_widths_sum(cs.drop_last(), dx);
        assert(decreases_to!(cs => cs.last()));
        lemma_shift_width(cs.last(), dx);
        lemma_shift_all(cs, dx);
        assert(shift_all(cs, dx).drop_last() == shift_all(cs.drop_last(), dx));
    }
}

/// Whether every horizontal position in the subtree still fits in a `u32` once moved `dx`
/// to the right.
fn shift_fits(layout: &NodeLayout, dx: u32) -> (r: bool)
    ensures
        r == xs_fit(shift_spec(layout@, dx as int)),
    decreases layout,
{
    broadcast use group_layouts_model;
    let ghost cm = layout@.children;
    proof {
        lemma_shift_all(cm, dx as int);
        lemma_layouts_model_len(layout.children@);
        assert(decreases_to!(*layout => layout.children));
    }
    if layout.x.checked_add(dx).is_none() {
        return false;
    }
    let mut i: usize = 0;
    while i < layout.children.len()
        invariant
            decreases_to!(*layout => layout.children),
            cm == layout@.children,
            cm.len() == layout.children@.len(),
            shift_all(cm, dx as int).len() == cm.len(),
            i <= layout.children.len(),
            forall|k: int| 0 <= k < i ==> xs_fit(#[trigger] shift_all(cm, dx as int)[k]),
        decreases layout.children.len() - i,
    {
        proof {
            assert(decreases_to!(layout.children => layout.children@[i as int]));
            lemma_layouts_model_index(layout.children@, i as int);
            lemma_shift_all(cm, dx as int);
        }
        if !shift_fits(&layout.children[i], dx) {
            proof {
                assert(shift_spec(layout@, dx as int).children == shift_all(cm, dx as int));
                assert(!xs_fit(shift_spec(layout@, dx as int).children[i as int]));
            }
            return false;
        }
        i += 1;
    }
    true
}

/// Moves the subtree `dx` to the right.
pub fn shift_x(layout: &mut NodeLayout, dx: u32)
    requires
        xs_fit(shift_spec(old(layout)@, dx as int)),
    ensures
        final(layout)@ == shift_spec(old(layout)@, dx as int),
    decreases *old(layout),
{
    broadcast use group_layouts_model;
    let ghost cm = old(layout)@.children;
    let ghost oc = old(layout).children@;
    proof {
        lemma_shift_all(cm, dx as int);
        lemma_layouts_model_len(layout.children@);
        assert(decreases_to!(*old(layout) => old(layout).children));
    }
    layout.x = layout.x + dx;
    let mut i: usize = 0;
    while i < layout.children.len()
        invariant
            decreases_to!(*old(layout) => old(layout).children),
            oc == old(layout).children@,
            cm == layouts_model(oc),
            cm.len() == oc.len(),
            layout.children@.len() == oc.len(),
            shift_all(cm, dx as int).len() == cm.len(),
            xs_fit(shift_spec(old(layout)@, dx as int)),
            i <= layout.children.len(),
            forall|k: int| 0 <= k < i ==> #[trigger] layout.children@[k]@ == shift_spec(cm[k], dx as int),
            forall|k: int| i <= k < oc.len() ==> #[trigger] layout.children@[k] == oc[k],
            layout.x == old(layout).x + dx,
            layout.y == old(layout).y,
            layout.width == old(layout).width,
            layout.height == old(layout).height,
            layout.lines == old(layout).lines,
        decreases layout.children.len() - i,
    {
        proof {
            assert(decreases_to!(old(layout).children => oc[i as int]));
            lemma_layouts_model_index(oc, i as int);
            lemma_shift_all(cm, dx as int);
            assert(shift_spec(old(layout)@, dx as int).children == shift_all(cm, dx as int));
            assert(xs_fit(shift_spec(old(layout)@, dx as int).children[i as int]));
        }
        shift_x(&mut layout.children[i], dx);
        i += 1;
    }
    proof {
        assert(layouts_model(layout.children@) =~= shift_all(cm, dx as int));
    }
}

/// Subtrees of the same widths, one for one, have the same sum of widths.
pub proof fn lemma_widths_sum_same(a: Seq<LayoutModel>, b: Seq<LayoutModel>)
    requires
        a.len() == b.len(),
        forall|i: int| 0 <= i < a.len() ==> subtree_width_spec(#[trigger] a[i]) == subtree_width_spec(b[i]),
    ensures
        widths_sum(a) == widths_sum(b),
    decreases a.len(),
{
    if a.len() > 0 {
        lemma_widths_sum_same(a.drop_last(), b.drop_last());
    }
}

/// The layout of the proof tree, when every quantity computed on the way fits in a `u32`.
fn try_compute_layout(tree: &ProofTree) -> (r: Option<NodeLayout>)
    ensures
        r is Some <==> fits(tree@),
        r matches Some(l) ==> l@ == layout_spec(tree@) && widths_fit(l@),
    decreases tree,
{
    broadcast use group_layouts_model;
    let ghost t = tree@;
    let ghost ps = t.subgoals;
    let lines = node_lines(tree);
    let ghost lv = strings_view(lines@);
    let (w, h) = match node_size_checked(lines.as_slice()) {
        Some(p) => p,
        None => {
            return None;
        },
    };
    proof {
        lemma_proofs_model_len(tree.subgoals@);
        lemma_layouts_of_len(ps);
        assert(decreases_to!(*tree => tree.subgoals));
        assert(layouts_model(Seq::<NodeLayout>::empty()) =~= layouts_of(ps).take(0));
    }
    let mut child_layouts: Vec<NodeLayout> = Vec::new();
    let mut i: usize = 0;
    while i < tree.subgoals.len()
        invariant
            decreases_to!(*tree => tree.subgoals),
            t == tree@,
            ps == t.subgoals,
            ps.len() == tree.subgoals@.len(),
            layouts_of(ps).len() == ps.len(),
            i <= tree.subgoals.len(),
            child_layouts@.len() == i,
            layouts_model(child_layouts@) == layouts_of(ps).take(i as int),
            forall|k: int| 0 <= k < i ==> fits(#[trigger] ps[k]),
            forall|k: int| 0 <= k < i ==> widths_fit(#[trigger] child_layouts@[k]@),
        decreases tree.subgoals.len() - i,
    {
        proof {
            assert(decreases_to!(tree.subgoals => tree.subgoals@[i as int]));
            lemma_proofs_model_index(tree.subgoals@, i as int);
            lemma_layouts_of_index(ps, i as int);
        }
        match try_compute_layout(&tree.subgoals[i]) {
            Some(l) => {
                let ghost prev = child_layouts@;
                child_layouts.push(l);
                proof {
                    assert(child_layouts@.drop_last() =~= prev);
                    assert(layouts_of(ps).take(i + 1) =~= layouts_of(ps).take(i as int).push(layouts_of(ps)[i as int]));
                }
            },
            None => {
                proof {
                    assert(!fits(t.subgoals[i as int]));
                }
                return None;
            },
        }
        i += 1;
    }
    let ghost cs = layouts_of(ps);
    proof {
        assert(cs.take(cs.len() as int) =~= cs);
        lemma_layouts_model_len(child_layouts@);
        assert forall|k: int| 0 <= k < cs.len() implies subtree_width_spec(#[trigger] cs[k]) >= 0 by {
            lemma_layouts_model_index(child_layouts@, k);
            lemma_subtree_width_at_least_box(cs[k]);
        }
    }
    let n = child_layouts.len();
    let mut children_total_w: u32 = 0;
    if n > 0 {
        let mut sum: u32 = 0;
        let mut k: usize = 0;
        proof {
            assert(cs.take(0) =~= Seq::<LayoutModel>::empty());
        }
        while k < n
            invariant
                t == tree@,
                ps == t.subgoals,
                cs == layouts_of(ps),
                n == child_layouts@.len(),
                cs.len() == n,
                layouts_model(child_layouts@) == cs,
                forall|j: int| 0 <= j < n ==> widths_fit(#[trigger] child_layouts@[j]@),
                forall|j: int| 0 <= j < cs.len() ==> subtree_width_spec(#[trigger] cs[j]) >= 0,
                k <= n,
                sum == widths_sum(cs.take(k as int)),
            decreases n - k,
        {
            proof {
                lemma_layouts_model_index(child_layouts@, k as int);
                lemma_widths_sum_step(cs, k as int);
            }
            let sw = subtree_width(&child_layouts[k]);
            sum = match sum.checked_add(sw) {
                Some(x) => x,
                None => {
                    proof {
                        lemma_widths_sum_mono(cs, k + 1, n as int);
                        assert(cs.take(n as int) =~= cs);
                        assert(children_total(cs) > u32::MAX);
                        assert(!fits(t));
                    }
                    return None;
                },
            };
            k += 1;
        }
        proof {
            assert(cs.take(n as int) =~= cs);
        }
        if n > 4294967295 {
            return None;
        }
        let n32 = n as u32;
        let gaps = match (n32 - 1).checked_mul(H_GAP) {
            Some(g) => g,
            None => {
                return None;
            },
        };
        children_total_w = match sum.checked_add(gaps) {
            Some(x) => x,
            None => {
                return None;
            },
        };
    }
    let ghost total = children_total(cs);
    let node_x = if children_total_w > w {
        (children_total_w - w) / 2
    } else {
        0
    };
    let children_start_x = if w > children_total_w {
        (w - children_total_w) / 2
    } else {
        0
    };
    let ghost start = children_start(w as int, total);
    let ghost placed = place(cs, start);
    let mut cx = children_start_x;
    let mut j: usize = 0;
    proof {
        assert(cs.take(0) =~= Seq::<LayoutModel>::empty());
    }
    while j < n
        invariant
            t == tree@,
            ps == t.subgoals,
            cs == layouts_of(ps),
            w == node_width_spec(node_lines_spec(t)),
            total == children_total(cs),
            start == children_start(w as int, total),
            n == child_layouts@.len(),
            cs.len() == n,
            placed == place(cs, start),
            start == children_start_x,
            forall|k: int| 0 <= k < j ==> #[trigger] child_layouts@[k]@ == placed[k],
            forall|k: int| j <= k < n ==> #[trigger] child_layouts@[k]@ == cs[k],
            forall|k: int| j <= k < n ==> widths_fit(#[trigger] child_layouts@[k]@),
            forall|k: int| 0 <= k < j ==> xs_fit(#[trigger] placed[k]),
            forall|k: int| 0 <= k < cs.len() ==> subtree_width_spec(#[trigger] cs[k]) >= 0,
            j <= n,
            cx == start + offset(cs, j as int),
        decreases n - j,
    {
        proof {
            lemma_widths_sum_step(cs, j as int);
        }
        let sw = subtree_width(&child_layouts[j]);
        if !shift_fits(&child_layouts[j], cx) {
            proof {
                assert(!xs_fit(placed[j as int]));
                assert(!fits(t));
            }
            return None;
        }
        let ghost before = child_layouts@;
        shift_x(&mut child_layouts[j], cx);
        proof {
            assert forall|k: int| 0 <= k < n && k != j implies child_layouts@[k] == before[k] by {}
        }
        cx = match cx.checked_add(sw) {
            Some(a) => match a.checked_add(H_GAP) {
                Some(b) => b,
                None => {
                    proof {
                        lemma_widths_sum_mono(cs, j + 1, n as int);
                        assert(start + offset(cs, n as int) > u32::MAX);
                        assert(!fits(t));
                    }
                    return None;
                },
            },
            None => {
                proof {
                    lemma_widths_sum_mono(cs, j + 1, n as int);
                    assert(start + offset(cs, n as int) > u32::MAX);
                    assert(!fits(t));
                }
                return None;
            },
        };
        j += 1;
    }
    proof {
        assert(layouts_model(child_layouts@) =~= placed) by {
            lemma_layouts_model_len(child_layouts@);
            assert forall|k: int| 0 <= k < n implies #[trigger] layouts_model(child_layouts@)[k] == placed[k] by {
                lemma_layouts_model_index(child_layouts@, k);
            }
        }
        assert forall|k: int| 0 <= k < n implies subtree_width_spec(#[trigger] placed[k]) == subtree_width_spec(cs[k]) by {
            lemma_shift_width(cs[k], start + offset(cs, k));
        }
        lemma_widths_sum_same(placed, cs);
        assert forall|k: int| 0 <= k < n implies widths_fit(#[trigger] placed[k]) by {
            lemma_shift_width(cs[k], start + offset(cs, k));
            lemma_layouts_of_index(ps, k);
        }
    }
    Some(NodeLayout { x: node_x, y: 0, width: w, height: h, lines, children: child_layouts })
}

/// The layout of the proof tree, as `layout_spec` says.
pub fn compute_layout(tree: &ProofTree) -> (r: NodeLayout)
    requires
        fits(tree@),
    ensures
        r@ == layout_spec(tree@),
        widths_fit(r@),
{
    match try_compute_layout(tree) {
        Some(l) => l,
        None => NodeLayout { x: 0, y: 0, width: 0, height: 0, lines: Vec::new(), children: Vec::new() },
    }
}

/// The layout of the proof tree with the width and height of the picture that shows it (the
/// whole tree and a margin all around), when every quantity computed on the way fits in a
/// `u32`; `None` otherwise.
pub fn proof_tree_layout(tree: &ProofTree) -> (r: Option<(NodeLayout, u32, u32)>)
    ensures
        r is Some <==> fits(tree@) && heights_fit(layout_spec(tree@))
            && subtree_width_spec(layout_spec(tree@)) + MARGIN * 2 <= u32::MAX
            && subtree_height_spec(layout_spec(tree@)) + MARGIN * 2 <= u32::MAX,
        r matches Some((l, w, h)) ==> l@ == layout_spec(tree@)
            && w == subtree_width_spec(layout_spec(tree@)) + MARGIN * 2
            && h == subtree_height_spec(layout_spec(tree@)) + MARGIN * 2,
{
    let layout = match try_compute_layout(tree) {
        Some(l) => l,
        None => {
            return None;
        },
    };
    let sw = subtree_width(&layout);
    let sh = match subtree_height_checked(&layout) {
        Some(h) => h,
        None => {
            return None;
        },
    };
    let w = match sw.checked_add(MARGIN * 2) {
        Some(w) => w,
        None => {
            return None;
        },
    };
    let h = match sh.checked_add(MARGIN * 2) {
        Some(h) => h,
        None => {
            return None;
        },
    };
    Some((layout, w, h))
}

} // verus!
