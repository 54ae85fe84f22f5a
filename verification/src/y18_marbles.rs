//! A circle of marbles kept as a doubly linked list inside a vector.

use vstd::prelude::*;
use crate::text::{caps_view, group_int, group_int_spec, regex_captures, regex_captures_spec};

verus! {

/// The value of a marble.
pub type Marble = u32;

/// One marble in the circle, with the vector indices of its neighbours.
#[derive(Copy, Clone, PartialEq, Debug)]
pub struct MarbleNode {
    pub value: Marble,
    pub next: usize,
    pub prev: usize,
}

impl MarbleNode {
    pub fn value(&self) -> (res: Marble)
        ensures
            res == self.value,
    {
        self.value
    }
}

/// The circle of marbles: the first node pushed, the last node of the
/// circle, the current node, and the nodes.
#[derive(PartialEq, Debug)]
pub struct MarbleList {
    pub head: Option<usize>,
    pub tail: Option<usize>,
    pub current: Option<usize>,
    pub nodes: Vec<MarbleNode>,
}

/// `nodes` with the successor of node `i` set to `v`.
pub open spec fn set_next(nodes: Seq<MarbleNode>, i: int, v: usize) -> Seq<MarbleNode> {
    nodes.update(i, MarbleNode { next: v, ..nodes[i] })
}

/// `nodes` with the predecessor of node `i` set to `v`.
pub open spec fn set_prev(nodes: Seq<MarbleNode>, i: int, v: usize) -> Seq<MarbleNode> {
    nodes.update(i, MarbleNode { prev: v, ..nodes[i] })
}

/// The node reached from `pos` after `k` steps forward (or backward).
pub open spec fn walk(nodes: Seq<MarbleNode>, pos: int, k: nat, forward: bool) -> int
    decreases k,
{
    if k == 0 {
        pos
    } else {
        let p = walk(nodes, pos, (k - 1) as nat, forward);
        if forward { nodes[p].next as int } else { nodes[p].prev as int }
    }
}

/// Whether head, tail and current are all present or all absent.
pub open spec fn consistent(l: MarbleList) -> bool {
    ||| (l.head is None && l.tail is None && l.current is None)
    ||| (l.head is Some && l.tail is Some && l.current is Some)
}

/// The links of every node stay inside the vector and are each other's
/// inverse, the current node is in the vector, and the list is empty exactly
/// when the vector is.
pub open spec fn links_ok(l: MarbleList) -> bool {
    let n = l.nodes@;
    &&& consistent(l)
    &&& (l.head is None <==> n.len() == 0)
    &&& l.current matches Some(c) ==> c < n.len()
    &&& links_seq(n)
}

/// The list is a consistent doubly linked circle whose head and tail are in
/// the vector, the head following the tail.
pub open spec fn list_wf(l: MarbleList) -> bool {
    let n = l.nodes@;
    &&& links_ok(l)
    &&& l.head matches Some(h) ==> h < n.len()
    &&& l.tail matches Some(t) ==> t < n.len()
    &&& (l.head is Some && l.tail is Some) ==> n[l.tail.unwrap() as int].next == l.head.unwrap()
}

/// The nodes after the node at `pos` is unlinked from its neighbours.
pub open spec fn unlinked(n: Seq<MarbleNode>, pos: int) -> Seq<MarbleNode> {
    set_prev(set_next(n, n[pos].prev as int, n[pos].next), n[pos].next as int, n[pos].prev)
}

/// Whether removing the node at `pos` runs without leaving the vector: the
/// node is the only one, or it is not the last in the vector, does not link
/// to itself, and after it is unlinked the last node of the vector does not
/// link to itself.
pub open spec fn remove_safe(l: MarbleList, pos: int) -> bool {
    let n = l.nodes@;
    let end = n.len() - 1;
    ||| n.len() == 1 && pos == 0
    ||| {
        &&& 0 <= pos < end
        &&& n[pos].next != pos
        &&& n[pos].prev != pos
        &&& unlinked(n, pos)[end].next != end
        &&& unlinked(n, pos)[end].prev != end
    }
}

/// The links of every node stay inside the sequence and are each other's
/// inverse.
pub open spec fn links_seq(n: Seq<MarbleNode>) -> bool {
    forall|i: int| 0 <= i < n.len() ==> #[trigger] node_ok(n, i)
}

/// The links of node `i` stay inside the sequence and lead back to it.
pub open spec fn node_ok(n: Seq<MarbleNode>, i: int) -> bool {
    &&& n[i].next < n.len()
    &&& n[i].prev < n.len()
    &&& n[n[i].next as int].prev == i
    &&& n[n[i].prev as int].next == i
}

/// The nodes after a node with `value` is inserted after node `pos`.
pub open spec fn inserted(n: Seq<MarbleNode>, pos: int, value: Marble) -> Seq<MarbleNode> {
    let new = n.len() as usize;
    let anchor = n[pos].next;
    set_prev(set_next(n.push(MarbleNode { value, next: anchor, prev: pos as usize }), pos, new), anchor as int, new)
}

proof fn lemma_inserted_links(n: Seq<MarbleNode>, pos: int, value: Marble)
    requires
        links_seq(n),
        0 <= pos < n.len(),
        n.len() < usize::MAX,
    ensures
        links_seq(inserted(n, pos, value)),
        inserted(n, pos, value).len() == n.len() + 1,
{
    let m = inserted(n, pos, value);
    let new = n.len() as int;
    let anchor = n[pos].next as int;
    assert(node_ok(n, pos));
    assert(node_ok(n, anchor));
    assert(n[anchor].prev == pos);
    assert forall|i: int| 0 <= i < m.len() implies #[trigger] node_ok(m, i) by {
        if i == new {
        } else if i == pos && i == anchor {
        } else if i == pos {
            assert(node_ok(n, n[i].prev as int));
        } else if i == anchor {
            assert(node_ok(n, n[i].next as int));
        } else {
            assert(node_ok(n, i));
            assert(node_ok(n, n[i].next as int));
            assert(node_ok(n, n[i].prev as int));
        }
    }
}

/// The nodes after a node with `value` is added between tail `t` and head `h`.
pub open spec fn pushed(n: Seq<MarbleNode>, h: int, t: int, value: Marble) -> Seq<MarbleNode> {
    let len = n.len() as usize;
    set_prev(set_next(n, t, len), h, len).push(MarbleNode { value, next: h as usize, prev: t as usize })
}

proof fn lemma_pushed_links(n: Seq<MarbleNode>, h: int, t: int, value: Marble)
    requires
        links_seq(n),
        0 <= h < n.len(),
        0 <= t < n.len(),
        n[t].next == h,
        n.len() < usize::MAX,
    ensures
        links_seq(pushed(n, h, t, value)),
        pushed(n, h, t, value)[t].next == n.len(),
{
    let m = pushed(n, h, t, value);
    let new = n.len() as int;
    assert(node_ok(n, t));
    assert(node_ok(n, h));
    assert forall|i: int| 0 <= i < m.len() implies #[trigger] node_ok(m, i) by {
        if i == new {
        } else if i == t && i == h {
        } else if i == t {
            assert(node_ok(n, n[i].prev as int));
        } else if i == h {
            assert(node_ok(n, n[i].next as int));
        } else {
            assert(node_ok(n, i));
            assert(node_ok(n, n[i].next as int));
            assert(node_ok(n, n[i].prev as int));
        }
    }
}

/// The nodes after the node at `pos` is removed, when it is not the only one.
pub open spec fn removed(n: Seq<MarbleNode>, pos: int) -> Seq<MarbleNode> {
    let end = n.len() - 1;
    let n2 = unlinked(n, pos);
    let n4 = n2.update(pos, n2[end]).drop_last();
    set_prev(set_next(n4, n2[end].prev as int, pos as usize), n2[end].next as int, pos as usize)
}

/// Every node but `pos` has links inside the sequence that are each
/// other's inverse and avoid `pos`.
pub open spec fn links_except(n2: Seq<MarbleNode>, pos: int) -> bool {
    forall|i: int| 0 <= i < n2.len() && i != pos ==> #[trigger] node_ok_except(n2, i, pos)
}

pub open spec fn node_ok_except(n2: Seq<MarbleNode>, i: int, pos: int) -> bool {
    &&& n2[i].next != pos
    &&& n2[i].prev != pos
    &&& node_ok(n2, i)
}

proof fn lemma_unlinked_links(n: Seq<MarbleNode>, pos: int)
    requires
        links_seq(n),
        0 <= pos < n.len(),
        n[pos].next != pos,
        n[pos].prev != pos,
    ensures
        links_except(unlinked(n, pos), pos),
        unlinked(n, pos).len() == n.len(),
{
    let prev = n[pos].prev as int;
    let next = n[pos].next as int;
    let n2 = unlinked(n, pos);
    assert(node_ok(n, pos));
    assert(node_ok(n, prev));
    assert(node_ok(n, next));
    assert forall|i: int| 0 <= i < n2.len() && i != pos implies #[trigger] node_ok_except(n2, i, pos) by {
        assert(node_ok(n, i));
        assert(node_ok(n, n[i].next as int));
        assert(node_ok(n, n[i].prev as int));
    }
}

#[verifier::rlimit(40)]
proof fn lemma_removed_links(n: Seq<MarbleNode>, pos: int)
    requires
        links_seq(n),
        0 <= pos < n.len() - 1,
        n[pos].next != pos,
        n[pos].prev != pos,
        unlinked(n, pos)[n.len() - 1].next != n.len() - 1,
        unlinked(n, pos)[n.len() - 1].prev != n.len() - 1,
    ensures
        links_seq(removed(n, pos)),
        removed(n, pos).len() == n.len() - 1,
{
    lemma_unlinked_links(n, pos);
    let end = n.len() - 1;
    let n2 = unlinked(n, pos);
    let enp = n2[end].next as int;
    let epp = n2[end].prev as int;
    let m = removed(n, pos);
    assert(node_ok_except(n2, end, pos));
    assert(node_ok_except(n2, enp, pos));
    assert(node_ok_except(n2, epp, pos));
    assert forall|i: int| 0 <= i < m.len() implies #[trigger] node_ok(m, i) by {
        if i == pos {
            assert(m[i].next == enp && m[i].prev == epp);
        } else {
            assert(node_ok_except(n2, i, pos));
            let a = n2[i].next as int;
            let b = n2[i].prev as int;
            if a != end {
                assert(node_ok_except(n2, a, pos));
            }
            if b != end {
                assert(node_ok_except(n2, b, pos));
            }
        }
    }
}

/// The node reached by `get_node(step)`.
pub open spec fn get_node_spec(l: MarbleList, step: i32) -> Option<usize> {
    if l.head is None {
        None
    } else {
        Some(walk(l.nodes@, l.current.unwrap() as int, (if step < 0 { -step } else { step as int }) as nat, step > 0) as usize)
    }
}

impl MarbleList {
    /// The empty circle.
    pub fn new() -> (res: MarbleList)
        ensures
            res.head is None,
            res.tail is None,
            res.current is None,
            res.nodes@.len() == 0,
            list_wf(res),
    {
        MarbleList { head: None, tail: None, current: None, nodes: Vec::new() }
    }

    /// Adds a marble after the node at `pos`; the new node becomes the
    /// current one, and the tail when `pos` was the tail.
    pub fn insert_after(&mut self, pos: usize, value: &Marble)
        requires
            links_ok(*old(self)),
            old(self).head is Some,
            pos < old(self).nodes.len(),
            old(self).nodes.len() < usize::MAX,
        ensures
            links_ok(*final(self)),
            final(self).nodes@.len() == old(self).nodes@.len() + 1,
            list_wf(*old(self)) ==> list_wf(*final(self)),
            ({
                let n = old(self).nodes@;
                let new = n.len() as usize;
                &&& final(self).nodes@ == inserted(n, pos as int, *value)
                &&& final(self).head == old(self).head
                &&& final(self).tail == if old(self).tail == Some(pos) { Some(new) } else { old(self).tail }
                &&& final(self).current == Some(new)
            }),
    {
        let ghost n = self.nodes@;
        proof {
            lemma_inserted_links(n, pos as int, *value);
        }
        assert(node_ok(n, pos as int));
        let new_node_ind = self.nodes.len();
        let anchor_next_pos = self.nodes[pos].next;
        self.nodes.push(MarbleNode { value: *value, next: anchor_next_pos, prev: pos });
        let mut p = self.nodes[pos];
        p.next = new_node_ind;
        self.nodes.set(pos, p);
        let mut a = self.nodes[anchor_next_pos];
        a.prev = new_node_ind;
        self.nodes.set(anchor_next_pos, a);
        assert(self.nodes@ =~= inserted(n, pos as int, *value));
        if pos == self.tail.unwrap() {
            self.tail = Some(new_node_ind);
        }
        self.current = Some(new_node_ind);
    }

    /// The node `step` places after the current one (a step beyond the
    /// largest `i32` counts backwards, as the step is read as an `i32`).
    pub fn next(&mut self, step: u32) -> (res: Option<usize>)
        requires
            links_ok(*old(self)),
            step as i32 != i32::MIN,
        ensures
            *final(self) == *old(self),
            res == get_node_spec(*old(self), step as i32),
    {
        self.get_node(step as i32)
    }

    /// The node `step` places before the current one.
    pub fn back(&mut self, step: u32) -> (res: Option<usize>)
        requires
            links_ok(*old(self)),
            step as i32 != i32::MIN,
        ensures
            *final(self) == *old(self),
            res == get_node_spec(*old(self), (-(step as i32)) as i32),
    {
        self.get_node(-(step as i32))
    }

    /// The node `|step|` places after the current one when `step` is
    /// positive, and before it otherwise; none when the circle is empty.
    pub fn get_node(&mut self, step: i32) -> (res: Option<usize>)
        requires
            links_ok(*old(self)),
            step != i32::MIN,
        ensures
            *final(self) == *old(self),
            res == get_node_spec(*old(self), step),
    {
        if self.is_empty() {
            return None;
        }
        let is_forward = step > 0;
        let step_abs: u32 = if step < 0 { (-step) as u32 } else { step as u32 };
        let mut pos = self.current.unwrap();
        let ghost start = pos as int;
        let mut i: u32 = 0;
        while i < step_abs
            invariant
                links_ok(*self),
                self.head is Some,
                i <= step_abs,
                pos < self.nodes.len(),
                pos == walk(self.nodes@, start, i as nat, is_forward),
            decreases step_abs - i,
        {
            assert(node_ok(self.nodes@, pos as int));
            pos = if is_forward { self.nodes[pos].next } else { self.nodes[pos].prev };
            i = i + 1;
        }
        Some(pos)
    }

    /// Removes the node at `pos`. The last node of the vector moves into the
    /// freed place, and the links, the head or tail, and the current node
    /// (the removed node's successor) are repaired.
    pub fn remove(&mut self, pos: usize)
        requires
            links_ok(*old(self)),
            old(self).head is Some,
            remove_safe(*old(self), pos as int),
        ensures
            links_ok(*final(self)),
            final(self).nodes@.len() == old(self).nodes@.len() - 1,
            ({
                let n = old(self).nodes@;
                let end = n.len() - 1;
                let prev = n[pos as int].prev;
                let next = n[pos as int].next;
                let h = old(self).head.unwrap();
                let t = old(self).tail.unwrap();
                if n.len() == 1 {
                    &&& final(self).nodes@.len() == 0
                    &&& final(self).head is None
                    &&& final(self).tail is None
                    &&& final(self).current is None
                } else {
                    &&& final(self).nodes@ == removed(n, pos as int)
                    &&& final(self).head == if pos == h { Some(next) } else if end == h { Some(pos) } else { old(self).head }
                    &&& final(self).tail == if pos == h || end == h { old(self).tail } else if pos == t { Some(prev) } else if end == t { Some(pos) } else { old(self).tail }
                    &&& final(self).current == if next == end { Some(pos) } else { Some(next) }
                }
            }),
            ({
                let n = old(self).nodes@;
                let end = n.len() - 1;
                let h = old(self).head.unwrap();
                let t = old(self).tail.unwrap();
                (list_wf(*old(self)) && n.len() > 1 && !(pos == h && (t == end || n[pos as int].next == end))
                    && !(end == h && pos == t) && !(pos == t && n[pos as int].prev == end)) ==> list_wf(*final(self))
            }),
    {
        if self.nodes.len() == 1 {
            self.nodes.pop();
            self.head = None;
            self.tail = None;
            self.current = None;
        } else {
            let ghost n = self.nodes@;
            proof {
                lemma_removed_links(n, pos as int);
            }
            assert(node_ok(n, pos as int));
            let prev_pos = self.nodes[pos].prev;
            let next_pos = self.nodes[pos].next;
            let mut pn = self.nodes[prev_pos];
            pn.next = next_pos;
            self.nodes.set(prev_pos, pn);
            let mut nn = self.nodes[next_pos];
            nn.prev = prev_pos;
            self.nodes.set(next_pos, nn);
            assert(self.nodes@ =~= unlinked(n, pos as int));
            proof {
                lemma_unlinked_links(n, pos as int);
                assert(node_ok_except(self.nodes@, self.nodes.len() - 1, pos as int));
            }
            let end_pos = self.nodes.len() - 1;
            let moved = self.nodes[end_pos];
            self.nodes.set(pos, moved);
            self.nodes.pop();
            let end_node_next = self.nodes[pos].next;
            let end_node_prev = self.nodes[pos].prev;
            let mut ep = self.nodes[end_node_prev];
            ep.next = pos;
            self.nodes.set(end_node_prev, ep);
            let mut en = self.nodes[end_node_next];
            en.prev = pos;
            self.nodes.set(end_node_next, en);
            assert(self.nodes@ =~= removed(n, pos as int));
            let head_pos = self.head.unwrap();
            let tail_pos = self.tail.unwrap();
            if pos == head_pos {
                self.head = Some(next_pos);
            } else if end_pos == head_pos {
                self.head = Some(pos);
            } else if pos == tail_pos {
                self.tail = Some(prev_pos);
            } else if end_pos == tail_pos {
                self.tail = Some(pos);
            }
            if next_pos == end_pos {
                self.current = Some(pos);
            } else {
                self.current = Some(next_pos);
            }
            proof {
                let h = head_pos as int;
                let t = tail_pos as int;
                let e = end_pos as int;
                let p = pos as int;
                if list_wf(*old(self)) && !(p == h && (t == e || next_pos == e)) && !(e == h && p == t) && !(p == t
                    && prev_pos == e) {
                    lemma_removed_nodes(n, p);
                    assert(node_ok(n, t));
                    assert(node_ok(n, p));
                    assert(n[t].next == head_pos);
                    let m = self.nodes@;
                    let tt = self.tail.unwrap() as int;
                    assert(m[tt] == removed(n, p)[tt]);
                }
            }
        }
    }

    /// Whether the circle is empty.
    pub fn is_empty(&self) -> (res: bool)
        requires
            consistent(*self),
        ensures
            res == self.head is None,
    {
        self.head.is_none()
    }

    /// The value of the node at vector index `pos`.
    pub fn get(&self, pos: usize) -> (res: Marble)
        requires
            pos < self.nodes.len(),
        ensures
            res == self.nodes@[pos as int].value,
    {
        self.nodes[pos].value()
    }

    /// Adds a marble after the tail, which becomes the new tail and the
    /// current node.
    pub fn push(&mut self, value: &Marble)
        requires
            list_wf(*old(self)),
            old(self).nodes.len() < usize::MAX,
        ensures
            list_wf(*final(self)),
            ({
                let n = old(self).nodes@;
                let len = n.len() as usize;
                if old(self).head is None {
                    &&& final(self).nodes@ == seq![MarbleNode { value: *value, next: 0, prev: 0 }]
                    &&& final(self).head == Some(0usize)
                    &&& final(self).tail == Some(0usize)
                    &&& final(self).current == Some(0usize)
                } else {
                    let h = old(self).head.unwrap();
                    let t = old(self).tail.unwrap();
                    &&& final(self).nodes@ == pushed(n, h as int, t as int, *value)
                    &&& final(self).head == old(self).head
                    &&& final(self).tail == Some(len)
                    &&& final(self).current == Some(len)
                }
            }),
    {
        let mut new_node = MarbleNode { value: *value, next: 0, prev: 0 };
        if self.is_empty() {
            self.nodes.push(new_node);
            self.head = Some(0);
            self.tail = Some(0);
            self.current = Some(0);
            assert(node_ok(self.nodes@, 0));
        } else {
            let ghost n = self.nodes@;
            proof {
                lemma_pushed_links(n, self.head.unwrap() as int, self.tail.unwrap() as int, *value);
            }
            let tail_pos = self.tail.unwrap();
            new_node.next = self.head.unwrap();
            new_node.prev = self.tail.unwrap();
            let new_node_ind = self.nodes.len();
            let mut t = self.nodes[tail_pos];
            t.next = new_node_ind;
            self.nodes.set(tail_pos, t);
            let head_pos = self.head.unwrap();
            let mut h = self.nodes[head_pos];
            h.prev = new_node_ind;
            self.nodes.set(head_pos, h);
            self.nodes.push(new_node);
            assert(self.nodes@ =~= pushed(n, self.head.unwrap() as int, tail_pos as int, *value));
            self.tail = Some(new_node_ind);
            self.current = Some(new_node_ind);
        }
    }
}

} // verus!

verus! {

impl MarbleList {
    /// Whether `remove(pos)` would stay inside the vector.
    fn remove_is_safe(&self, pos: usize) -> (res: bool)
        requires
            links_ok(*self),
            pos < self.nodes.len(),
        ensures
            res == remove_safe(*self, pos as int),
    {
        let len = self.nodes.len();
        if len == 1 {
            return pos == 0;
        }
        if pos >= len - 1 {
            return false;
        }
        assert(node_ok(self.nodes@, pos as int));
        let prev = self.nodes[pos].prev;
        let next = self.nodes[pos].next;
        let end = len - 1;
        let u_next = if end == prev { next } else { self.nodes[end].next };
        let u_prev = if end == next { prev } else { self.nodes[end].prev };
        next != pos && prev != pos && u_next != end && u_prev != end
    }
}

/// A game of marbles: the number of players and the value of the last marble.
pub struct MarbleGame {
    pub player_n: u32,
    pub last_marble_ind: u32,
}

/// The description of a game: players, then the worth of the last marble.
pub const MARBLE_GAME_DESC_PATTERN: &'static str = r"(\d+) players; last marble is worth (\d+) points";

/// The game that the groups of a match of the description pattern write,
/// where both numbers fit in `u32`.
pub open spec fn game_of_caps(caps: Seq<Option<Seq<char>>>) -> Option<MarbleGame> {
    match (group_int_spec(caps, 1, 0, u32::MAX as int), group_int_spec(caps, 2, 0, u32::MAX as int)) {
        (Some(p), Some(l)) => Some(MarbleGame { player_n: p as u32, last_marble_ind: l as u32 }),
        _ => None,
    }
}

/// A game in progress: the marbles of the circle in clockwise order, the
/// place of the current marble, the players' scores, the player whose turn
/// it is, and whether the game has stopped early.
pub struct MarbleRound {
    pub circle: Seq<Marble>,
    pub cur: int,
    pub scores: Seq<u32>,
    pub player: int,
    pub stopped: bool,
}

/// The game after marble `id` is played by the current one of `n` players.
/// A marble worth a multiple of 23 is kept, together with the marble seven
/// places counter-clockwise of the current one, which leaves the circle;
/// the marble clockwise of it becomes the current one. Any other marble is
/// placed between the marbles one and two places clockwise of the current
/// one and becomes the current one. The game stops where a score would
/// exceed `u32` or the circle would outgrow `usize`.
pub open spec fn round_step(g: MarbleRound, id: Marble, n: int) -> MarbleRound {
    let len = g.circle.len() as int;
    if g.stopped {
        g
    } else if id % 23 == 0 {
        let r = (g.cur - 7) % len;
        let total = g.scores[g.player] + g.circle[r] + id;
        if total > u32::MAX {
            MarbleRound { stopped: true, ..g }
        } else {
            MarbleRound {
                circle: g.circle.remove(r),
                cur: if r < len - 1 { r } else { 0 },
                scores: g.scores.update(g.player, total as u32),
                player: (g.player + 1) % n,
                stopped: false,
            }
        }
    } else if len >= usize::MAX {
        MarbleRound { stopped: true, ..g }
    } else {
        let at = (g.cur + 1) % len + 1;
        MarbleRound { circle: g.circle.insert(at, id), cur: at, player: (g.player + 1) % n, ..g }
    }
}

/// The game of `n` players after the marbles `1..=k` are played, marble 0
/// alone in the circle at the start.
pub open spec fn round_after(n: int, k: nat) -> MarbleRound
    decreases k,
{
    if k == 0 {
        MarbleRound { circle: seq![0], cur: 0, scores: Seq::new(n as nat, |i: int| 0u32), player: 0, stopped: false }
    } else {
        round_step(round_after(n, (k - 1) as nat), k as Marble, n)
    }
}

/// Once stopped, a game stays as it is.
proof fn lemma_round_stays(n: int, k: nat, k2: nat)
    requires
        k <= k2 <= u32::MAX,
        round_after(n, k).stopped,
    ensures
        round_after(n, k2) == round_after(n, k),
    decreases k2 - k,
{
    if k2 > k {
        lemma_round_stays(n, k, (k2 - 1) as nat);
    }
}

impl MarbleGame {
    /// Reads a game from `N players; last marble is worth M points` found
    /// in `desc`; `None` where there is none or a number is beyond `u32`.
    pub fn new(desc: &str) -> (res: Option<MarbleGame>)
        ensures
            res == match regex_captures_spec(MARBLE_GAME_DESC_PATTERN@, desc@) {
                Some(c) => game_of_caps(c),
                None => None,
            },
    {
        match regex_captures(MARBLE_GAME_DESC_PATTERN, desc) {
            Some(caps) => Self::from_captures(&caps),
            None => None,
        }
    }

    /// The game that the groups `caps` of a match of the description
    /// pattern write.
    pub fn from_captures(caps: &Vec<Option<String>>) -> (res: Option<MarbleGame>)
        ensures
            res == game_of_caps(caps_view(caps@)),
    {
        match (group_int(caps, 1, 0, u32::MAX as i128), group_int(caps, 2, 0, u32::MAX as i128)) {
            (Some(p), Some(l)) => Some(MarbleGame { player_n: p as u32, last_marble_ind: l as u32 }),
            _ => None,
        }
    }

    /// Plays the game and returns the index of the winning player and the
    /// winning score: the highest score, and of the players with it the
    /// last. The game is played as `round_after` states, and stops early
    /// where a score would exceed `u32`.
    pub fn simulate(&self) -> (res: (u32, u32))
        requires
            self.player_n > 0,
        ensures
            ({
                let scores = round_after(self.player_n as int, self.last_marble_ind as nat).scores;
                &&& res.0 < self.player_n
                &&& scores[res.0 as int] == res.1
                &&& forall|j: int| 0 <= j < self.player_n ==> scores[j] <= res.1
                &&& forall|j: int| res.0 < j < self.player_n ==> scores[j] < res.1
            }),
    {
        let n = self.player_n as usize;
        let ghost nn = n as int;
        let mut score_list: Vec<u32> = Vec::new();
        let mut k: usize = 0;
        while k < n
            invariant
                k <= n,
                score_list@ == Seq::new(k as nat, |i: int| 0u32),
            decreases n - k,
        {
            score_list.push(0);
            k = k + 1;
            proof {
                assert(score_list@ =~= Seq::new(k as nat, |i: int| 0u32));
            }
        }
        let mut marble_list = MarbleList::new();
        let mut cur_player_ind: usize = 0;
        marble_list.push(&0);
        let ghost mut order: Seq<usize> = seq![0usize];
        let ghost mut place: Seq<int> = seq![0int];
        proof {
            let g0 = round_after(nn, 0);
            assert(g0.circle =~= seq![0u32]);
            assert(ring_rep(marble_list.nodes@, order, place, g0.circle));
        }
        let mut marble_id: u64 = 1;
        while marble_id <= self.last_marble_ind as u64
            invariant
                n == self.player_n,
                nn == n,
                n > 0,
                score_list.len() == n,
                cur_player_ind < n,
                links_ok(marble_list),
                marble_list.head is Some,
                1 <= marble_id,
                marble_id <= self.last_marble_ind as u64 + 1,
                ({
                    let g = round_after(nn, (marble_id - 1) as nat);
                    &&& !g.stopped
                    &&& g.scores == score_list@
                    &&& g.player == cur_player_ind
                    &&& ring_rep(marble_list.nodes@, order, place, g.circle)
                    &&& 0 <= g.cur < marble_list.nodes.len()
                    &&& marble_list.current == Some(order[g.cur])
                }),
                marble_list.nodes.len() + 2 * ((marble_id - 1) / 23) == marble_id,
                marble_id % 23 == 0 ==> marble_list.current == Some((marble_list.nodes.len() - 1) as usize),
            ensures
                round_after(nn, self.last_marble_ind as nat).scores == score_list@,
            decreases self.last_marble_ind as u64 + 1 - marble_id,
        {
            let id = marble_id as u32;
            let ghost g = round_after(nn, (marble_id - 1) as nat);
            let ghost len = marble_list.nodes.len() as int;
            assert(round_after(nn, marble_id as nat) == round_step(g, id, nn));
            if id % 23 == 0 {
                assert(len >= 23) by {
                    assert(marble_id >= 23);
                    assert((marble_id - 1) / 23 == marble_id / 23 - 1);
                }
                let ghost r = if g.cur >= 7 { g.cur - 7 } else { g.cur + len - 7 };
                proof {
                    if g.cur >= 7 {
                        vstd::arithmetic::div_mod::lemma_fundamental_div_mod_converse(g.cur - 7, len, 0, r);
                    } else {
                        vstd::arithmetic::div_mod::lemma_fundamental_div_mod_converse(g.cur - 7, len, -1, r);
                    }
                    assert(r == (g.cur - 7) % len);
                    lemma_ring_walk_back(marble_list.nodes@, order, place, g.circle, g.cur, 7);
                }
                let remove_pos = match marble_list.back(7) {
                    Some(p) => p,
                    None => break,
                };
                assert(remove_pos == order[r]);
                assert(remove_pos < marble_list.nodes.len());
                let remove_score = marble_list.get(remove_pos);
                assert(remove_score == g.circle[r]);
                proof {
                    assert(place[order[r] as int] == r);
                    assert(place[order[g.cur] as int] == g.cur);
                    assert(order[r] != len - 1);
                    lemma_ring_remove_safe(marble_list.nodes@, order, place, g.circle, r);
                }
                if marble_list.nodes.len() < 2 || !marble_list.remove_is_safe(remove_pos) {
                    break;
                }
                let gain = match remove_score.checked_add(id) {
                    Some(gn) => gn,
                    None => {
                        proof {
                            lemma_round_stays(nn, marble_id as nat, self.last_marble_ind as nat);
                        }
                        break;
                    },
                };
                let new_score = match score_list[cur_player_ind].checked_add(gain) {
                    Some(v) => v,
                    None => {
                        proof {
                            lemma_round_stays(nn, marble_id as nat, self.last_marble_ind as nat);
                        }
                        break;
                    },
                };
                let ghost n_before = marble_list.nodes@;
                proof {
                    lemma_ring_remove(n_before, order, place, g.circle, r);
                }
                marble_list.remove(remove_pos);
                score_list.set(cur_player_ind, new_score);
                proof {
                    let g2 = round_after(nn, marble_id as nat);
                    assert(g2.circle == g.circle.remove(r));
                    let o2 = order_removed(order, r);
                    let c2 = if r < len - 1 { r } else { 0 };
                    assert(n_before[order[r] as int].next == order[ring_next(r, len)]);
                    assert(o2[c2] == renamed(order[skip_place(c2, r)], len - 1, order[r] as int));
                    assert(score_list@ =~= g2.scores);
                    place = place_removed(place, order, r);
                    order = o2;
                }
            } else {
                let ghost at = ring_next(g.cur, len);
                proof {
                    if g.cur + 1 < len {
                        vstd::arithmetic::div_mod::lemma_fundamental_div_mod_converse(g.cur + 1, len, 0, at);
                    } else {
                        vstd::arithmetic::div_mod::lemma_fundamental_div_mod_converse(g.cur + 1, len, 1, at);
                    }
                    assert(at == (g.cur + 1) % len);
                    assert(walk(marble_list.nodes@, order[g.cur] as int, 0, true) == order[g.cur] as int);
                    assert(walk(marble_list.nodes@, order[g.cur] as int, 1, true) == marble_list.nodes@[order[g.cur] as int].next);
                }
                let insert_pos = match marble_list.next(1) {
                    Some(p) => p,
                    None => break,
                };
                assert(insert_pos == order[at]);
                if marble_list.nodes.len() == usize::MAX {
                    proof {
                        lemma_round_stays(nn, marble_id as nat, self.last_marble_ind as nat);
                    }
                    break;
                }
                let ghost n_before = marble_list.nodes@;
                proof {
                    lemma_ring_insert(n_before, order, place, g.circle, at, id);
                }
                marble_list.insert_after(insert_pos, &id);
                proof {
                    order = order.insert(at + 1, len as usize);
                    place = place_inserted(place, at + 1);
                    assert((marble_id - 1) / 23 == marble_id / 23);
                }
            }
            cur_player_ind = (cur_player_ind + 1) % n;
            marble_id = marble_id + 1;
        }
        let mut best_ind: usize = 0;
        let mut best_score: u32 = score_list[0];
        let mut i: usize = 1;
        while i < n
            invariant
                n == self.player_n,
                score_list.len() == n,
                1 <= i <= n,
                best_ind < i,
                best_score == score_list[best_ind as int],
                forall|j: int| 0 <= j < i ==> score_list[j] <= best_score,
                forall|j: int| best_ind < j < i ==> score_list[j] < best_score,
            decreases n - i,
        {
            if score_list[i] >= best_score {
                best_ind = i;
                best_score = score_list[i];
            }
            i = i + 1;
        }
        (best_ind as u32, best_score)
    }
}

/// The place after place `i` in a circle of `len` places.
pub open spec fn ring_next(i: int, len: int) -> int {
    if i + 1 < len { i + 1 } else { 0 }
}

/// The place before place `i` in a circle of `len` places.
pub open spec fn ring_prev(i: int, len: int) -> int {
    if i > 0 { i - 1 } else { len - 1 }
}

/// The nodes hold the circle `circle` in the order `order` of their vector
/// indices, each linked to the nodes of its neighbours in that order;
/// `place` gives each vector index its place in the circle.
pub open spec fn ring_rep(nodes: Seq<MarbleNode>, order: Seq<usize>, place: Seq<int>, circle: Seq<Marble>) -> bool {
    let len = nodes.len() as int;
    &&& order.len() == len
    &&& place.len() == len
    &&& circle.len() == len
    &&& forall|i: int| 0 <= i < len ==> (#[trigger] order[i]) < len && place[order[i] as int] == i
    &&& forall|v: int| 0 <= v < len ==> 0 <= #[trigger] place[v] < len && order[place[v]] == v
    &&& forall|i: int| 0 <= i < len ==> #[trigger] nodes[order[i] as int] == (MarbleNode {
        value: circle[i],
        next: order[ring_next(i, len)],
        prev: order[ring_prev(i, len)],
    })
}

/// The places of the vector indices after a new index is placed at `at`.
pub open spec fn place_inserted(place: Seq<int>, at: int) -> Seq<int> {
    Seq::new(place.len(), |v: int| if place[v] >= at { place[v] + 1 } else { place[v] }).push(at)
}

/// Walking `k` nodes back from the node at place `c` reaches the node `k`
/// places before it.
proof fn lemma_ring_walk_back(nodes: Seq<MarbleNode>, order: Seq<usize>, place: Seq<int>, circle: Seq<Marble>, c: int, k: nat)
    requires
        ring_rep(nodes, order, place, circle),
        0 <= c < nodes.len(),
        k <= nodes.len(),
    ensures
        walk(nodes, order[c] as int, k, false) == order[if c >= k { c - k } else { c + nodes.len() - k }] as int,
    decreases k,
{
    if k > 0 {
        lemma_ring_walk_back(nodes, order, place, circle, c, (k - 1) as nat);
        let i = if c >= k - 1 { c - (k - 1) } else { c + nodes.len() - (k - 1) };
        assert(nodes[order[i] as int].prev == order[ring_prev(i, nodes.len() as int)]);
    }
}

/// Inserting a node after the node at place `c` puts it at place `c + 1`.
proof fn lemma_ring_insert(nodes: Seq<MarbleNode>, order: Seq<usize>, place: Seq<int>, circle: Seq<Marble>, c: int, value: Marble)
    requires
        ring_rep(nodes, order, place, circle),
        0 <= c < nodes.len(),
        nodes.len() < usize::MAX,
    ensures
        ring_rep(
            inserted(nodes, order[c] as int, value),
            order.insert(c + 1, nodes.len() as usize),
            place_inserted(place, c + 1),
            circle.insert(c + 1, value),
        ),
{
    let len = nodes.len() as int;
    let m = inserted(nodes, order[c] as int, value);
    let o2 = order.insert(c + 1, nodes.len() as usize);
    let p2 = place_inserted(place, c + 1);
    let c2 = circle.insert(c + 1, value);
    let pos = order[c] as int;
    let anchor = nodes[pos].next as int;
    assert(nodes[order[c] as int] == (MarbleNode { value: circle[c], next: order[ring_next(c, len)], prev: order[ring_prev(c, len)] }));
    assert(anchor == order[ring_next(c, len)]);
    assert forall|i: int| 0 <= i < len + 1 implies (#[trigger] o2[i]) < len + 1 && p2[o2[i] as int] == i by {
        if i < c + 1 {
            assert(o2[i] == order[i]);
        } else if i > c + 1 {
            assert(o2[i] == order[i - 1]);
        }
    }
    assert forall|v: int| 0 <= v < len + 1 implies 0 <= #[trigger] p2[v] < len + 1 && o2[p2[v]] == v by {
        if v < len {
            assert(order[place[v]] == v);
        }
    }
    assert forall|i: int| 0 <= i < len + 1 implies #[trigger] m[o2[i] as int] == (MarbleNode {
        value: c2[i],
        next: o2[ring_next(i, len + 1)],
        prev: o2[ring_prev(i, len + 1)],
    }) by {
        if i < c + 1 {
            assert(o2[i] == order[i]);
            assert(nodes[order[i] as int] == (MarbleNode { value: circle[i], next: order[ring_next(i, len)], prev: order[ring_prev(i, len)] }));
            if i > 0 {
                assert(o2[i - 1] == order[i - 1]);
            } else if c + 1 < len {
                assert(o2[len] == order[len - 1]);
            }
            if i < c {
                assert(o2[i + 1] == order[i + 1]);
                assert(order[i] != order[c]);
                assert(place[order[i] as int] == i);
            }
            if i == ring_next(c, len) {
                assert(c == len - 1 && i == 0);
            } else {
                assert(order[i] != order[ring_next(c, len)]) by {
                    assert(place[order[i] as int] == i);
                    assert(place[order[ring_next(c, len)] as int] == ring_next(c, len));
                }
            }
        } else if i == c + 1 {
            if c + 1 < len {
                assert(o2[c + 2] == order[c + 1]);
            } else {
                assert(o2[0] == order[0]);
            }
        } else {
            assert(o2[i] == order[i - 1]);
            assert(o2[i - 1] == order[i - 2] || i - 1 == c + 1);
            assert(nodes[order[i - 1] as int] == (MarbleNode { value: circle[i - 1], next: order[ring_next(i - 1, len)], prev: order[ring_prev(i - 1, len)] }));
            assert(order[i - 1] != order[c]) by {
                assert(place[order[i - 1] as int] == i - 1);
            }
            if i < len {
                assert(o2[i + 1] == order[i]);
            } else {
                assert(o2[0] == order[0]);
            }
            if i - 1 == ring_next(c, len) {
            } else {
                assert(order[i - 1] != order[ring_next(c, len)]) by {
                    assert(place[order[i - 1] as int] == i - 1);
                    assert(place[order[ring_next(c, len)] as int] == ring_next(c, len));
                }
            }
        }
    }
}


/// `v`, or `pos` where `v` is `end`: the index of a node after the node at
/// the end of the vector moved to `pos`.
pub open spec fn renamed(v: usize, end: int, pos: int) -> usize {
    if v == end { pos as usize } else { v }
}

/// The place `j` of a circle with place `r` left out, in the circle before.
pub open spec fn skip_place(j: int, r: int) -> int {
    if j < r { j } else { j + 1 }
}

/// The order of the nodes after the node at place `r` is removed.
pub open spec fn order_removed(order: Seq<usize>, r: int) -> Seq<usize> {
    let end = order.len() - 1;
    Seq::new(end as nat, |j: int| renamed(order[skip_place(j, r)], end, order[r] as int))
}

/// The places of the vector indices after the node at place `r` is removed.
pub open spec fn place_removed(place: Seq<int>, order: Seq<usize>, r: int) -> Seq<int> {
    let end = place.len() - 1;
    Seq::new(end as nat, |v: int| {
        let p = if v == order[r] { place[end] } else { place[v] };
        if p > r { p - 1 } else { p }
    })
}

/// Each node after a removal is the node it was, or the moved end node,
/// with its links through the removed node bridged and those to the end
/// node renamed.
proof fn lemma_removed_nodes(n: Seq<MarbleNode>, pos: int)
    requires
        links_seq(n),
        0 <= pos < n.len() - 1,
        n[pos].next != pos,
        n[pos].prev != pos,
        unlinked(n, pos)[n.len() - 1].next != n.len() - 1,
        unlinked(n, pos)[n.len() - 1].prev != n.len() - 1,
    ensures
        removed(n, pos).len() == n.len() - 1,
        forall|x: int| 0 <= x < n.len() - 1 ==> {
            let end = n.len() - 1;
            let y = if x == pos { end } else { x };
            let n2 = unlinked(n, pos);
            #[trigger] removed(n, pos)[x] == (MarbleNode {
                value: n[y].value,
                next: renamed(n2[y].next, end, pos),
                prev: renamed(n2[y].prev, end, pos),
            })
        },
{
    lemma_unlinked_links(n, pos);
    let end = n.len() - 1;
    let n2 = unlinked(n, pos);
    assert(node_ok_except(n2, end, pos));
    let enp = n2[end].next as int;
    let epp = n2[end].prev as int;
    assert(node_ok_except(n2, enp, pos));
    assert(node_ok_except(n2, epp, pos));
    assert forall|x: int| 0 <= x < n.len() - 1 implies {
        let y = if x == pos { end } else { x };
        #[trigger] removed(n, pos)[x] == (MarbleNode {
            value: n[y].value,
            next: renamed(n2[y].next, end, pos),
            prev: renamed(n2[y].prev, end, pos),
        })
    } by {
        let y = if x == pos { end } else { x };
        let n4 = n2.update(pos, n2[end]).drop_last();
        assert(n4[x] == n2[y]);
        let r1 = set_next(n4, epp, pos as usize);
        let r2 = set_prev(r1, enp, pos as usize);
        assert(removed(n, pos) == r2);
        assert(epp != pos && enp != pos);
        assert(n2[epp].next == end);
        assert(n2[enp].prev == end);
        if x != pos {
            assert(node_ok_except(n2, x, pos));
            if n2[x].next == end {
                assert(x == epp);
            }
            if n2[x].prev == end {
                assert(x == enp);
            }
        }
        assert(r1[x] == if x == epp { MarbleNode { next: pos as usize, ..n4[x] } } else { n4[x] });
        assert(r2[x] == if x == enp { MarbleNode { prev: pos as usize, ..r1[x] } } else { r1[x] });
        assert(node_ok(n, pos));
        let u1 = set_next(n, n[pos].prev as int, n[pos].next);
        assert(u1[y].value == n[y].value);
        assert(n2 == set_prev(u1, n[pos].next as int, n[pos].prev));
        assert(n2[y].value == n[y].value);
        assert(x == epp <==> n2[y].next == end);
        assert(x == enp <==> n2[y].prev == end);
    }
}

/// A node at place `r` of a circle of at least three, not at the end of
/// the vector, can be removed.
proof fn lemma_ring_remove_safe(n: Seq<MarbleNode>, order: Seq<usize>, place: Seq<int>, circle: Seq<Marble>, r: int)
    requires
        ring_rep(n, order, place, circle),
        links_seq(n),
        n.len() >= 3,
        0 <= r < n.len(),
        order[r] != n.len() - 1,
    ensures
        n[order[r] as int].next != order[r],
        n[order[r] as int].prev != order[r],
        unlinked(n, order[r] as int)[n.len() - 1].next != n.len() - 1,
        unlinked(n, order[r] as int)[n.len() - 1].prev != n.len() - 1,
{
    let len = n.len() as int;
    let end = len - 1;
    let pos = order[r] as int;
    assert(n[order[r] as int] == (MarbleNode { value: circle[r], next: order[ring_next(r, len)], prev: order[ring_prev(r, len)] }));
    assert(place[order[ring_next(r, len)] as int] == ring_next(r, len));
    assert(place[order[ring_prev(r, len)] as int] == ring_prev(r, len));
    let e = place[end];
    assert(order[e] == end);
    assert(n[order[e] as int] == (MarbleNode { value: circle[e], next: order[ring_next(e, len)], prev: order[ring_prev(e, len)] }));
    assert(place[order[ring_next(e, len)] as int] == ring_next(e, len));
    assert(place[order[ring_prev(e, len)] as int] == ring_prev(e, len));
}

/// Removing the node at place `r`, not at the end of the vector, leaves the
/// circle without it, the node from the end of the vector in the freed
/// index.
#[verifier::rlimit(60)]
proof fn lemma_ring_remove(n: Seq<MarbleNode>, order: Seq<usize>, place: Seq<int>, circle: Seq<Marble>, r: int)
    requires
        ring_rep(n, order, place, circle),
        links_seq(n),
        n.len() >= 3,
        0 <= r < n.len(),
        order[r] != n.len() - 1,
    ensures
        ring_rep(removed(n, order[r] as int), order_removed(order, r), place_removed(place, order, r), circle.remove(r)),
{
    let len = n.len() as int;
    let end = len - 1;
    let pos = order[r] as int;
    lemma_ring_remove_safe(n, order, place, circle, r);
    lemma_removed_nodes(n, pos);
    let m = removed(n, pos);
    let o2 = order_removed(order, r);
    let p2 = place_removed(place, order, r);
    let c2 = circle.remove(r);
    let n2 = unlinked(n, pos);
    let pp = n[pos].prev as int;
    let np = n[pos].next as int;
    assert(n[order[r] as int] == (MarbleNode { value: circle[r], next: order[ring_next(r, len)], prev: order[ring_prev(r, len)] }));
    assert(place[pos] == r);
    assert(order[place[end]] == end);
    assert forall|j: int| 0 <= j < len - 1 implies #[trigger] c2[j] == circle[skip_place(j, r)] by {}
    assert forall|i: int| 0 <= i < len - 1 implies (#[trigger] o2[i]) < len - 1 && p2[o2[i] as int] == i by {
        let k = skip_place(i, r);
        assert(place[order[k] as int] == k);
        if order[k] == end {
        } else {
            assert(order[k] != pos);
        }
    }
    assert forall|v: int| 0 <= v < len - 1 implies 0 <= #[trigger] p2[v] < len - 1 && o2[p2[v]] == v by {
        if v == pos {
            assert(place[end] != r);
        } else {
            assert(order[place[v]] == v);
            assert(place[v] != r);
        }
    }
    assert forall|i: int| 0 <= i < len - 1 implies #[trigger] m[o2[i] as int] == (MarbleNode {
        value: c2[i],
        next: o2[ring_next(i, len - 1)],
        prev: o2[ring_prev(i, len - 1)],
    }) by {
        let k = skip_place(i, r);
        let y = order[k] as int;
        let x = o2[i] as int;
        assert(place[y] == k);
        assert(y != pos);
        assert(x == if y == end { pos } else { y });
        assert(n[order[k] as int] == (MarbleNode { value: circle[k], next: order[ring_next(k, len)], prev: order[ring_prev(k, len)] }));
        assert(m[x] == (MarbleNode {
            value: n[y].value,
            next: renamed(n2[y].next, end, pos),
            prev: renamed(n2[y].prev, end, pos),
        }));
        assert(pp == order[ring_prev(r, len)]);
        assert(np == order[ring_next(r, len)]);
        assert(place[pp] == ring_prev(r, len));
        assert(place[np] == ring_next(r, len));
        let inx = ring_next(i, len - 1);
        let ipr = ring_prev(i, len - 1);
        assert(o2[inx] == renamed(order[skip_place(inx, r)], end, pos));
        assert(o2[ipr] == renamed(order[skip_place(ipr, r)], end, pos));
        if y == pp {
            assert(k == ring_prev(r, len));
        } else {
            assert(k != ring_prev(r, len));
        }
        if y == np {
            assert(k == ring_next(r, len));
        } else {
            assert(k != ring_next(r, len));
        }
    }
}

} // verus!
