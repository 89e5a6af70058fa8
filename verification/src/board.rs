//! The grid model: cell coordinates, row/column/box groups, the board value
//! store, duplicate checks, and the backtracking search.

use vstd::prelude::*;
use vstd::string::StringExecFns;

verus! {

/// A cell coordinate: 1-indexed column `x` and row `y`, each in `1..=9`.
#[derive(Clone, Copy, PartialEq, Eq, Structural, Debug)]
pub struct Position {
    pub x: u8,
    pub y: u8,
}

impl Position {
    /// The coordinate lies on the 9 x 9 grid.
    pub open spec fn wf(self) -> bool {
        1 <= self.x <= 9 && 1 <= self.y <= 9
    }

    /// Rank of the coordinate in canonical row-major order, in `0..81`.
    pub open spec fn idx(self) -> int {
        (self.y - 1) * 9 + (self.x - 1)
    }

    /// Index in `0..9` of the 3 x 3 box holding the coordinate.
    pub open spec fn box_of(self) -> int {
        (self.x - 1) / 3 + ((self.y - 1) / 3) * 3
    }

    /// Successor of the coordinate in canonical row-major order.
    pub open spec fn spec_next(self) -> Option<Position> {
        if self.x == 9 && self.y == 9 {
            None
        } else if self.x == 9 {
            Some(Position { x: 1, y: (self.y + 1) as u8 })
        } else {
            Some(Position { x: (self.x + 1) as u8, y: self.y })
        }
    }
}

/// The grid coordinate of rank `k` in canonical row-major order.
pub open spec fn pos_of(k: int) -> Position {
    Position { x: (k % 9 + 1) as u8, y: (k / 9 + 1) as u8 }
}

/// Canonical rank determines the coordinate: two on-grid coordinates of the
/// same rank are the same cell.
pub proof fn lemma_idx_injective(p: Position, q: Position)
    requires
        p.wf(),
        q.wf(),
        p.idx() == q.idx(),
    ensures
        p == q,
{
}

/// Every rank in `0..81` is taken by exactly one on-grid coordinate.
pub proof fn lemma_pos_of_idx(k: int)
    requires
        0 <= k < 81,
    ensures
        pos_of(k).wf(),
        pos_of(k).idx() == k,
{
}

/// The 9 coordinates of row group `g` (rows are numbered `0..9` here), in
/// column order.
pub open spec fn row_seq(g: int) -> Seq<Position> {
    Seq::new(9, |i: int| Position { x: (i + 1) as u8, y: (g + 1) as u8 })
}

/// The 9 coordinates of column group `g`, in row order.
pub open spec fn col_seq(g: int) -> Seq<Position> {
    Seq::new(9, |i: int| Position { x: (g + 1) as u8, y: (i + 1) as u8 })
}

/// The 9 coordinates of box group `g`, in row-major order within the box.
pub open spec fn box_seq(g: int) -> Seq<Position> {
    Seq::new(
        9,
        |i: int|
            Position {
                x: ((g % 3) * 3 + i % 3 + 1) as u8,
                y: ((g / 3) * 3 + i / 3 + 1) as u8,
            },
    )
}

fn row_positions(g: usize) -> (r: Vec<Position>)
    requires
        g < 9,
    ensures
        r@ == row_seq(g as int),
{
    let mut r: Vec<Position> = Vec::new();
    let mut i: usize = 0;
    while i < 9
        invariant
            g < 9,
            i <= 9,
            r@.len() == i,
            forall|j: int| 0 <= j < i ==> r@[j] == row_seq(g as int)[j],
        decreases 9 - i,
    {
        r.push(Position { x: (i + 1) as u8, y: (g + 1) as u8 });
        i = i + 1;
    }
    proof {
        assert(r@ =~= row_seq(g as int));
    }
    r
}

fn col_positions(g: usize) -> (r: Vec<Position>)
    requires
        g < 9,
    ensures
        r@ == col_seq(g as int),
{
    let mut r: Vec<Position> = Vec::new();
    let mut i: usize = 0;
    while i < 9
        invariant
            g < 9,
            i <= 9,
            r@.len() == i,
            forall|j: int| 0 <= j < i ==> r@[j] == col_seq(g as int)[j],
        decreases 9 - i,
    {
        r.push(Position { x: (g + 1) as u8, y: (i + 1) as u8 });
        i = i + 1;
    }
    proof {
        assert(r@ =~= col_seq(g as int));
    }
    r
}

fn box_positions(g: usize) -> (r: Vec<Position>)
    requires
        g < 9,
    ensures
        r@ == box_seq(g as int),
{
    let mut r: Vec<Position> = Vec::new();
    let mut i: usize = 0;
    while i < 9
        invariant
            g < 9,
            i <= 9,
            r@.len() == i,
            forall|j: int| 0 <= j < i ==> r@[j] == box_seq(g as int)[j],
        decreases 9 - i,
    {
        r.push(
            Position {
                x: ((g % 3) * 3 + i % 3 + 1) as u8,
                y: ((g / 3) * 3 + i / 3 + 1) as u8,
            },
        );
        i = i + 1;
    }
    proof {
        assert(r@ =~= box_seq(g as int));
    }
    r
}

impl Position {
    /// The 81 coordinates in canonical row-major order: row 1 columns 1..9,
    /// then row 2, and so on.
    pub fn all() -> (r: Vec<Position>)
        ensures
            r@.len() == 81,
            forall|i: int| 0 <= i < 81 ==> (#[trigger] r@[i]).wf() && r@[i].idx() == i,
            forall|p: Position| p.wf() ==> r@[#[trigger] p.idx()] == p,
    {
        let mut r: Vec<Position> = Vec::new();
        let mut y: u8 = 1;
        while y <= 9
            invariant
                1 <= y <= 10,
                r@.len() == (y - 1) * 9,
                forall|i: int| 0 <= i < r@.len() ==> (#[trigger] r@[i]).wf() && r@[i].idx() == i,
            decreases 10 - y,
        {
            let mut x: u8 = 1;
            while x <= 9
                invariant
                    1 <= y <= 9,
                    1 <= x <= 10,
                    r@.len() == (y - 1) * 9 + (x - 1),
                    forall|i: int| 0 <= i < r@.len() ==> (#[trigger] r@[i]).wf() && r@[i].idx() == i,
                decreases 10 - x,
            {
                r.push(Position { x, y });
                x = x + 1;
            }
            y = y + 1;
        }
        proof {
            assert forall|p: Position| p.wf() implies r@[p.idx()] == p by {
                lemma_idx_injective(p, r@[p.idx()]);
            }
        }
        r
    }

    /// The 9 row groups, each the 9 coordinates of one row in column order.
    pub fn rows() -> (r: Vec<Vec<Position>>)
        ensures
            r@.len() == 9,
            forall|g: int| 0 <= g < 9 ==> (#[trigger] r@[g])@ == row_seq(g),
    {
        let mut r: Vec<Vec<Position>> = Vec::new();
        let mut g: usize = 0;
        while g < 9
            invariant
                g <= 9,
                r@.len() == g,
                forall|h: int| 0 <= h < g ==> (#[trigger] r@[h])@ == row_seq(h),
            decreases 9 - g,
        {
            r.push(row_positions(g));
            g = g + 1;
        }
        r
    }

    /// The 9 column groups, each the 9 coordinates of one column in row order.
    pub fn cols() -> (r: Vec<Vec<Position>>)
        ensures
            r@.len() == 9,
            forall|g: int| 0 <= g < 9 ==> (#[trigger] r@[g])@ == col_seq(g),
    {
        let mut r: Vec<Vec<Position>> = Vec::new();
        let mut g: usize = 0;
        while g < 9
            invariant
                g <= 9,
                r@.len() == g,
                forall|h: int| 0 <= h < g ==> (#[trigger] r@[h])@ == col_seq(h),
            decreases 9 - g,
        {
            r.push(col_positions(g));
            g = g + 1;
        }
        r
    }

    /// The 9 box groups, each the 9 coordinates of one 3 x 3 box in canonical
    /// row-major order within the box.
    pub fn boxs() -> (r: Vec<Vec<Position>>)
        ensures
            r@.len() == 9,
            forall|g: int| 0 <= g < 9 ==> (#[trigger] r@[g])@ == box_seq(g),
    {
        let mut r: Vec<Vec<Position>> = Vec::new();
        let mut g: usize = 0;
        while g < 9
            invariant
                g <= 9,
                r@.len() == g,
                forall|h: int| 0 <= h < g ==> (#[trigger] r@[h])@ == box_seq(h),
            decreases 9 - g,
        {
            r.push(box_positions(g));
            g = g + 1;
        }
        r
    }

    /// The successor coordinate in canonical order, or `None` when `self` is
    /// the last cell (column 9, row 9).
    pub fn next(&self) -> (r: Option<Position>)
        requires
            self.wf(),
        ensures
            r == self.spec_next(),
            r is None <==> self.idx() == 80,
            r matches Some(p) ==> p.wf() && p.idx() == self.idx() + 1,
    {
        if self.x == 9 && self.y == 9 {
            None
        } else if self.x == 9 {
            Some(Position { x: 1, y: self.y + 1 })
        } else {
            Some(Position { x: self.x + 1, y: self.y })
        }
    }
}

#[verifier::external_type_specification]
#[verifier::external_body]
#[verifier::reject_recursive_types(K)]
#[verifier::reject_recursive_types(V)]
#[verifier::reject_recursive_types(S)]
pub struct ExImHashMap<K, V, S>(im::HashMap<K, V, S>);

/// The bindings that an `im::HashMap` holds, as a mathematical map.
pub uninterp spec fn hm_contents(m: im::HashMap<u64, u8>) -> Map<u64, u8>;

/// Relies on `im::HashMap::new`: the new map is empty.
#[verifier::external_body]
fn hm_new() -> (r: im::HashMap<u64, u8>)
    ensures
        forall|k: u64| !hm_contents(r).dom().contains(k),
{
    im::HashMap::new()
}

/// Relies on `im::HashMap::get`: returns the value bound to the key, if any.
#[verifier::external_body]
fn hm_get(m: &im::HashMap<u64, u8>, k: u64) -> (r: Option<u8>)
    ensures
        r == (if hm_contents(*m).dom().contains(k) {
            Some(hm_contents(*m)[k])
        } else {
            None::<u8>
        }),
{
    m.get(&k).copied()
}

/// Relies on `im::HashMap::update`: returns a new map holding the old
/// bindings plus the given one, leaving the original untouched.
#[verifier::external_body]
fn hm_update(m: &im::HashMap<u64, u8>, k: u64, v: u8) -> (r: im::HashMap<u64, u8>)
    ensures
        hm_contents(r) == hm_contents(*m).insert(k, v),
{
    m.update(k, v)
}

/// Relies on `im::HashMap`'s `Clone`: the clone holds the same bindings.
#[verifier::external_body]
fn hm_clone(m: &im::HashMap<u64, u8>) -> (r: im::HashMap<u64, u8>)
    ensures
        hm_contents(r) == hm_contents(*m),
{
    m.clone()
}

#[verifier::external_type_specification]
#[verifier::external_body]
#[verifier::reject_recursive_types(A)]
pub struct ExImOrdSet<A>(im::OrdSet<A>);

/// The elements that an `im::OrdSet` holds, as a mathematical set.
pub uninterp spec fn os_contents(s: im::OrdSet<u8>) -> Set<u8>;

/// Relies on `im::OrdSet::new`: the new set is empty.
#[verifier::external_body]
fn os_new() -> (r: im::OrdSet<u8>)
    ensures
        forall|v: u8| !os_contents(r).contains(v),
{
    im::OrdSet::new()
}

/// Relies on `im::OrdSet::update`: returns a new set also holding the given
/// element, leaving the original untouched.
#[verifier::external_body]
fn os_update(s: &im::OrdSet<u8>, v: u8) -> (r: im::OrdSet<u8>)
    ensures
        os_contents(r) == os_contents(*s).insert(v),
{
    s.update(v)
}

/// Relies on `im::OrdSet::without`: returns a new set with the given element
/// removed, leaving the original untouched.
#[verifier::external_body]
fn os_without(s: &im::OrdSet<u8>, v: u8) -> (r: im::OrdSet<u8>)
    ensures
        os_contents(r) == os_contents(*s).remove(v),
{
    s.without(&v)
}

/// Relies on `im::OrdSet::iter`: an ordered set's iterator yields each of its
/// elements exactly once, in ascending order.
#[verifier::external_body]
fn os_elems(s: &im::OrdSet<u8>) -> (r: Vec<u8>)
    ensures
        forall|j: int| 0 <= j < r@.len() ==> os_contents(*s).contains(#[trigger] r@[j]),
        forall|v: u8|
            os_contents(*s).contains(v) ==> exists|j: int| 0 <= j < r@.len() && r@[j] == v,
        forall|i: int, j: int| 0 <= i < j < r@.len() ==> r@[i] < r@[j],
{
    s.iter().copied().collect()
}

/// A board: a persistent mapping from cell rank (canonical row-major order,
/// `0..81`) to an assigned digit in `1..=9`; unassigned cells are absent.
pub struct Board {
    inner: im::HashMap<u64, u8>,
}

impl View for Board {
    type V = Map<u64, u8>;

    closed spec fn view(&self) -> Map<u64, u8> {
        hm_contents(self.inner)
    }
}

/// The value assigned to coordinate `p` under the board bindings `m`.
pub open spec fn b_at(m: Map<u64, u8>, p: Position) -> Option<u8> {
    if m.dom().contains(p.idx() as u64) {
        Some(m[p.idx() as u64])
    } else {
        None
    }
}

/// Well-formed board bindings: every key is a cell rank and every value a
/// digit in `1..=9`.
pub open spec fn map_wf(m: Map<u64, u8>) -> bool {
    forall|k: u64| #[trigger] m.dom().contains(k) ==> k < 81 && 1 <= m[k] <= 9
}

/// Two distinct cells are constrained against each other: they share a row, a
/// column, or a box.
pub open spec fn same_group(p: Position, q: Position) -> bool {
    p.y == q.y || p.x == q.x || p.box_of() == q.box_of()
}

/// Global validity: no digit appears twice within any row, column or box.
pub open spec fn valid(m: Map<u64, u8>) -> bool {
    forall|p: Position, q: Position|
        #![trigger b_at(m, p), b_at(m, q)]
        p.wf() && q.wf() && p != q && same_group(p, q) && b_at(m, p) is Some ==> b_at(m, p)
            != b_at(m, q)
}

/// Both `p` and `q` lie in one of the three groups through `pos`: its row, its
/// column, or its box.
pub open spec fn in_pos_groups(pos: Position, p: Position, q: Position) -> bool {
    (p.y == pos.y && q.y == pos.y) || (p.x == pos.x && q.x == pos.x) || (p.box_of() == pos.box_of()
        && q.box_of() == pos.box_of())
}

/// Local validity at `pos`: no digit appears twice within the row, the column,
/// or the box containing `pos`.
pub open spec fn local_ok(m: Map<u64, u8>, pos: Position) -> bool {
    forall|p: Position, q: Position|
        #![trigger b_at(m, p), b_at(m, q)]
        p.wf() && q.wf() && p != q && in_pos_groups(pos, p, q) && b_at(m, p) is Some ==> b_at(m, p)
            != b_at(m, q)
}

/// Every cell has an assigned value.
pub open spec fn all_assigned(m: Map<u64, u8>) -> bool {
    forall|p: Position| p.wf() ==> m.dom().contains(#[trigger] p.idx() as u64)
}

/// `s` agrees with `m` on every cell that `m` assigns.
pub open spec fn extends(s: Map<u64, u8>, m: Map<u64, u8>) -> bool {
    forall|k: u64| #[trigger] m.dom().contains(k) ==> s.dom().contains(k) && s[k] == m[k]
}

/// A complete board: exactly the 81 cell ranks are bound, all to digits.
pub open spec fn complete(s: Map<u64, u8>) -> bool {
    (forall|k: u64| #[trigger] s.dom().contains(k) <==> k < 81) && (forall|k: u64|
        #[trigger] s.dom().contains(k) ==> 1 <= s[k] <= 9)
}

/// Some complete, globally valid board agrees with `m` on all of `m`'s
/// assigned cells.
pub open spec fn has_solution(m: Map<u64, u8>) -> bool {
    exists|s: Map<u64, u8>| complete(s) && valid(s) && #[trigger] extends(s, m)
}

/// Some cell of `g` is assigned the value `v` under the bindings `m`.
pub open spec fn appears(m: Map<u64, u8>, g: Seq<Position>, v: u8) -> bool {
    exists|i: int| 0 <= i < g.len() && #[trigger] b_at(m, g[i]) == Some(v)
}

/// How many assigned cells of `g` repeat a value assigned at an earlier cell
/// of `g`: 0 exactly when the assigned values of `g` are pairwise distinct.
pub open spec fn dup_count(m: Map<u64, u8>, g: Seq<Position>) -> nat
    decreases g.len(),
{
    if g.len() == 0 {
        0
    } else {
        dup_count(m, g.drop_last()) + match b_at(m, g.last()) {
            Some(v) => if appears(m, g.drop_last(), v) {
                1nat
            } else {
                0nat
            },
            None => 0nat,
        }
    }
}

/// No two distinct cells of `g` are assigned the same value.
pub open spec fn group_no_dup(m: Map<u64, u8>, g: Seq<Position>) -> bool {
    forall|i: int, j: int|
        #![trigger b_at(m, g[i]), b_at(m, g[j])]
        0 <= i < g.len() && 0 <= j < g.len() && i != j && b_at(m, g[i]) is Some ==> b_at(m, g[i])
            != b_at(m, g[j])
}

/// The duplicate count of a group is zero exactly when its assigned values
/// are pairwise distinct.
pub proof fn lemma_dup_count_zero(m: Map<u64, u8>, g: Seq<Position>)
    ensures
        dup_count(m, g) == 0 <==> group_no_dup(m, g),
    decreases g.len(),
{
    if g.len() == 0 {
    } else {
        let d = g.drop_last();
        lemma_dup_count_zero(m, d);
        if dup_count(m, g) == 0 {
            assert forall|i: int, j: int|
                0 <= i < g.len() && 0 <= j < g.len() && i != j && #[trigger] b_at(m, g[i]) is Some
                    implies b_at(m, g[i]) != #[trigger] b_at(m, g[j]) by {
                if i < g.len() - 1 && j < g.len() - 1 {
                    assert(g[i] == d[i] && g[j] == d[j]);
                } else if i == g.len() - 1 {
                    let v = b_at(m, g[i])->0;
                    assert(!appears(m, d, v));
                    assert(g[j] == d[j]);
                    assert(b_at(m, d[j]) != Some(v));
                } else {
                    let v = b_at(m, g[i])->0;
                    if b_at(m, g.last()) == Some(v) {
                        assert(b_at(m, d[i]) == Some(v));
                        assert(appears(m, d, v));
                    }
                }
            }
        }
        if group_no_dup(m, g) {
            assert forall|i: int, j: int|
                0 <= i < d.len() && 0 <= j < d.len() && i != j && #[trigger] b_at(m, d[i]) is Some
                    implies b_at(m, d[i]) != #[trigger] b_at(m, d[j]) by {
                assert(d[i] == g[i] && d[j] == g[j]);
            }
            assert(dup_count(m, d) == 0);
            if b_at(m, g.last()) is Some {
                let v = b_at(m, g.last())->0;
                if appears(m, d, v) {
                    let wi = choose|wi: int| 0 <= wi < d.len() && #[trigger] b_at(m, d[wi])
                        == Some(v);
                    assert(g[wi] == d[wi]);
                    assert(b_at(m, g[wi]) == Some(v));
                    assert(b_at(m, g[g.len() - 1]) == Some(v));
                    assert(false);
                }
            }
        }
    }
}

impl Board {
    /// How many assigned cells in `line` repeat a value assigned earlier in
    /// the same line (0 when all assigned values in the line are pairwise
    /// distinct; unassigned cells are excluded from comparison).
    pub fn line_dups(&self, line: &Vec<Position>) -> (r: usize)
        requires
            self.wf(),
            forall|i: int| 0 <= i < line@.len() ==> (#[trigger] line@[i]).wf(),
        ensures
            r == dup_count(self@, line@),
    {
        let mut seen: Vec<bool> = Vec::new();
        let mut t: usize = 0;
        while t < 10
            invariant
                seen@.len() == t,
                t <= 10,
                forall|w: int| 0 <= w < t ==> !(#[trigger] seen@[w]),
            decreases 10 - t,
        {
            seen.push(false);
            t = t + 1;
        }
        let mut dups: usize = 0;
        let mut i: usize = 0;
        while i < line.len()
            invariant
                self.wf(),
                forall|j: int| 0 <= j < line@.len() ==> (#[trigger] line@[j]).wf(),
                i <= line@.len(),
                seen@.len() == 10,
                forall|w: u8|
                    1 <= w <= 9 ==> ((#[trigger] seen@[w as int]) <==> appears(
                        self@,
                        line@.take(i as int),
                        w,
                    )),
                dups <= i,
                dups == dup_count(self@, line@.take(i as int)),
            decreases line@.len() - i,
        {
            let ghost pre = line@.take(i as int);
            let ghost post = line@.take(i as int + 1);
            proof {
                assert(post.drop_last() =~= pre);
                assert(post.last() == line@[i as int]);
            }
            let p = line[i];
            match self.at(&p) {
                Some(v) => {
                    assert(b_at(self@, post.last()) == Some(v));
                    assert(1 <= v <= 9);
                    if seen[v as usize] {
                        dups = dups + 1;
                    } else {
                        seen[v as usize] = true;
                    }
                    proof {
                        assert forall|w: u8| 1 <= w <= 9 implies ((#[trigger] seen@[w as int])
                            <==> appears(self@, post, w)) by {
                            if w == v {
                                assert(b_at(self@, post[post.len() - 1]) == Some(v));
                            } else {
                                if appears(self@, post, w) {
                                    let wi = choose|wi: int|
                                        0 <= wi < post.len() && #[trigger] b_at(self@, post[wi])
                                            == Some(w);
                                    assert(wi != post.len() - 1);
                                    assert(b_at(self@, pre[wi]) == Some(w));
                                }
                                if appears(self@, pre, w) {
                                    let wi = choose|wi: int|
                                        0 <= wi < pre.len() && #[trigger] b_at(self@, pre[wi])
                                            == Some(w);
                                    assert(b_at(self@, post[wi]) == Some(w));
                                }
                            }
                        }
                    }
                }
                None => {
                    proof {
                        assert forall|w: u8| 1 <= w <= 9 implies ((#[trigger] seen@[w as int])
                            <==> appears(self@, post, w)) by {
                            if appears(self@, post, w) {
                                let wi = choose|wi: int|
                                    0 <= wi < post.len() && #[trigger] b_at(self@, post[wi])
                                        == Some(w);
                                assert(wi != post.len() - 1);
                                assert(b_at(self@, pre[wi]) == Some(w));
                            }
                            if appears(self@, pre, w) {
                                let wi = choose|wi: int|
                                    0 <= wi < pre.len() && #[trigger] b_at(self@, pre[wi])
                                        == Some(w);
                                assert(b_at(self@, post[wi]) == Some(w));
                            }
                        }
                    }
                }
            }
            i = i + 1;
        }
        proof {
            assert(line@.take(line@.len() as int) =~= line@);
        }
        dups
    }
}

/// The slot in `0..9` that `p` takes within its box group's sequence.
pub open spec fn box_slot(p: Position) -> int {
    ((p.y - 1) % 3) * 3 + ((p.x - 1) % 3)
}

/// Every on-grid coordinate sits in its box group's sequence, at its slot.
pub proof fn lemma_box_member(p: Position)
    requires
        p.wf(),
    ensures
        0 <= p.box_of() < 9,
        0 <= box_slot(p) < 9,
        box_seq(p.box_of())[box_slot(p)] == p,
{
    let xa = (p.x - 1) as int;
    let ya = (p.y - 1) as int;
    assert(0 <= xa < 9 && 0 <= ya < 9);
    assert(xa == 3 * (xa / 3) + xa % 3);
    assert(ya == 3 * (ya / 3) + ya % 3);
    let g = p.box_of();
    let i = box_slot(p);
    assert(g == xa / 3 + (ya / 3) * 3);
    assert(g % 3 == xa / 3 && g / 3 == ya / 3);
    assert(i % 3 == xa % 3 && i / 3 == ya % 3);
    assert(box_seq(g)[i].x == ((g % 3) * 3 + i % 3 + 1) as u8);
}

/// The coordinates of each group sequence are on the grid.
pub proof fn lemma_group_wf(g: int)
    requires
        0 <= g < 9,
    ensures
        forall|i: int| 0 <= i < 9 ==> (#[trigger] row_seq(g)[i]).wf(),
        forall|i: int| 0 <= i < 9 ==> (#[trigger] col_seq(g)[i]).wf(),
        forall|i: int| 0 <= i < 9 ==> (#[trigger] box_seq(g)[i]).wf(),
        forall|i: int| 0 <= i < 9 ==> (#[trigger] box_seq(g)[i]).box_of() == g && box_slot(
            box_seq(g)[i],
        ) == i,
{
    assert forall|i: int| 0 <= i < 9 implies (#[trigger] box_seq(g)[i]).wf() && box_seq(
        g,
    )[i].box_of() == g && box_slot(box_seq(g)[i]) == i by {
        let p = box_seq(g)[i];
        assert(p.x == (g % 3) * 3 + i % 3 + 1);
        assert(p.y == (g / 3) * 3 + i / 3 + 1);
        assert((p.x - 1) / 3 == g % 3 && (p.x - 1) % 3 == i % 3);
        assert((p.y - 1) / 3 == g / 3 && (p.y - 1) % 3 == i / 3);
        assert(g == 3 * (g / 3) + g % 3);
        assert(i == 3 * (i / 3) + i % 3);
    }
}

/// Global validity holds exactly when all 27 group sequences are free of
/// duplicates.
pub proof fn lemma_valid_iff_groups(m: Map<u64, u8>)
    ensures
        valid(m) <==> (forall|g: int|
            0 <= g < 9 ==> group_no_dup(m, #[trigger] row_seq(g)) && group_no_dup(m, col_seq(g))
                && group_no_dup(m, box_seq(g))),
{
    if valid(m) {
        assert forall|g: int| 0 <= g < 9 implies group_no_dup(m, #[trigger] row_seq(g))
            && group_no_dup(m, col_seq(g)) && group_no_dup(m, box_seq(g)) by {
            lemma_group_wf(g);
            assert forall|i: int, j: int|
                0 <= i < 9 && 0 <= j < 9 && i != j && #[trigger] b_at(m, row_seq(g)[i]) is Some
                implies b_at(m, row_seq(g)[i]) != #[trigger] b_at(m, row_seq(g)[j]) by {
                let p = row_seq(g)[i];
                let q = row_seq(g)[j];
                assert(p.wf() && q.wf() && p != q && same_group(p, q));
            }
            assert forall|i: int, j: int|
                0 <= i < 9 && 0 <= j < 9 && i != j && #[trigger] b_at(m, col_seq(g)[i]) is Some
                implies b_at(m, col_seq(g)[i]) != #[trigger] b_at(m, col_seq(g)[j]) by {
                let p = col_seq(g)[i];
                let q = col_seq(g)[j];
                assert(p.wf() && q.wf() && p != q && same_group(p, q));
            }
            assert forall|i: int, j: int|
                0 <= i < 9 && 0 <= j < 9 && i != j && #[trigger] b_at(m, box_seq(g)[i]) is Some
                implies b_at(m, box_seq(g)[i]) != #[trigger] b_at(m, box_seq(g)[j]) by {
                let p = box_seq(g)[i];
                let q = box_seq(g)[j];
                assert(p.wf() && q.wf());
                assert(box_slot(p) == i && box_slot(q) == j);
                assert(p != q && same_group(p, q));
            }
        }
    }
    if forall|g: int|
        0 <= g < 9 ==> group_no_dup(m, #[trigger] row_seq(g)) && group_no_dup(m, col_seq(g))
            && group_no_dup(m, box_seq(g)) {
        assert forall|p: Position, q: Position|
            p.wf() && q.wf() && p != q && same_group(p, q) && #[trigger] b_at(m, p) is Some
            implies b_at(m, p) != #[trigger] b_at(m, q) by {
            if p.y == q.y {
                let g = p.y - 1;
                assert(row_seq(g)[p.x - 1] == p && row_seq(g)[q.x - 1] == q);
                assert(group_no_dup(m, row_seq(g)));
                assert(b_at(m, row_seq(g)[p.x - 1]) != b_at(m, row_seq(g)[q.x - 1]));
            } else if p.x == q.x {
                let g = p.x - 1;
                assert(row_seq(g).len() == 9);
                assert(col_seq(g)[p.y - 1] == p && col_seq(g)[q.y - 1] == q);
                assert(group_no_dup(m, col_seq(g)));
                assert(b_at(m, col_seq(g)[p.y - 1]) != b_at(m, col_seq(g)[q.y - 1]));
            } else {
                let g = p.box_of();
                lemma_box_member(p);
                lemma_box_member(q);
                assert(row_seq(g).len() == 9);
                assert(box_slot(p) != box_slot(q));
                assert(group_no_dup(m, box_seq(g)));
                assert(b_at(m, box_seq(g)[box_slot(p)]) != b_at(m, box_seq(g)[box_slot(q)]));
            }
        }
    }
}

/// Local validity at `pos` holds exactly when the three group sequences
/// through `pos` are free of duplicates.
pub proof fn lemma_local_iff_groups(m: Map<u64, u8>, pos: Position)
    requires
        pos.wf(),
    ensures
        local_ok(m, pos) <==> (group_no_dup(m, row_seq(pos.y - 1)) && group_no_dup(
            m,
            col_seq(pos.x - 1),
        ) && group_no_dup(m, box_seq(pos.box_of()))),
{
    lemma_box_member(pos);
    if local_ok(m, pos) {
        let g = pos.y - 1;
        lemma_group_wf(g);
        assert forall|i: int, j: int|
            0 <= i < 9 && 0 <= j < 9 && i != j && #[trigger] b_at(m, row_seq(g)[i]) is Some
            implies b_at(m, row_seq(g)[i]) != #[trigger] b_at(m, row_seq(g)[j]) by {
            let p = row_seq(g)[i];
            let q = row_seq(g)[j];
            assert(p.wf() && q.wf() && p != q && in_pos_groups(pos, p, q));
        }
        let g = pos.x - 1;
        lemma_group_wf(g);
        assert forall|i: int, j: int|
            0 <= i < 9 && 0 <= j < 9 && i != j && #[trigger] b_at(m, col_seq(g)[i]) is Some
            implies b_at(m, col_seq(g)[i]) != #[trigger] b_at(m, col_seq(g)[j]) by {
            let p = col_seq(g)[i];
            let q = col_seq(g)[j];
            assert(p.wf() && q.wf() && p != q && in_pos_groups(pos, p, q));
        }
        let g = pos.box_of();
        lemma_group_wf(g);
        assert forall|i: int, j: int|
            0 <= i < 9 && 0 <= j < 9 && i != j && #[trigger] b_at(m, box_seq(g)[i]) is Some
            implies b_at(m, box_seq(g)[i]) != #[trigger] b_at(m, box_seq(g)[j]) by {
            let p = box_seq(g)[i];
            let q = box_seq(g)[j];
            assert(box_slot(p) == i && box_slot(q) == j);
            assert(p.wf() && q.wf() && p != q && in_pos_groups(pos, p, q));
        }
    }
    if group_no_dup(m, row_seq(pos.y - 1)) && group_no_dup(m, col_seq(pos.x - 1)) && group_no_dup(
        m,
        box_seq(pos.box_of()),
    ) {
        assert forall|p: Position, q: Position|
            p.wf() && q.wf() && p != q && in_pos_groups(pos, p, q) && #[trigger] b_at(m, p) is Some
            implies b_at(m, p) != #[trigger] b_at(m, q) by {
            if p.y == pos.y && q.y == pos.y {
                let g = pos.y - 1;
                assert(row_seq(g)[p.x - 1] == p && row_seq(g)[q.x - 1] == q);
                assert(b_at(m, row_seq(g)[p.x - 1]) != b_at(m, row_seq(g)[q.x - 1]));
            } else if p.x == pos.x && q.x == pos.x {
                let g = pos.x - 1;
                assert(col_seq(g)[p.y - 1] == p && col_seq(g)[q.y - 1] == q);
                assert(b_at(m, col_seq(g)[p.y - 1]) != b_at(m, col_seq(g)[q.y - 1]));
            } else {
                let g = pos.box_of();
                lemma_box_member(p);
                lemma_box_member(q);
                assert(box_slot(p) != box_slot(q));
                assert(b_at(m, box_seq(g)[box_slot(p)]) != b_at(m, box_seq(g)[box_slot(q)]));
            }
        }
    }
}

/// A globally valid board is locally valid at every cell.
pub proof fn lemma_valid_implies_local(m: Map<u64, u8>, pos: Position)
    requires
        valid(m),
    ensures
        local_ok(m, pos),
{
    assert forall|p: Position, q: Position|
        p.wf() && q.wf() && p != q && in_pos_groups(pos, p, q) && #[trigger] b_at(m, p) is Some
        implies b_at(m, p) != #[trigger] b_at(m, q) by {
        assert(same_group(p, q));
    }
}

/// A board that a valid board extends is itself valid: dropping assignments
/// never creates a duplicate.
pub proof fn lemma_extends_valid(s: Map<u64, u8>, m: Map<u64, u8>)
    requires
        valid(s),
        extends(s, m),
    ensures
        valid(m),
{
    assert forall|p: Position, q: Position|
        p.wf() && q.wf() && p != q && same_group(p, q) && #[trigger] b_at(m, p) is Some
        implies b_at(m, p) != #[trigger] b_at(m, q) by {
        assert(b_at(s, p) == b_at(m, p));
        if b_at(m, q) is Some {
            assert(b_at(s, q) == b_at(m, q));
            assert(b_at(s, p) != b_at(s, q));
        }
    }
}

/// The induction step behind the search: a single-cell assignment that passes
/// the local check at the written cell keeps the whole board valid, because a
/// fresh duplicate could only sit in a group containing that cell.
pub proof fn lemma_local_preserves_valid(m: Map<u64, u8>, pos: Position, v: u8)
    requires
        valid(m),
        pos.wf(),
        local_ok(m.insert(pos.idx() as u64, v), pos),
    ensures
        valid(m.insert(pos.idx() as u64, v)),
{
    let m2 = m.insert(pos.idx() as u64, v);
    assert forall|p: Position, q: Position|
        p.wf() && q.wf() && p != q && same_group(p, q) && #[trigger] b_at(m2, p) is Some
        implies b_at(m2, p) != #[trigger] b_at(m2, q) by {
        if p == pos || q == pos {
            assert(in_pos_groups(pos, p, q));
        } else {
            if p.idx() == pos.idx() {
                lemma_idx_injective(p, pos);
            }
            if q.idx() == pos.idx() {
                lemma_idx_injective(q, pos);
            }
            assert(b_at(m2, p) == b_at(m, p));
            assert(b_at(m2, q) == b_at(m, q));
        }
    }
}

impl Board {
    /// Local validity check: true exactly when the row, the column and the
    /// box containing `pos` are each free of duplicates.
    pub fn validate_at(&self, pos: Position) -> (r: bool)
        requires
            self.wf(),
            pos.wf(),
        ensures
            r == local_ok(self@, pos),
    {
        let col = col_positions((pos.x - 1) as usize);
        let row = row_positions((pos.y - 1) as usize);
        let bx_idx = (pos.x - 1) / 3 + (pos.y - 1) / 3 * 3;
        proof {
            lemma_box_member(pos);
            lemma_group_wf(pos.x - 1);
            lemma_group_wf(pos.y - 1);
            lemma_group_wf(pos.box_of());
        }
        let bx = box_positions(bx_idx as usize);
        let ok = self.line_dups(&col) == 0 && self.line_dups(&row) == 0 && self.line_dups(&bx)
            == 0;
        proof {
            lemma_dup_count_zero(self@, col_seq(pos.x - 1));
            lemma_dup_count_zero(self@, row_seq(pos.y - 1));
            lemma_dup_count_zero(self@, box_seq(pos.box_of()));
            lemma_local_iff_groups(self@, pos);
        }
        ok
    }

    /// Global validity check: true exactly when no digit appears twice within
    /// any row, column or box.
    pub fn validate(&self) -> (r: bool)
        requires
            self.wf(),
        ensures
            r == valid(self@),
    {
        let mut g: usize = 0;
        while g < 9
            invariant
                self.wf(),
                g <= 9,
                forall|h: int| 0 <= h < g ==> group_no_dup(self@, #[trigger] col_seq(h)),
            decreases 9 - g,
        {
            let line = col_positions(g);
            proof {
                lemma_group_wf(g as int);
            }
            let d = self.line_dups(&line);
            proof {
                lemma_dup_count_zero(self@, col_seq(g as int));
            }
            if d != 0 {
                proof {
                    lemma_valid_iff_groups(self@);
                }
                return false;
            }
            g = g + 1;
        }
        let mut g: usize = 0;
        while g < 9
            invariant
                self.wf(),
                g <= 9,
                forall|h: int| 0 <= h < 9 ==> group_no_dup(self@, #[trigger] col_seq(h)),
                forall|h: int| 0 <= h < g ==> group_no_dup(self@, #[trigger] row_seq(h)),
            decreases 9 - g,
        {
            let line = row_positions(g);
            proof {
                lemma_group_wf(g as int);
            }
            let d = self.line_dups(&line);
            proof {
                lemma_dup_count_zero(self@, row_seq(g as int));
            }
            if d != 0 {
                proof {
                    lemma_valid_iff_groups(self@);
                }
                return false;
            }
            g = g + 1;
        }
        let mut g: usize = 0;
        while g < 9
            invariant
                self.wf(),
                g <= 9,
                forall|h: int| 0 <= h < 9 ==> group_no_dup(self@, #[trigger] col_seq(h)),
                forall|h: int| 0 <= h < 9 ==> group_no_dup(self@, #[trigger] row_seq(h)),
                forall|h: int| 0 <= h < g ==> group_no_dup(self@, #[trigger] box_seq(h)),
            decreases 9 - g,
        {
            let line = box_positions(g);
            proof {
                lemma_group_wf(g as int);
            }
            let d = self.line_dups(&line);
            proof {
                lemma_dup_count_zero(self@, box_seq(g as int));
            }
            if d != 0 {
                proof {
                    lemma_valid_iff_groups(self@);
                }
                return false;
            }
            g = g + 1;
        }
        proof {
            lemma_valid_iff_groups(self@);
        }
        true
    }
}

impl Position {
    /// The cell rank as a key into the board store.
    fn index(self) -> (k: u64)
        requires
            self.wf(),
        ensures
            k == self.idx() as u64,
    {
        (self.y as u64 - 1) * 9 + (self.x as u64 - 1)
    }
}

impl Board {
    /// Well-formed board: see [`map_wf`].
    pub open spec fn wf(self) -> bool {
        map_wf(self@)
    }

    /// The value assigned at `p`, if any.
    pub open spec fn spec_at(self, p: Position) -> Option<u8> {
        b_at(self@, p)
    }

    /// The assigned value at `pos`, or `None` if the cell is unassigned.
    pub fn at(&self, pos: &Position) -> (r: Option<u8>)
        requires
            pos.wf(),
        ensures
            r == self.spec_at(*pos),
    {
        hm_get(&self.inner, pos.index())
    }
}

/// The board bindings built by storing, in order, each supplied pair that
/// carries a value; later pairs override earlier ones.
pub open spec fn new_map(input: Seq<(Position, Option<u8>)>) -> Map<u64, u8>
    decreases input.len(),
{
    if input.len() == 0 {
        Map::empty()
    } else {
        let m = new_map(input.drop_last());
        match input.last().1 {
            Some(v) => m.insert(input.last().0.idx() as u64, v),
            None => m,
        }
    }
}

/// A coordinate supplied by none of the pairs is unassigned in the built
/// board.
pub proof fn lemma_new_map_absent(input: Seq<(Position, Option<u8>)>, p: Position)
    requires
        forall|i: int| 0 <= i < input.len() ==> (#[trigger] input[i]).0.wf(),
        forall|i: int| 0 <= i < input.len() ==> (#[trigger] input[i]).0 != p,
        p.wf(),
    ensures
        b_at(new_map(input), p) is None,
    decreases input.len(),
{
    if input.len() > 0 {
        let d = input.drop_last();
        assert(forall|i: int| 0 <= i < d.len() ==> (#[trigger] d[i]) == input[i]);
        lemma_new_map_absent(d, p);
        let last = input[input.len() - 1];
        if last.0.idx() == p.idx() {
            lemma_idx_injective(last.0, p);
        }
    }
}

/// When the supplied coordinates are pairwise distinct, the built board
/// assigns each supplied coordinate exactly the value supplied with it.
pub proof fn lemma_new_map_distinct(input: Seq<(Position, Option<u8>)>)
    requires
        forall|i: int| 0 <= i < input.len() ==> (#[trigger] input[i]).0.wf(),
        forall|i: int, j: int|
            0 <= i < j < input.len() ==> (#[trigger] input[i]).0 != (#[trigger] input[j]).0,
    ensures
        forall|i: int|
            0 <= i < input.len() ==> b_at(new_map(input), (#[trigger] input[i]).0) == input[i].1,
    decreases input.len(),
{
    if input.len() > 0 {
        let d = input.drop_last();
        assert(forall|i: int| 0 <= i < d.len() ==> (#[trigger] d[i]) == input[i]);
        lemma_new_map_distinct(d);
        let last = input[input.len() - 1];
        assert(forall|i: int| 0 <= i < d.len() ==> (#[trigger] d[i]).0 != last.0);
        lemma_new_map_absent(d, last.0);
        assert forall|i: int| 0 <= i < input.len() implies b_at(
            new_map(input),
            (#[trigger] input[i]).0,
        ) == input[i].1 by {
            if i < input.len() - 1 {
                assert(d[i] == input[i]);
                assert(b_at(new_map(d), d[i].0) == d[i].1);
                if input[i].0.idx() == last.0.idx() {
                    lemma_idx_injective(input[i].0, last.0);
                }
            }
        }
    }
}

/// Some cell in the row of `pos`, earlier in canonical order, holds `d`.
pub open spec fn earlier_in_row(m: Map<u64, u8>, pos: Position, d: u8) -> bool {
    exists|q: Position|
        q.wf() && q.y == pos.y && q.idx() < pos.idx() && #[trigger] b_at(m, q) == Some(d)
}

/// The fresh candidate set for a new row: the digits 1 through 9.
fn full_digit_set() -> (r: im::OrdSet<u8>)
    ensures
        forall|d: u8| #[trigger] os_contents(r).contains(d) <==> 1 <= d <= 9,
{
    let mut s = os_new();
    let mut d: u8 = 1;
    while d <= 9
        invariant
            1 <= d <= 10,
            forall|v: u8| #[trigger] os_contents(s).contains(v) <==> 1 <= v < d,
        decreases 10 - d,
    {
        s = os_update(&s, d);
        d = d + 1;
    }
    s
}

impl Board {
    /// Builds a board from (coordinate, value-or-absent) pairs, storing every
    /// pair that carries a value; later pairs override earlier ones.
    pub fn new(input: Vec<(Position, Option<u8>)>) -> (b: Board)
        requires
            forall|i: int|
                0 <= i < input@.len() ==> (#[trigger] input@[i]).0.wf() && (input@[i].1 matches Some(
                    v,
                ) ==> 1 <= v <= 9),
        ensures
            b.wf(),
            b@ == new_map(input@),
    {
        let mut inner = hm_new();
        proof {
            assert(hm_contents(inner) =~= new_map(input@.take(0)));
        }
        let mut i: usize = 0;
        while i < input.len()
            invariant
                forall|j: int|
                    0 <= j < input@.len() ==> (#[trigger] input@[j]).0.wf() && (input@[j].1 matches Some(
                        v,
                    ) ==> 1 <= v <= 9),
                i <= input@.len(),
                hm_contents(inner) == new_map(input@.take(i as int)),
                map_wf(hm_contents(inner)),
            decreases input@.len() - i,
        {
            proof {
                assert(input@.take(i as int + 1).drop_last() =~= input@.take(i as int));
                assert(input@.take(i as int + 1).last() == input@[i as int]);
            }
            let (pos, opt) = input[i];
            match opt {
                Some(v) => {
                    inner = hm_update(&inner, pos.index(), v);
                },
                None => {},
            }
            i = i + 1;
        }
        proof {
            assert(input@.take(input@.len() as int) =~= input@);
        }
        Board { inner }
    }

    /// A new board with `value` assigned at `pos`, or `None` when the
    /// assignment would put a duplicate into the row, the column or the box
    /// of `pos`; the original board is left untouched either way.
    pub fn with(&self, pos: Position, value: u8) -> (r: Option<Board>)
        requires
            self.wf(),
            pos.wf(),
            1 <= value <= 9,
        ensures
            r matches Some(b) ==> b.wf() && b@ == self@.insert(pos.idx() as u64, value)
                && local_ok(b@, pos),
            r is None ==> !local_ok(self@.insert(pos.idx() as u64, value), pos),
    {
        let board = Board { inner: hm_update(&self.inner, pos.index(), value) };
        proof {
            assert forall|k: u64| #[trigger] board@.dom().contains(k) implies k < 81 && 1
                <= board@[k] <= 9 by {
                if k != pos.idx() as u64 {
                    assert(self@.dom().contains(k));
                }
            }
        }
        if board.validate_at(pos) {
            Some(board)
        } else {
            None
        }
    }

    /// Depth-first backtracking from `pos` on, in canonical order: a cell
    /// with a given value is skipped; an empty cell is tried with each
    /// remaining candidate digit in ascending order, keeping only assignments
    /// that pass the local check, and the first branch that completes the
    /// board wins. The candidate set holds the digits not yet seen in the
    /// current row at earlier cells; it only avoids retrying digits the local
    /// check would reject anyway, and is reset when the search enters a new
    /// row.
    fn solve_inner(&self, pos: Position, line: im::OrdSet<u8>) -> (r: Option<Board>)
        requires
            self.wf(),
            pos.wf(),
            valid(self@),
            forall|q: Position|
                q.wf() && #[trigger] q.idx() < pos.idx() ==> self@.dom().contains(q.idx() as u64),
            forall|d: u8| #[trigger] os_contents(line).contains(d) ==> 1 <= d <= 9,
            forall|d: u8|
                1 <= d <= 9 && !(#[trigger] os_contents(line).contains(d)) ==> earlier_in_row(
                    self@,
                    pos,
                    d,
                ),
        ensures
            r matches Some(b) ==> b.wf() && complete(b@) && valid(b@) && extends(b@, self@),
            r is None ==> !has_solution(self@),
        decreases 81 - pos.idx(),
    {
        match self.at(&pos) {
            Some(given) => {
                match pos.next() {
                    Some(np) => {
                        proof {
                            assert forall|q: Position|
                                q.wf() && #[trigger] q.idx() < np.idx() implies self@.dom().contains(
                                q.idx() as u64,
                            ) by {
                                if q.idx() == pos.idx() {
                                    lemma_idx_injective(q, pos);
                                }
                            }
                        }
                        if np.y == pos.y {
                            let line2 = os_without(&line, given);
                            proof {
                                assert forall|d: u8|
                                    1 <= d <= 9 && !(#[trigger] os_contents(line2).contains(d))
                                        implies earlier_in_row(self@, np, d) by {
                                    if d == given {
                                        assert(b_at(self@, pos) == Some(given));
                                    } else {
                                        assert(!os_contents(line).contains(d));
                                        let q = choose|q: Position|
                                            q.wf() && q.y == pos.y && q.idx() < pos.idx()
                                                && #[trigger] b_at(self@, q) == Some(d);
                                        assert(b_at(self@, q) == Some(d));
                                    }
                                }
                            }
                            self.solve_inner(np, line2)
                        } else {
                            self.solve_inner(np, full_digit_set())
                        }
                    },
                    None => {
                        proof {
                            assert forall|k: u64| k < 81 implies self@.dom().contains(k) by {
                                lemma_pos_of_idx(k as int);
                                let q = pos_of(k as int);
                                if q.idx() == pos.idx() {
                                    lemma_idx_injective(q, pos);
                                    assert(self@.dom().contains(pos.idx() as u64));
                                }
                            }
                            assert(complete(self@));
                            assert(extends(self@, self@));
                        }
                        Some(Board { inner: hm_clone(&self.inner) })
                    },
                }
            },
            None => {
                let cands = os_elems(&line);
                proof {
                    assert forall|s: Map<u64, u8>|
                        complete(s) && valid(s) && #[trigger] extends(s, self@) implies exists|
                        j: int,
                    |
                        0 <= j < cands@.len() && cands@[j] == s[pos.idx() as u64] by {
                        let v = s[pos.idx() as u64];
                        assert(s.dom().contains(pos.idx() as u64));
                        assert(1 <= v <= 9);
                        if !os_contents(line).contains(v) {
                            let q = choose|q: Position|
                                q.wf() && q.y == pos.y && q.idx() < pos.idx() && #[trigger] b_at(
                                    self@,
                                    q,
                                ) == Some(v);
                            assert(self@.dom().contains(q.idx() as u64));
                            if q.idx() == pos.idx() {
                                lemma_idx_injective(q, pos);
                            }
                            assert(q != pos);
                            assert(b_at(s, q) == Some(v));
                            assert(b_at(s, pos) == Some(v));
                            assert(same_group(q, pos));
                            assert(false);
                        }
                    }
                }
                let mut t: usize = 0;
                while t < cands.len()
                    invariant
                        self.wf(),
                        pos.wf(),
                        valid(self@),
                        forall|q: Position|
                            q.wf() && #[trigger] q.idx() < pos.idx() ==> self@.dom().contains(
                                q.idx() as u64,
                            ),
                        !self@.dom().contains(pos.idx() as u64),
                        forall|d: u8| #[trigger] os_contents(line).contains(d) ==> 1 <= d <= 9,
                        forall|d: u8|
                            1 <= d <= 9 && !(#[trigger] os_contents(line).contains(d))
                                ==> earlier_in_row(self@, pos, d),
                        forall|j: int|
                            0 <= j < cands@.len() ==> os_contents(line).contains(
                                #[trigger] cands@[j],
                            ),
                        t <= cands@.len(),
                        forall|s: Map<u64, u8>|
                            complete(s) && valid(s) && #[trigger] extends(s, self@) ==> exists|
                            j: int,
                        | t <= j < cands@.len() && cands@[j] == s[pos.idx() as u64],
                    decreases cands@.len() - t,
                {
                    let n = cands[t];
                    match self.with(pos, n) {
                        Some(b) => {
                            proof {
                                lemma_local_preserves_valid(self@, pos, n);
                            }
                            let res = match pos.next() {
                                Some(np) => {
                                    proof {
                                        assert forall|q: Position|
                                            q.wf() && #[trigger] q.idx() < np.idx() implies b@.dom().contains(
                                            q.idx() as u64,
                                        ) by {
                                            if q.idx() == pos.idx() {
                                                lemma_idx_injective(q, pos);
                                            } else {
                                                assert(self@.dom().contains(q.idx() as u64));
                                            }
                                        }
                                    }
                                    if np.y == pos.y {
                                        let line2 = os_without(&line, n);
                                        proof {
                                            assert forall|d: u8|
                                                1 <= d <= 9 && !(#[trigger] os_contents(
                                                    line2,
                                                ).contains(d)) implies earlier_in_row(
                                                b@,
                                                np,
                                                d,
                                            ) by {
                                                if d == n {
                                                    assert(b_at(b@, pos) == Some(n));
                                                } else {
                                                    assert(!os_contents(line).contains(d));
                                                    let q = choose|q: Position|
                                                        q.wf() && q.y == pos.y && q.idx()
                                                            < pos.idx() && #[trigger] b_at(
                                                            self@,
                                                            q,
                                                        ) == Some(d);
                                                    if q.idx() == pos.idx() {
                                                        lemma_idx_injective(q, pos);
                                                    }
                                                    assert(b_at(b@, q) == Some(d));
                                                }
                                            }
                                        }
                                        b.solve_inner(np, line2)
                                    } else {
                                        b.solve_inner(np, full_digit_set())
                                    }
                                },
                                None => {
                                    proof {
                                        assert forall|k: u64| k < 81 implies b@.dom().contains(
                                            k,
                                        ) by {
                                            lemma_pos_of_idx(k as int);
                                            let q = pos_of(k as int);
                                            if q.idx() == pos.idx() {
                                                lemma_idx_injective(q, pos);
                                            }
                                        }
                                        assert(complete(b@));
                                        assert(extends(b@, b@));
                                    }
                                    Some(b)
                                },
                            };
                            match res {
                                Some(out) => {
                                    proof {
                                        assert forall|k: u64| #[trigger] self@.dom().contains(
                                            k,
                                        ) implies out@.dom().contains(k) && out@[k]
                                            == self@[k] by {
                                            assert(k != pos.idx() as u64);
                                            assert(b@.dom().contains(k) && b@[k] == self@[k]);
                                        }
                                        assert(extends(out@, self@));
                                    }
                                    return Some(out);
                                },
                                None => {
                                    proof {
                                        assert forall|s: Map<u64, u8>|
                                            complete(s) && valid(s) && #[trigger] extends(s, self@)
                                                implies exists|j: int|
                                            t + 1 <= j < cands@.len() && cands@[j] == s[pos.idx()
                                                as u64] by {
                                            if s[pos.idx() as u64] == n {
                                                assert forall|k: u64| #[trigger] b@.dom().contains(
                                                    k,
                                                ) implies s.dom().contains(k) && s[k]
                                                    == b@[k] by {
                                                    if k == pos.idx() as u64 {
                                                        assert(s.dom().contains(k));
                                                    } else {
                                                        assert(self@.dom().contains(k));
                                                    }
                                                }
                                                assert(extends(s, b@));
                                                assert(has_solution(b@));
                                                assert(false);
                                            } else {
                                                let j = choose|j: int|
                                                    t <= j < cands@.len() && cands@[j] == s[pos.idx()
                                                        as u64];
                                                assert(cands@[j] != cands@[t as int]);
                                            }
                                        }
                                    }
                                },
                            }
                        },
                        None => {
                            proof {
                                assert forall|s: Map<u64, u8>|
                                    complete(s) && valid(s) && #[trigger] extends(s, self@)
                                        implies exists|j: int|
                                    t + 1 <= j < cands@.len() && cands@[j] == s[pos.idx()
                                        as u64] by {
                                    if s[pos.idx() as u64] == n {
                                        let m2 = self@.insert(pos.idx() as u64, n);
                                        assert forall|k: u64| #[trigger] m2.dom().contains(
                                            k,
                                        ) implies s.dom().contains(k) && s[k] == m2[k] by {
                                            if k == pos.idx() as u64 {
                                                assert(s.dom().contains(k));
                                            } else {
                                                assert(self@.dom().contains(k));
                                            }
                                        }
                                        assert(extends(s, m2));
                                        lemma_extends_valid(s, m2);
                                        lemma_valid_implies_local(m2, pos);
                                        assert(false);
                                    } else {
                                        let j = choose|j: int|
                                            t <= j < cands@.len() && cands@[j] == s[pos.idx()
                                                as u64];
                                        assert(cands@[j] != cands@[t as int]);
                                    }
                                }
                            }
                        },
                    }
                    t = t + 1;
                }
                proof {
                    if has_solution(self@) {
                        let s = choose|s: Map<u64, u8>|
                            complete(s) && valid(s) && #[trigger] extends(s, self@);
                        assert(exists|j: int|
                            t <= j < cands@.len() && cands@[j] == s[pos.idx() as u64]);
                        assert(false);
                    }
                }
                None
            },
        }
    }

    /// Solves the puzzle: returns the first complete, globally valid board
    /// agreeing with `self` on all its assigned cells that the search finds,
    /// or `None` exactly when no such completion exists.
    pub fn solve(&self) -> (r: Option<Board>)
        requires
            self.wf(),
        ensures
            r matches Some(b) ==> b.wf() && complete(b@) && valid(b@) && extends(b@, self@),
            r is Some <==> has_solution(self@),
    {
        if self.solved() {
            if self.validate() {
                let b = Board { inner: hm_clone(&self.inner) };
                proof {
                    assert forall|k: u64| k < 81 implies self@.dom().contains(k) by {
                        lemma_pos_of_idx(k as int);
                    }
                    assert(complete(self@));
                    assert(extends(self@, self@));
                    assert(has_solution(self@));
                }
                Some(b)
            } else {
                proof {
                    if has_solution(self@) {
                        let s = choose|s: Map<u64, u8>|
                            complete(s) && valid(s) && #[trigger] extends(s, self@);
                        assert forall|k: u64| s.dom().contains(k) <==> self@.dom().contains(
                            k,
                        ) by {
                            if k < 81 {
                                lemma_pos_of_idx(k as int);
                            }
                            if self@.dom().contains(k) {
                                assert(s.dom().contains(k));
                            }
                        }
                        assert(s =~= self@);
                        assert(valid(self@));
                        assert(false);
                    }
                }
                None
            }
        } else {
            if !self.validate() {
                proof {
                    if has_solution(self@) {
                        let s = choose|s: Map<u64, u8>|
                            complete(s) && valid(s) && #[trigger] extends(s, self@);
                        lemma_extends_valid(s, self@);
                        assert(false);
                    }
                }
                None
            } else {
                match self.solve_inner(Position { x: 1, y: 1 }, full_digit_set()) {
                    Some(b) => {
                        proof {
                            assert(extends(b@, self@));
                            assert(has_solution(self@));
                        }
                        Some(b)
                    },
                    None => None,
                }
            }
        }
    }

    /// True exactly when every one of the 81 cells has an assigned value.
    pub fn solved(&self) -> (r: bool)
        ensures
            r == all_assigned(self@),
    {
        let ps = Position::all();
        let mut i: usize = 0;
        while i < 81
            invariant
                ps@.len() == 81,
                forall|j: int| 0 <= j < 81 ==> (#[trigger] ps@[j]).wf() && ps@[j].idx() == j,
                forall|p: Position| p.wf() ==> ps@[#[trigger] p.idx()] == p,
                i <= 81,
                forall|j: int|
                    0 <= j < i ==> self@.dom().contains((#[trigger] ps@[j]).idx() as u64),
            decreases 81 - i,
        {
            let p = ps[i];
            if self.at(&p).is_none() {
                return false;
            }
            i = i + 1;
        }
        proof {
            assert forall|p: Position| p.wf() implies self@.dom().contains(
                #[trigger] p.idx() as u64,
            ) by {
                assert(ps@[p.idx()] == p);
            }
        }
        true
    }
}

/// The display character for a cell value, `0` standing for unassigned.
pub open spec fn digit_char(v: u8) -> char {
    if v == 0 {
        '0'
    } else if v == 1 {
        '1'
    } else if v == 2 {
        '2'
    } else if v == 3 {
        '3'
    } else if v == 4 {
        '4'
    } else if v == 5 {
        '5'
    } else if v == 6 {
        '6'
    } else if v == 7 {
        '7'
    } else if v == 8 {
        '8'
    } else {
        '9'
    }
}

/// The display character for the cell of rank `k`.
pub open spec fn cell_char(m: Map<u64, u8>, k: int) -> char {
    match b_at(m, pos_of(k)) {
        Some(v) => digit_char(v),
        None => digit_char(0),
    }
}

/// The rendering of the first `k` cells in canonical order: each cell's value
/// followed by a space, with a newline after every ninth cell.
pub open spec fn pretty_upto(m: Map<u64, u8>, k: int) -> Seq<char>
    decreases k,
{
    if k <= 0 {
        Seq::empty()
    } else {
        pretty_upto(m, k - 1) + seq![cell_char(m, k - 1), ' '] + if (k - 1) % 9 == 8 {
            seq!['\n']
        } else {
            Seq::empty()
        }
    }
}

/// The one-character text of a cell value.
fn digit_str(v: u8) -> (r: &'static str)
    requires
        v <= 9,
    ensures
        r@ == seq![digit_char(v)],
{
    if v == 0 {
        proof {
            reveal_strlit("0");
            assert("0"@ =~= seq![digit_char(0u8)]);
        }
        "0"
    } else if v == 1 {
        proof {
            reveal_strlit("1");
            assert("1"@ =~= seq![digit_char(1u8)]);
        }
        "1"
    } else if v == 2 {
        proof {
            reveal_strlit("2");
            assert("2"@ =~= seq![digit_char(2u8)]);
        }
        "2"
    } else if v == 3 {
        proof {
            reveal_strlit("3");
            assert("3"@ =~= seq![digit_char(3u8)]);
        }
        "3"
    } else if v == 4 {
        proof {
            reveal_strlit("4");
            assert("4"@ =~= seq![digit_char(4u8)]);
        }
        "4"
    } else if v == 5 {
        proof {
            reveal_strlit("5");
            assert("5"@ =~= seq![digit_char(5u8)]);
        }
        "5"
    } else if v == 6 {
        proof {
            reveal_strlit("6");
            assert("6"@ =~= seq![digit_char(6u8)]);
        }
        "6"
    } else if v == 7 {
        proof {
            reveal_strlit("7");
            assert("7"@ =~= seq![digit_char(7u8)]);
        }
        "7"
    } else if v == 8 {
        proof {
            reveal_strlit("8");
            assert("8"@ =~= seq![digit_char(8u8)]);
        }
        "8"
    } else {
        proof {
            reveal_strlit("9");
            assert("9"@ =~= seq![digit_char(9u8)]);
        }
        "9"
    }
}

impl Board {
    /// Renders the 81 cell values (0 standing for unassigned) as 9 rows of
    /// space-separated digits, one row per line.
    pub fn pretty(&self) -> (r: String)
        requires
            self.wf(),
        ensures
            r@ == pretty_upto(self@, 81),
    {
        let ps = Position::all();
        let mut s = String::new();
        let mut k: usize = 0;
        while k < 81
            invariant
                self.wf(),
                ps@.len() == 81,
                forall|j: int| 0 <= j < 81 ==> (#[trigger] ps@[j]).wf() && ps@[j].idx() == j,
                k <= 81,
                s@ == pretty_upto(self@, k as int),
            decreases 81 - k,
        {
            let p = ps[k];
            let v = match self.at(&p) {
                Some(v) => v,
                None => 0,
            };
            proof {
                assert(pos_of(k as int) == p) by {
                    lemma_pos_of_idx(k as int);
                    lemma_idx_injective(pos_of(k as int), p);
                }
                assert(digit_char(v) == cell_char(self@, k as int));
            }
            s.append(digit_str(v));
            proof {
                reveal_strlit(" ");
                reveal_strlit("\n");
            }
            s.append(" ");
            if p.x == 9 {
                s.append("\n");
                proof {
                    assert(k as int % 9 == 8);
                }
            } else {
                proof {
                    assert(k as int % 9 != 8);
                }
            }
            k = k + 1;
            proof {
                assert(s@ =~= pretty_upto(self@, k as int));
            }
        }
        s
    }
}

/// Law: a sequence that enumerates the grid in canonical order (as
/// `Position::all` produces one) holds each of the 81 on-grid coordinates
/// exactly once.
pub proof fn lemma_all_positions_once(ps: Seq<Position>)
    requires
        ps.len() == 81,
        forall|i: int| 0 <= i < 81 ==> (#[trigger] ps[i]).wf() && ps[i].idx() == i,
    ensures
        forall|i: int, j: int| 0 <= i < j < 81 ==> ps[i] != ps[j],
        forall|p: Position| p.wf() ==> exists|i: int| 0 <= i < 81 && ps[i] == p,
{
    assert forall|p: Position| p.wf() implies exists|i: int| 0 <= i < 81 && ps[i] == p by {
        lemma_idx_injective(ps[p.idx()], p);
        assert(0 <= p.idx() < 81 && ps[p.idx()] == p);
    }
}

/// Law: each grouping family partitions the grid: every on-grid coordinate
/// sits in exactly one row group, one column group and one box group, at
/// exactly one slot of that group's sequence.
pub proof fn lemma_groups_partition(p: Position)
    requires
        p.wf(),
    ensures
        0 <= p.y - 1 < 9 && 0 <= p.x - 1 < 9,
        0 <= p.box_of() < 9 && 0 <= box_slot(p) < 9,
        row_seq(p.y - 1)[p.x - 1] == p,
        col_seq(p.x - 1)[p.y - 1] == p,
        box_seq(p.box_of())[box_slot(p)] == p,
        forall|g: int, i: int|
            0 <= g < 9 && 0 <= i < 9 && #[trigger] row_seq(g)[i] == p ==> g == p.y - 1 && i == p.x
                - 1,
        forall|g: int, i: int|
            0 <= g < 9 && 0 <= i < 9 && #[trigger] col_seq(g)[i] == p ==> g == p.x - 1 && i == p.y
                - 1,
        forall|g: int, i: int|
            0 <= g < 9 && 0 <= i < 9 && #[trigger] box_seq(g)[i] == p ==> g == p.box_of() && i
                == box_slot(p),
{
    lemma_box_member(p);
    assert forall|g: int, i: int|
        0 <= g < 9 && 0 <= i < 9 && #[trigger] box_seq(g)[i] == p implies g == p.box_of() && i
        == box_slot(p) by {
        lemma_group_wf(g);
    }
}

/// Law: the canonical successor walks the canonical order: it is absent
/// exactly at the last cell (column 9, row 9), and otherwise moves to the
/// on-grid coordinate of the next rank, so 80 steps from (1,1) visit all 81
/// cells exactly once.
pub proof fn lemma_next_walks_canonical(p: Position)
    requires
        p.wf(),
    ensures
        p.spec_next() is None <==> p.idx() == 80,
        p.spec_next() matches Some(q) ==> q.wf() && q.idx() == p.idx() + 1,
{
}

/// Law (round trip): writing a value into a cell of a board yields bindings
/// that read back exactly that value at that cell and leave every other cell
/// as it was; the parent board itself, being a separate value, is unchanged.
pub proof fn lemma_with_round_trip(m: Map<u64, u8>, pos: Position, v: u8)
    requires
        pos.wf(),
    ensures
        b_at(m.insert(pos.idx() as u64, v), pos) == Some(v),
        forall|q: Position|
            q.wf() && q != pos ==> #[trigger] b_at(m.insert(pos.idx() as u64, v), q) == b_at(m, q),
{
    assert forall|q: Position| q.wf() && q != pos implies #[trigger] b_at(
        m.insert(pos.idx() as u64, v),
        q,
    ) == b_at(m, q) by {
        if q.idx() == pos.idx() {
            lemma_idx_injective(q, pos);
        }
    }
}

/// A group of 9 distinct cells, all assigned digits without repetition,
/// holds every digit 1 through 9: nine pairwise distinct values drawn from
/// nine candidates leave none out.
proof fn lemma_full_group_has_digit(m: Map<u64, u8>, g: Seq<Position>, v: u8)
    requires
        g.len() == 9,
        forall|i: int, j: int| 0 <= i < j < 9 ==> g[i] != g[j],
        forall|i: int|
            0 <= i < 9 ==> (#[trigger] b_at(m, g[i])) is Some && 1 <= b_at(m, g[i])->0 <= 9,
        group_no_dup(m, g),
        1 <= v <= 9,
    ensures
        exists|i: int| 0 <= i < 9 && #[trigger] b_at(m, g[i]) == Some(v),
{
    if !(exists|i: int| 0 <= i < 9 && #[trigger] b_at(m, g[i]) == Some(v)) {
        let vals = Seq::new(9, |i: int| b_at(m, g[i])->0 as int);
        assert forall|i: int, j: int| 0 <= i < vals.len() && 0 <= j < vals.len() && i != j implies
            vals[i] != vals[j] by {
            assert(b_at(m, g[i]) is Some);
            assert(b_at(m, g[i]) != b_at(m, g[j]));
        }
        assert(vals.no_duplicates());
        vals.unique_seq_to_set();
        let target = vstd::set_lib::set_int_range(1, 10).remove(v as int);
        assert forall|i: int| 0 <= i < 9 implies target.contains(#[trigger] vals[i]) by {
            assert(b_at(m, g[i]) is Some);
            assert(b_at(m, g[i]) != Some(v));
            assert(vals[i] != v);
        }
        assert forall|x: int| vals.to_set().contains(x) implies target.contains(x) by {
            let i = choose|i: int| 0 <= i < vals.len() && vals[i] == x;
            assert(target.contains(vals[i]));
        }
        vstd::set_lib::lemma_int_range(1, 10);
        assert(vstd::set_lib::set_int_range(1, 10).contains(v as int));
        assert(target.len() == 8);
        vstd::set_lib::lemma_len_subset(vals.to_set(), target);
        assert(false);
    }
}

/// Law: a solved board that validates holds, in every row group, every
/// column group and every box group, each digit 1 through 9 exactly once.
pub proof fn lemma_solved_valid_groups_full(m: Map<u64, u8>, g: int, v: u8)
    requires
        map_wf(m),
        all_assigned(m),
        valid(m),
        0 <= g < 9,
        1 <= v <= 9,
    ensures
        exists|i: int| 0 <= i < 9 && #[trigger] b_at(m, row_seq(g)[i]) == Some(v),
        exists|i: int| 0 <= i < 9 && #[trigger] b_at(m, col_seq(g)[i]) == Some(v),
        exists|i: int| 0 <= i < 9 && #[trigger] b_at(m, box_seq(g)[i]) == Some(v),
        forall|i: int, j: int|
            0 <= i < 9 && 0 <= j < 9 && #[trigger] b_at(m, row_seq(g)[i]) == Some(v)
                && #[trigger] b_at(m, row_seq(g)[j]) == Some(v) ==> i == j,
        forall|i: int, j: int|
            0 <= i < 9 && 0 <= j < 9 && #[trigger] b_at(m, col_seq(g)[i]) == Some(v)
                && #[trigger] b_at(m, col_seq(g)[j]) == Some(v) ==> i == j,
        forall|i: int, j: int|
            0 <= i < 9 && 0 <= j < 9 && #[trigger] b_at(m, box_seq(g)[i]) == Some(v)
                && #[trigger] b_at(m, box_seq(g)[j]) == Some(v) ==> i == j,
{
    lemma_valid_iff_groups(m);
    lemma_group_wf(g);
    assert forall|i: int|
        0 <= i < 9 implies (#[trigger] b_at(m, row_seq(g)[i])) is Some && 1 <= b_at(
        m,
        row_seq(g)[i],
    )->0 <= 9 && (b_at(m, col_seq(g)[i])) is Some && 1 <= b_at(m, col_seq(g)[i])->0 <= 9 && (b_at(
        m,
        box_seq(g)[i],
    )) is Some && 1 <= b_at(m, box_seq(g)[i])->0 <= 9 by {
        assert(m.dom().contains(row_seq(g)[i].idx() as u64));
        assert(m.dom().contains(col_seq(g)[i].idx() as u64));
        assert(m.dom().contains(box_seq(g)[i].idx() as u64));
    }
    assert forall|i: int, j: int| 0 <= i < j < 9 implies box_seq(g)[i] != box_seq(g)[j] by {
        assert(box_slot(box_seq(g)[i]) == i && box_slot(box_seq(g)[j]) == j);
    }
    lemma_full_group_has_digit(m, row_seq(g), v);
    lemma_full_group_has_digit(m, col_seq(g), v);
    lemma_full_group_has_digit(m, box_seq(g), v);
}

} // verus!
