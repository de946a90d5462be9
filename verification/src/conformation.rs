use vstd::pervasive::VecAdditionalExecFns;
use vstd::prelude::*;

use crate::config::{ACOConfig, MAX_SEQ_LEN, SCALE};
use crate::pheromones::Pheromones;
use crate::protein::{AminoAcid, Protein};
use crate::sampling::{pick_uniform, pick_weighted, shuffle_indices};
use vstd::seq_lib::group_seq_properties;

verus! {

/// One relative turn of the walk, taken against its current heading.
#[derive(Debug, PartialEq, Eq, Structural, Clone, Copy)]
pub enum Direction {
    Straight,
    Left,
    Right,
}

impl Direction {
    /// Column of this move symbol in the pheromone matrix.
    pub fn as_index(&self) -> (r: usize)
        ensures
            r == dir_index(*self),
    {
        match self {
            Direction::Straight => 0,
            Direction::Left => 1,
            Direction::Right => 2,
        }
    }

    /// The three move symbols, in their canonical order.
    pub fn iter() -> (r: Vec<Direction>)
        ensures
            r@ =~= seq![Direction::Straight, Direction::Left, Direction::Right],
    {
        let mut v: Vec<Direction> = Vec::new();
        v.push(Direction::Straight);
        v.push(Direction::Left);
        v.push(Direction::Right);
        v
    }

    /// The three move symbols, in their canonical order.
    pub fn vec() -> (r: Vec<Direction>)
        ensures
            r@ =~= seq![Direction::Straight, Direction::Left, Direction::Right],
    {
        Direction::iter()
    }

    /// One-letter encoding of the move symbol.
    pub fn char(&self) -> (r: char)
        ensures
            r == dir_char(*self),
    {
        match self {
            Direction::Straight => 'S',
            Direction::Left => 'L',
            Direction::Right => 'R',
        }
    }
}

/// Column of a move symbol in the pheromone matrix.
pub open spec fn dir_index(d: Direction) -> int {
    match d {
        Direction::Straight => 0,
        Direction::Left => 1,
        Direction::Right => 2,
    }
}

/// One-letter encoding of a move symbol.
pub open spec fn dir_char(d: Direction) -> char {
    match d {
        Direction::Straight => 'S',
        Direction::Left => 'L',
        Direction::Right => 'R',
    }
}

/// Mathematical image of a [`Conformation`]: the residue classes, the move
/// slots (a `Some` prefix of assigned moves, then `None`), and the growth
/// cursor counting the assigned slots.
pub ghost struct ConfModel {
    pub prot: Seq<AminoAcid>,
    pub slots: Seq<Option<Direction>>,
    pub cursor: int,
}

// --- lattice geometry -------------------------------------------------------

/// Quarter turn to the left of a heading vector.
pub open spec fn rotate_left(v: (int, int)) -> (int, int) {
    (-v.1, v.0)
}

/// Quarter turn to the right of a heading vector.
pub open spec fn rotate_right(v: (int, int)) -> (int, int) {
    (v.1, -v.0)
}

/// Heading after taking one move against heading `v`.
pub open spec fn step(v: (int, int), d: Direction) -> (int, int) {
    match d {
        Direction::Straight => v,
        Direction::Left => rotate_left(v),
        Direction::Right => rotate_right(v),
    }
}

/// Heading of the walk after its first `k` moves; the anchor heading is
/// `(1, 0)`.
pub open spec fn vel_after(moves: Seq<Direction>, k: int) -> (int, int)
    decreases k,
{
    if k <= 0 {
        (1, 0)
    } else {
        step(vel_after(moves, k - 1), moves[k - 1])
    }
}

/// Lattice cell of residue `r`: the two anchors sit at `(0,0)` and `(1,0)`,
/// and move `k` places residue `k + 2`.
pub open spec fn pos_of(moves: Seq<Direction>, r: int) -> (int, int)
    decreases r,
{
    if r <= 0 {
        (0, 0)
    } else if r == 1 {
        (1, 0)
    } else {
        let p = pos_of(moves, r - 1);
        let v = vel_after(moves, r - 1);
        (p.0 + v.0, p.1 + v.1)
    }
}

pub open spec fn is_unit(v: (int, int)) -> bool {
    v == (1int, 0int) || v == (-1int, 0int) || v == (0int, 1int) || v == (0int, -1int)
}

/// Every heading of the walk is a unit vector.
pub proof fn lemma_vel_unit(moves: Seq<Direction>, k: int)
    ensures
        is_unit(vel_after(moves, k)),
    decreases k,
{
    if k > 0 {
        lemma_vel_unit(moves, k - 1);
    }
}

/// A walk of `r` steps stays within `r` cells of the origin.
pub proof fn lemma_pos_bound(moves: Seq<Direction>, r: int)
    requires
        0 <= r,
    ensures
        -r <= pos_of(moves, r).0 <= r,
        -r <= pos_of(moves, r).1 <= r,
    decreases r,
{
    if r > 1 {
        lemma_pos_bound(moves, r - 1);
        lemma_vel_unit(moves, r - 1);
    }
}

proof fn lemma_vel_agree(m1: Seq<Direction>, m2: Seq<Direction>, k: int)
    requires
        forall|j: int| 0 <= j < k ==> m1[j] == m2[j],
    ensures
        vel_after(m1, k) == vel_after(m2, k),
    decreases k,
{
    if k > 0 {
        lemma_vel_agree(m1, m2, k - 1);
        assert(m1[k - 1] == m2[k - 1]);
    }
}

proof fn lemma_pos_agree(m1: Seq<Direction>, m2: Seq<Direction>, r: int)
    requires
        forall|j: int| 0 <= j < r - 1 ==> m1[j] == m2[j],
    ensures
        pos_of(m1, r) == pos_of(m2, r),
    decreases r,
{
    if r > 1 {
        lemma_pos_agree(m1, m2, r - 1);
        lemma_vel_agree(m1, m2, r - 1);
    }
}

/// Headings and cells depend only on the moves already taken: two walks that
/// agree on their first `k` moves agree on every heading up to `k` and on
/// every cell up to residue `k + 1`.
pub proof fn lemma_prefix_agree(m1: Seq<Direction>, m2: Seq<Direction>, k: int)
    requires
        0 <= k,
        forall|j: int| 0 <= j < k ==> m1[j] == m2[j],
    ensures
        forall|j: int| 0 <= j <= k ==> vel_after(m1, j) == vel_after(m2, j),
        forall|r: int| 0 <= r <= k + 1 ==> pos_of(m1, r) == pos_of(m2, r),
{
    assert forall|j: int| 0 <= j <= k implies vel_after(m1, j) == vel_after(m2, j) by {
        lemma_vel_agree(m1, m2, j);
    }
    assert forall|r: int| 0 <= r <= k + 1 implies pos_of(m1, r) == pos_of(m2, r) by {
        lemma_pos_agree(m1, m2, r);
    }
}

// --- validity ----------------------------------------------------------------

/// Some residue with index below `upto` occupies `cell`.
pub open spec fn occupied_before(moves: Seq<Direction>, cell: (int, int), upto: int) -> bool {
    exists|r: int| 0 <= r < upto && pos_of(moves, r) == cell
}

/// The residue placed by move `j` is walled in: all four lattice neighbours
/// of its cell are held by earlier residues.
pub open spec fn dead_end_at(moves: Seq<Direction>, j: int) -> bool {
    let p = pos_of(moves, j + 2);
    &&& occupied_before(moves, (p.0 + 1, p.1), j + 2)
    &&& occupied_before(moves, (p.0 - 1, p.1), j + 2)
    &&& occupied_before(moves, (p.0, p.1 + 1), j + 2)
    &&& occupied_before(moves, (p.0, p.1 - 1), j + 2)
}

/// No two of the first `upto` residues share a cell.
pub open spec fn self_avoiding(moves: Seq<Direction>, upto: int) -> bool {
    forall|r1: int, r2: int|
        0 <= r1 < r2 < upto ==> pos_of(moves, r1) != pos_of(moves, r2)
}

/// A partial walk of `moves.len()` assigned moves, out of `total` slots, is
/// geometrically acceptable: the walk is self-avoiding, and no placed residue
/// other than the last of the whole chain is walled in by earlier residues.
pub open spec fn valid_moves(moves: Seq<Direction>, total: int) -> bool {
    &&& self_avoiding(moves, moves.len() as int + 2)
    &&& forall|j: int| 1 <= j < moves.len() && j < total - 1 ==> !dead_end_at(moves, j)
}

/// Number of `Some` slots among the first `k`.
pub open spec fn some_count(slots: Seq<Option<Direction>>, k: int) -> int
    decreases k,
{
    if k <= 0 {
        0
    } else {
        some_count(slots, k - 1) + if slots[k - 1] is Some {
            1int
        } else {
            0int
        }
    }
}

/// Assigned slots form a prefix: a `Some` never follows a `None`.
pub open spec fn contiguous(slots: Seq<Option<Direction>>) -> bool {
    forall|j1: int, j2: int|
        0 <= j1 < j2 < slots.len() && slots[j2] is Some ==> slots[j1] is Some
}

/// The move held by a slot; unassigned slots read as `Straight`, but every
/// spec below only ever reads assigned slots.
pub open spec fn slot_dir(s: Option<Direction>) -> Direction {
    match s {
        Some(d) => d,
        None => Direction::Straight,
    }
}

/// The assigned prefix of `slots`, as a plain move sequence.
pub open spec fn assigned_seq(slots: Seq<Option<Direction>>) -> Seq<Direction> {
    Seq::new(some_count(slots, slots.len() as int) as nat, |j: int| slot_dir(slots[j]))
}

pub proof fn lemma_some_count_bounds(slots: Seq<Option<Direction>>, k: int)
    requires
        0 <= k <= slots.len(),
    ensures
        0 <= some_count(slots, k) <= k,
    decreases k,
{
    if k > 0 {
        lemma_some_count_bounds(slots, k - 1);
    }
}

/// With a `Some` prefix of length `cursor` and `None` after it, the count of
/// assigned slots is exactly `cursor`.
pub proof fn lemma_some_count_split(slots: Seq<Option<Direction>>, cursor: int, k: int)
    requires
        0 <= cursor <= slots.len(),
        0 <= k <= slots.len(),
        forall|j: int| 0 <= j < cursor ==> slots[j] is Some,
        forall|j: int| cursor <= j < slots.len() ==> slots[j] is None,
    ensures
        some_count(slots, k) == if k <= cursor {
            k
        } else {
            cursor
        },
    decreases k,
{
    if k > 0 {
        lemma_some_count_split(slots, cursor, k - 1);
    }
}

// --- contacts and fitness ----------------------------------------------------

/// Two lattice cells touch along one axis.
pub open spec fn adjacent(a: (int, int), b: (int, int)) -> bool {
    ||| (a.0 == b.0 + 1 && a.1 == b.1)
    ||| (a.0 + 1 == b.0 && a.1 == b.1)
    ||| (a.1 == b.1 + 1 && a.0 == b.0)
    ||| (a.1 + 1 == b.1 && a.0 == b.0)
}

/// Residues `i` and `j` form a topological contact: both hydrophobic, not
/// chain neighbours, and occupying adjacent cells.
pub open spec fn contact(prot: Seq<AminoAcid>, moves: Seq<Direction>, i: int, j: int) -> bool {
    &&& prot[i] is Hydrophobic
    &&& prot[j] is Hydrophobic
    &&& (i - j > 1 || j - i > 1)
    &&& adjacent(pos_of(moves, i), pos_of(moves, j))
}

/// Number of residues `j` below `hi` in contact with residue `i`.
pub open spec fn contacts_with(
    prot: Seq<AminoAcid>,
    moves: Seq<Direction>,
    i: int,
    hi: int,
) -> int
    decreases hi,
{
    if hi <= 0 {
        0
    } else {
        contacts_with(prot, moves, i, hi - 1) + if contact(prot, moves, i, hi - 1) {
            1int
        } else {
            0int
        }
    }
}

/// Number of unordered contact pairs among the first `k` residues: each pair
/// `{i, j}` is counted once, at its larger index.
pub open spec fn pair_count(prot: Seq<AminoAcid>, moves: Seq<Direction>, k: int) -> int
    decreases k,
{
    if k <= 0 {
        0
    } else {
        pair_count(prot, moves, k - 1) + contacts_with(prot, moves, k - 1, k - 1)
    }
}

/// Number of residues `a` below `i` in contact with residue `x`.
pub open spec fn col_count(prot: Seq<AminoAcid>, moves: Seq<Direction>, x: int, i: int) -> int
    decreases i,
{
    if i <= 0 {
        0
    } else {
        col_count(prot, moves, x, i - 1) + if contact(prot, moves, i - 1, x) {
            1int
        } else {
            0int
        }
    }
}

/// Directed contact count: every contact pair counted from both endpoints,
/// as the neighbour scan of `evaluate` does.
pub open spec fn directed_partial(
    prot: Seq<AminoAcid>,
    moves: Seq<Direction>,
    i: int,
    k: int,
) -> int
    decreases i,
{
    if i <= 0 {
        0
    } else {
        directed_partial(prot, moves, i - 1, k) + contacts_with(prot, moves, i - 1, k)
    }
}

pub open spec fn directed_count(prot: Seq<AminoAcid>, moves: Seq<Direction>, k: int) -> int {
    directed_partial(prot, moves, k, k)
}

/// The contact relation is symmetric in its two residues.
pub proof fn lemma_contact_sym(prot: Seq<AminoAcid>, moves: Seq<Direction>, i: int, j: int)
    ensures
        contact(prot, moves, i, j) == contact(prot, moves, j, i),
{
}

proof fn lemma_col_eq_row(prot: Seq<AminoAcid>, moves: Seq<Direction>, x: int, i: int)
    ensures
        col_count(prot, moves, x, i) == contacts_with(prot, moves, x, i),
    decreases i,
{
    if i > 0 {
        lemma_col_eq_row(prot, moves, x, i - 1);
        lemma_contact_sym(prot, moves, i - 1, x);
    }
}

proof fn lemma_directed_partial_ext(prot: Seq<AminoAcid>, moves: Seq<Direction>, i: int, k: int)
    requires
        0 <= k,
    ensures
        directed_partial(prot, moves, i, k + 1) == directed_partial(prot, moves, i, k)
            + col_count(prot, moves, k, i),
    decreases i,
{
    if i > 0 {
        lemma_directed_partial_ext(prot, moves, i - 1, k);
    }
}

pub proof fn lemma_contacts_with_bounds(
    prot: Seq<AminoAcid>,
    moves: Seq<Direction>,
    i: int,
    hi: int,
)
    ensures
        0 <= contacts_with(prot, moves, i, hi),
        contacts_with(prot, moves, i, hi) <= (if hi >= 0 {
            hi
        } else {
            0
        }),
    decreases hi,
{
    if hi > 0 {
        lemma_contacts_with_bounds(prot, moves, i, hi - 1);
    }
}

pub proof fn lemma_pair_count_bounds(prot: Seq<AminoAcid>, moves: Seq<Direction>, k: int)
    ensures
        0 <= pair_count(prot, moves, k),
        pair_count(prot, moves, k) <= (if k >= 0 {
            k * k
        } else {
            0
        }),
    decreases k,
{
    if k > 0 {
        lemma_pair_count_bounds(prot, moves, k - 1);
        lemma_contacts_with_bounds(prot, moves, k - 1, k - 1);
        assert((k - 1) * (k - 1) + (k - 1) <= k * k) by (nonlinear_arith)
            requires
                k >= 1,
        ;
    }
}

pub proof fn lemma_directed_partial_bounds(
    prot: Seq<AminoAcid>,
    moves: Seq<Direction>,
    i: int,
    k: int,
)
    requires
        0 <= k,
    ensures
        0 <= directed_partial(prot, moves, i, k),
        directed_partial(prot, moves, i, k) <= (if i >= 0 {
            i * k
        } else {
            0
        }),
    decreases i,
{
    if i > 0 {
        lemma_directed_partial_bounds(prot, moves, i - 1, k);
        lemma_contacts_with_bounds(prot, moves, i - 1, k);
        assert((i - 1) * k + k == i * k) by (nonlinear_arith);
        assert(directed_partial(prot, moves, i, k) <= i * k);
    }
}

/// Every contact is discovered from both of its endpoints: the directed scan
/// counts exactly twice the number of unordered contact pairs, so halving it
/// loses nothing.
pub proof fn lemma_directed_even(prot: Seq<AminoAcid>, moves: Seq<Direction>, k: int)
    requires
        0 <= k,
    ensures
        directed_count(prot, moves, k) == 2 * pair_count(prot, moves, k),
    decreases k,
{
    if k > 0 {
        lemma_directed_even(prot, moves, k - 1);
        lemma_directed_partial_ext(prot, moves, k - 1, k - 1);
        lemma_col_eq_row(prot, moves, k - 1, k - 1);
        assert(directed_partial(prot, moves, k, k) == directed_partial(prot, moves, k - 1, k)
            + contacts_with(prot, moves, k - 1, k));
        assert(contacts_with(prot, moves, k - 1, k) == contacts_with(prot, moves, k - 1, k - 1));
    }
}

proof fn lemma_contacts_with_agree(
    prot: Seq<AminoAcid>,
    m1: Seq<Direction>,
    m2: Seq<Direction>,
    i: int,
    hi: int,
    bound: int,
)
    requires
        forall|r: int| 0 <= r < bound ==> pos_of(m1, r) == pos_of(m2, r),
        0 <= i < bound,
        hi <= bound,
    ensures
        contacts_with(prot, m1, i, hi) == contacts_with(prot, m2, i, hi),
    decreases hi,
{
    if hi > 0 {
        lemma_contacts_with_agree(prot, m1, m2, i, hi - 1, bound);
    }
}

/// The fitness of a prefix of residues depends only on the cells those
/// residues occupy.
pub proof fn lemma_pair_count_agree(
    prot: Seq<AminoAcid>,
    m1: Seq<Direction>,
    m2: Seq<Direction>,
    k: int,
)
    requires
        forall|r: int| 0 <= r < k ==> pos_of(m1, r) == pos_of(m2, r),
    ensures
        pair_count(prot, m1, k) == pair_count(prot, m2, k),
    decreases k,
{
    if k > 0 {
        lemma_pair_count_agree(prot, m1, m2, k - 1);
        if k >= 1 {
            lemma_contacts_with_agree(prot, m1, m2, k - 1, k - 1, k);
        }
    }
}

/// A polar residue takes part in no contact.
proof fn lemma_contacts_polar(prot: Seq<AminoAcid>, moves: Seq<Direction>, i: int, hi: int)
    requires
        !(prot[i] is Hydrophobic),
    ensures
        contacts_with(prot, moves, i, hi) == 0,
    decreases hi,
{
    if hi > 0 {
        lemma_contacts_polar(prot, moves, i, hi - 1);
    }
}

// --- the conformation --------------------------------------------------------

/// The moves assigned so far, by the cursor.
pub open spec fn assigned_of(m: ConfModel) -> Seq<Direction> {
    Seq::new(m.cursor as nat, |j: int| slot_dir(m.slots[j]))
}

/// Structural part of the invariant: sizes in range, and the slots form a
/// `Some` prefix of length `cursor`.
pub open spec fn shaped(m: ConfModel) -> bool {
    &&& 3 <= m.prot.len() <= MAX_SEQ_LEN
    &&& m.slots.len() == m.prot.len() - 2
    &&& 0 <= m.cursor <= m.slots.len()
    &&& forall|j: int| 0 <= j < m.cursor ==> m.slots[j] is Some
    &&& forall|j: int| m.cursor <= j < m.slots.len() ==> m.slots[j] is None
}

/// Full invariant: shape, and the assigned walk is geometrically acceptable.
pub open spec fn wf(m: ConfModel) -> bool {
    &&& shaped(m)
    &&& valid_moves(assigned_of(m), m.slots.len() as int)
}

pub open spec fn fully_grown(m: ConfModel) -> bool {
    m.cursor == m.slots.len()
}

/// Fitness of the placed residues: hydrophobic contact pairs, each counted
/// once.
pub open spec fn fitness_of(m: ConfModel) -> int {
    pair_count(m.prot, assigned_of(m), m.cursor + 2)
}

/// Fitness as [`Conformation::evaluate`] states it, over the `Some` prefix of
/// the slots alone.
pub open spec fn prefix_fitness(m: ConfModel) -> int {
    pair_count(
        m.prot,
        assigned_seq(m.slots),
        some_count(m.slots, m.slots.len() as int) + 2,
    )
}

/// For a well-shaped model the two fitness readings coincide.
pub proof fn lemma_fitness_shaped(m: ConfModel)
    requires
        shaped(m),
    ensures
        assigned_seq(m.slots) == assigned_of(m),
        prefix_fitness(m) == fitness_of(m),
        contiguous(m.slots),
{
    lemma_some_count_split(m.slots, m.cursor, m.slots.len() as int);
    assert(assigned_seq(m.slots) =~= assigned_of(m));
}

/// One candidate folding: a growing assignment of moves for the free
/// residues of its protein, anchored at the two fixed residues.
pub struct Conformation {
    pub(crate) protein: Vec<AminoAcid>,
    pub(crate) conformation: Vec<Option<Direction>>,
    pub(crate) config: ACOConfig,
    pub(crate) i: usize,
}

impl View for Conformation {
    type V = ConfModel;

    closed spec fn view(&self) -> ConfModel {
        ConfModel { prot: self.protein@, slots: self.conformation@, cursor: self.i as int }
    }
}

fn copy_residues(p: &Vec<AminoAcid>) -> (r: Vec<AminoAcid>)
    ensures
        r@ == p@,
{
    let mut r: Vec<AminoAcid> = Vec::new();
    let mut k: usize = 0;
    while k < p.len()
        invariant
            k <= p@.len(),
            r@ == p@.subrange(0, k as int),
        decreases p@.len() - k,
    {
        r.push(p[k]);
        proof {
            assert(r@ =~= p@.subrange(0, k + 1));
        }
        k = k + 1;
    }
    proof {
        assert(r@ =~= p@);
    }
    r
}

impl Conformation {
    pub closed spec fn spec_config(&self) -> ACOConfig {
        self.config
    }

    /// An empty conformation for `protein`: no move assigned yet.
    pub fn new(protein: &Protein, config: ACOConfig) -> (r: Self)
        requires
            3 <= protein@.len() <= MAX_SEQ_LEN,
        ensures
            wf(r@),
            r@.prot == protein@,
            r@.cursor == 0,
            r.spec_config() == config,
    {
        let n = protein.len() - 2;
        let slots: Vec<Option<Direction>> = vec![None; n];
        let residues = copy_residues(protein);
        let r = Conformation { protein: residues, conformation: slots, config, i: 0 };
        proof {
            let moves = assigned_of(r@);
            assert(moves.len() == 0);
            assert(pos_of(moves, 0) == (0int, 0int));
            assert(pos_of(moves, 1) == (1int, 0int));
            assert forall|r1: int, r2: int| 0 <= r1 < r2 < 2 implies pos_of(moves, r1) != pos_of(
                moves,
                r2,
            ) by {
                assert(r1 == 0 && r2 == 1);
            }
        }
        r
    }

    /// The move held by slot `i`, if any.
    pub fn get(&self, i: usize) -> (r: Option<Direction>)
        requires
            i < self@.slots.len(),
        ensures
            r == self@.slots[i as int],
    {
        self.conformation[i]
    }

    /// Whether every free residue has been placed.
    pub fn is_fully_grown(&self) -> (r: bool)
        ensures
            r == fully_grown(self@),
    {
        self.i == self.conformation.len()
    }

    /// Length of the leading `Some` prefix of the slots.
    fn assigned_len(&self) -> (c: usize)
        requires
            contiguous(self@.slots),
        ensures
            c == some_count(self@.slots, self@.slots.len() as int),
            c <= self@.slots.len(),
            forall|j: int| 0 <= j < c ==> self@.slots[j] is Some,
            forall|j: int| c <= j < self@.slots.len() ==> self@.slots[j] is None,
    {
        let n = self.conformation.len();
        let mut c: usize = 0;
        while c < n && self.conformation[c].is_some()
            invariant
                c <= n,
                n == self@.slots.len(),
                forall|j: int| 0 <= j < c ==> self@.slots[j] is Some,
            decreases n - c,
        {
            c = c + 1;
        }
        proof {
            assert forall|j: int| c <= j < self@.slots.len() implies self@.slots[j] is None by {
                if self@.slots[j] is Some {
                    assert(c < n);
                    assert(self@.slots[c as int] is Some);
                }
            }
            lemma_some_count_split(self@.slots, c as int, self@.slots.len() as int);
        }
        c
    }

    fn get_new_velocity(v: (i32, i32), direction: Direction) -> (r: (i32, i32))
        requires
            is_unit((v.0 as int, v.1 as int)),
        ensures
            (r.0 as int, r.1 as int) == step((v.0 as int, v.1 as int), direction),
    {
        match direction {
            Direction::Left => (-v.1, v.0),
            Direction::Right => (v.1, -v.0),
            Direction::Straight => v,
        }
    }

    /// Cells of the placed residues, anchors first, by replaying the
    /// assigned moves.
    fn replay_positions(&self) -> (ps: Vec<(i32, i32)>)
        requires
            contiguous(self@.slots),
            self@.slots.len() + 2 <= MAX_SEQ_LEN,
        ensures
            ps@.len() == some_count(self@.slots, self@.slots.len() as int) + 2,
            forall|r: int|
                0 <= r < ps@.len() ==> #[trigger] ps@[r].0 == pos_of(
                    assigned_seq(self@.slots),
                    r,
                ).0 && ps@[r].1 == pos_of(assigned_seq(self@.slots), r).1,
    {
        let ghost moves = assigned_seq(self@.slots);
        let c = self.assigned_len();
        let mut ps: Vec<(i32, i32)> = Vec::new();
        ps.push((0, 0));
        ps.push((1, 0));
        let mut v: (i32, i32) = (1, 0);
        let mut k: usize = 0;
        while k < c
            invariant
                moves == assigned_seq(self@.slots),
                moves.len() == c,
                contiguous(self@.slots),
                c == some_count(self@.slots, self@.slots.len() as int),
                c <= self@.slots.len(),
                self@.slots.len() + 2 <= MAX_SEQ_LEN,
                forall|j: int| 0 <= j < c ==> self@.slots[j] is Some,
                k <= c,
                ps@.len() == k + 2,
                (v.0 as int, v.1 as int) == vel_after(moves, k as int),
                forall|r: int|
                    0 <= r < ps@.len() ==> #[trigger] ps@[r].0 == pos_of(moves, r).0
                        && ps@[r].1 == pos_of(moves, r).1,
            decreases c - k,
        {
            let d = self.conformation[k].unwrap();
            proof {
                assert(moves[k as int] == slot_dir(self@.slots[k as int]));
                lemma_vel_unit(moves, k as int);
                lemma_pos_bound(moves, k as int + 1);
                lemma_vel_unit(moves, k as int + 1);
            }
            v = Self::get_new_velocity(v, d);
            let last = ps[k + 1];
            let p = (last.0 + v.0, last.1 + v.1);
            ps.push(p);
            k = k + 1;
        }
        ps
    }

    /// Whether `cell` appears among the first `upto` entries of `ps`.
    fn occupied_in_prefix(ps: &Vec<(i32, i32)>, upto: usize, x: i32, y: i32) -> (r: bool)
        requires
            upto <= ps@.len(),
        ensures
            r == exists|t: int| 0 <= t < upto && ps@[t].0 == x && ps@[t].1 == y,
    {
        let mut t: usize = 0;
        while t < upto
            invariant
                t <= upto,
                upto <= ps@.len(),
                forall|u: int| 0 <= u < t ==> !(ps@[u].0 == x && ps@[u].1 == y),
            decreases upto - t,
        {
            let q = ps[t];
            if q.0 == x && q.1 == y {
                return true;
            }
            t = t + 1;
        }
        false
    }

    /// Replays the assigned walk and reports whether it is geometrically
    /// acceptable: self-avoiding, and free of dead ends walled in by earlier
    /// residues.  A pure read: asking twice always answers the same.
    pub fn is_valid(&self) -> (r: bool)
        requires
            contiguous(self@.slots),
            self@.slots.len() + 2 <= MAX_SEQ_LEN,
        ensures
            r == valid_moves(assigned_seq(self@.slots), self@.slots.len() as int),
    {
        let ghost moves = assigned_seq(self@.slots);
        let ghost total = self@.slots.len() as int;
        proof {
            lemma_some_count_bounds(self@.slots, self@.slots.len() as int);
        }
        let n = self.conformation.len();
        let ps = self.replay_positions();
        let m = ps.len();
        let mut a: usize = 0;
        while a < m
            invariant
                moves == assigned_seq(self@.slots),
                m == ps@.len(),
                m == moves.len() + 2,
                a <= m,
                forall|r: int|
                    0 <= r < m ==> #[trigger] ps@[r].0 == pos_of(moves, r).0 && ps@[r].1 == pos_of(
                        moves,
                        r,
                    ).1,
                forall|r1: int, r2: int|
                    0 <= r1 < r2 < m && r1 < a ==> pos_of(moves, r1) != pos_of(moves, r2),
            decreases m - a,
        {
            let pa = ps[a];
            let mut b: usize = a + 1;
            while b < m
                invariant
                    moves == assigned_seq(self@.slots),
                    m == ps@.len(),
                    m == moves.len() + 2,
                    a < b <= m,
                    pa == ps@[a as int],
                    forall|r: int|
                        0 <= r < m ==> #[trigger] ps@[r].0 == pos_of(moves, r).0 && ps@[r].1
                            == pos_of(moves, r).1,
                    forall|r2: int| a < r2 < b ==> pos_of(moves, a as int) != pos_of(moves, r2),
                decreases m - b,
            {
                let pb = ps[b];
                if pa.0 == pb.0 && pa.1 == pb.1 {
                    proof {
                        assert(pos_of(moves, a as int) == pos_of(moves, b as int));
                        assert(!self_avoiding(moves, moves.len() as int + 2));
                    }
                    return false;
                }
                proof {
                    assert(ps@[a as int].0 == pos_of(moves, a as int).0);
                    assert(ps@[a as int].1 == pos_of(moves, a as int).1);
                    assert(ps@[b as int].0 == pos_of(moves, b as int).0);
                    assert(ps@[b as int].1 == pos_of(moves, b as int).1);
                    assert(pos_of(moves, a as int) != pos_of(moves, b as int));
                }
                b = b + 1;
            }
            a = a + 1;
        }
        proof {
            assert(self_avoiding(moves, moves.len() as int + 2));
        }
        if m < 2 + 1 {
            return true;
        }
        let c = m - 2;
        let mut j: usize = 1;
        while j < c
            invariant
                moves == assigned_seq(self@.slots),
                total == self@.slots.len() as int,
                n == self@.slots.len(),
                self@.slots.len() + 2 <= MAX_SEQ_LEN,
                m == ps@.len(),
                m == moves.len() + 2,
                c == m - 2,
                1 <= j <= c,
                self_avoiding(moves, moves.len() as int + 2),
                forall|r: int|
                    0 <= r < m ==> #[trigger] ps@[r].0 == pos_of(moves, r).0 && ps@[r].1 == pos_of(
                        moves,
                        r,
                    ).1,
                forall|jj: int| 1 <= jj < j && jj < total - 1 ==> !dead_end_at(moves, jj),
            decreases c - j,
        {
            if j + 1 < n {
                let p = ps[j + 2];
                proof {
                    lemma_pos_bound(moves, j as int + 2);
                }
                let o1 = Self::occupied_in_prefix(&ps, j + 2, p.0 + 1, p.1);
                let o2 = Self::occupied_in_prefix(&ps, j + 2, p.0 - 1, p.1);
                let o3 = Self::occupied_in_prefix(&ps, j + 2, p.0, p.1 + 1);
                let o4 = Self::occupied_in_prefix(&ps, j + 2, p.0, p.1 - 1);
                proof {
                    let gp = pos_of(moves, j as int + 2);
                    assert(gp.0 == p.0 as int && gp.1 == p.1 as int);
                    assert(o1 == occupied_before(moves, (gp.0 + 1, gp.1), j as int + 2)) by {
                        if o1 {
                            let t = choose|t: int|
                                0 <= t < j + 2 && ps@[t].0 == p.0 + 1 && ps@[t].1 == p.1;
                            assert(pos_of(moves, t) == (gp.0 + 1, gp.1));
                        }
                        if occupied_before(moves, (gp.0 + 1, gp.1), j as int + 2) {
                            let t = choose|t: int|
                                0 <= t < j + 2 && pos_of(moves, t) == (gp.0 + 1, gp.1);
                            assert(ps@[t].0 == pos_of(moves, t).0);
                            assert(ps@[t].1 == pos_of(moves, t).1);
                            assert(ps@[t].0 == p.0 + 1 && ps@[t].1 == p.1);
                        }
                    }
                    assert(o2 == occupied_before(moves, (gp.0 - 1, gp.1), j as int + 2)) by {
                        if o2 {
                            let t = choose|t: int|
                                0 <= t < j + 2 && ps@[t].0 == p.0 - 1 && ps@[t].1 == p.1;
                            assert(pos_of(moves, t) == (gp.0 - 1, gp.1));
                        }
                        if occupied_before(moves, (gp.0 - 1, gp.1), j as int + 2) {
                            let t = choose|t: int|
                                0 <= t < j + 2 && pos_of(moves, t) == (gp.0 - 1, gp.1);
                            assert(ps@[t].0 == pos_of(moves, t).0);
                            assert(ps@[t].1 == pos_of(moves, t).1);
                            assert(ps@[t].0 == p.0 - 1 && ps@[t].1 == p.1);
                        }
                    }
                    assert(o3 == occupied_before(moves, (gp.0, gp.1 + 1), j as int + 2)) by {
                        if o3 {
                            let t = choose|t: int|
                                0 <= t < j + 2 && ps@[t].0 == p.0 && ps@[t].1 == p.1 + 1;
                            assert(pos_of(moves, t) == (gp.0, gp.1 + 1));
                        }
                        if occupied_before(moves, (gp.0, gp.1 + 1), j as int + 2) {
                            let t = choose|t: int|
                                0 <= t < j + 2 && pos_of(moves, t) == (gp.0, gp.1 + 1);
                            assert(ps@[t].0 == pos_of(moves, t).0);
                            assert(ps@[t].1 == pos_of(moves, t).1);
                            assert(ps@[t].0 == p.0 && ps@[t].1 == p.1 + 1);
                        }
                    }
                    assert(o4 == occupied_before(moves, (gp.0, gp.1 - 1), j as int + 2)) by {
                        if o4 {
                            let t = choose|t: int|
                                0 <= t < j + 2 && ps@[t].0 == p.0 && ps@[t].1 == p.1 - 1;
                            assert(pos_of(moves, t) == (gp.0, gp.1 - 1));
                        }
                        if occupied_before(moves, (gp.0, gp.1 - 1), j as int + 2) {
                            let t = choose|t: int|
                                0 <= t < j + 2 && pos_of(moves, t) == (gp.0, gp.1 - 1);
                            assert(ps@[t].0 == pos_of(moves, t).0);
                            assert(ps@[t].1 == pos_of(moves, t).1);
                            assert(ps@[t].0 == p.0 && ps@[t].1 == p.1 - 1);
                        }
                    }
                    assert((o1 && o2 && o3 && o4) == dead_end_at(moves, j as int));
                }
                if o1 && o2 && o3 && o4 {
                    proof {
                        assert(dead_end_at(moves, j as int));
                        assert(1 <= j as int && (j as int) < moves.len() && (j as int) < total - 1);
                        assert(!valid_moves(moves, total));
                    }
                    return false;
                }
            }
            j = j + 1;
        }
        proof {
            assert forall|jj: int| 1 <= jj < moves.len() && jj < total - 1 implies !dead_end_at(
                moves,
                jj,
            ) by {}
            assert(valid_moves(moves, total));
        }
        true
    }

    /// Fitness of the placed residues: every hydrophobic contact discovered
    /// from both endpoints, then halved — an exact integer, never a loss.
    pub fn evaluate(&self) -> (r: u64)
        requires
            contiguous(self@.slots),
            self@.slots.len() + 2 <= MAX_SEQ_LEN,
            self@.prot.len() == self@.slots.len() + 2,
        ensures
            r == prefix_fitness(self@),
    {
        let ghost moves = assigned_seq(self@.slots);
        let ghost prot = self@.prot;
        proof {
            lemma_some_count_bounds(self@.slots, self@.slots.len() as int);
        }
        let ps = self.replay_positions();
        let placed = ps.len();
        let ghost pl = placed as int;
        let mut count: u64 = 0;
        let mut a: usize = 0;
        while a < placed
            invariant
                moves == assigned_seq(self@.slots),
                prot == self@.prot,
                placed == ps@.len(),
                pl == placed as int,
                placed == moves.len() + 2,
                placed <= prot.len(),
                placed <= MAX_SEQ_LEN,
                a <= placed,
                forall|r: int|
                    0 <= r < placed ==> #[trigger] ps@[r].0 == pos_of(moves, r).0 && ps@[r].1
                        == pos_of(moves, r).1,
                count == directed_partial(prot, moves, a as int, pl),
            decreases placed - a,
        {
            proof {
                lemma_directed_partial_bounds(prot, moves, a as int, pl);
            }
            if matches!(self.protein[a], AminoAcid::Hydrophobic) {
                let pa = ps[a];
                let mut b: usize = 0;
                while b < placed
                    invariant
                        moves == assigned_seq(self@.slots),
                        prot == self@.prot,
                        placed == ps@.len(),
                        pl == placed as int,
                        placed == moves.len() + 2,
                        placed <= prot.len(),
                        placed <= MAX_SEQ_LEN,
                        a < placed,
                        b <= placed,
                        pa == ps@[a as int],
                        prot[a as int] is Hydrophobic,
                        forall|r: int|
                            0 <= r < placed ==> #[trigger] ps@[r].0 == pos_of(moves, r).0
                                && ps@[r].1 == pos_of(moves, r).1,
                        count == directed_partial(prot, moves, a as int, pl) + contacts_with(
                            prot,
                            moves,
                            a as int,
                            b as int,
                        ),
                    decreases placed - b,
                {
                    let pb = ps[b];
                    let dx = (pa.0 as i64) - (pb.0 as i64);
                    let dy = (pa.1 as i64) - (pb.1 as i64);
                    let adj = (dx == 1 && dy == 0) || (dx == -1 && dy == 0) || (dy == 1 && dx == 0)
                        || (dy == -1 && dx == 0);
                    let far = a > b + 1 || b > a + 1;
                    let hb = matches!(self.protein[b], AminoAcid::Hydrophobic);
                    proof {
                        assert(adj == adjacent(pos_of(moves, a as int), pos_of(moves, b as int)));
                        assert((adj && far && hb) == contact(prot, moves, a as int, b as int));
                        lemma_directed_partial_bounds(prot, moves, a as int, pl);
                        lemma_contacts_with_bounds(prot, moves, a as int, b as int);
                        assert((a as int) * pl + pl <= pl * pl) by (nonlinear_arith)
                            requires
                                0 <= (a as int),
                                (a as int) < pl,
                        ;
                        assert(pl * pl < 0x4000_0000_0000_0000) by (nonlinear_arith)
                            requires
                                0 <= pl,
                                pl <= 0x0800_0002,
                        ;
                    }
                    if adj && far && hb {
                        count = count + 1;
                    }
                    b = b + 1;
                }
            } else {
                proof {
                    lemma_contacts_polar(prot, moves, a as int, pl);
                }
            }
            a = a + 1;
        }
        proof {
            lemma_directed_even(prot, moves, pl);
            lemma_pair_count_bounds(prot, moves, pl);
        }
        count / 2
    }

    /// Non-local backtrack after a construction dead end: the cursor is
    /// halved and everything beyond the new cursor is cleared.
    pub fn rewind(&mut self)
        requires
            wf(old(self)@),
        ensures
            wf(final(self)@),
            final(self)@.prot == old(self)@.prot,
            final(self)@.slots.len() == old(self)@.slots.len(),
            final(self)@.cursor == old(self)@.cursor / 2,
            forall|j: int|
                0 <= j < final(self)@.cursor ==> final(self)@.slots[j] == old(self)@.slots[j],
            forall|j: int|
                final(self)@.cursor <= j < final(self)@.slots.len()
                    ==> final(self)@.slots[j] is None,
            old(self)@.cursor > 0 ==> final(self)@.cursor < old(self)@.cursor,
            final(self).spec_config() == old(self).spec_config(),
    {
        let ghost m0 = self@;
        self.i = self.i / 2;
        let n = self.conformation.len();
        let mut k = self.i;
        while k < n
            invariant
                self.i as int == m0.cursor / 2,
                self@.prot == m0.prot,
                self@.cursor == self.i as int,
                self@.slots.len() == m0.slots.len(),
                n == m0.slots.len(),
                self.i <= k <= n,
                self.spec_config() == old(self).spec_config(),
                forall|j: int| 0 <= j < k && j < self@.slots.len() ==> (j < self.i as int ==> self@.slots[j] == m0.slots[j]),
                forall|j: int| self.i as int <= j < k ==> self@.slots[j] is None,
                forall|j: int| k <= j < n ==> self@.slots[j] == m0.slots[j],
            decreases n - k,
        {
            self.conformation.set(k, None);
            k = k + 1;
        }
        proof {
            assert forall|j: int| self.i as int <= j < n implies self@.slots[j] is None by {
                if j >= k {
                    assert(self@.slots[j] == m0.slots[j]);
                }
            }
            assert forall|j: int| 0 <= j < self@.cursor implies self@.slots[j] is Some by {
                assert(self@.slots[j] == m0.slots[j]);
            }
            assert(shaped(self@));
            let moves0 = assigned_of(m0);
            let moves1 = assigned_of(self@);
            assert forall|j: int| 0 <= j < moves1.len() implies moves1[j] == moves0.subrange(
                0,
                m0.cursor / 2,
            )[j] by {}
            assert(moves1 =~= moves0.subrange(0, m0.cursor / 2));
            lemma_valid_prefix(moves0, m0.slots.len() as int, m0.cursor / 2);
        }
    }

    /// Canonical textual encoding of a fully grown conformation: one letter
    /// per move.
    pub fn to_string(&self) -> (r: String)
        requires
            wf(self@),
            fully_grown(self@),
        ensures
            r@.len() == self@.slots.len(),
            forall|k: int|
                0 <= k < r@.len() ==> r@[k] == dir_char(slot_dir(self@.slots[k])),
    {
        let n = self.conformation.len();
        let mut r = String::new();
        let mut k: usize = 0;
        proof {
            reveal_strlit("S");
            reveal_strlit("L");
            reveal_strlit("R");
        }
        while k < n
            invariant
                wf(self@),
                fully_grown(self@),
                n == self@.slots.len(),
                k <= n,
                r@.len() == k,
                forall|j: int| 0 <= j < k ==> r@[j] == dir_char(slot_dir(self@.slots[j])),
            decreases n - k,
        {
            proof {
                reveal_strlit("S");
                reveal_strlit("L");
                reveal_strlit("R");
            }
            let d = self.conformation[k].unwrap();
            match d {
                Direction::Straight => r.append("S"),
                Direction::Left => r.append("L"),
                Direction::Right => r.append("R"),
            }
            k = k + 1;
        }
        r
    }
}

impl Conformation {
    /// Tentatively writes `d` into the cursor slot, reports whether the
    /// extended walk stays acceptable and what its fitness would be, and
    /// puts the slot back.
    fn probe(&mut self, d: Direction) -> (r: (bool, u64))
        requires
            wf(old(self)@),
            !fully_grown(old(self)@),
        ensures
            final(self)@ == old(self)@,
            final(self).spec_config() == old(self).spec_config(),
            r.0 == valid_moves(
                assigned_of(old(self)@).push(d),
                old(self)@.slots.len() as int,
            ),
            r.0 ==> r.1 == pair_count(
                old(self)@.prot,
                assigned_of(old(self)@).push(d),
                old(self)@.cursor + 3,
            ),
    {
        let ghost m0 = self@;
        let i = self.i;
        self.conformation.set(i, Some(d));
        proof {
            assert forall|j1: int, j2: int|
                0 <= j1 < j2 < self@.slots.len() && self@.slots[j2] is Some implies self
                @.slots[j1] is Some by {}
            lemma_some_count_split(self@.slots, m0.cursor + 1, self@.slots.len() as int);
            assert(assigned_seq(self@.slots) =~= assigned_of(m0).push(d));
        }
        let ok = self.is_valid();
        let fit = if ok {
            self.evaluate()
        } else {
            0
        };
        self.conformation.set(i, None);
        proof {
            assert(self@.slots =~= m0.slots);
            assert(self@ == m0);
        }
        (ok, fit)
    }
}

/// Growing the walk by one residue can only add contacts: the fitness of the
/// extended walk is at least the fitness before, and stays bounded.
proof fn lemma_extension_fitness(
    prot: Seq<AminoAcid>,
    moves0: Seq<Direction>,
    d: Direction,
    c: int,
)
    requires
        c == moves0.len(),
        0 <= c,
        c + 3 <= MAX_SEQ_LEN as int + 2,
    ensures
        pair_count(prot, moves0.push(d), c + 3) >= pair_count(prot, moves0, c + 2),
        pair_count(prot, moves0.push(d), c + 3) <= (c + 3) * (c + 3),
        (c + 3) * (c + 3) < 0x4000_0000_0000_0000,
{
    let ext = moves0.push(d);
    lemma_prefix_agree(moves0, ext, c);
    lemma_pair_count_agree(prot, moves0, ext, c + 2);
    lemma_contacts_with_bounds(prot, ext, c + 2, c + 2);
    lemma_pair_count_bounds(prot, ext, c + 3);
    assert(pair_count(prot, ext, c + 3) == pair_count(prot, ext, c + 2) + contacts_with(
        prot,
        ext,
        c + 2,
        c + 2,
    ));
    assert((c + 3) * (c + 3) < 0x4000_0000_0000_0000) by (nonlinear_arith)
        requires
            0 <= c,
            c + 3 <= MAX_SEQ_LEN as int + 2,
    ;
}

impl Conformation {
    /// Extends the walk by exactly one residue if some move keeps it
    /// acceptable, drawing the move at random with probability proportional
    /// to `pheromone^alpha * heuristic^beta`; otherwise leaves the walk
    /// unchanged and reports failure.
    pub fn grow(&mut self, pheromones: &Pheromones) -> (r: bool)
        requires
            wf(old(self)@),
            pheromones.wf(),
            pheromones.spec_rows() == old(self)@.slots.len(),
        ensures
            wf(final(self)@),
            final(self)@.prot == old(self)@.prot,
            final(self)@.slots.len() == old(self)@.slots.len(),
            final(self).spec_config() == old(self).spec_config(),
            r == (fully_grown(old(self)@) || exists|d: Direction|
                valid_moves(assigned_of(old(self)@).push(d), old(self)@.slots.len() as int)),
            fully_grown(old(self)@) ==> final(self)@ == old(self)@,
            !fully_grown(old(self)@) && r ==> final(self)@.cursor == old(self)@.cursor + 1
                && (exists|d: Direction|
                    final(self)@.slots == old(self)@.slots.update(old(self)@.cursor, Some(d))),
            !r ==> final(self)@ == old(self)@,
    {
        if self.is_fully_grown() {
            return true;
        }
        let ghost m0 = self@;
        let ghost moves0 = assigned_of(m0);
        let ghost total = m0.slots.len() as int;
        proof {
            lemma_fitness_shaped(m0);
        }
        let fit = self.evaluate();
        let i = self.i;
        let (ok_s, fit_s) = self.probe(Direction::Straight);
        let (ok_l, fit_l) = self.probe(Direction::Left);
        let (ok_r, fit_r) = self.probe(Direction::Right);
        if !ok_s && !ok_l && !ok_r {
            proof {
                assert forall|d: Direction| !valid_moves(moves0.push(d), total) by {
                    match d {
                        Direction::Straight => {},
                        Direction::Left => {},
                        Direction::Right => {},
                    }
                }
            }
            return false;
        }
        let mut valids: Vec<Direction> = Vec::new();
        let mut weights: Vec<u64> = Vec::new();
        proof {
            lemma_extension_fitness(m0.prot, moves0, Direction::Straight, m0.cursor);
            lemma_extension_fitness(m0.prot, moves0, Direction::Left, m0.cursor);
            lemma_extension_fitness(m0.prot, moves0, Direction::Right, m0.cursor);
        }
        if ok_s {
            let h = fit_s - fit + 1;
            valids.push(Direction::Straight);
            weights.push(pheromones.get_weight(i, Direction::Straight, h));
        }
        if ok_l {
            let h = fit_l - fit + 1;
            valids.push(Direction::Left);
            weights.push(pheromones.get_weight(i, Direction::Left, h));
        }
        if ok_r {
            let h = fit_r - fit + 1;
            valids.push(Direction::Right);
            weights.push(pheromones.get_weight(i, Direction::Right, h));
        }
        proof {
            assert(valids@.len() == weights@.len());
            assert(1 <= valids@.len() <= 3);
        }
        let mut total_w: u64 = 0;
        let mut any_pos = false;
        let mut k: usize = 0;
        while k < weights.len()
            invariant
                k <= weights@.len(),
                weights@.len() <= 3,
                forall|t: int| 0 <= t < weights@.len() ==> weights@[t] <= crate::pheromones::W_CAP,
                total_w <= k * (crate::pheromones::W_CAP as int),
                any_pos == exists|t: int| 0 <= t < k && weights@[t] > 0,
            decreases weights@.len() - k,
        {
            total_w = total_w + weights[k];
            if weights[k] > 0 {
                any_pos = true;
            }
            k = k + 1;
        }
        let idx = if !any_pos {
            pick_uniform(valids.len())
        } else {
            pick_weighted(&weights)
        };
        let d = valids[idx];
        proof {
            assert(valid_moves(moves0.push(valids@[idx as int]), total));
        }
        self.conformation.set(i, Some(d));
        self.i = i + 1;
        proof {
            assert(assigned_of(self@) =~= moves0.push(d));
            assert forall|j: int| 0 <= j < self@.cursor implies self@.slots[j] is Some by {}
            assert(shaped(self@));
        }
        true
    }

    /// Deterministically extends the walk with `d` if that keeps it
    /// acceptable; reports whether the move was placed.
    pub fn place_move(&mut self, d: Direction) -> (r: bool)
        requires
            wf(old(self)@),
        ensures
            wf(final(self)@),
            final(self)@.prot == old(self)@.prot,
            final(self)@.slots.len() == old(self)@.slots.len(),
            final(self).spec_config() == old(self).spec_config(),
            r == (!fully_grown(old(self)@) && valid_moves(
                assigned_of(old(self)@).push(d),
                old(self)@.slots.len() as int,
            )),
            r ==> final(self)@.cursor == old(self)@.cursor + 1 && final(self)@.slots == old(
                self,
            )@.slots.update(old(self)@.cursor, Some(d)),
            !r ==> final(self)@ == old(self)@,
    {
        if self.is_fully_grown() {
            return false;
        }
        let ghost m0 = self@;
        let ghost moves0 = assigned_of(m0);
        let (ok, _fit) = self.probe(d);
        if ok {
            let i = self.i;
            self.conformation.set(i, Some(d));
            self.i = i + 1;
            proof {
                assert(assigned_of(self@) =~= moves0.push(d));
                assert forall|j: int| 0 <= j < self@.cursor implies self@.slots[j] is Some by {}
                assert(shaped(self@));
            }
            true
        } else {
            false
        }
    }
}

/// The walk that goes straight everywhere.
pub open spec fn all_straight(n: nat) -> Seq<Direction> {
    Seq::new(n, |j: int| Direction::Straight)
}

proof fn lemma_straight_pos(n: nat, r: int)
    requires
        0 <= r <= n + 1,
    ensures
        pos_of(all_straight(n), r) == (r, 0int),
        0 <= r <= n ==> vel_after(all_straight(n), r) == (1int, 0int),
    decreases r,
{
    if r > 0 {
        lemma_straight_pos(n, r - 1);
        if r > 1 {
            assert(vel_after(all_straight(n), r - 1) == step(
                vel_after(all_straight(n), r - 2),
                all_straight(n)[r - 2],
            ));
        }
    }
}

/// The straight-line fold is acceptable for any chain.
proof fn lemma_straight_valid(n: nat, total: int)
    ensures
        valid_moves(all_straight(n), total),
{
    let s = all_straight(n);
    assert forall|r1: int, r2: int| 0 <= r1 < r2 < s.len() + 2 implies pos_of(s, r1) != pos_of(
        s,
        r2,
    ) by {
        lemma_straight_pos(n, r1);
        lemma_straight_pos(n, r2);
    }
    assert forall|j: int| 1 <= j < s.len() && j < total - 1 implies !dead_end_at(s, j) by {
        lemma_straight_pos(n, j + 2);
        assert forall|r: int| 0 <= r < j + 2 implies pos_of(s, r) != (j + 3, 0int) by {
            lemma_straight_pos(n, r);
        }
        assert(!occupied_before(s, (j + 3, 0int), j + 2));
        assert(pos_of(s, j + 2) == (j + 2, 0int));
    }
}

impl Conformation {
    /// Resets the whole walk to the straight-line fold, which is acceptable
    /// for every chain, and marks it fully grown.
    pub fn reset_straight(&mut self)
        requires
            wf(old(self)@),
        ensures
            wf(final(self)@),
            fully_grown(final(self)@),
            final(self)@.prot == old(self)@.prot,
            final(self)@.slots.len() == old(self)@.slots.len(),
            final(self).spec_config() == old(self).spec_config(),
    {
        let n = self.conformation.len();
        let mut k: usize = 0;
        while k < n
            invariant
                self@.slots.len() == n,
                self@.prot == old(self)@.prot,
                self.spec_config() == old(self).spec_config(),
                k <= n,
                forall|j: int| 0 <= j < k ==> self@.slots[j] == Some(Direction::Straight),
            decreases n - k,
        {
            self.conformation.set(k, Some(Direction::Straight));
            k = k + 1;
        }
        self.i = n;
        proof {
            assert(assigned_of(self@) =~= all_straight(n as nat));
            lemma_straight_valid(n as nat, n as int);
            assert(shaped(self@));
        }
    }
}

impl Clone for Conformation {
    /// An independent copy with the same protein, moves and cursor.
    fn clone(&self) -> (r: Self)
        ensures
            r@ == self@,
            r.spec_config() == self.spec_config(),
    {
        Conformation {
            protein: copy_residues(&self.protein),
            conformation: copy_slots(&self.conformation),
            config: self.config,
            i: self.i,
        }
    }
}

/// Every prefix of a geometrically acceptable walk is itself acceptable.
pub proof fn lemma_valid_prefix(moves: Seq<Direction>, total: int, k: int)
    requires
        valid_moves(moves, total),
        0 <= k <= moves.len(),
    ensures
        valid_moves(moves.subrange(0, k), total),
{
    let sub = moves.subrange(0, k);
    lemma_prefix_agree(moves, sub, k);
    assert forall|r1: int, r2: int| 0 <= r1 < r2 < sub.len() + 2 implies pos_of(sub, r1) != pos_of(
        sub,
        r2,
    ) by {
        assert(pos_of(sub, r1) == pos_of(moves, r1));
        assert(pos_of(sub, r2) == pos_of(moves, r2));
    }
    assert forall|j: int| 1 <= j < sub.len() && j < total - 1 implies !dead_end_at(sub, j) by {
        assert(!dead_end_at(moves, j));
        if dead_end_at(sub, j) {
            let p = pos_of(sub, j + 2);
            assert(p == pos_of(moves, j + 2));
            let c1 = (p.0 + 1, p.1);
            let c2 = (p.0 - 1, p.1);
            let c3 = (p.0, p.1 + 1);
            let c4 = (p.0, p.1 - 1);
            let t1 = choose|t: int| 0 <= t < j + 2 && pos_of(sub, t) == c1;
            assert(pos_of(moves, t1) == c1);
            let t2 = choose|t: int| 0 <= t < j + 2 && pos_of(sub, t) == c2;
            assert(pos_of(moves, t2) == c2);
            let t3 = choose|t: int| 0 <= t < j + 2 && pos_of(sub, t) == c3;
            assert(pos_of(moves, t3) == c3);
            let t4 = choose|t: int| 0 <= t < j + 2 && pos_of(sub, t) == c4;
            assert(pos_of(moves, t4) == c4);
            assert(dead_end_at(moves, j));
        }
    }
}

/// A fully grown, geometrically acceptable conformation is acceptable — in
/// particular self-avoiding — at every prefix length of its replay.
pub proof fn lemma_valid_at_every_prefix(m: ConfModel, k: int)
    requires
        wf(m),
        fully_grown(m),
        0 <= k <= assigned_of(m).len(),
    ensures
        valid_moves(assigned_of(m).subrange(0, k), m.slots.len() as int),
        self_avoiding(assigned_of(m).subrange(0, k), k + 2),
{
    lemma_valid_prefix(assigned_of(m), m.slots.len() as int, k);
}

// --- local search -----------------------------------------------------------


fn copy_slots(v: &Vec<Option<Direction>>) -> (r: Vec<Option<Direction>>)
    ensures
        r@ == v@,
{
    let mut r: Vec<Option<Direction>> = Vec::new();
    let mut k: usize = 0;
    while k < v.len()
        invariant
            k <= v@.len(),
            r@ == v@.subrange(0, k as int),
        decreases v@.len() - k,
    {
        r.push(v[k]);
        proof {
            assert(r@ =~= v@.subrange(0, k + 1));
        }
        k = k + 1;
    }
    proof {
        assert(r@ =~= v@);
    }
    r
}

/// The two move symbols other than `d`.
fn two_others(d: Direction) -> (r: (Direction, Direction))
    ensures
        r.0 != d,
        r.1 != d,
        r.0 != r.1,
{
    match d {
        Direction::Straight => (Direction::Left, Direction::Right),
        Direction::Left => (Direction::Straight, Direction::Right),
        Direction::Right => (Direction::Straight, Direction::Left),
    }
}

impl Conformation {
    /// One greedy pass over the positions in a random order: at each
    /// position every move is tried, a strictly improving move is kept, an
    /// equal-fitness move is kept with probability `neutral_mutation_rate`,
    /// and anything else — overlaps first of all — is undone.  Fitness never
    /// decreases; the report says whether it strictly improved.
    pub fn point_mutation(&mut self) -> (r: bool)
        requires
            wf(old(self)@),
            fully_grown(old(self)@),
        ensures
            wf(final(self)@),
            fully_grown(final(self)@),
            final(self)@.prot == old(self)@.prot,
            final(self)@.slots.len() == old(self)@.slots.len(),
            final(self).spec_config() == old(self).spec_config(),
            fitness_of(final(self)@) >= fitness_of(old(self)@),
            r == (fitness_of(final(self)@) > fitness_of(old(self)@)),
    {
        let ghost m0 = self@;
        let ghost f0 = fitness_of(m0);
        let n = self.conformation.len();
        let mut indexes: Vec<usize> = Vec::new();
        let mut k: usize = 0;
        while k < n
            invariant
                k <= n,
                indexes@.len() == k,
                forall|j: int| 0 <= j < k ==> indexes@[j] < n,
            decreases n - k,
        {
            indexes.push(k);
            k = k + 1;
        }
        shuffle_indices(&mut indexes);
        proof {
            broadcast use group_seq_properties;

            assert forall|j: int| 0 <= j < indexes@.len() implies indexes@[j] < n by {
                assert(indexes@.to_multiset().count(indexes@[j]) > 0);
            }
        }
        proof {
            lemma_fitness_shaped(self@);
        }
        let mut current_fitness = self.evaluate();
        let mut improved = false;
        let directions = Direction::vec();
        let mut t: usize = 0;
        while t < indexes.len()
            invariant
                wf(self@),
                fully_grown(self@),
                self@.prot == m0.prot,
                self@.slots.len() == m0.slots.len(),
                self@.slots.len() == n,
                self.spec_config() == old(self).spec_config(),
                t <= indexes@.len(),
                forall|j: int| 0 <= j < indexes@.len() ==> indexes@[j] < n,
                current_fitness == fitness_of(self@),
                fitness_of(self@) >= f0,
                improved == (fitness_of(self@) > f0),
            decreases indexes@.len() - t,
        {
            let i = indexes[t];
            let mut u: usize = 0;
            while u < directions.len()
                invariant
                    wf(self@),
                    fully_grown(self@),
                    self@.prot == m0.prot,
                    self@.slots.len() == m0.slots.len(),
                    self@.slots.len() == n,
                    self.spec_config() == old(self).spec_config(),
                    i < n,
                    u <= directions@.len(),
                    current_fitness == fitness_of(self@),
                    fitness_of(self@) >= f0,
                    improved == (fitness_of(self@) > f0),
                decreases directions@.len() - u,
            {
                let d = directions[u];
                let ghost prev = self@;
                let orig = self.conformation[i];
                self.conformation.set(i, Some(d));
                proof {
                    assert forall|j: int| 0 <= j < self@.cursor implies self@.slots[j] is Some by {}
                    lemma_fitness_shaped(self@);
                }
                if !self.is_valid() {
                    self.conformation.set(i, orig);
                    proof {
                        assert(self@.slots =~= prev.slots);
                        assert(self@ == prev);
                    }
                } else {
                    let new_fitness = self.evaluate();
                    proof {
                        lemma_fitness_shaped(self@);
                    }
                    if new_fitness > current_fitness {
                        current_fitness = new_fitness;
                        improved = true;
                    } else if new_fitness == current_fitness && pick_uniform(SCALE as usize) < (
                    self.config.neutral_mutation_rate as usize) {
                        // kept: an equal-fitness neutral move
                    } else {
                        self.conformation.set(i, orig);
                        proof {
                            assert(self@.slots =~= prev.slots);
                            assert(self@ == prev);
                        }
                    }
                }
                u = u + 1;
            }
            t = t + 1;
        }
        improved
    }

    /// One macro move: every position of a random contiguous range is
    /// reassigned to a random different move (one retry, then that position
    /// is restored), and the whole change is kept only if fitness improved —
    /// or, on a tie, kept with probability `1 - neutral_mutation_rate`.
    /// Fitness never decreases; the report says whether it strictly improved.
    pub fn macro_mutation_neightbourhood(&mut self) -> (r: bool)
        requires
            wf(old(self)@),
            fully_grown(old(self)@),
        ensures
            wf(final(self)@),
            fully_grown(final(self)@),
            final(self)@.prot == old(self)@.prot,
            final(self)@.slots.len() == old(self)@.slots.len(),
            final(self).spec_config() == old(self).spec_config(),
            fitness_of(final(self)@) >= fitness_of(old(self)@),
            r == (fitness_of(final(self)@) > fitness_of(old(self)@)),
    {
        let ghost m0 = self@;
        let n = self.conformation.len();
        let backup = copy_slots(&self.conformation);
        proof {
            lemma_fitness_shaped(self@);
        }
        let fitness = self.evaluate();
        let mut i = pick_uniform(n);
        let mut j = pick_uniform(n);
        if j < i {
            let temp = i;
            i = j;
            j = temp;
        }
        let mut k = i;
        while k <= j
            invariant
                wf(self@),
                fully_grown(self@),
                self@.prot == m0.prot,
                self@.slots.len() == m0.slots.len(),
                self@.slots.len() == n,
                self.spec_config() == old(self).spec_config(),
                j < n,
                i <= k <= j + 1,
            decreases j + 1 - k,
        {
            let ghost at_top = self@;
            let original = self.conformation[k].unwrap();
            let others = two_others(original);
            let flip = pick_uniform(2);
            let (try1, try2) = if flip == 0 {
                (others.0, others.1)
            } else {
                (others.1, others.0)
            };
            self.conformation.set(k, Some(try1));
            proof {
                assert forall|jj: int| 0 <= jj < self@.cursor implies self@.slots[jj] is Some by {}
                lemma_fitness_shaped(self@);
            }
            if !self.is_valid() {
                self.conformation.set(k, Some(try2));
                proof {
                    assert forall|jj: int|
                        0 <= jj < self@.cursor implies self@.slots[jj] is Some by {}
                    lemma_fitness_shaped(self@);
                }
                if !self.is_valid() {
                    self.conformation.set(k, Some(original));
                    proof {
                        assert(self@.slots =~= at_top.slots);
                        assert(self@ == at_top);
                    }
                }
            }
            k = k + 1;
        }
        proof {
            lemma_fitness_shaped(self@);
        }
        let new_fitness = self.evaluate();
        if new_fitness > fitness {
            true
        } else if new_fitness == fitness {
            // a tie keeps the change with probability 1 - neutral_mutation_rate
            if pick_uniform(SCALE as usize) < (self.config.neutral_mutation_rate as usize) {
                self.conformation = backup;
                proof {
                    assert(self@ == m0);
                }
            }
            false
        } else {
            self.conformation = backup;
            proof {
                assert(self@ == m0);
            }
            false
        }
    }

    /// One local-search pass: a point-mutation sweep, then a macro move.
    /// Fitness never decreases across any sequence of accepted mutations;
    /// the report says whether this pass strictly improved it.
    pub fn local_search(&mut self) -> (r: bool)
        requires
            wf(old(self)@),
            fully_grown(old(self)@),
        ensures
            wf(final(self)@),
            fully_grown(final(self)@),
            final(self)@.prot == old(self)@.prot,
            final(self)@.slots.len() == old(self)@.slots.len(),
            final(self).spec_config() == old(self).spec_config(),
            fitness_of(final(self)@) >= fitness_of(old(self)@),
            r == (fitness_of(final(self)@) > fitness_of(old(self)@)),
    {
        let improved_point = self.point_mutation();
        let improved_macro = self.macro_mutation_neightbourhood();
        improved_point || improved_macro
    }
}

} // verus!
