//! The catalogue of shapes: for each of the seven kinds, its rotation states
//! and the pose in which it enters the field.

use crate::tetrimino::{shape_inhabited, shape_uniform, shape_wf, occupied, Kind, Tetrimino, TetriminoView};
use crate::occupancy::{cells_upto, shape_cells};
use vstd::prelude::*;

verus! {

/// The bar, lying and standing.
pub const I_STATES: [[[u8; 4]; 4]; 2] = [
    [[1, 1, 1, 1], [0, 0, 0, 0], [0, 0, 0, 0], [0, 0, 0, 0]],
    [[0, 1, 0, 0], [0, 1, 0, 0], [0, 1, 0, 0], [0, 1, 0, 0]],
];

pub const J_STATES: [[[u8; 4]; 4]; 4] = [
    [[2, 2, 2, 0], [2, 0, 0, 0], [0, 0, 0, 0], [0, 0, 0, 0]],
    [[2, 2, 0, 0], [0, 2, 0, 0], [0, 2, 0, 0], [0, 0, 0, 0]],
    [[0, 0, 2, 0], [2, 2, 2, 0], [0, 0, 0, 0], [0, 0, 0, 0]],
    [[2, 0, 0, 0], [2, 0, 0, 0], [2, 2, 0, 0], [0, 0, 0, 0]],
];

pub const L_STATES: [[[u8; 4]; 4]; 4] = [
    [[3, 3, 3, 0], [0, 0, 3, 0], [0, 0, 0, 0], [0, 0, 0, 0]],
    [[0, 3, 0, 0], [0, 3, 0, 0], [3, 3, 0, 0], [0, 0, 0, 0]],
    [[3, 0, 0, 0], [3, 3, 3, 0], [0, 0, 0, 0], [0, 0, 0, 0]],
    [[3, 3, 0, 0], [3, 0, 0, 0], [3, 0, 0, 0], [0, 0, 0, 0]],
];

/// The square, which has one state only.
pub const O_STATES: [[[u8; 4]; 4]; 1] = [
    [[4, 4, 0, 0], [4, 4, 0, 0], [0, 0, 0, 0], [0, 0, 0, 0]],
];

pub const S_STATES: [[[u8; 4]; 4]; 2] = [
    [[0, 5, 5, 0], [5, 5, 0, 0], [0, 0, 0, 0], [0, 0, 0, 0]],
    [[0, 5, 0, 0], [0, 5, 5, 0], [0, 0, 5, 0], [0, 0, 0, 0]],
];

pub const Z_STATES: [[[u8; 4]; 4]; 2] = [
    [[6, 6, 0, 0], [0, 6, 6, 0], [0, 0, 0, 0], [0, 0, 0, 0]],
    [[0, 0, 6, 0], [0, 6, 6, 0], [0, 6, 0, 0], [0, 0, 0, 0]],
];

pub const T_STATES: [[[u8; 4]; 4]; 4] = [
    [[7, 7, 7, 0], [0, 7, 0, 0], [0, 0, 0, 0], [0, 0, 0, 0]],
    [[0, 7, 0, 0], [7, 7, 0, 0], [0, 7, 0, 0], [0, 0, 0, 0]],
    [[0, 7, 0, 0], [7, 7, 7, 0], [0, 0, 0, 0], [0, 0, 0, 0]],
    [[0, 7, 0, 0], [0, 7, 7, 0], [0, 7, 0, 0], [0, 0, 0, 0]],
];

/// The rotation states of a kind, in the order in which a rotation goes through them.
pub open spec fn rotation_states(kind: Kind) -> Seq<Seq<Seq<u8>>> {
    match kind {
        Kind::I => I_STATES.deep_view(),
        Kind::J => J_STATES.deep_view(),
        Kind::L => L_STATES.deep_view(),
        Kind::O => O_STATES.deep_view(),
        Kind::S => S_STATES.deep_view(),
        Kind::Z => Z_STATES.deep_view(),
        Kind::T => T_STATES.deep_view(),
    }
}

/// A piece of the given kind as it enters the field: in its first state, its
/// anchor in the top row, in column 5 for the square and 4 for the others.
pub open spec fn spawn_pose(kind: Kind) -> TetriminoView {
    TetriminoView {
        kind,
        states: rotation_states(kind),
        x: kind.spawn_x_spec() as int,
        y: 0,
        current_state: 0,
    }
}

/// Copies a table of rotation states into the vectors that a piece holds.
fn states_from<const N: usize>(table: &[[[u8; 4]; 4]; N]) -> (states: Vec<Vec<Vec<u8>>>)
    ensures
        states.deep_view() == table.deep_view(),
{
    let mut states: Vec<Vec<Vec<u8>>> = Vec::new();
    let mut s: usize = 0;
    while s < N
        invariant
            0 <= s <= N,
            states.len() == s,
            forall|i: int| 0 <= i < s ==> (#[trigger] states[i]).deep_view() == table[i].deep_view(),
        decreases N - s,
    {
        let mut grid: Vec<Vec<u8>> = Vec::new();
        let mut r: usize = 0;
        while r < 4
            invariant
                0 <= r <= 4,
                0 <= s < N,
                grid.len() == r,
                forall|i: int| 0 <= i < r ==> (#[trigger] grid[i])@ == table[s as int][i]@,
            decreases 4 - r,
        {
            let mut row: Vec<u8> = Vec::new();
            let mut c: usize = 0;
            while c < 4
                invariant
                    0 <= c <= 4,
                    0 <= r < 4,
                    0 <= s < N,
                    row.len() == c,
                    forall|i: int| 0 <= i < c ==> #[trigger] row[i] == table[s as int][r as int][i],
                decreases 4 - c,
            {
                row.push(table[s][r][c]);
                c += 1;
            }
            assert(row@ =~= table[s as int][r as int]@);
            grid.push(row);
            r += 1;
        }
        assert(grid.deep_view() =~~= table[s as int].deep_view());
        states.push(grid);
        s += 1;
    }
    assert(states.deep_view() =~~= table.deep_view());
    states
}

/// Every piece of the catalogue is well formed in the pose in which it enters the field.
pub proof fn lemma_spawn_pose_wf(kind: Kind)
    ensures
        spawn_pose(kind).wf(),
{
    let p = spawn_pose(kind);
    assert forall|s: int| 0 <= s < p.states.len() implies {
        &&& shape_wf(#[trigger] p.states[s])
        &&& shape_uniform(p.states[s], p.kind.value_spec())
        &&& shape_inhabited(p.states[s])
    } by {
        let shape = p.states[s];
        assert(shape_wf(shape));
        assert(shape_uniform(shape, kind.value_spec()));
        assert(occupied(shape, 1, 0) || occupied(shape, 1, 1) || occupied(shape, 1, 2));
    }
}

/// Every rotation state of the catalogue has four cells.
pub proof fn lemma_catalogue_has_four_cells(kind: Kind, s: int)
    requires
        0 <= s < rotation_states(kind).len(),
    ensures
        shape_cells(rotation_states(kind)[s]) == 4,
{
    reveal_with_fuel(cells_upto, 17);
}

/// A source of pieces of one kind.
pub trait TetriminoGenerator {
    /// The kind of piece that this source gives.
    spec fn kind() -> Kind;

    /// A fresh piece, in the pose in which it enters the field.
    fn new() -> (piece: Tetrimino)
        ensures
            piece@ == spawn_pose(Self::kind()),
            piece@.wf(),
    ;
}

pub struct TetriminoI;

pub struct TetriminoJ;

pub struct TetriminoL;

pub struct TetriminoO;

pub struct TetriminoS;

pub struct TetriminoZ;

pub struct TetriminoT;

impl TetriminoGenerator for TetriminoI {
    open spec fn kind() -> Kind {
        Kind::I
    }

    fn new() -> (piece: Tetrimino) {
        proof {
            lemma_spawn_pose_wf(Kind::I);
        }
        Tetrimino { kind: Kind::I, states: states_from(&I_STATES), x: 4, y: 0, current_state: 0 }
    }
}

impl TetriminoGenerator for TetriminoJ {
    open spec fn kind() -> Kind {
        Kind::J
    }

    fn new() -> (piece: Tetrimino) {
        proof {
            lemma_spawn_pose_wf(Kind::J);
        }
        Tetrimino { kind: Kind::J, states: states_from(&J_STATES), x: 4, y: 0, current_state: 0 }
    }
}

impl TetriminoGenerator for TetriminoL {
    open spec fn kind() -> Kind {
        Kind::L
    }

    fn new() -> (piece: Tetrimino) {
        proof {
            lemma_spawn_pose_wf(Kind::L);
        }
        Tetrimino { kind: Kind::L, states: states_from(&L_STATES), x: 4, y: 0, current_state: 0 }
    }
}

impl TetriminoGenerator for TetriminoO {
    open spec fn kind() -> Kind {
        Kind::O
    }

    fn new() -> (piece: Tetrimino) {
        proof {
            lemma_spawn_pose_wf(Kind::O);
        }
        Tetrimino { kind: Kind::O, states: states_from(&O_STATES), x: 5, y: 0, current_state: 0 }
    }
}

impl TetriminoGenerator for TetriminoS {
    open spec fn kind() -> Kind {
        Kind::S
    }

    fn new() -> (piece: Tetrimino) {
        proof {
            lemma_spawn_pose_wf(Kind::S);
        }
        Tetrimino { kind: Kind::S, states: states_from(&S_STATES), x: 4, y: 0, current_state: 0 }
    }
}

impl TetriminoGenerator for TetriminoZ {
    open spec fn kind() -> Kind {
        Kind::Z
    }

    fn new() -> (piece: Tetrimino) {
        proof {
            lemma_spawn_pose_wf(Kind::Z);
        }
        Tetrimino { kind: Kind::Z, states: states_from(&Z_STATES), x: 4, y: 0, current_state: 0 }
    }
}

impl TetriminoGenerator for TetriminoT {
    open spec fn kind() -> Kind {
        Kind::T
    }

    fn new() -> (piece: Tetrimino) {
        proof {
            lemma_spawn_pose_wf(Kind::T);
        }
        Tetrimino { kind: Kind::T, states: states_from(&T_STATES), x: 4, y: 0, current_state: 0 }
    }
}

/// The catalogue lookup: a fresh piece of the given kind, in the pose in which it enters the field.
pub fn spawn(kind: Kind) -> (piece: Tetrimino)
    ensures
        piece@ == spawn_pose(kind),
        piece@.wf(),
{
    match kind {
        Kind::I => TetriminoI::new(),
        Kind::J => TetriminoJ::new(),
        Kind::L => TetriminoL::new(),
        Kind::O => TetriminoO::new(),
        Kind::S => TetriminoS::new(),
        Kind::Z => TetriminoZ::new(),
        Kind::T => TetriminoT::new(),
    }
}

} // verus!
