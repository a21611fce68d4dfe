//! What a mesh is that is read from its cells: the faces of a cell close it and point out
//! of it, and every face of the mesh is a face of its cells.

use vstd::prelude::*;

use crate::msh::{shape_of, CellKind, ElemShape};

verus! {

// --------------------------------------------------------------------------
//  The faces of a cell
// --------------------------------------------------------------------------
/// Corner `b` stands next to corner `a` on a ring of `n`.
pub open spec fn beside(n: int, a: int, b: int) -> bool {
    (a + 1) % n == b || (b + 1) % n == a
}

/// An edge of the cell joins two corners, as Gmsh numbers them: a tetrahedron has a base and
/// a top, a pyramid has a ring of four and a top, a prism and a hexahedron have two rings of
/// three or four, the second above the first.
pub open spec fn joined(k: CellKind, a: int, b: int) -> bool {
    match k {
        CellKind::Tet => a != b,
        CellKind::Hex => (a < 4 && b < 4 && beside(4, a, b)) || (a >= 4 && b >= 4 && beside(
            4,
            a - 4,
            b - 4,
        )) || b == a + 4 || a == b + 4,
        CellKind::Prism => (a < 3 && b < 3 && beside(3, a, b)) || (a >= 3 && b >= 3 && beside(
            3,
            a - 3,
            b - 3,
        )) || b == a + 3 || a == b + 3,
        CellKind::Pyramid => (a < 4 && b < 4 && beside(4, a, b)) || (a == 4 && b < 4) || (a < 4 && b
            == 4),
    }
}

/// The corners of the base come first; they go round it as seen from above.
pub open spec fn base(k: CellKind) -> int {
    match k {
        CellKind::Tet | CellKind::Prism => 3,
        CellKind::Hex | CellKind::Pyramid => 4,
    }
}

/// The corner behind corner `i` of a face.
pub open spec fn after(face: Seq<usize>, i: int) -> usize {
    face[if i + 1 == face.len() {
        0
    } else {
        i + 1
    }]
}

/// Edge `i` of face `f` leads from corner `a` to corner `b`.
pub open spec fn is_edge(table: Seq<Seq<usize>>, f: int, i: int, a: usize, b: usize) -> bool {
    &&& 0 <= f < table.len()
    &&& 0 <= i < table[f].len()
    &&& table[f][i] == a
    &&& after(table[f], i) == b
}

proof fn lemma_tet_rows()
    ensures
        CellKind::Tet.face_table().len() == 4,
        CellKind::Tet.face_table()[0] == seq![0usize, 2, 1],
        CellKind::Tet.face_table()[1] == seq![0usize, 1, 3],
        CellKind::Tet.face_table()[2] == seq![0usize, 3, 2],
        CellKind::Tet.face_table()[3] == seq![1usize, 2, 3],
{
}

/// Where an edge is found among the faces.
proof fn lemma_tet_places(g: int, j: int, a: usize, b: usize)
    requires
        is_edge(CellKind::Tet.face_table(), g, j, a, b),
    ensures
        a < 4 && b < 4,
        joined(CellKind::Tet, a as int, b as int),
        place_in_tet(a, b) == (g, j),
{
    lemma_tet_rows();
    if g == 0 {
        if j == 0 {
        } else if j == 1 {
        } else if j == 2 {
        }
    } else if g == 1 {
        if j == 0 {
        } else if j == 1 {
        } else if j == 2 {
        }
    } else if g == 2 {
        if j == 0 {
        } else if j == 1 {
        } else if j == 2 {
        }
    } else if g == 3 {
        if j == 0 {
        } else if j == 1 {
        } else if j == 2 {
        }
    }
}

spec fn place_in_tet(a: usize, b: usize) -> (int, int) {
    if a == 0 && b == 1 {
        (1, 0)
    } else if a == 0 && b == 2 {
        (0, 0)
    } else if a == 0 && b == 3 {
        (2, 0)
    } else if a == 1 && b == 0 {
        (0, 2)
    } else if a == 1 && b == 2 {
        (3, 0)
    } else if a == 1 && b == 3 {
        (1, 1)
    } else if a == 2 && b == 0 {
        (2, 2)
    } else if a == 2 && b == 1 {
        (0, 1)
    } else if a == 2 && b == 3 {
        (3, 1)
    } else if a == 3 && b == 0 {
        (1, 2)
    } else if a == 3 && b == 1 {
        (3, 2)
    } else if a == 3 && b == 2 {
        (2, 1)
    } else {
        (-1, -1)
    }
}

proof fn lemma_tet_edges(a: usize, b: usize)
    requires
        a < 4,
        b < 4,
        joined(CellKind::Tet, a as int, b as int),
    ensures
        is_edge(CellKind::Tet.face_table(), place_in_tet(a, b).0, place_in_tet(a, b).1, a, b),
{
    lemma_tet_rows();
    let t = CellKind::Tet.face_table();
    if a == 0 && b == 1 {
        assert(is_edge(t, 1, 0, a, b));
    }
    if a == 0 && b == 2 {
        assert(is_edge(t, 0, 0, a, b));
    }
    if a == 0 && b == 3 {
        assert(is_edge(t, 2, 0, a, b));
    }
    if a == 1 && b == 0 {
        assert(is_edge(t, 0, 2, a, b));
    }
    if a == 1 && b == 2 {
        assert(is_edge(t, 3, 0, a, b));
    }
    if a == 1 && b == 3 {
        assert(is_edge(t, 1, 1, a, b));
    }
    if a == 2 && b == 0 {
        assert(is_edge(t, 2, 2, a, b));
    }
    if a == 2 && b == 1 {
        assert(is_edge(t, 0, 1, a, b));
    }
    if a == 2 && b == 3 {
        assert(is_edge(t, 3, 1, a, b));
    }
    if a == 3 && b == 0 {
        assert(is_edge(t, 1, 2, a, b));
    }
    if a == 3 && b == 1 {
        assert(is_edge(t, 3, 2, a, b));
    }
    if a == 3 && b == 2 {
        assert(is_edge(t, 2, 1, a, b));
    }
}

proof fn lemma_hex_rows()
    ensures
        CellKind::Hex.face_table().len() == 6,
        CellKind::Hex.face_table()[0] == seq![0usize, 3, 2, 1],
        CellKind::Hex.face_table()[1] == seq![4usize, 5, 6, 7],
        CellKind::Hex.face_table()[2] == seq![0usize, 1, 5, 4],
        CellKind::Hex.face_table()[3] == seq![3usize, 7, 6, 2],
        CellKind::Hex.face_table()[4] == seq![0usize, 4, 7, 3],
        CellKind::Hex.face_table()[5] == seq![1usize, 2, 6, 5],
{
}

/// Where an edge is found among the faces.
proof fn lemma_hex_places(g: int, j: int, a: usize, b: usize)
    requires
        is_edge(CellKind::Hex.face_table(), g, j, a, b),
    ensures
        a < 8 && b < 8,
        joined(CellKind::Hex, a as int, b as int),
        place_in_hex(a, b) == (g, j),
{
    lemma_hex_rows();
    if g == 0 {
        if j == 0 {
        } else if j == 1 {
        } else if j == 2 {
        } else if j == 3 {
        }
    } else if g == 1 {
        if j == 0 {
        } else if j == 1 {
        } else if j == 2 {
        } else if j == 3 {
        }
    } else if g == 2 {
        if j == 0 {
        } else if j == 1 {
        } else if j == 2 {
        } else if j == 3 {
        }
    } else if g == 3 {
        if j == 0 {
        } else if j == 1 {
        } else if j == 2 {
        } else if j == 3 {
        }
    } else if g == 4 {
        if j == 0 {
        } else if j == 1 {
        } else if j == 2 {
        } else if j == 3 {
        }
    } else if g == 5 {
        if j == 0 {
        } else if j == 1 {
        } else if j == 2 {
        } else if j == 3 {
        }
    }
}

spec fn place_in_hex(a: usize, b: usize) -> (int, int) {
    if a == 0 && b == 1 {
        (2, 0)
    } else if a == 0 && b == 3 {
        (0, 0)
    } else if a == 0 && b == 4 {
        (4, 0)
    } else if a == 1 && b == 0 {
        (0, 3)
    } else if a == 1 && b == 2 {
        (5, 0)
    } else if a == 1 && b == 5 {
        (2, 1)
    } else if a == 2 && b == 1 {
        (0, 2)
    } else if a == 2 && b == 3 {
        (3, 3)
    } else if a == 2 && b == 6 {
        (5, 1)
    } else if a == 3 && b == 0 {
        (4, 3)
    } else if a == 3 && b == 2 {
        (0, 1)
    } else if a == 3 && b == 7 {
        (3, 0)
    } else if a == 4 && b == 0 {
        (2, 3)
    } else if a == 4 && b == 5 {
        (1, 0)
    } else if a == 4 && b == 7 {
        (4, 1)
    } else if a == 5 && b == 1 {
        (5, 3)
    } else if a == 5 && b == 4 {
        (2, 2)
    } else if a == 5 && b == 6 {
        (1, 1)
    } else if a == 6 && b == 2 {
        (3, 2)
    } else if a == 6 && b == 5 {
        (5, 2)
    } else if a == 6 && b == 7 {
        (1, 2)
    } else if a == 7 && b == 3 {
        (4, 2)
    } else if a == 7 && b == 4 {
        (1, 3)
    } else if a == 7 && b == 6 {
        (3, 1)
    } else {
        (-1, -1)
    }
}

proof fn lemma_hex_edges(a: usize, b: usize)
    requires
        a < 8,
        b < 8,
        joined(CellKind::Hex, a as int, b as int),
    ensures
        is_edge(CellKind::Hex.face_table(), place_in_hex(a, b).0, place_in_hex(a, b).1, a, b),
{
    lemma_hex_rows();
    let t = CellKind::Hex.face_table();
    if a == 0 && b == 1 {
        assert(is_edge(t, 2, 0, a, b));
    }
    if a == 0 && b == 3 {
        assert(is_edge(t, 0, 0, a, b));
    }
    if a == 0 && b == 4 {
        assert(is_edge(t, 4, 0, a, b));
    }
    if a == 1 && b == 0 {
        assert(is_edge(t, 0, 3, a, b));
    }
    if a == 1 && b == 2 {
        assert(is_edge(t, 5, 0, a, b));
    }
    if a == 1 && b == 5 {
        assert(is_edge(t, 2, 1, a, b));
    }
    if a == 2 && b == 1 {
        assert(is_edge(t, 0, 2, a, b));
    }
    if a == 2 && b == 3 {
        assert(is_edge(t, 3, 3, a, b));
    }
    if a == 2 && b == 6 {
        assert(is_edge(t, 5, 1, a, b));
    }
    if a == 3 && b == 0 {
        assert(is_edge(t, 4, 3, a, b));
    }
    if a == 3 && b == 2 {
        assert(is_edge(t, 0, 1, a, b));
    }
    if a == 3 && b == 7 {
        assert(is_edge(t, 3, 0, a, b));
    }
    if a == 4 && b == 0 {
        assert(is_edge(t, 2, 3, a, b));
    }
    if a == 4 && b == 5 {
        assert(is_edge(t, 1, 0, a, b));
    }
    if a == 4 && b == 7 {
        assert(is_edge(t, 4, 1, a, b));
    }
    if a == 5 && b == 1 {
        assert(is_edge(t, 5, 3, a, b));
    }
    if a == 5 && b == 4 {
        assert(is_edge(t, 2, 2, a, b));
    }
    if a == 5 && b == 6 {
        assert(is_edge(t, 1, 1, a, b));
    }
    if a == 6 && b == 2 {
        assert(is_edge(t, 3, 2, a, b));
    }
    if a == 6 && b == 5 {
        assert(is_edge(t, 5, 2, a, b));
    }
    if a == 6 && b == 7 {
        assert(is_edge(t, 1, 2, a, b));
    }
    if a == 7 && b == 3 {
        assert(is_edge(t, 4, 2, a, b));
    }
    if a == 7 && b == 4 {
        assert(is_edge(t, 1, 3, a, b));
    }
    if a == 7 && b == 6 {
        assert(is_edge(t, 3, 1, a, b));
    }
}

proof fn lemma_prism_rows()
    ensures
        CellKind::Prism.face_table().len() == 5,
        CellKind::Prism.face_table()[0] == seq![0usize, 2, 1],
        CellKind::Prism.face_table()[1] == seq![3usize, 4, 5],
        CellKind::Prism.face_table()[2] == seq![0usize, 1, 4, 3],
        CellKind::Prism.face_table()[3] == seq![1usize, 2, 5, 4],
        CellKind::Prism.face_table()[4] == seq![0usize, 3, 5, 2],
{
}

/// Where an edge is found among the faces.
proof fn lemma_prism_places(g: int, j: int, a: usize, b: usize)
    requires
        is_edge(CellKind::Prism.face_table(), g, j, a, b),
    ensures
        a < 6 && b < 6,
        joined(CellKind::Prism, a as int, b as int),
        place_in_prism(a, b) == (g, j),
{
    lemma_prism_rows();
    if g == 0 {
        if j == 0 {
        } else if j == 1 {
        } else if j == 2 {
        }
    } else if g == 1 {
        if j == 0 {
        } else if j == 1 {
        } else if j == 2 {
        }
    } else if g == 2 {
        if j == 0 {
        } else if j == 1 {
        } else if j == 2 {
        } else if j == 3 {
        }
    } else if g == 3 {
        if j == 0 {
        } else if j == 1 {
        } else if j == 2 {
        } else if j == 3 {
        }
    } else if g == 4 {
        if j == 0 {
        } else if j == 1 {
        } else if j == 2 {
        } else if j == 3 {
        }
    }
}

spec fn place_in_prism(a: usize, b: usize) -> (int, int) {
    if a == 0 && b == 1 {
        (2, 0)
    } else if a == 0 && b == 2 {
        (0, 0)
    } else if a == 0 && b == 3 {
        (4, 0)
    } else if a == 1 && b == 0 {
        (0, 2)
    } else if a == 1 && b == 2 {
        (3, 0)
    } else if a == 1 && b == 4 {
        (2, 1)
    } else if a == 2 && b == 0 {
        (4, 3)
    } else if a == 2 && b == 1 {
        (0, 1)
    } else if a == 2 && b == 5 {
        (3, 1)
    } else if a == 3 && b == 0 {
        (2, 3)
    } else if a == 3 && b == 4 {
        (1, 0)
    } else if a == 3 && b == 5 {
        (4, 1)
    } else if a == 4 && b == 1 {
        (3, 3)
    } else if a == 4 && b == 3 {
        (2, 2)
    } else if a == 4 && b == 5 {
        (1, 1)
    } else if a == 5 && b == 2 {
        (4, 2)
    } else if a == 5 && b == 3 {
        (1, 2)
    } else if a == 5 && b == 4 {
        (3, 2)
    } else {
        (-1, -1)
    }
}

proof fn lemma_prism_edges(a: usize, b: usize)
    requires
        a < 6,
        b < 6,
        joined(CellKind::Prism, a as int, b as int),
    ensures
        is_edge(CellKind::Prism.face_table(), place_in_prism(a, b).0, place_in_prism(a, b).1, a, b),
{
    lemma_prism_rows();
    let t = CellKind::Prism.face_table();
    if a == 0 && b == 1 {
        assert(is_edge(t, 2, 0, a, b));
    }
    if a == 0 && b == 2 {
        assert(is_edge(t, 0, 0, a, b));
    }
    if a == 0 && b == 3 {
        assert(is_edge(t, 4, 0, a, b));
    }
    if a == 1 && b == 0 {
        assert(is_edge(t, 0, 2, a, b));
    }
    if a == 1 && b == 2 {
        assert(is_edge(t, 3, 0, a, b));
    }
    if a == 1 && b == 4 {
        assert(is_edge(t, 2, 1, a, b));
    }
    if a == 2 && b == 0 {
        assert(is_edge(t, 4, 3, a, b));
    }
    if a == 2 && b == 1 {
        assert(is_edge(t, 0, 1, a, b));
    }
    if a == 2 && b == 5 {
        assert(is_edge(t, 3, 1, a, b));
    }
    if a == 3 && b == 0 {
        assert(is_edge(t, 2, 3, a, b));
    }
    if a == 3 && b == 4 {
        assert(is_edge(t, 1, 0, a, b));
    }
    if a == 3 && b == 5 {
        assert(is_edge(t, 4, 1, a, b));
    }
    if a == 4 && b == 1 {
        assert(is_edge(t, 3, 3, a, b));
    }
    if a == 4 && b == 3 {
        assert(is_edge(t, 2, 2, a, b));
    }
    if a == 4 && b == 5 {
        assert(is_edge(t, 1, 1, a, b));
    }
    if a == 5 && b == 2 {
        assert(is_edge(t, 4, 2, a, b));
    }
    if a == 5 && b == 3 {
        assert(is_edge(t, 1, 2, a, b));
    }
    if a == 5 && b == 4 {
        assert(is_edge(t, 3, 2, a, b));
    }
}

proof fn lemma_pyramid_rows()
    ensures
        CellKind::Pyramid.face_table().len() == 5,
        CellKind::Pyramid.face_table()[0] == seq![0usize, 3, 2, 1],
        CellKind::Pyramid.face_table()[1] == seq![0usize, 1, 4],
        CellKind::Pyramid.face_table()[2] == seq![1usize, 2, 4],
        CellKind::Pyramid.face_table()[3] == seq![2usize, 3, 4],
        CellKind::Pyramid.face_table()[4] == seq![3usize, 0, 4],
{
}

/// Where an edge is found among the faces.
proof fn lemma_pyramid_places(g: int, j: int, a: usize, b: usize)
    requires
        is_edge(CellKind::Pyramid.face_table(), g, j, a, b),
    ensures
        a < 5 && b < 5,
        joined(CellKind::Pyramid, a as int, b as int),
        place_in_pyramid(a, b) == (g, j),
{
    lemma_pyramid_rows();
    if g == 0 {
        if j == 0 {
        } else if j == 1 {
        } else if j == 2 {
        } else if j == 3 {
        }
    } else if g == 1 {
        if j == 0 {
        } else if j == 1 {
        } else if j == 2 {
        }
    } else if g == 2 {
        if j == 0 {
        } else if j == 1 {
        } else if j == 2 {
        }
    } else if g == 3 {
        if j == 0 {
        } else if j == 1 {
        } else if j == 2 {
        }
    } else if g == 4 {
        if j == 0 {
        } else if j == 1 {
        } else if j == 2 {
        }
    }
}

spec fn place_in_pyramid(a: usize, b: usize) -> (int, int) {
    if a == 0 && b == 1 {
        (1, 0)
    } else if a == 0 && b == 3 {
        (0, 0)
    } else if a == 0 && b == 4 {
        (4, 1)
    } else if a == 1 && b == 0 {
        (0, 3)
    } else if a == 1 && b == 2 {
        (2, 0)
    } else if a == 1 && b == 4 {
        (1, 1)
    } else if a == 2 && b == 1 {
        (0, 2)
    } else if a == 2 && b == 3 {
        (3, 0)
    } else if a == 2 && b == 4 {
        (2, 1)
    } else if a == 3 && b == 0 {
        (4, 0)
    } else if a == 3 && b == 2 {
        (0, 1)
    } else if a == 3 && b == 4 {
        (3, 1)
    } else if a == 4 && b == 0 {
        (1, 2)
    } else if a == 4 && b == 1 {
        (2, 2)
    } else if a == 4 && b == 2 {
        (3, 2)
    } else if a == 4 && b == 3 {
        (4, 2)
    } else {
        (-1, -1)
    }
}

proof fn lemma_pyramid_edges(a: usize, b: usize)
    requires
        a < 5,
        b < 5,
        joined(CellKind::Pyramid, a as int, b as int),
    ensures
        is_edge(CellKind::Pyramid.face_table(), place_in_pyramid(a, b).0, place_in_pyramid(a, b).1, a, b),
{
    lemma_pyramid_rows();
    let t = CellKind::Pyramid.face_table();
    if a == 0 && b == 1 {
        assert(is_edge(t, 1, 0, a, b));
    }
    if a == 0 && b == 3 {
        assert(is_edge(t, 0, 0, a, b));
    }
    if a == 0 && b == 4 {
        assert(is_edge(t, 4, 1, a, b));
    }
    if a == 1 && b == 0 {
        assert(is_edge(t, 0, 3, a, b));
    }
    if a == 1 && b == 2 {
        assert(is_edge(t, 2, 0, a, b));
    }
    if a == 1 && b == 4 {
        assert(is_edge(t, 1, 1, a, b));
    }
    if a == 2 && b == 1 {
        assert(is_edge(t, 0, 2, a, b));
    }
    if a == 2 && b == 3 {
        assert(is_edge(t, 3, 0, a, b));
    }
    if a == 2 && b == 4 {
        assert(is_edge(t, 2, 1, a, b));
    }
    if a == 3 && b == 0 {
        assert(is_edge(t, 4, 0, a, b));
    }
    if a == 3 && b == 2 {
        assert(is_edge(t, 0, 1, a, b));
    }
    if a == 3 && b == 4 {
        assert(is_edge(t, 3, 1, a, b));
    }
    if a == 4 && b == 0 {
        assert(is_edge(t, 1, 2, a, b));
    }
    if a == 4 && b == 1 {
        assert(is_edge(t, 2, 2, a, b));
    }
    if a == 4 && b == 2 {
        assert(is_edge(t, 3, 2, a, b));
    }
    if a == 4 && b == 3 {
        assert(is_edge(t, 4, 2, a, b));
    }
}

/// The faces of a cell close it: the edges of its faces are the edges of the cell, and along
/// each of these one face leads one way, and one face leads the other way.
pub proof fn cell_faces_close_the_cell(k: CellKind, a: usize, b: usize)
    requires
        a < k.corners(),
        b < k.corners(),
    ensures
        (exists|f: int, i: int| #[trigger] is_edge(k.face_table(), f, i, a, b)) <==> joined(
            k,
            a as int,
            b as int,
        ),
        forall|f: int, i: int, g: int, j: int| #[trigger]
            is_edge(k.face_table(), f, i, a, b) && #[trigger] is_edge(k.face_table(), g, j, a, b) ==> f
                == g && i == j,
{
    let t = k.face_table();
    match k {
        CellKind::Tet => {
            assert forall|g: int, j: int| #[trigger] is_edge(t, g, j, a, b) implies place_in_tet(a, b)
                == (g, j) && joined(k, a as int, b as int) by {
                lemma_tet_places(g, j, a, b);
            }
            if joined(k, a as int, b as int) {
                lemma_tet_edges(a, b);
            }
        },
        CellKind::Hex => {
            assert forall|g: int, j: int| #[trigger] is_edge(t, g, j, a, b) implies place_in_hex(a, b)
                == (g, j) && joined(k, a as int, b as int) by {
                lemma_hex_places(g, j, a, b);
            }
            if joined(k, a as int, b as int) {
                lemma_hex_edges(a, b);
            }
        },
        CellKind::Prism => {
            assert forall|g: int, j: int| #[trigger] is_edge(t, g, j, a, b) implies place_in_prism(a, b)
                == (g, j) && joined(k, a as int, b as int) by {
                lemma_prism_places(g, j, a, b);
            }
            if joined(k, a as int, b as int) {
                lemma_prism_edges(a, b);
            }
        },
        CellKind::Pyramid => {
            assert forall|g: int, j: int| #[trigger] is_edge(t, g, j, a, b) implies place_in_pyramid(a, b)
                == (g, j) && joined(k, a as int, b as int) by {
                lemma_pyramid_places(g, j, a, b);
            }
            if joined(k, a as int, b as int) {
                lemma_pyramid_edges(a, b);
            }
        },
    }
}

/// The faces of a cell are triangles and quadrangles, as many as the cell has, and the base
/// is one of them; it points downward, out of the cell.
pub proof fn cell_faces_point_outward(k: CellKind, f: int)
    requires
        0 <= f < k.face_table().len(),
    ensures
        k.face_table().len() == (match k {
            CellKind::Tet => 4int,
            CellKind::Hex => 6,
            CellKind::Prism | CellKind::Pyramid => 5,
        }),
        3 <= k.face_table()[f].len() <= 4,
        k.face_table()[f].no_duplicates(),
        k.face_table()[0].len() == base(k),
        forall|i: int|
            0 <= i < base(k) ==> after(k.face_table()[0], i) == (if #[trigger] k.face_table()[0][i] == 0 {
                base(k) - 1
            } else {
                k.face_table()[0][i] - 1
            }),
{
    match k {
        CellKind::Tet => {
            lemma_tet_rows();
            if f == 0 {
            } else if f == 1 {
            } else if f == 2 {
            } else if f == 3 {
            }
        },
        CellKind::Hex => {
            lemma_hex_rows();
            if f == 0 {
            } else if f == 1 {
            } else if f == 2 {
            } else if f == 3 {
            } else if f == 4 {
            } else if f == 5 {
            }
        },
        CellKind::Prism => {
            lemma_prism_rows();
            if f == 0 {
            } else if f == 1 {
            } else if f == 2 {
            } else if f == 3 {
            } else if f == 4 {
            }
        },
        CellKind::Pyramid => {
            lemma_pyramid_rows();
            if f == 0 {
            } else if f == 1 {
            } else if f == 2 {
            } else if f == 3 {
            } else if f == 4 {
            }
        },
    }
}

// --------------------------------------------------------------------------
//  The types of elements
// --------------------------------------------------------------------------
/// The element type of a cell of a kind.
pub open spec fn type_of(k: CellKind) -> i64 {
    match k {
        CellKind::Tet => 4,
        CellKind::Hex => 5,
        CellKind::Prism => 6,
        CellKind::Pyramid => 7,
    }
}

/// The type of a cell is read as its kind, with as many nodes as the kind has corners, and
/// no other type is read as a cell.
pub proof fn types_tell_their_cells(t: i64, k: CellKind)
    ensures
        shape_of(type_of(k)) == Some(ElemShape::Cell(k, k.corners() as usize)),
        shape_of(t) matches Some(ElemShape::Cell(c, n)) ==> t == type_of(c) && n == c.corners(),
        shape_of(t) matches Some(ElemShape::Surface(n)) ==> (t == 2 && n == 3) || (t == 3 && n == 4),
{
}

} // verus!
