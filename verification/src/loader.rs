use vstd::prelude::*;

verus! {

/// Classification of one map cell.
#[derive(Clone, Copy, PartialEq, Eq, Structural, Debug)]
pub enum MapCell {
    Space,
    Wall,
    Item,
}

/// One of the four cardinal wall-face orientations, also used as the
/// spawn facing.
#[derive(Clone, Copy, PartialEq, Eq, Structural, Debug)]
pub enum Direction {
    N,
    S,
    E,
    W,
}

impl Direction {
    /// The character that marks a spawn facing this way in a map
    /// layout drawing.
    pub fn pointer(self) -> (r: char)
        ensures
            r == (match self {
                Direction::N => '^',
                Direction::S => 'v',
                Direction::W => '<',
                Direction::E => '>',
            }),
    {
        match self {
            Direction::N => '^',
            Direction::S => 'v',
            Direction::W => '<',
            Direction::E => '>',
        }
    }
}

/// Where the camera starts: a cell and a facing.
#[derive(Clone, Copy, PartialEq, Eq, Structural, Debug)]
pub struct Spawn {
    pub direction: Direction,
    pub x: usize,
    pub y: usize,
}

/// An RGB color, one byte per channel.
#[derive(Clone, Copy, PartialEq, Eq, Structural, Debug)]
pub struct Color {
    pub r: u8,
    pub g: u8,
    pub b: u8,
}

/// The validated map the renderer works on: output resolution, floor
/// and ceiling colors, the cell grid in row-major order, and the
/// spawn point. Textures are decoded by the caller and looked up by
/// face direction outside this core.
pub struct MapData {
    pub resolution: (usize, usize),
    pub floor: Color,
    pub ceiling: Color,
    pub width: usize,
    pub height: usize,
    pub data: Vec<MapCell>,
    pub spawn: Spawn,
}

impl MapData {
    /// The grid is stored whole, in row-major order, with sides small
    /// enough for the caster.
    pub open spec fn grid_wf(self) -> bool {
        &&& self.data@.len() == self.height * self.width
        &&& self.width <= 32768
        &&& self.height <= 32768
    }

    /// The cell at column `x`, row `y`.
    pub open spec fn cell_at(self, x: int, y: int) -> MapCell {
        self.data@[y * self.width + x]
    }

    /// Every cell on the grid's outer border is a wall.
    pub open spec fn wall_enclosed(self) -> bool {
        forall|x: int, y: int|
            0 <= x < self.width && 0 <= y < self.height && (x == 0 || y == 0 || x == self.width - 1
                || y == self.height - 1) ==> #[trigger] self.cell_at(x, y) == MapCell::Wall
    }

    /// Read one cell.
    pub fn cell(&self, x: usize, y: usize) -> (r: MapCell)
        requires
            self.grid_wf(),
            x < self.width,
            y < self.height,
        ensures
            r == self.cell_at(x as int, y as int),
    {
        proof {
            crate::frac::lemma_mul_bounds(y as int, 0x8000, self.width as int, 0x8000);
            assert(y * self.width + x < self.height * self.width) by (nonlinear_arith)
                requires
                    y < self.height,
                    x < self.width,
                    0 < self.width,
            ;
            assert(self.height * self.width == self.width * self.height) by (nonlinear_arith);
        }
        self.data[y * self.width + x]
    }

    /// True exactly when the map is wall-enclosed: every border cell
    /// is a wall. A map that passes this check can never let a ray
    /// escape without striking a wall face.
    pub fn check_borders(&self) -> (r: bool)
        requires
            self.grid_wf(),
            self.width >= 1,
            self.height >= 1,
        ensures
            r == self.wall_enclosed(),
    {
        let mut y: usize = 0;
        while y < self.height
            invariant
                self.grid_wf(),
                self.width >= 1,
                self.height >= 1,
                y <= self.height,
                forall|xx: int, yy: int|
                    0 <= xx < self.width && 0 <= yy < y && (xx == 0 || yy == 0 || xx == self.width
                        - 1 || yy == self.height - 1) ==> #[trigger] self.cell_at(xx, yy)
                        == MapCell::Wall,
            decreases self.height - y,
        {
            let mut x: usize = 0;
            while x < self.width
                invariant
                    self.grid_wf(),
                    self.width >= 1,
                    self.height >= 1,
                    y < self.height,
                    x <= self.width,
                    forall|xx: int, yy: int|
                        0 <= xx < self.width && 0 <= yy < y && (xx == 0 || yy == 0 || xx
                            == self.width - 1 || yy == self.height - 1) ==> #[trigger] self.cell_at(
                            xx,
                            yy,
                        ) == MapCell::Wall,
                    forall|xx: int|
                        0 <= xx < x && (xx == 0 || y == 0 || xx == self.width - 1 || y
                            == self.height - 1) ==> #[trigger] self.cell_at(xx, y as int)
                            == MapCell::Wall,
                decreases self.width - x,
            {
                let border = x == 0 || y == 0 || x == self.width - 1 || y == self.height - 1;
                if border {
                    let c = self.cell(x, y);
                    if !(c == MapCell::Wall) {
                        proof {
                            assert(self.cell_at(x as int, y as int) != MapCell::Wall);
                        }
                        return false;
                    }
                }
                x = x + 1;
            }
            y = y + 1;
        }
        true
    }
}

/// What one drawing byte stands for: the cell it draws, or nothing
/// when the byte is not part of the drawing alphabet. Spawn markers
/// draw the space the camera stands on.
pub open spec fn byte_cell(b: u8) -> Option<MapCell> {
    if b == 48 {  // '0'
        Option::Some(MapCell::Space)
    } else if b == 49 || b == 32 {  // '1', ' '
        Option::Some(MapCell::Wall)
    } else if b == 50 {  // '2'
        Option::Some(MapCell::Item)
    } else if byte_spawn_dir(b) is Some {
        Option::Some(MapCell::Space)
    } else {
        Option::None
    }
}

/// The facing a spawn marker byte names, if it is one.
pub open spec fn byte_spawn_dir(b: u8) -> Option<Direction> {
    if b == 78 {  // 'N'
        Option::Some(Direction::N)
    } else if b == 83 {  // 'S'
        Option::Some(Direction::S)
    } else if b == 69 {  // 'E'
        Option::Some(Direction::E)
    } else if b == 87 {  // 'W'
        Option::Some(Direction::W)
    } else {
        Option::None
    }
}

/// A spawn marker stands at column `x` of drawing row `y`.
pub open spec fn spawn_at(rows: Seq<Vec<u8>>, x: int, y: int) -> bool {
    0 <= y < rows.len() && 0 <= x < rows[y]@.len() && byte_spawn_dir(rows[y]@[x]) is Some
}

/// Why a map drawing was rejected.
#[derive(Clone, Copy, PartialEq, Eq, Structural, Debug)]
pub enum MapError {
    EmptyDrawing,
    InvalidChar,
    NoSpawn,
    DuplicateSpawn,
}

/// Turn the drawing rows into the cell grid and the spawn point: the
/// grid is as wide as the longest row, short rows are padded with
/// walls, and exactly one spawn marker must appear.
pub fn load_map(rows: &Vec<Vec<u8>>) -> (r: Result<(usize, usize, Vec<MapCell>, Spawn), MapError>)
    requires
        rows@.len() <= 32768,
        forall|y: int| 0 <= y < rows@.len() ==> (#[trigger] rows@[y])@.len() <= 32768,
    ensures
        r matches Ok(t) ==> {
            &&& t.1 == rows@.len() && t.0 >= 1
            &&& forall|y: int| 0 <= y < rows@.len() ==> (#[trigger] rows@[y])@.len() <= t.0
            &&& t.2@.len() == t.1 * t.0
            &&& forall|x: int, y: int|
                0 <= x < t.0 && 0 <= y < t.1 ==> t.2@[y * t.0 + x] == (if x < rows@[y]@.len() {
                    byte_cell(#[trigger] rows@[y]@[x])->0
                } else {
                    MapCell::Wall
                })
            &&& forall|x: int, y: int|
                0 <= y < rows@.len() && 0 <= x < rows@[y]@.len() ==> byte_cell(
                    #[trigger] rows@[y]@[x],
                ) is Some
            &&& spawn_at(rows@, t.3.x as int, t.3.y as int)
            &&& byte_spawn_dir(rows@[t.3.y as int]@[t.3.x as int]) == Option::Some(t.3.direction)
            &&& forall|x: int, y: int|
                #![trigger spawn_at(rows@, x, y)]
                spawn_at(rows@, x, y) ==> x == t.3.x && y == t.3.y
        },
        r == Result::<(usize, usize, Vec<MapCell>, Spawn), MapError>::Err(MapError::InvalidChar)
            ==> exists|x: int, y: int|
            0 <= y < rows@.len() && 0 <= x < rows@[y]@.len() && byte_cell(
                #[trigger] rows@[y]@[x],
            ) is None,
        r == Result::<(usize, usize, Vec<MapCell>, Spawn), MapError>::Err(MapError::NoSpawn)
            ==> !exists|x: int, y: int| spawn_at(rows@, x, y),
        r == Result::<(usize, usize, Vec<MapCell>, Spawn), MapError>::Err(MapError::DuplicateSpawn)
            ==> exists|x1: int, y1: int, x2: int, y2: int|
            spawn_at(rows@, x1, y1) && spawn_at(rows@, x2, y2) && (x1 != x2 || y1 != y2),
        r == Result::<(usize, usize, Vec<MapCell>, Spawn), MapError>::Err(MapError::EmptyDrawing)
            ==> rows@.len() == 0 || forall|y: int|
            0 <= y < rows@.len() ==> (#[trigger] rows@[y])@.len() == 0,
{
    let h = rows.len();
    let mut w: usize = 0;
    let mut idx: usize = 0;
    while idx < h
        invariant
            idx <= h,
            h == rows@.len(),
            h <= 32768,
            w <= 32768,
            forall|y: int| 0 <= y < rows@.len() ==> (#[trigger] rows@[y])@.len() <= 32768,
            forall|y: int| 0 <= y < idx ==> (#[trigger] rows@[y])@.len() <= w,
            w == 0 || exists|y: int| 0 <= y < idx && (#[trigger] rows@[y])@.len() == w,
        decreases h - idx,
    {
        if rows[idx].len() > w {
            w = rows[idx].len();
        }
        idx = idx + 1;
    }
    if h == 0 || w == 0 {
        return Err(MapError::EmptyDrawing);
    }
    proof {
        crate::frac::lemma_mul_bounds(h as int, 0x8000, w as int, 0x8000);
    }
    let total = h * w;
    let mut data: Vec<MapCell> = Vec::new();
    while data.len() < total
        invariant
            data@.len() <= total,
            forall|i: int| 0 <= i < data@.len() ==> data@[i] == MapCell::Wall,
            total <= 0x4000_0000,
        decreases total - data@.len(),
    {
        data.push(MapCell::Wall);
    }
    let mut spawn_opt: Option<Spawn> = None;
    let mut y: usize = 0;
    while y < h
        invariant
            y <= h,
            h == rows@.len(),
            1 <= w <= 32768,
            h <= 32768,
            total == h * w,
            data@.len() == total,
            forall|yy: int| 0 <= yy < rows@.len() ==> (#[trigger] rows@[yy])@.len() <= w,
            forall|xx: int, yy: int|
                0 <= xx < w && 0 <= yy < y ==> data@[yy * w + xx] == (if xx < rows@[yy]@.len() {
                    byte_cell(#[trigger] rows@[yy]@[xx])->0
                } else {
                    MapCell::Wall
                }),
            forall|xx: int, yy: int|
                0 <= yy < y && 0 <= xx < rows@[yy]@.len() ==> byte_cell(
                    #[trigger] rows@[yy]@[xx],
                ) is Some,
            forall|i: int| y * w <= i < data@.len() ==> data@[i] == MapCell::Wall,
            match spawn_opt {
                Option::None => forall|xx: int, yy: int|
                    #![trigger spawn_at(rows@, xx, yy)]
                    0 <= yy < y ==> !spawn_at(rows@, xx, yy),
                Option::Some(s) => {
                    &&& spawn_at(rows@, s.x as int, s.y as int) && s.y < y
                    &&& byte_spawn_dir(rows@[s.y as int]@[s.x as int]) == Option::Some(s.direction)
                    &&& forall|xx: int, yy: int|
                        #![trigger spawn_at(rows@, xx, yy)]
                        0 <= yy < y && spawn_at(rows@, xx, yy) ==> xx == s.x && yy == s.y
                },
            },
        decreases h - y,
    {
        let row_len = rows[y].len();
        let mut x: usize = 0;
        while x < row_len
            invariant
                x <= row_len,
                y < h,
                row_len == rows@[y as int]@.len(),
                h == rows@.len(),
                1 <= w <= 32768,
                h <= 32768,
                total == h * w,
                data@.len() == total,
                forall|yy: int| 0 <= yy < rows@.len() ==> (#[trigger] rows@[yy])@.len() <= w,
                forall|xx: int, yy: int|
                    0 <= xx < w && 0 <= yy < y ==> data@[yy * w + xx] == (if xx < rows@[yy]@.len() {
                        byte_cell(#[trigger] rows@[yy]@[xx])->0
                    } else {
                        MapCell::Wall
                    }),
                forall|xx: int, yy: int|
                    0 <= yy < y && 0 <= xx < rows@[yy]@.len() ==> byte_cell(
                        #[trigger] rows@[yy]@[xx],
                    ) is Some,
                forall|xx: int| 0 <= xx < x ==> data@[y * w + xx] == byte_cell(
                    #[trigger] rows@[y as int]@[xx],
                )->0,
                forall|xx: int| 0 <= xx < x ==> byte_cell(#[trigger] rows@[y as int]@[xx]) is Some,
                forall|i: int| y * w + x <= i < data@.len() ==> data@[i] == MapCell::Wall,
                match spawn_opt {
                    Option::None => forall|xx: int, yy: int|
                        #![trigger spawn_at(rows@, xx, yy)]
                        (0 <= yy < y || (yy == y && 0 <= xx < x)) ==> !spawn_at(rows@, xx, yy),
                    Option::Some(s) => {
                        &&& spawn_at(rows@, s.x as int, s.y as int)
                        &&& (s.y < y || (s.y == y && s.x < x))
                        &&& byte_spawn_dir(rows@[s.y as int]@[s.x as int]) == Option::Some(
                            s.direction,
                        )
                        &&& forall|xx: int, yy: int|
                            #![trigger spawn_at(rows@, xx, yy)]
                            (0 <= yy < y || (yy == y && 0 <= xx < x)) && spawn_at(rows@, xx, yy)
                                ==> xx == s.x && yy == s.y
                    },
                },
            decreases row_len - x,
        {
            proof {
                assert(y * w + x < h * w) by (nonlinear_arith)
                    requires
                        y < h,
                        x < row_len,
                        row_len <= w,
                        0 < w,
                ;
                assert((y + 1) * w == y * w + w) by (nonlinear_arith);
            }
            let b = rows[y][x];
            let cell: MapCell;
            let mut dir: Option<Direction> = None;
            if b == 48 {
                cell = MapCell::Space;
            } else if b == 49 || b == 32 {
                cell = MapCell::Wall;
            } else if b == 50 {
                cell = MapCell::Item;
            } else if b == 78 {
                cell = MapCell::Space;
                dir = Some(Direction::N);
            } else if b == 83 {
                cell = MapCell::Space;
                dir = Some(Direction::S);
            } else if b == 69 {
                cell = MapCell::Space;
                dir = Some(Direction::E);
            } else if b == 87 {
                cell = MapCell::Space;
                dir = Some(Direction::W);
            } else {
                return Err(MapError::InvalidChar);
            }
            proof {
                assert(byte_cell(rows@[y as int]@[x as int]) == Option::Some(cell));
                assert(byte_spawn_dir(rows@[y as int]@[x as int]) == dir@);
                assert forall|xx2: int, yy2: int|
                    #![trigger data@[yy2 * w + xx2]]
                    0 <= xx2 < w && 0 <= yy2 < y implies yy2 * w + xx2 < y * w by {
                    assert(yy2 * w + xx2 < y * w) by (nonlinear_arith)
                        requires
                            0 <= xx2 < w,
                            0 <= yy2 < y,
                            0 < w,
                    ;
                }
            }
            if let Some(dd) = dir {
                match spawn_opt {
                    None => {
                        spawn_opt = Some(Spawn { direction: dd, x, y });
                    },
                    Some(prev) => {
                        proof {
                            assert(spawn_at(rows@, x as int, y as int));
                            assert(spawn_at(rows@, prev.x as int, prev.y as int));
                            assert(prev.x as int != x as int || prev.y as int != y as int);
                        }
                        return Err(MapError::DuplicateSpawn);
                    },
                }
            }
            data.set(y * w + x, cell);
            x = x + 1;
        }
        proof {
            assert((y + 1) * w == y * w + w) by (nonlinear_arith);
            assert((y + 1) * w <= h * w) by (nonlinear_arith)
                requires
                    y < h,
                    w > 0,
            ;
        }
        y = y + 1;
    }
    match spawn_opt {
        None => Err(MapError::NoSpawn),
        Some(s) => Ok((w, h, data, s)),
    }
}

} // verus!
