use vstd::prelude::*;
use crate::world::{World, cell_index, lemma_index_in_bounds, spliced};
use vstd::arithmetic::div_mod::lemma_fundamental_div_mod_converse;

verus! {

/// 1 for a live cell, 0 for a dead one.
pub open spec fn count_of(live: bool) -> int {
    if live {
        1
    } else {
        0
    }
}

/// How many of the eight cells around `(x, y)` are alive; cells off the grid
/// count as dead.
pub open spec fn live_neighbors(world: World, x: int, y: int) -> int {
    count_of(world.live_at(x - 1, y - 1)) + count_of(world.live_at(x - 1, y)) + count_of(
        world.live_at(x - 1, y + 1),
    ) + count_of(world.live_at(x, y - 1)) + count_of(world.live_at(x, y + 1)) + count_of(
        world.live_at(x + 1, y - 1),
    ) + count_of(world.live_at(x + 1, y)) + count_of(world.live_at(x + 1, y + 1))
}

/// The transition rule: born with three live neighbours, kept as it is with
/// two, dead otherwise.
pub open spec fn next_state(now: bool, neighbors: int) -> bool {
    if neighbors == 3 {
        true
    } else if neighbors == 2 {
        now
    } else {
        false
    }
}

/// The rule as birth and survival: a live cell with two or three live
/// neighbours survives and with fewer or more dies; a dead cell with exactly
/// three is born, and otherwise stays dead.
pub proof fn lemma_rule_table(now: bool, neighbors: int)
    requires
        0 <= neighbors <= 8,
    ensures
        now ==> (next_state(now, neighbors) <==> (neighbors == 2 || neighbors == 3)),
        now && neighbors < 2 ==> !next_state(now, neighbors),
        now && neighbors > 3 ==> !next_state(now, neighbors),
        !now ==> (next_state(now, neighbors) <==> neighbors == 3),
{
}

/// The state of `(x, y)` in the generation after `world`.
pub open spec fn next_cell(world: World, x: int, y: int) -> bool {
    next_state(world.live_at(x, y), live_neighbors(world, x, y))
}

/// The whole generation after `world`, row-major.
pub open spec fn next_generation(world: World) -> Seq<bool> {
    let w = world.spec_width() as int;
    Seq::new(world.spec_cells().len(), |i: int| next_cell(world, i % w, i / w))
}

/// Whether the cell at `(x + dx, y + dy)` is alive; a coordinate that does not
/// fit in an `isize` is off the grid.
fn neighbor_live(world: &World, x: isize, y: isize, dx: isize, dy: isize) -> (r: bool)
    requires
        world.wf(),
        -1 <= dx <= 1,
        -1 <= dy <= 1,
    ensures
        r == world.live_at(x + dx, y + dy),
{
    match (x.checked_add(dx), y.checked_add(dy)) {
        (Some(nx), Some(ny)) => world.is_live(nx, ny),
        _ => false,
    }
}

/// The state of `(x, y)` in the next generation of `world`.
pub fn next_live(world: &World, x: isize, y: isize) -> (r: bool)
    requires
        world.wf(),
    ensures
        r == next_cell(*world, x as int, y as int),
{
    let now = world.is_live(x, y);
    let poses: [(isize, isize); 8] = [
        (-1, -1),
        (-1, 0),
        (-1, 1),
        (0, -1),
        (0, 1),
        (1, -1),
        (1, 0),
        (1, 1),
    ];
    proof {
        assert(poses@ =~= neighbor_offsets());
    }
    let mut lives: u8 = 0;
    let mut k: usize = 0;
    while k < 8
        invariant
            world.wf(),
            0 <= k <= 8,
            poses@ == neighbor_offsets(),
            lives as int == neighbors_among(*world, x as int, y as int, poses@, k as int),
            lives <= k,
        decreases 8 - k,
    {
        let (dx, dy) = poses[k];
        if neighbor_live(world, x, y, dx, dy) {
            lives += 1;
        }
        k += 1;
    }
    proof {
        reveal_with_fuel(neighbors_among, 9);
    }
    match lives {
        3 => true,
        2 => now,
        _ => false,
    }
}

/// The eight steps from a cell to its neighbours.
pub open spec fn neighbor_offsets() -> Seq<(isize, isize)> {
    seq![
        (-1isize, -1isize),
        (-1isize, 0isize),
        (-1isize, 1isize),
        (0isize, -1isize),
        (0isize, 1isize),
        (1isize, -1isize),
        (1isize, 0isize),
        (1isize, 1isize),
    ]
}

/// How many of the first `k` offsets in `offsets` lead from `(x, y)` to a
/// live cell.
pub open spec fn neighbors_among(
    world: World,
    x: int,
    y: int,
    offsets: Seq<(isize, isize)>,
    k: int,
) -> int
    decreases k,
{
    if k <= 0 {
        0
    } else {
        neighbors_among(world, x, y, offsets, k - 1) + count_of(
            world.live_at(x + offsets[k - 1].0, y + offsets[k - 1].1),
        )
    }
}


/// `next_generation` read at a coordinate is the rule applied there.
pub proof fn lemma_next_generation_at(world: World, x: int, y: int)
    requires
        world.wf(),
        world.contains(x, y),
    ensures
        0 <= cell_index(world.spec_width() as int, x, y) < world.spec_cells().len(),
        next_generation(world)[cell_index(world.spec_width() as int, x, y)] == next_cell(world, x, y),
{
    let w = world.spec_width() as int;
    lemma_index_in_bounds(w, world.spec_height() as int, x, y);
    lemma_fundamental_div_mod_converse(cell_index(w, x, y), w, y, x);
}

/// Relies on num_cpus::get: the number of CPUs that this process may use,
/// never less than one.
#[verifier::external_body]
fn available_cpus() -> (r: usize)
    ensures
        r >= 1,
{
    num_cpus::get()
}

/// Rows in each worker's band: the height divided by the number of workers,
/// rounded up.
pub open spec fn rows_per_worker(height: int, workers: int) -> int {
    (height + workers - 1) / workers
}

/// A two-grid simulation: `world_a` is the current generation, `world_b` the
/// scratch space the next one is written into before the two trade places.
pub struct Game {
    pub width: isize,
    pub height: isize,
    world_a: World,
    world_b: World,
    cpu_num: usize,
    cpu_rows: usize,
    arrived: Vec<bool>,
    worked: usize,
}

impl Game {
    /// The generation that queries see.
    pub closed spec fn spec_current(&self) -> World {
        self.world_a
    }

    /// The grid that the generation in progress is written into.
    pub closed spec fn spec_next(&self) -> World {
        self.world_b
    }

    pub closed spec fn spec_workers(&self) -> nat {
        self.cpu_num as nat
    }

    pub closed spec fn spec_rows_per_worker(&self) -> nat {
        self.cpu_rows as nat
    }

    /// For each band, whether its rows for the generation in progress are in.
    pub closed spec fn spec_arrived(&self) -> Seq<bool> {
        self.arrived@
    }

    /// How many bands of the generation in progress are in.
    pub closed spec fn spec_worked(&self) -> nat {
        self.worked as nat
    }

    /// The same game with the roles of its two grids exchanged.
    pub closed spec fn swapped(self) -> Game {
        Game { world_a: self.world_b, world_b: self.world_a, ..self }
    }

    /// The public `width` and `height` give the grids' dimensions.
    pub closed spec fn dims_match(&self) -> bool {
        self.width == self.world_a.spec_width() && self.height == self.world_a.spec_height()
    }

    pub open spec fn wf(&self) -> bool {
        &&& self.spec_current().wf()
        &&& self.spec_next().wf()
        &&& self.spec_current().spec_width() == self.spec_next().spec_width()
        &&& self.spec_current().spec_height() == self.spec_next().spec_height()
        &&& self.dims_match()
        &&& self.spec_current().spec_height() >= 1
        &&& self.spec_current().spec_width() >= 1
        &&& self.spec_workers() >= 1
        &&& self.spec_rows_per_worker() == rows_per_worker(
            self.spec_current().spec_height() as int,
            self.spec_workers() as int,
        )
        &&& self.spec_arrived().len() == self.spec_workers()
        &&& self.spec_worked() == count_true(self.spec_arrived())
        &&& self.spec_worked() < self.spec_workers()
    }

    /// A game whose current generation is `lives` (row-major, `width` ×
    /// `height` cells), run by as many workers as the machine has CPUs.
    pub fn new(width: usize, height: usize, lives: &Vec<bool>) -> (r: Game)
        requires
            1 <= width <= isize::MAX,
            1 <= height <= isize::MAX,
            width * height <= usize::MAX,
            lives@.len() == width * height,
        ensures
            r.wf(),
            r.spec_current().spec_width() == width,
            r.spec_current().spec_height() == height,
            r.spec_current().spec_cells() == lives@,
            r.spec_worked() == 0,
            r.spec_arrived() == Seq::new(r.spec_workers(), |i: int| false),
            r.bands_agree(),
    {
        let cpu_num = available_cpus();
        Game::with_workers(width, height, lives, cpu_num)
    }

    /// A game whose current generation is `lives`, with its rows split among
    /// `cpu_num` workers.
    pub fn with_workers(width: usize, height: usize, lives: &Vec<bool>, cpu_num: usize) -> (r: Game)
        requires
            1 <= width <= isize::MAX,
            1 <= height <= isize::MAX,
            width * height <= usize::MAX,
            lives@.len() == width * height,
            cpu_num >= 1,
        ensures
            r.wf(),
            r.spec_current().spec_width() == width,
            r.spec_current().spec_height() == height,
            r.spec_current().spec_cells() == lives@,
            r.spec_next().spec_cells() == Seq::new((width * height) as nat, |i: int| false),
            r.spec_workers() == cpu_num,
            r.spec_worked() == 0,
            r.spec_arrived() == Seq::new(cpu_num as nat, |i: int| false),
            r.bands_agree(),
    {
        let mut world_a = World::new(width, height);
        let world_b = World::new(width, height);
        let cells = lives.clone();
        proof {
            assert(cells@ =~= lives@);
        }
        world_a.set_lives(0, 0, cells);
        proof {
            assert(world_a.spec_cells() =~= lives@);
        }
        let cpu_rows = height / cpu_num + if height % cpu_num == 0 { 0 } else { 1 };
        proof {
            lemma_rows_per_worker(height as int, cpu_num as int);
        }
        let arrived = vec![false; cpu_num];
        proof {
            lemma_count_true_none(arrived@);
            assert(arrived@ =~= Seq::new(cpu_num as nat, |i: int| false));
        }
        Game {
            width: width as isize,
            height: height as isize,
            world_a,
            world_b,
            cpu_num,
            cpu_rows,
            arrived,
            worked: 0,
        }
    }

    pub fn workers(&self) -> (r: usize)
        ensures
            r == self.spec_workers(),
    {
        self.cpu_num
    }

    pub fn rows_per_worker(&self) -> (r: usize)
        ensures
            r == self.spec_rows_per_worker(),
    {
        self.cpu_rows
    }

    /// The current generation.
    pub fn current(&self) -> (r: &World)
        ensures
            *r == self.spec_current(),
    {
        &self.world_a
    }

    /// Advances one generation on this thread: every cell of the next grid
    /// gets the rule applied to the current one, then the two trade places.
    pub fn step(&mut self)
        requires
            old(self).wf(),
        ensures
            final(self).wf(),
            final(self).spec_current().spec_cells() == next_generation(old(self).spec_current()),
            final(self).spec_current().spec_width() == old(self).spec_current().spec_width(),
            final(self).spec_current().spec_height() == old(self).spec_current().spec_height(),
            final(self).spec_next() == old(self).spec_current(),
            final(self).spec_workers() == old(self).spec_workers(),
            final(self).spec_arrived() == old(self).spec_arrived(),
            final(self).spec_worked() == old(self).spec_worked(),
    {
        let width = self.world_a.width();
        let height = self.world_a.height();
        let ghost target = next_generation(self.world_a);
        let mut y: usize = 0;
        while y < height
            invariant
                self.wf(),
                self.world_a == old(self).world_a,
                self.cpu_num == old(self).cpu_num,
                self.arrived == old(self).arrived,
                self.worked == old(self).worked,
                target == next_generation(self.world_a),
                width == self.world_a.spec_width(),
                height == self.world_a.spec_height(),
                0 <= y <= height,
                forall|j: int| 0 <= j < y * width ==> #[trigger] self.world_b.spec_cells()[j] == target[j],
            decreases height - y,
        {
            let mut x: usize = 0;
            while x < width
                invariant
                    self.wf(),
                    self.world_a == old(self).world_a,
                    self.cpu_num == old(self).cpu_num,
                    self.arrived == old(self).arrived,
                    self.worked == old(self).worked,
                    target == next_generation(self.world_a),
                    width == self.world_a.spec_width(),
                    height == self.world_a.spec_height(),
                    0 <= y < height,
                    0 <= x <= width,
                    forall|j: int| 0 <= j < y * width + x ==> #[trigger] self.world_b.spec_cells()[j] == target[j],
                decreases width - x,
            {
                let doa = next_live(&self.world_a, x as isize, y as isize);
                proof {
                    lemma_next_generation_at(self.world_a, x as int, y as int);
                }
                self.world_b.set_life(x as isize, y as isize, doa);
                x += 1;
            }
            proof {
                assert((y + 1) * width == y * width + width) by (nonlinear_arith);
            }
            y += 1;
        }
        proof {
            assert(height * width == width * height) by (nonlinear_arith);
            assert(self.world_b.spec_cells() =~= target);
        }
        self.swap();
    }

    /// The current generation's cells, row-major.
    pub fn lives(&self) -> (r: Vec<bool>)
        requires
            self.wf(),
        ensures
            r@ == self.spec_current().spec_cells(),
    {
        self.world_a.snapshot()
    }

    /// Exchanges the roles of the two grids, without copying either.
    pub fn swap(&mut self)
        ensures
            *final(self) == old(self).swapped(),
            final(self).spec_current() == old(self).spec_next(),
            final(self).spec_next() == old(self).spec_current(),
            final(self).spec_workers() == old(self).spec_workers(),
            final(self).spec_rows_per_worker() == old(self).spec_rows_per_worker(),
            final(self).spec_arrived() == old(self).spec_arrived(),
            final(self).spec_worked() == old(self).spec_worked(),
            old(self).wf() ==> final(self).wf(),
    {
        std::mem::swap(&mut self.world_a, &mut self.world_b);
    }
}

/// One worker's share of a generation: the rows from `head` on, `rows` of
/// them, as computed from the current grid.
pub struct Band {
    pub head: usize,
    pub rows: usize,
    pub lives: Vec<bool>,
}

/// How many rows a band that starts at row `head` and may hold `rows_max`
/// rows really has on a grid of `height` rows.
pub open spec fn band_rows(height: int, head: int, rows_max: int) -> int {
    if head >= height {
        0
    } else if rows_max <= height - head {
        rows_max
    } else {
        height - head
    }
}

/// The cells that the band starting at row `head` with `rows` rows holds in
/// the generation after `world`.
pub open spec fn band_lives(world: World, head: int, rows: int) -> Seq<bool> {
    let w = world.spec_width() as int;
    if rows == 0 {
        Seq::empty()
    } else {
        next_generation(world).subrange(head * w, (head + rows) * w)
    }
}

/// Computes the next generation of the band of at most `rows_max` rows that
/// starts at row `head` of `world`; the band is cut at the last row.
pub fn compute_band(world: &World, head: usize, rows_max: usize) -> (r: Band)
    requires
        world.wf(),
    ensures
        r.head == head,
        r.rows == band_rows(world.spec_height() as int, head as int, rows_max as int),
        r.lives@ == band_lives(*world, head as int, r.rows as int),
{
    let width = world.width();
    let height = world.height();
    let ghost target = next_generation(*world);
    let mut lives: Vec<bool> = Vec::new();
    let mut rows: usize = 0;
    let mut y: usize = head;
    while y < height && rows < rows_max
        invariant
            world.wf(),
            target == next_generation(*world),
            width == world.spec_width(),
            height == world.spec_height(),
            y == head + rows,
            rows <= rows_max,
            head >= height ==> rows == 0,
            rows > 0 ==> y <= height,
            rows > 0 ==> lives@ == target.subrange(head * width, y * width),
            rows == 0 ==> lives@.len() == 0,
        decreases height - y,
    {
        let ghost before = lives@;
        proof {
            assert((y + 1) * width == y * width + width) by (nonlinear_arith);
            assert((y + 1) * width <= width * height) by (nonlinear_arith)
                requires
                    y < height,
                    width >= 0,
            ;
            assert(lives@ =~= before + target.subrange(y * width, y * width));
        }
        let mut x: usize = 0;
        while x < width
            invariant
                world.wf(),
                target == next_generation(*world),
                width == world.spec_width(),
                height == world.spec_height(),
                y < height,
                head <= y,
                x <= width,
                y * width + width <= target.len(),
                lives@ == before + target.subrange(y * width, y * width + x),
            decreases width - x,
        {
            let doa = next_live(world, x as isize, y as isize);
            proof {
                lemma_next_generation_at(*world, x as int, y as int);
            }
            lives.push(doa);
            proof {
                assert(target.subrange(y * width, y * width + x + 1) =~= target.subrange(
                    y * width,
                    y * width + x,
                ).push(doa));
            }
            x += 1;
        }
        proof {
            assert(head * width <= y * width) by (nonlinear_arith)
                requires
                    head <= y,
                    width >= 0,
            ;
            assert(lives@ =~= target.subrange(head * width, (y + 1) * width));
        }
        rows += 1;
        y += 1;
    }
    Band { head, rows, lives }
}

/// The rows that band `i` covers start here: its first row, clipped to the
/// height.
pub open spec fn band_low(i: int, rows_per_band: int, height: int) -> int {
    if i * rows_per_band <= height {
        i * rows_per_band
    } else {
        height
    }
}

/// Two grids of `width` × `height` cells agree on the rows of band `i`.
pub open spec fn band_agrees(
    a: Seq<bool>,
    b: Seq<bool>,
    width: int,
    height: int,
    rows_per_band: int,
    i: int,
) -> bool {
    let lo = band_low(i, rows_per_band, height) * width;
    let hi = band_low(i + 1, rows_per_band, height) * width;
    a.subrange(lo, hi) == b.subrange(lo, hi)
}

/// Bands of `rows_per_band` rows, `workers` of them, cover every row: two
/// grids that agree on every band are the same grid. So a generation put
/// together band by band, from bands computed apart, is the generation that
/// one pass over the whole grid computes.
pub proof fn lemma_bands_cover(
    a: Seq<bool>,
    b: Seq<bool>,
    width: int,
    height: int,
    rows_per_band: int,
    workers: int,
)
    requires
        width >= 1,
        height >= 1,
        rows_per_band >= 1,
        workers >= 1,
        rows_per_band * workers >= height,
        a.len() == width * height,
        b.len() == width * height,
        forall|i: int| 0 <= i < workers ==> band_agrees(a, b, width, height, rows_per_band, i),
    ensures
        a == b,
{
    lemma_bands_prefix(a, b, width, height, rows_per_band, workers);
    assert(workers * rows_per_band >= height) by (nonlinear_arith)
        requires
            rows_per_band * workers >= height,
    ;
    assert(band_low(workers, rows_per_band, height) == height);
    assert(height * width == width * height) by (nonlinear_arith);
    assert(a =~= b) by {
        assert forall|j: int| 0 <= j < a.len() implies a[j] == b[j] by {
            assert(a.subrange(0, height * width)[j] == b.subrange(0, height * width)[j]);
        }
    }
}

/// Agreement on bands `0..k` is agreement on the cells that they cover.
proof fn lemma_bands_prefix(
    a: Seq<bool>,
    b: Seq<bool>,
    width: int,
    height: int,
    rows_per_band: int,
    k: int,
)
    requires
        width >= 1,
        height >= 1,
        rows_per_band >= 1,
        k >= 0,
        a.len() == width * height,
        b.len() == width * height,
        forall|i: int| 0 <= i < k ==> band_agrees(a, b, width, height, rows_per_band, i),
    ensures
        0 <= band_low(k, rows_per_band, height) * width <= width * height,
        a.subrange(0, band_low(k, rows_per_band, height) * width) == b.subrange(
            0,
            band_low(k, rows_per_band, height) * width,
        ),
    decreases k,
{
    let hi = band_low(k, rows_per_band, height);
    assert(0 <= hi * width <= width * height) by (nonlinear_arith)
        requires
            0 <= hi <= height,
            width >= 1,
    ;
    if k == 0 {
        assert(0 * rows_per_band == 0);
        assert(0 * width == 0);
        assert(a.subrange(0, 0) =~= b.subrange(0, 0));
    } else {
        lemma_bands_prefix(a, b, width, height, rows_per_band, k - 1);
        let lo = band_low(k - 1, rows_per_band, height);
        assert(lo <= hi) by (nonlinear_arith)
            requires
                lo == band_low(k - 1, rows_per_band, height),
                hi == band_low(k, rows_per_band, height),
                rows_per_band >= 1,
                k >= 1,
        ;
        assert(lo * width <= hi * width) by (nonlinear_arith)
            requires
                lo <= hi,
                width >= 1,
        ;
        assert(band_agrees(a, b, width, height, rows_per_band, k - 1));
        assert(a.subrange(0, hi * width) =~= a.subrange(0, lo * width) + a.subrange(
            lo * width,
            hi * width,
        ));
        assert(b.subrange(0, hi * width) =~= b.subrange(0, lo * width) + b.subrange(
            lo * width,
            hi * width,
        ));
        assert(a.subrange(lo * width, hi * width) == b.subrange(lo * width, hi * width));
    }
}

/// What became of a band handed to the aggregator.
#[derive(PartialEq, Eq, Structural, Debug, Clone, Copy)]
pub enum Installed {
    /// Written into the next grid; other bands of this generation are still
    /// outstanding.
    Pending,
    /// Written into the next grid as the last band of the generation, which is
    /// now the current one.
    Complete,
    /// Not a band that the generation in progress is waiting for: the grids
    /// are left as they were.
    Rejected,
}

impl Game {
    /// The band is one that the generation in progress still waits for, with
    /// the number of rows and cells that band has.
    pub open spec fn band_accepted(&self, band: &Band) -> bool {
        let cr = self.spec_rows_per_worker() as int;
        let i = band.head as int / cr;
        &&& band.head as int % cr == 0
        &&& i < self.spec_workers()
        &&& !self.spec_arrived()[i]
        &&& band.rows == band_rows(self.spec_current().spec_height() as int, band.head as int, cr)
        &&& band.lives@.len() == band.rows * self.spec_current().spec_width()
    }

    /// Every band already in holds the rows of the generation after the
    /// current grid.
    pub open spec fn bands_agree(&self) -> bool {
        forall|i: int|
            0 <= i < self.spec_workers() && #[trigger] self.spec_arrived()[i] ==> band_agrees(
                self.spec_next().spec_cells(),
                next_generation(self.spec_current()),
                self.spec_current().spec_width() as int,
                self.spec_current().spec_height() as int,
                self.spec_rows_per_worker() as int,
                i,
            )
    }

    /// First row of worker `i`'s band.
    pub fn band_head(&self, i: usize) -> (r: usize)
        requires
            self.wf(),
            i < self.spec_workers(),
        ensures
            r == i * self.spec_rows_per_worker(),
    {
        proof {
            let h = self.spec_current().spec_height() as int;
            let n = self.cpu_num as int;
            let cr = self.cpu_rows as int;
            lemma_rows_per_worker(h, n);
            vstd::arithmetic::div_mod::lemma_fundamental_div_mod(h + n - 1, n);
            assert(i * cr <= usize::MAX) by (nonlinear_arith)
                requires
                    cr == (h + n - 1) / n,
                    h + n - 1 == n * ((h + n - 1) / n) + (h + n - 1) % n,
                    0 <= (h + n - 1) % n,
                    1 <= h <= isize::MAX,
                    1 <= n <= usize::MAX,
                    0 <= i < n,
                    cr >= 1,
            {
                if cr == 1 {
                } else {
                    assert(n * cr <= h + n - 1);
                    assert(n < h);
                    assert(i * cr <= n * cr);
                }
            }
        }
        i * self.cpu_rows
    }

    /// The aggregator's step: takes one band of the generation in progress
    /// into the next grid, and when it is the last band outstanding, makes the
    /// next grid the current one.
    pub fn install_band(&mut self, band: Band) -> (r: Installed)
        requires
            old(self).wf(),
        ensures
            final(self).wf(),
            final(self).spec_workers() == old(self).spec_workers(),
            final(self).spec_current().spec_width() == old(self).spec_current().spec_width(),
            final(self).spec_current().spec_height() == old(self).spec_current().spec_height(),
            old(self).band_accepted(&band) <==> r != Installed::Rejected,
            r == Installed::Complete <==> old(self).band_accepted(&band) && forall|k: int|
                0 <= k < old(self).spec_workers() && k != band.head as int
                    / old(self).spec_rows_per_worker() as int ==> #[trigger] old(self).spec_arrived()[k],
            r == Installed::Rejected ==> *final(self) == *old(self),
            old(self).band_accepted(&band) ==> ({
                let i = band.head as int / old(self).spec_rows_per_worker() as int;
                let cells = spliced(
                    old(self).spec_next().spec_cells(),
                    band.head * old(self).spec_current().spec_width(),
                    band.lives@,
                );
                if old(self).spec_worked() + 1 == old(self).spec_workers() {
                    &&& r == Installed::Complete
                    &&& final(self).spec_current().spec_cells() == cells
                    &&& final(self).spec_next() == old(self).spec_current()
                    &&& final(self).spec_worked() == 0
                    &&& final(self).spec_arrived() == Seq::new(old(self).spec_workers(), |k: int| false)
                } else {
                    &&& r == Installed::Pending
                    &&& final(self).spec_current() == old(self).spec_current()
                    &&& final(self).spec_next().spec_cells() == cells
                    &&& final(self).spec_worked() == old(self).spec_worked() + 1
                    &&& final(self).spec_arrived() == old(self).spec_arrived().update(i, true)
                }
            }),
            old(self).band_accepted(&band) && old(self).bands_agree() && band.lives@ == band_lives(
                old(self).spec_current(),
                band.head as int,
                band.rows as int,
            ) ==> {
                &&& r == Installed::Complete ==> final(self).spec_current().spec_cells()
                    == next_generation(old(self).spec_current()) && final(self).bands_agree()
                &&& r == Installed::Pending ==> final(self).bands_agree()
            },
    {
        let cr = self.cpu_rows;
        proof {
            lemma_rows_per_worker(self.world_a.spec_height() as int, self.cpu_num as int);
        }
        let i = band.head / cr;
        if band.head % cr != 0 || i >= self.cpu_num || self.arrived[i] {
            return Installed::Rejected;
        }
        let height = self.world_a.height();
        let width = self.world_a.width();
        let rows = if band.head >= height {
            0
        } else if cr <= height - band.head {
            cr
        } else {
            height - band.head
        };
        if band.rows != rows || band.lives.len() / width != rows || band.lives.len() % width != 0 {
            proof {
                if band.rows == rows && band.lives@.len() == band.rows * width {
                    lemma_fundamental_div_mod_converse(band.lives@.len() as int, width as int, rows as int, 0);
                }
            }
            return Installed::Rejected;
        }
        proof {
            let len = band.lives@.len() as int;
            let w = width as int;
            let hd = band.head as int;
            let c = cr as int;
            vstd::arithmetic::div_mod::lemma_fundamental_div_mod(len, w);
            vstd::arithmetic::div_mod::lemma_fundamental_div_mod(hd, c);
            assert(len == rows * w) by (nonlinear_arith)
                requires
                    len == w * (len / w) + len % w,
                    len % w == 0,
                    len / w == rows,
            ;
            assert(hd == i * c) by (nonlinear_arith)
                requires
                    hd == c * (hd / c) + hd % c,
                    hd % c == 0,
                    i == hd / c,
            ;
            if self.bands_agree() && band.lives@ == band_lives(self.world_a, band.head as int, band.rows as int) {
                lemma_install_agrees(
                    self.world_b.spec_cells(),
                    next_generation(self.world_a),
                    band.lives@,
                    width as int,
                    height as int,
                    cr as int,
                    i as int,
                );
            }
            lemma_count_true_set(self.arrived@, i as int);
            if forall|k: int| 0 <= k < self.cpu_num && k != i ==> #[trigger] self.arrived@[k] {
                lemma_count_true_all(self.arrived@.update(i as int, true));
            }
        }
        let ghost old_arrived = self.arrived@;
        let ghost agreed = self.bands_agree() && band.lives@ == band_lives(self.world_a, band.head as int, band.rows as int);
        self.world_b.set_lives(0, band.head, band.lives);
        if self.worked + 1 == self.cpu_num {
            proof {
                lemma_count_true_full(old_arrived.update(i as int, true));
                assert forall|k: int| 0 <= k < self.cpu_num && k != i implies #[trigger] old_arrived[k] by {
                    assert(old_arrived.update(i as int, true)[k]);
                }
                if agreed {
                    assert forall|k: int| 0 <= k < self.cpu_num implies band_agrees(
                        self.world_b.spec_cells(),
                        next_generation(self.world_a),
                        width as int,
                        height as int,
                        cr as int,
                        k,
                    ) by {
                        assert(old_arrived.update(i as int, true)[k]);
                    }
                    lemma_rows_per_worker(height as int, self.cpu_num as int);
                    lemma_bands_cover(
                        self.world_b.spec_cells(),
                        next_generation(self.world_a),
                        width as int,
                        height as int,
                        cr as int,
                        self.cpu_num as int,
                    );
                }
            }
            self.swap();
            self.arrived = vec![false; self.cpu_num];
            self.worked = 0;
            proof {
                lemma_count_true_none(self.arrived@);
                assert(self.arrived@ =~= Seq::new(self.cpu_num as nat, |k: int| false));
            }
            Installed::Complete
        } else {
            self.arrived.set(i, true);
            self.worked = self.worked + 1;
            Installed::Pending
        }
    }
}

/// Band `i` written over `cells` with its rows of `target` agrees with
/// `target` on band `i`, and on every other band on which `cells` did.
proof fn lemma_install_agrees(
    cells: Seq<bool>,
    target: Seq<bool>,
    lives: Seq<bool>,
    width: int,
    height: int,
    rows_per_band: int,
    i: int,
)
    requires
        width >= 1,
        height >= 1,
        rows_per_band >= 1,
        i >= 0,
        cells.len() == width * height,
        target.len() == width * height,
        lives.len() == band_rows(height, i * rows_per_band, rows_per_band) * width,
        lives == (if band_rows(height, i * rows_per_band, rows_per_band) == 0 {
            Seq::<bool>::empty()
        } else {
            target.subrange(
                i * rows_per_band * width,
                (i * rows_per_band + band_rows(height, i * rows_per_band, rows_per_band)) * width,
            )
        }),
    ensures
        band_agrees(spliced(cells, i * rows_per_band * width, lives), target, width, height, rows_per_band, i),
        forall|j: int|
            0 <= j && j != i && #[trigger] band_agrees(cells, target, width, height, rows_per_band, j)
                ==> band_agrees(
                spliced(cells, i * rows_per_band * width, lives),
                target,
                width,
                height,
                rows_per_band,
                j,
            ),
{
    let head = i * rows_per_band;
    let rows = band_rows(height, head, rows_per_band);
    let new_cells = spliced(cells, head * width, lives);
    let lo = band_low(i, rows_per_band, height);
    let hi = band_low(i + 1, rows_per_band, height);
    assert((i + 1) * rows_per_band == head + rows_per_band) by (nonlinear_arith)
        requires
            head == i * rows_per_band,
    ;
    assert(head >= 0) by (nonlinear_arith)
        requires
            head == i * rows_per_band,
            i >= 0,
            rows_per_band >= 1,
    ;
    assert(0 <= lo * width <= hi * width <= width * height) by (nonlinear_arith)
        requires
            0 <= lo <= hi <= height,
            width >= 1,
    ;
    if rows == 0 {
        assert(new_cells =~= cells);
        assert(lo == hi);
        assert(new_cells.subrange(lo * width, hi * width) =~= target.subrange(lo * width, hi * width));
    } else {
        assert(lo == head && hi == head + rows);
        assert((head + rows) * width <= width * height) by (nonlinear_arith)
            requires
                head + rows <= height,
                width >= 1,
        ;
        assert(head * width + rows * width == (head + rows) * width) by (nonlinear_arith);
        assert(new_cells.subrange(lo * width, hi * width) =~= target.subrange(lo * width, hi * width));
    }
    assert forall|j: int|
        0 <= j && j != i && #[trigger] band_agrees(cells, target, width, height, rows_per_band, j)
            implies band_agrees(new_cells, target, width, height, rows_per_band, j) by {
        let jlo = band_low(j, rows_per_band, height);
        let jhi = band_low(j + 1, rows_per_band, height);
        lemma_band_low_monotone(j, j + 1, rows_per_band, height);
        if j < i {
            lemma_band_low_monotone(j + 1, i, rows_per_band, height);
        } else {
            lemma_band_low_monotone(i + 1, j, rows_per_band, height);
        }
        assert(0 <= jlo * width <= jhi * width <= width * height) by (nonlinear_arith)
            requires
                0 <= jlo <= jhi <= height,
                width >= 1,
        ;
        if rows > 0 {
            if j < i {
                assert(jhi * width <= lo * width) by (nonlinear_arith)
                    requires
                        jhi <= lo,
                        width >= 1,
                ;
            } else {
                assert(hi * width <= jlo * width) by (nonlinear_arith)
                    requires
                        hi <= jlo,
                        width >= 1,
                ;
            }
            assert(new_cells.subrange(jlo * width, jhi * width) =~= cells.subrange(jlo * width, jhi * width));
        }
    }
}

/// Band boundaries never go backwards.
proof fn lemma_band_low_monotone(i: int, j: int, rows_per_band: int, height: int)
    requires
        0 <= i <= j,
        rows_per_band >= 1,
        height >= 0,
    ensures
        0 <= band_low(i, rows_per_band, height) <= band_low(j, rows_per_band, height) <= height,
{
    assert(0 <= i * rows_per_band <= j * rows_per_band) by (nonlinear_arith)
        requires
            0 <= i <= j,
            rows_per_band >= 1,
    ;
}

/// Swapping the two grids twice gives back the game as it was.
pub proof fn lemma_swap_twice(game: Game)
    ensures
        game.swapped().swapped() == game,
        game.swapped().swapped().spec_current() == game.spec_current(),
{
}

/// `cpu_rows` as computed from the height and the number of workers, and the
/// fact that the bands together reach the last row.
proof fn lemma_rows_per_worker(height: int, workers: int)
    requires
        height >= 1,
        workers >= 1,
    ensures
        height / workers + (if height % workers == 0 { 0int } else { 1int }) == rows_per_worker(height, workers),
        rows_per_worker(height, workers) >= 1,
        rows_per_worker(height, workers) * workers >= height,
        rows_per_worker(height, workers) <= height,
{
    let q = height / workers;
    let r = height % workers;
    vstd::arithmetic::div_mod::lemma_fundamental_div_mod(height, workers);
    assert(height == q * workers + r) by (nonlinear_arith)
        requires
            height == workers * q + r,
    ;
    assert((q + 1) * workers == q * workers + workers) by (nonlinear_arith);
    if r == 0 {
        lemma_fundamental_div_mod_converse(height + workers - 1, workers, q, workers - 1);
        assert(q >= 1) by (nonlinear_arith)
            requires
                height == q * workers,
                height >= 1,
                workers >= 1,
        ;
    } else {
        lemma_fundamental_div_mod_converse(height + workers - 1, workers, q + 1, r - 1);
    }
    assert(q * workers >= 0) by (nonlinear_arith) requires q >= 0, workers >= 1;
    if q == 0 {
    } else {
        assert(q <= q * workers) by (nonlinear_arith) requires q >= 1, workers >= 1;
    }
    assert((q + 1) * workers == q * workers + workers) by (nonlinear_arith);
}

/// How many entries of `s` are `true`.
pub open spec fn count_true(s: Seq<bool>) -> nat
    decreases s.len(),
{
    if s.len() == 0 {
        0
    } else {
        count_true(s.drop_last()) + if s.last() { 1nat } else { 0nat }
    }
}

proof fn lemma_count_true_bound(s: Seq<bool>)
    ensures
        count_true(s) <= s.len(),
    decreases s.len(),
{
    if s.len() > 0 {
        lemma_count_true_bound(s.drop_last());
    }
}

/// Setting an entry that was `false` adds one to the count.
proof fn lemma_count_true_set(s: Seq<bool>, i: int)
    requires
        0 <= i < s.len(),
        !s[i],
    ensures
        count_true(s.update(i, true)) == count_true(s) + 1,
    decreases s.len(),
{
    let t = s.update(i, true);
    if i == s.len() - 1 {
        assert(t.drop_last() =~= s.drop_last());
    } else {
        lemma_count_true_set(s.drop_last(), i);
        assert(t.drop_last() =~= s.drop_last().update(i, true));
    }
}

proof fn lemma_count_true_all(s: Seq<bool>)
    requires
        forall|i: int| 0 <= i < s.len() ==> s[i],
    ensures
        count_true(s) == s.len(),
    decreases s.len(),
{
    if s.len() > 0 {
        lemma_count_true_all(s.drop_last());
    }
}

/// When every entry counts, every entry is `true`.
proof fn lemma_count_true_full(s: Seq<bool>)
    requires
        count_true(s) == s.len(),
    ensures
        forall|i: int| 0 <= i < s.len() ==> s[i],
    decreases s.len(),
{
    if s.len() > 0 {
        lemma_count_true_bound(s.drop_last());
        lemma_count_true_full(s.drop_last());
        assert forall|i: int| 0 <= i < s.len() implies s[i] by {
            if i < s.len() - 1 {
                assert(s.drop_last()[i] == s[i]);
            }
        }
    }
}

proof fn lemma_count_true_none(s: Seq<bool>)
    requires
        forall|i: int| 0 <= i < s.len() ==> !s[i],
    ensures
        count_true(s) == 0,
    decreases s.len(),
{
    if s.len() > 0 {
        lemma_count_true_none(s.drop_last());
    }
}

} // verus!
