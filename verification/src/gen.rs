//! The generator as a whole: the configuration is checked, then the stages
//! run one after the other on a grid that each hands on to the next.

use vstd::prelude::*;
use macroquad::rand::RandGenerator;
use crate::adjacency::{AdjacencyEdge, adjacency};
use crate::grid::{Objects, square, in_grid};
use crate::partition::{init_rects, partitioned, partition_of, short, MAX_SIZE};
use crate::paths::{paths, all_doors, on_some_corridor, cells_in_square, path_size, half_path_size};
use crate::post::{
    post, decorated_by_some, stamped_by_some, stamped_at, may_pick_all, lemma_stamped_decorated,
    ObjectLibrary,
};
use crate::rect::Rect;
use crate::regions::{find_rects, extracted, connected, walled, lemma_extracted_fit, lemma_walled_encloses};
use crate::tiling::{tiled, lemma_extracted_tiles};
use crate::shrink::{rand_rect, draw_rects, rooms_fit, on_some_edge, is_shrunk};

verus! {

/// The smallest grid side that the generator accepts: a smaller grid has no
/// place for a room with walls around an open cell.
pub const MIN_SIZE: usize = 4;

/// Why a configuration is refused.
#[derive(Clone, Copy, Debug, PartialEq, Eq, Structural)]
pub enum ConfigError {
    /// The side of the grid is below `MIN_SIZE`.
    SizeTooSmall,
    /// The side of the grid is above `MAX_SIZE`.
    SizeTooLarge,
    /// The split limit is not below the side of the grid.
    SplitLimitTooLarge,
}

/// What is wrong with a configuration, if anything.
pub open spec fn config_error(size: int, split_limit: int) -> Option<ConfigError> {
    if size < MIN_SIZE {
        Some(ConfigError::SizeTooSmall)
    } else if size > MAX_SIZE {
        Some(ConfigError::SizeTooLarge)
    } else if split_limit >= size {
        Some(ConfigError::SplitLimitTooLarge)
    } else {
        None
    }
}

/// Checks a configuration before anything is generated.
pub fn check_config(size: usize, split_limit: usize) -> (checked: Result<(), ConfigError>)
    ensures
        checked == match config_error(size as int, split_limit as int) {
            Some(e) => Err::<(), ConfigError>(e),
            None => Ok(()),
        },
{
    if size < MIN_SIZE {
        Err(ConfigError::SizeTooSmall)
    } else if size > MAX_SIZE {
        Err(ConfigError::SizeTooLarge)
    } else if split_limit >= size {
        Err(ConfigError::SplitLimitTooLarge)
    } else {
        Ok(())
    }
}

/// A finished dungeon: the grid, the door cells at the ends of the
/// corridors, and the rooms.
#[derive(Clone, Debug)]
pub struct Manager {
    pub room: Vec<Vec<Objects>>,
    pub doors: Vec<(usize, usize)>,
    pub rects: Vec<Rect>,
}

/// The grid of side `size` has walls on the edges of the rooms, on the walls
/// of the corridors of the edges and where the obstacles picked for the
/// rooms are stamped, and is open everywhere else.
pub open spec fn built(
    room: Seq<Vec<Objects>>,
    size: int,
    rects: Seq<Rect>,
    edges: Seq<AdjacencyEdge>,
    picks: Seq<Option<Seq<Vec<Objects>>>>,
) -> bool {
    forall|x: int, y: int| #![trigger room[y][x]]
        0 <= x < size && 0 <= y < size ==> room[y][x] == if on_some_edge(rects, x, y)
            || on_some_corridor(rects, edges, half_path_size(size), x, y) || stamped_by_some(
            rects,
            picks,
            x,
            y,
        ) {
            Objects::Wall
        } else {
            Objects::Air
        }
}

/// The edges are those between the neighbouring rooms, the doors are those
/// of their corridors, the obstacles are picked for the rooms from the
/// library, and the grid is built of all these.
pub open spec fn laid_out(
    manager: Manager,
    size: int,
    allow_multi_edges: bool,
    edges: Seq<AdjacencyEdge>,
    library: ObjectLibrary,
    picks: Seq<Option<Seq<Vec<Objects>>>>,
) -> bool {
    &&& adjacency(manager.rects@, size, allow_multi_edges, edges)
    &&& manager.doors@ == all_doors(manager.rects@, edges, path_size(size), half_path_size(size))
    &&& library.wf()
    &&& library.standard()
    &&& may_pick_all(library, manager.rects@, picks)
    &&& built(manager.room@, size, manager.rects@, edges, picks)
}

impl Manager {
    /// The dungeon is one of a grid of side `size`: the grid is square, the
    /// rooms and the doors lie inside it, the rooms are shrunk from the
    /// regions of a partition, any two rooms have a line of cells between
    /// them, each room has a side that the split limit allows, and the grid
    /// is laid out with the corridors between neighbouring rooms and with one
    /// obstacle of the library in each room that has place for it.
    pub open spec fn wf(self, size: int, split_limit: int, allow_multi_edges: bool) -> bool {
        &&& square(self.room@, size)
        &&& rooms_fit(self.rects@, size)
        &&& rooms_apart(self.rects@)
        &&& forall|k: int| 0 <= k < self.rects.len() ==> short(#[trigger] self.rects@[k], split_limit)
        &&& exists|regions: Seq<Rect>| #[trigger] shrunk_from(regions, self.rects@, size, split_limit)
        &&& cells_in_square(self.doors@, size)
        &&& exists|
            edges: Seq<AdjacencyEdge>,
            library: ObjectLibrary,
            picks: Seq<Option<Seq<Vec<Objects>>>>,
        | #[trigger] laid_out(self, size, allow_multi_edges, edges, library, picks)
    }
}

/// In a dungeon the edges of the rooms are walls, and a wall that is
/// neither on the edge of a room nor on the wall of a corridor lies where
/// the obstacle of a room is stamped, inside the room.
pub proof fn lemma_laid_out_walls(
    manager: Manager,
    size: int,
    allow_multi_edges: bool,
    edges: Seq<AdjacencyEdge>,
    library: ObjectLibrary,
    picks: Seq<Option<Seq<Vec<Objects>>>>,
    x: int,
    y: int,
)
    requires
        laid_out(manager, size, allow_multi_edges, edges, library, picks),
        0 <= x < size,
        0 <= y < size,
    ensures
        on_some_edge(manager.rects@, x, y) ==> manager.room@[y][x] == Objects::Wall,
        manager.room@[y][x] == Objects::Wall ==> on_some_edge(manager.rects@, x, y)
            || on_some_corridor(manager.rects@, edges, half_path_size(size), x, y)
            || decorated_by_some(manager.rects@, x, y),
{
    if stamped_by_some(manager.rects@, picks, x, y) {
        let k = choose|k: int| stamped_at(manager.rects@, picks, k, x, y);
        lemma_stamped_decorated(library, manager.rects@[k], picks[k], x, y);
    }
}

/// The rooms of a dungeon are closed: their edges are walls all round, so
/// that no way over open cells leads from the centre of one room to the
/// centre of another.
pub proof fn lemma_rooms_closed(
    manager: Manager,
    size: int,
    split_limit: int,
    allow_multi_edges: bool,
    k: int,
    l: int,
)
    requires
        manager.wf(size, split_limit, allow_multi_edges),
        0 <= k < manager.rects.len(),
        0 <= l < manager.rects.len(),
        k != l,
    ensures
        walled(manager.room@, manager.rects@[k]),
        !connected(
            manager.room@,
            manager.rects@[k].center_x(),
            manager.rects@[k].center_y(),
            manager.rects@[l].center_x(),
            manager.rects@[l].center_y(),
        ),
{
    let (edges, library, picks) = choose|
        edges: Seq<AdjacencyEdge>,
        library: ObjectLibrary,
        picks: Seq<Option<Seq<Vec<Objects>>>>,
    | #[trigger] laid_out(manager, size, allow_multi_edges, edges, library, picks);
    let a = manager.rects@[k];
    let b = manager.rects@[l];
    assert forall|x: int, y: int| #[trigger] a.on_edge(x, y) implies in_grid(manager.room@, x, y)
        && manager.room@[y][x] == Objects::Wall by {
        assert(on_some_edge(manager.rects@, x, y));
    }
    if connected(manager.room@, a.center_x(), a.center_y(), b.center_x(), b.center_y()) {
        lemma_walled_encloses(
            manager.room@,
            a,
            a.center_x(),
            a.center_y(),
            b.center_x(),
            b.center_y(),
        );
        if k < l {
            assert(a.apart(b));
        } else {
            assert(b.apart(a));
        }
    }
}

/// `regions` are what is extracted from some partition of a grid of side
/// `size`, and each room is the region of its place, shrunk.
pub open spec fn shrunk_from(regions: Seq<Rect>, rooms: Seq<Rect>, size: int, split_limit: int)
    -> bool {
    &&& regions.len() == rooms.len()
    &&& exists|partition: Seq<Vec<Objects>>| #[trigger]
        square(partition, size) && partition_of(partition, size, split_limit) && partitioned(
            partition,
            size,
            split_limit,
        ) && extracted(partition, regions)
    &&& forall|k: int| 0 <= k < regions.len() ==> is_shrunk(#[trigger] regions[k], rooms[k])
}

/// Any two rooms of the list have a line of cells between them.
pub open spec fn rooms_apart(rects: Seq<Rect>) -> bool {
    forall|k: int, l: int|
        0 <= k < l < rects.len() ==> (#[trigger] rects[k]).apart(#[trigger] rects[l])
}

/// Rooms shrunk from rectangles that keep apart keep apart, and no two of
/// them share a cell.
pub proof fn lemma_rooms_stay_apart(before: Seq<Rect>, after: Seq<Rect>)
    requires
        rooms_apart(before),
        after.len() == before.len(),
        forall|k: int| 0 <= k < before.len() ==> (#[trigger] after[k]).within(before[k]),
    ensures
        rooms_apart(after),
        forall|k: int, l: int|
            0 <= k < l < after.len() ==> (#[trigger] after[k]).disjoint(#[trigger] after[l]),
{
    assert forall|k: int, l: int| 0 <= k < l < after.len() implies (#[trigger] after[k]).apart(
        #[trigger] after[l],
    ) && after[k].disjoint(after[l]) by {
        assert(before[k].apart(before[l]));
        crate::rect::lemma_within_keeps_apart(before[k], before[l], after[k], after[l]);
    }
}

/// Shrinks every rectangle of the list into a room.
pub fn shrink_rects(rects: &mut Vec<Rect>, rng: &RandGenerator)
    requires
        forall|k: int| 0 <= k < old(rects).len() ==> (#[trigger] old(rects)@[k]).wf(),
    ensures
        final(rects).len() == old(rects).len(),
        forall|k: int|
            0 <= k < old(rects).len() ==> (#[trigger] final(rects)@[k]).wf()
                && final(rects)@[k].within(old(rects)@[k]) && is_shrunk(
                old(rects)@[k],
                final(rects)@[k],
            ),
{
    let mut k: usize = 0;
    while k < rects.len()
        invariant
            k <= rects.len(),
            rects.len() == old(rects).len(),
            forall|j: int| 0 <= j < k ==> (#[trigger] rects@[j]).wf() && rects@[j].within(
                old(rects)@[j],
            ) && is_shrunk(old(rects)@[j], rects@[j]),
            forall|j: int| k <= j < rects.len() ==> #[trigger] rects@[j] == old(rects)@[j],
            forall|j: int| 0 <= j < old(rects).len() ==> (#[trigger] old(rects)@[j]).wf(),
        decreases rects.len() - k,
    {
        let mut rect = rects[k];
        rand_rect(&mut rect, rng);
        rects[k] = rect;
        k += 1;
    }
}

/// Generates a dungeon on a grid of side `size`: partitions the grid,
/// extracts the regions, shrinks them into rooms, draws the rooms on a fresh
/// grid, links them with corridors and decorates them.  A configuration that
/// `config_error` finds fault with is refused before anything is generated.
pub fn generate_room(
    size: usize,
    split_limit: usize,
    allow_multi_edges: bool,
    rng: &RandGenerator,
) -> (generated: Result<Manager, ConfigError>)
    ensures
        match config_error(size as int, split_limit as int) {
            Some(e) => generated == Err::<Manager, ConfigError>(e),
            None => generated.is_ok() && generated.unwrap().wf(
                size as int,
                split_limit as int,
                allow_multi_edges,
            ),
        },
{
    match check_config(size, split_limit) {
        Err(e) => {
            return Err(e);
        },
        Ok(_) => {},
    }
    let partition = init_rects(size, split_limit, rng);
    let mut rects = find_rects(&partition);
    let ghost extracted_rects = rects@;
    proof {
        lemma_extracted_fit(partition@, rects@, size as int);
        let regions = choose|regions: Set<Rect>| #[trigger]
            tiled(partition@, size as int, regions) && forall|r: Rect| #[trigger]
                regions.contains(r) ==> short(r, split_limit as int);
        lemma_extracted_tiles(partition@, size as int, regions, rects@);
        assert(rooms_apart(extracted_rects));
        assert forall|k: int| 0 <= k < extracted_rects.len() implies short(
            #[trigger] extracted_rects[k],
            split_limit as int,
        ) by {
            assert(regions.contains(extracted_rects[k]));
        }
    }
    shrink_rects(&mut rects, rng);
    proof {
        lemma_rooms_stay_apart(extracted_rects, rects@);
        assert forall|k: int| 0 <= k < rects@.len() implies short(
            #[trigger] rects@[k],
            split_limit as int,
        ) by {
            assert(rects@[k].within(extracted_rects[k]));
            assert(short(extracted_rects[k], split_limit as int));
        }
    }
    let mut room = draw_rects(&rects, size);
    let ghost drawn = room@;
    let doors = paths(&rects, size, &mut room, allow_multi_edges);
    let ghost carved = room@;
    let library = ObjectLibrary::new();
    post(&mut room, &rects, &library, rng);
    let ghost edges = choose|edges: Seq<AdjacencyEdge>| #[trigger]
        adjacency(rects@, size as int, allow_multi_edges, edges) && doors@ == all_doors(
            rects@,
            edges,
            path_size(size as int),
            half_path_size(size as int),
        ) && forall|x: int, y: int| #![trigger carved[y][x]]
            in_grid(drawn, x, y) ==> carved[y][x] == if on_some_corridor(
                rects@,
                edges,
                half_path_size(size as int),
                x,
                y,
            ) {
                Objects::Wall
            } else {
                drawn[y][x]
            };
    let ghost picks = choose|picks: Seq<Option<Seq<Vec<Objects>>>>| #[trigger]
        may_pick_all(library, rects@, picks) && forall|x: int, y: int| #![trigger room@[y][x]]
            in_grid(carved, x, y) ==> room@[y][x] == if stamped_by_some(rects@, picks, x, y) {
                Objects::Wall
            } else {
                carved[y][x]
            };
    let manager = Manager { room, doors, rects };
    proof {
        let half = half_path_size(size as int);
        assert forall|x: int, y: int| #![trigger manager.room@[y][x]]
            0 <= x < size && 0 <= y < size implies manager.room@[y][x] == if on_some_edge(
            manager.rects@,
            x,
            y,
        ) || on_some_corridor(manager.rects@, edges, half, x, y) || stamped_by_some(
            manager.rects@,
            picks,
            x,
            y,
        ) {
            Objects::Wall
        } else {
            Objects::Air
        } by {
            assert(in_grid(drawn, x, y));
            assert(in_grid(carved, x, y));
            assert(drawn[y][x] == if on_some_edge(manager.rects@, x, y) {
                Objects::Wall
            } else {
                Objects::Air
            });
            assert(carved[y][x] == if on_some_corridor(manager.rects@, edges, half, x, y) {
                Objects::Wall
            } else {
                drawn[y][x]
            });
        }
        assert(laid_out(manager, size as int, allow_multi_edges, edges, library, picks));
        assert(square(partition@, size as int) && partition_of(
            partition@,
            size as int,
            split_limit as int,
        ) && partitioned(partition@, size as int, split_limit as int) && extracted(
            partition@,
            extracted_rects,
        ));
        assert(shrunk_from(extracted_rects, manager.rects@, size as int, split_limit as int));
        assert(manager.wf(size as int, split_limit as int, allow_multi_edges));
    }
    Ok(manager)
}

/// A generator with its configuration and its own random source.  One can
/// only be made from a configuration that `config_error` finds no fault with.
pub struct DungeonGenerator {
    size: usize,
    split_limit: usize,
    allow_multi_edges: bool,
    rng: RandGenerator,
}

impl DungeonGenerator {
    #[verifier::type_invariant]
    spec fn valid(self) -> bool {
        config_error(self.size as int, self.split_limit as int).is_none()
    }

    /// The side of the grids that the generator makes.
    pub closed spec fn side(self) -> usize {
        self.size
    }

    /// The split limit of the generator.
    pub closed spec fn limit(self) -> usize {
        self.split_limit
    }

    /// Whether the generator allows several edges between two rooms.
    pub closed spec fn multi_edges(self) -> bool {
        self.allow_multi_edges
    }

    /// A generator for grids of side `size`, with its random source started
    /// from `seed`.  A faulty configuration is refused.
    pub fn new(size: usize, split_limit: usize, allow_multi_edges: bool, seed: u64) -> (made: Result<
        DungeonGenerator,
        ConfigError,
    >)
        ensures
            match config_error(size as int, split_limit as int) {
                Some(e) => made is Err && made->Err_0 == e,
                None => made is Ok && made->Ok_0.side() == size && made->Ok_0.limit() == split_limit
                    && made->Ok_0.multi_edges() == allow_multi_edges,
            },
    {
        match check_config(size, split_limit) {
            Err(e) => Err(e),
            Ok(_) => {
                let rng = RandGenerator::new();
                rng.srand(seed);
                Ok(DungeonGenerator { size, split_limit, allow_multi_edges, rng })
            },
        }
    }

    pub fn size(&self) -> (size: usize)
        ensures
            size == self.side(),
            config_error(size as int, self.limit() as int).is_none(),
    {
        proof {
            use_type_invariant(self);
        }
        self.size
    }

    pub fn split_limit(&self) -> (split_limit: usize)
        ensures
            split_limit == self.limit(),
    {
        self.split_limit
    }

    pub fn allow_multi_edges(&self) -> (allow: bool)
        ensures
            allow == self.multi_edges(),
    {
        self.allow_multi_edges
    }

    /// Starts the random source again from `seed`.
    pub fn reseed(&self, seed: u64) {
        self.rng.srand(seed);
    }

    /// Generates the next dungeon.
    pub fn generate(&self) -> (dungeon: Manager)
        ensures
            dungeon.wf(self.side() as int, self.limit() as int, self.multi_edges()),
    {
        proof {
            use_type_invariant(self);
        }
        match generate_room(self.size, self.split_limit, self.allow_multi_edges, &self.rng) {
            Ok(dungeon) => dungeon,
            Err(_) => {
                proof {
                    assert(false);
                }
                Manager { room: Vec::new(), doors: Vec::new(), rects: Vec::new() }
            },
        }
    }
}

} // verus!
