//! Grid pathfinding (breadth-first search over walkable tiles). Because the
//! world is infinite, the search is bounded by a visited-tile budget and only
//! travels through already-generated, walkable tiles (ungenerated chunks read
//! as non-walkable, so the search naturally stays within the loaded region).

use std::collections::{HashMap, VecDeque};
use vstd::prelude::*;
use crate::grid::{
    adjacent_spec, key, key_spec, lemma_key_injective, lemma_neighbor_adjacent, neighbor,
    neighbor_spec,
};
use crate::vec2::Coord;
use crate::world::{World, WorldView};

verus! {

broadcast use vstd::std_specs::hash::group_hash_axioms;

/// A search in progress: the tiles reached, each with the steps that led to it
/// from the start, and those still to be expanded, in order.
#[verifier::ext_equal]
pub ghost struct Frontier {
    pub paths: Map<Coord, Seq<Coord>>,
    pub queue: Seq<Coord>,
}

pub ghost enum Expansion {
    Found(Seq<Coord>),
    Open(Frontier),
}

impl Frontier {
    pub open spec fn start(t: Coord) -> Frontier {
        Frontier { paths: Map::empty().insert(t, Seq::empty()), queue: seq![t] }
    }

    pub open spec fn popped(self) -> Frontier {
        Frontier { queue: self.queue.drop_first(), ..self }
    }

    /// Look at neighbours `i ..` of a tile: stop at a goal, queue what can be
    /// walked on.
    pub open spec fn expand(
        self,
        cur: Coord,
        i: int,
        goal: spec_fn(Coord) -> bool,
        pass: spec_fn(Coord) -> bool,
    ) -> Expansion
        decreases 4 - i,
    {
        if i >= 4 {
            Expansion::Open(self)
        } else {
            match neighbor_spec(cur, i) {
                None => self.expand(cur, i + 1, goal, pass),
                Some(n) => if self.paths.contains_key(n) {
                    self.expand(cur, i + 1, goal, pass)
                } else if goal(n) {
                    Expansion::Found(self.paths[cur].push(n))
                } else if pass(n) {
                    self.reach(cur, n).expand(cur, i + 1, goal, pass)
                } else {
                    self.expand(cur, i + 1, goal, pass)
                },
            }
        }
    }

    pub open spec fn reach(self, cur: Coord, n: Coord) -> Frontier {
        Frontier {
            paths: self.paths.insert(n, self.paths[cur].push(n)),
            queue: self.queue.push(n),
        }
    }

    /// Expand tiles in order until a goal turns up, none is left, or the budget
    /// runs out.
    pub open spec fn search(
        self,
        left: nat,
        goal: spec_fn(Coord) -> bool,
        pass: spec_fn(Coord) -> bool,
    ) -> Option<Seq<Coord>>
        decreases left,
    {
        if self.queue.len() == 0 || left == 0 {
            None
        } else {
            match self.popped().expand(self.queue[0], 0, goal, pass) {
                Expansion::Found(p) => Some(p),
                Expansion::Open(f) => f.search((left - 1) as nat, goal, pass),
            }
        }
    }
}

/// The search from `start`, expanding at most `max_visited` tiles.
pub open spec fn bfs_spec(
    start: Coord,
    max_visited: int,
    goal: spec_fn(Coord) -> bool,
    pass: spec_fn(Coord) -> bool,
) -> Option<Seq<Coord>> {
    if goal(start) {
        Some(Seq::empty())
    } else {
        Frontier::start(start).search(max_visited as nat, goal, pass)
    }
}

/// The function computes the predicate.
pub open spec fn decides<F: Fn(i32, i32) -> bool>(f: F, g: spec_fn(Coord) -> bool) -> bool {
    forall|x: i32, y: i32, b: bool| #[trigger] call_ensures(f, (x, y), b) ==> b == g((x, y))
}

pub open spec fn total<F: Fn(i32, i32) -> bool>(f: F) -> bool {
    forall|x: i32, y: i32| #[trigger] call_requires(f, (x, y))
}

pub open spec fn opt_view(p: Option<Vec<Coord>>) -> Option<Seq<Coord>> {
    match p {
        Some(v) => Some(v@),
        None => None,
    }
}

/// The table of parents tells the same paths.
spec fn consistent(came_from: Map<u64, Coord>, paths: Map<Coord, Seq<Coord>>, start: Coord) -> bool {
    &&& forall|t: Coord| #[trigger]
        paths.contains_key(t) <==> came_from.contains_key(key_spec(t))
    &&& paths.contains_key(start)
    &&& paths[start] == Seq::<Coord>::empty()
    &&& forall|t: Coord| #[trigger]
        paths.contains_key(t) && t != start ==> paths.contains_key(came_from[key_spec(t)])
            && paths[t] == paths[came_from[key_spec(t)]].push(t)
}

fn reconstruct(
    came_from: &HashMap<u64, Coord>,
    start: Coord,
    goal: Coord,
    Ghost(paths): Ghost<Map<Coord, Seq<Coord>>>,
) -> (r: Vec<Coord>)
    requires
        consistent(came_from@, paths, start),
        paths.contains_key(goal),
    ensures
        r@ == paths[goal],
{
    let mut back: Vec<Coord> = Vec::new();
    let mut cur: Coord = goal;
    while cur.0 != start.0 || cur.1 != start.1
        invariant
            consistent(came_from@, paths, start),
            paths.contains_key(cur),
            paths[goal] =~= paths[cur] + back@.reverse(),
        decreases paths[cur].len(),
    {
        let ghost before = back@;
        back.push(cur);
        assert(back@.reverse() =~= seq![cur] + before.reverse());
        assert(came_from@.contains_key(key_spec(cur)));
        match came_from.get(&key(cur)) {
            Some(p) => {
                cur = *p;
            },
            None => {},
        }
    }
    let mut path: Vec<Coord> = Vec::new();
    while back.len() > 0
        invariant
            paths[goal] =~= path@ + back@.reverse(),
        decreases back.len(),
    {
        let ghost before = back@;
        if let Some(t) = back.pop() {
            assert(before.reverse() =~= seq![t] + back@.reverse());
            path.push(t);
        }
    }
    path
}

/// Search from `start` until `is_goal` matches, capped at `max_visited` expanded
/// tiles. Travel is restricted to tiles where `passable` holds. Returns the path
/// from the first step through the goal (start excluded); an empty vec means
/// `start` already satisfies the goal.
pub fn bfs<F: Fn(i32, i32) -> bool, P: Fn(i32, i32) -> bool>(
    start: Coord,
    max_visited: usize,
    is_goal: F,
    passable: P,
) -> (r: Option<Vec<Coord>>)
    requires
        total(is_goal),
        total(passable),
    ensures
        forall|g: spec_fn(Coord) -> bool, p: spec_fn(Coord) -> bool| #[trigger]
            decides(is_goal, g) && #[trigger] decides(passable, p) ==> opt_view(r) == bfs_spec(
                start,
                max_visited as int,
                g,
                p,
            ),
{
    if is_goal(start.0, start.1) {
        let r: Option<Vec<Coord>> = Some(Vec::new());
        assert(opt_view(r)->0 =~= Seq::empty());
        return r;
    }
    let mut came_from: HashMap<u64, Coord> = HashMap::new();
    let mut queue: VecDeque<Coord> = VecDeque::new();
    came_from.insert(key(start), start);
    queue.push_back(start);
    let ghost mut f = Frontier::start(start);
    let mut left: usize = max_visited;
    proof {
        assert(queue@ =~= f.queue);
        assert forall|t: Coord| #[trigger] f.paths.contains_key(t) <==> came_from@.contains_key(
            key_spec(t),
        ) by {
            lemma_key_injective(t, start);
        }
    }
    while queue.len() > 0 && left > 0
        invariant
            total(is_goal),
            total(passable),
            queue@ == f.queue,
            consistent(came_from@, f.paths, start),
            forall|k: int| 0 <= k < f.queue.len() ==> f.paths.contains_key(#[trigger] f.queue[k]),
            forall|g: spec_fn(Coord) -> bool, p: spec_fn(Coord) -> bool| #[trigger]
                decides(is_goal, g) && #[trigger] decides(passable, p) ==> f.search(
                    left as nat,
                    g,
                    p,
                ) == bfs_spec(start, max_visited as int, g, p),
        decreases left,
    {
        let ghost before = f;
        let cur: Coord = match queue.pop_front() {
            Some(c) => c,
            None => start,
        };
        proof {
            f = before.popped();
            assert(before.queue[0] == cur);
            assert(queue@ =~= f.queue);
            assert forall|k: int| 0 <= k < f.queue.len() implies f.paths.contains_key(
                #[trigger] f.queue[k],
            ) by {
                assert(f.queue[k] == before.queue[k + 1]);
            }
        }
        left = left - 1;
        let mut i: u32 = 0;
        while i < 4
            invariant
                total(is_goal),
                total(passable),
                i <= 4,
                queue@ == f.queue,
                f.paths.contains_key(cur),
                consistent(came_from@, f.paths, start),
                forall|k: int|
                    0 <= k < f.queue.len() ==> f.paths.contains_key(#[trigger] f.queue[k]),
                forall|g: spec_fn(Coord) -> bool, p: spec_fn(Coord) -> bool| #[trigger]
                    decides(is_goal, g) && #[trigger] decides(passable, p) ==> (match f.expand(
                        cur,
                        i as int,
                        g,
                        p,
                    ) {
                        Expansion::Found(path) => Some(path),
                        Expansion::Open(n) => n.search(left as nat, g, p),
                    }) == bfs_spec(start, max_visited as int, g, p),
            decreases 4 - i,
        {
            if let Some(n) = neighbor(cur, i) {
                if !came_from.contains_key(&key(n)) {
                    let goal: bool = is_goal(n.0, n.1);
                    let pass: bool = passable(n.0, n.1);
                    if goal || pass {
                        let ghost prior = f;
                        let ghost prior_table = came_from@;
                        came_from.insert(key(n), cur);
                        proof {
                            f = f.reach(cur, n);
                            lemma_reach_consistent(prior_table, prior, start, cur, n);
                        }
                        if goal {
                            return Some(reconstruct(&came_from, start, n, Ghost(f.paths)));
                        }
                        queue.push_back(n);
                        assert(queue@ =~= f.queue);
                        assert forall|k: int| 0 <= k < f.queue.len() implies f.paths.contains_key(
                            #[trigger] f.queue[k],
                        ) by {
                            if k < prior.queue.len() {
                                assert(f.queue[k] == prior.queue[k]);
                            }
                        }
                    }
                }
            }
            i = i + 1;
        }
    }
    None
}

proof fn lemma_reach_consistent(
    table: Map<u64, Coord>,
    f: Frontier,
    start: Coord,
    cur: Coord,
    n: Coord,
)
    requires
        consistent(table, f.paths, start),
        f.paths.contains_key(cur),
        !f.paths.contains_key(n),
    ensures
        consistent(table.insert(key_spec(n), cur), f.reach(cur, n).paths, start),
{
    let table2 = table.insert(key_spec(n), cur);
    let paths2 = f.reach(cur, n).paths;
    assert forall|t: Coord| #[trigger]
        paths2.contains_key(t) <==> table2.contains_key(key_spec(t)) by {
        lemma_key_injective(t, n);
        assert(f.paths.contains_key(t) <==> table.contains_key(key_spec(t)));
    }
    assert forall|t: Coord| #[trigger] paths2.contains_key(t) && t != start implies paths2.contains_key(
        table2[key_spec(t)],
    ) && paths2[t] == paths2[table2[key_spec(t)]].push(t) by {
        lemma_key_injective(t, n);
        if t != n {
            assert(f.paths.contains_key(t));
            assert(f.paths.contains_key(table[key_spec(t)]));
        }
    }
}

/// Tiles a unit of the owner can walk on.
pub open spec fn walks(w: WorldView, owner: u8) -> spec_fn(Coord) -> bool {
    |t: Coord| w.walkable_for(owner, t.0, t.1)
}

/// That one tile.
pub open spec fn is_tile(goal: Coord) -> spec_fn(Coord) -> bool {
    |t: Coord| t == goal
}

pub open spec fn path_to_spec(
    w: WorldView,
    owner: u8,
    start: Coord,
    goal: Coord,
    max_visited: int,
) -> Option<Seq<Coord>> {
    match bfs_spec(start, max_visited, is_tile(goal), walks(w, owner)) {
        Some(p) => if p.len() > 0 && !w.walkable_for(owner, goal.0, goal.1) {
            Some(p.drop_last())
        } else {
            Some(p)
        },
        None => None,
    }
}

/// Path to a specific tile (or adjacent to it if the goal isn't walkable),
/// routing only through tiles walkable for `owner`.
pub fn path_to(
    world: &World,
    owner: u8,
    start: Coord,
    goal: Coord,
    max_visited: usize,
) -> (r: Option<Vec<Coord>>)
    requires
        world.wf(),
    ensures
        opt_view(r) == path_to_spec(world@, owner, start, goal, max_visited as int),
{
    let is_goal = |x: i32, y: i32| -> (b: bool)
        ensures
            b == ((x, y) == goal),
        { x == goal.0 && y == goal.1 };
    let passable = |x: i32, y: i32| -> (b: bool)
        requires
            world.wf(),
        ensures
            b == world@.walkable_for(owner, x, y),
        { world.walkable_for(owner, x, y) };
    assert(decides(is_goal, is_tile(goal)));
    assert(decides(passable, walks(world@, owner)));
    match bfs(start, max_visited, is_goal, passable) {
        Some(mut p) => {
            if p.len() > 0 && !world.walkable_for(owner, goal.0, goal.1) {
                let ghost whole = p@;
                let _last: Option<Coord> = p.pop();
                assert(p@ =~= whole.drop_last());
            }
            Some(p)
        },
        None => None,
    }
}

// --- what a search promises --------------------------------------------------

/// The tile a walk is on before its step `k`.
pub open spec fn before_step(start: Coord, w: Seq<Coord>, k: int) -> Coord {
    if k == 0 {
        start
    } else {
        w[k - 1]
    }
}

/// Every step goes to an adjacent tile.
pub open spec fn is_walk(start: Coord, w: Seq<Coord>) -> bool {
    forall|k: int| 0 <= k < w.len() ==> adjacent_spec(#[trigger] before_step(start, w, k), w[k])
}

/// A walk over passable tiles that ends on a goal.
pub open spec fn is_route(
    start: Coord,
    w: Seq<Coord>,
    goal: spec_fn(Coord) -> bool,
    pass: spec_fn(Coord) -> bool,
) -> bool {
    &&& is_walk(start, w)
    &&& forall|k: int| 0 <= k < w.len() - 1 ==> pass(#[trigger] w[k])
    &&& goal(before_step(start, w, w.len() as int))
}

/// Neighbours `.. i` of a tile have been dealt with: none is a goal, and what
/// can be walked on has been reached by at most one step more.
spec fn dealt_with(
    f: Frontier,
    t: Coord,
    i: int,
    goal: spec_fn(Coord) -> bool,
    pass: spec_fn(Coord) -> bool,
) -> bool {
    forall|k: int|
        0 <= k < i && (#[trigger] neighbor_spec(t, k)) is Some ==> {
            let n = neighbor_spec(t, k)->0;
            &&& !goal(n)
            &&& pass(n) ==> f.paths.contains_key(n) && f.paths[n].len() <= f.paths[t].len() + 1
        }
}

spec fn reached_well(
    start: Coord,
    f: Frontier,
    goal: spec_fn(Coord) -> bool,
    pass: spec_fn(Coord) -> bool,
) -> bool {
    &&& f.paths.contains_key(start)
    &&& f.paths[start].len() == 0
    &&& forall|t: Coord| #[trigger]
        f.paths.contains_key(t) ==> {
            &&& is_walk(start, f.paths[t])
            &&& before_step(start, f.paths[t], f.paths[t].len() as int) == t
            &&& forall|k: int| 0 <= k < f.paths[t].len() ==> pass(#[trigger] f.paths[t][k])
            &&& !goal(t)
        }
}

/// The state of a search that is about to look at neighbour `i` of `cur`.
spec fn midway(
    start: Coord,
    f: Frontier,
    cur: Coord,
    i: int,
    goal: spec_fn(Coord) -> bool,
    pass: spec_fn(Coord) -> bool,
) -> bool {
    &&& reached_well(start, f, goal, pass)
    &&& f.paths.contains_key(cur)
    &&& !f.queue.contains(cur)
    &&& f.queue.no_duplicates()
    &&& forall|k: int| 0 <= k < f.queue.len() ==> f.paths.contains_key(#[trigger] f.queue[k])
    &&& forall|k: int, l: int|
        0 <= k <= l < f.queue.len() ==> f.paths[#[trigger] f.queue[k]].len()
            <= f.paths[#[trigger] f.queue[l]].len()
    &&& forall|k: int|
        0 <= k < f.queue.len() ==> f.paths[cur].len() <= f.paths[#[trigger] f.queue[k]].len()
            <= f.paths[cur].len() + 1
    &&& forall|t: Coord| #[trigger]
        f.paths.contains_key(t) && !f.queue.contains(t) && t != cur ==> dealt_with(
            f,
            t,
            4,
            goal,
            pass,
        ) && f.paths[t].len() <= f.paths[cur].len()
    &&& dealt_with(f, cur, i, goal, pass)
}

/// The state of a search between two expansions.
spec fn ready(
    start: Coord,
    f: Frontier,
    goal: spec_fn(Coord) -> bool,
    pass: spec_fn(Coord) -> bool,
) -> bool {
    if f.queue.len() > 0 {
        midway(start, f.popped(), f.queue[0], 0, goal, pass)
    } else {
        &&& reached_well(start, f, goal, pass)
        &&& forall|t: Coord| #[trigger]
            f.paths.contains_key(t) ==> dealt_with(f, t, 4, goal, pass)
    }
}

proof fn lemma_reach_midway(
    start: Coord,
    f: Frontier,
    cur: Coord,
    i: int,
    goal: spec_fn(Coord) -> bool,
    pass: spec_fn(Coord) -> bool,
)
    requires
        midway(start, f, cur, i, goal, pass),
        0 <= i < 4,
        neighbor_spec(cur, i) is Some,
        !f.paths.contains_key(neighbor_spec(cur, i)->0),
        !goal(neighbor_spec(cur, i)->0),
        pass(neighbor_spec(cur, i)->0),
    ensures
        midway(start, f.reach(cur, neighbor_spec(cur, i)->0), cur, i + 1, goal, pass),
{
    let n = neighbor_spec(cur, i)->0;
    let g = f.reach(cur, n);
    lemma_neighbor_adjacent(cur, i);
    assert forall|t: Coord| #[trigger] g.paths.contains_key(t) implies {
        &&& is_walk(start, g.paths[t])
        &&& before_step(start, g.paths[t], g.paths[t].len() as int) == t
        &&& forall|k: int| 0 <= k < g.paths[t].len() ==> pass(#[trigger] g.paths[t][k])
        &&& !goal(t)
    } by {
        if t == n {
            let p = f.paths[cur];
            assert(f.paths.contains_key(cur));
            assert forall|k: int| 0 <= k < g.paths[t].len() implies adjacent_spec(
                #[trigger] before_step(start, g.paths[t], k),
                g.paths[t][k],
            ) by {
                if k < p.len() {
                    assert(g.paths[t][k] == p[k]);
                    assert(before_step(start, g.paths[t], k) == before_step(start, p, k));
                } else {
                    assert(before_step(start, g.paths[t], k) == before_step(start, p, k));
                }
            }
            assert forall|k: int| 0 <= k < g.paths[t].len() implies pass(
                #[trigger] g.paths[t][k],
            ) by {
                if k < p.len() {
                    assert(g.paths[t][k] == p[k]);
                }
            }
        } else {
            assert(f.paths.contains_key(t));
        }
    }
    assert forall|k: int| 0 <= k < g.queue.len() implies g.paths.contains_key(
        #[trigger] g.queue[k],
    ) by {
        if k < f.queue.len() {
            assert(g.queue[k] == f.queue[k]);
        }
    }
    assert forall|k: int, l: int| 0 <= k <= l < g.queue.len() implies g.paths[#[trigger] g.queue[k]].len()
        <= g.paths[#[trigger] g.queue[l]].len() by {
        if k < f.queue.len() {
            assert(g.queue[k] == f.queue[k]);
            assert(f.paths.contains_key(f.queue[k]));
        }
        if l < f.queue.len() {
            assert(g.queue[l] == f.queue[l]);
            assert(f.paths.contains_key(f.queue[l]));
        }
    }
    assert forall|k: int| 0 <= k < g.queue.len() implies g.paths[cur].len()
        <= g.paths[#[trigger] g.queue[k]].len() <= g.paths[cur].len() + 1 by {
        if k < f.queue.len() {
            assert(g.queue[k] == f.queue[k]);
            assert(f.paths.contains_key(f.queue[k]));
        }
    }
    assert(g.queue.no_duplicates()) by {
        assert forall|k: int, l: int| 0 <= k < l < g.queue.len() implies g.queue[k] != g.queue[l] by {
            assert(g.queue[k] == f.queue[k]);
            if l < f.queue.len() {
                assert(g.queue[l] == f.queue[l]);
            } else {
                assert(f.paths.contains_key(f.queue[k]));
            }
        }
    }
    assert(!g.queue.contains(cur)) by {
        if g.queue.contains(cur) {
            let k = g.queue.index_of(cur);
            if k < f.queue.len() {
                assert(f.queue[k] == cur);
            }
        }
    }
    assert forall|t: Coord| #[trigger]
        g.paths.contains_key(t) && !g.queue.contains(t) && t != cur implies dealt_with(
        g,
        t,
        4,
        goal,
        pass,
    ) && g.paths[t].len() <= g.paths[cur].len() by {
        assert(g.queue[f.queue.len() as int] == n);
        assert(t != n);
        assert(f.paths.contains_key(t));
        if f.queue.contains(t) {
            let k = f.queue.index_of(t);
            assert(g.queue[k] == t);
        }
    }
    assert(dealt_with(g, cur, i + 1, goal, pass));
}

/// One expansion keeps the search in order, or finds a route.
proof fn lemma_expand(
    start: Coord,
    f: Frontier,
    cur: Coord,
    i: int,
    goal: spec_fn(Coord) -> bool,
    pass: spec_fn(Coord) -> bool,
)
    requires
        midway(start, f, cur, i, goal, pass),
        0 <= i <= 4,
    ensures
        match f.expand(cur, i, goal, pass) {
            Expansion::Found(p) => is_route(start, p, goal, pass) && p.len() == f.paths[cur].len()
                + 1,
            Expansion::Open(g) => midway(start, g, cur, 4, goal, pass),
        },
    decreases 4 - i,
{
    if i < 4 {
        match neighbor_spec(cur, i) {
            None => {
                lemma_expand(start, f, cur, i + 1, goal, pass);
            },
            Some(n) => {
                lemma_neighbor_adjacent(cur, i);
                if f.paths.contains_key(n) {
                    // Reached before, by no more steps than would lead here.
                    if f.queue.contains(n) {
                        let k = f.queue.index_of(n);
                        assert(f.queue[k] == n);
                    }
                    assert(f.paths[n].len() <= f.paths[cur].len() + 1);
                    assert(dealt_with(f, cur, i + 1, goal, pass));
                    lemma_expand(start, f, cur, i + 1, goal, pass);
                } else if goal(n) {
                    let p = f.paths[cur];
                    let r = p.push(n);
                    assert forall|k: int| 0 <= k < r.len() implies adjacent_spec(
                #[trigger] before_step(start, r, k),
                r[k],
            ) by {
                        if k < p.len() {
                            assert(r[k] == p[k]);
                        }
                        assert(before_step(start, r, k) == before_step(start, p, k));
                    }
                    assert forall|k: int| 0 <= k < r.len() - 1 implies pass(#[trigger] r[k]) by {
                        assert(r[k] == p[k]);
                    }
                } else if pass(n) {
                    lemma_reach_midway(start, f, cur, i, goal, pass);
                    assert(f.reach(cur, n).paths[cur] == f.paths[cur]);
                    lemma_expand(start, f.reach(cur, n), cur, i + 1, goal, pass);
                } else {
                    assert(dealt_with(f, cur, i + 1, goal, pass));
                    lemma_expand(start, f, cur, i + 1, goal, pass);
                }
            },
        }
    }
}

proof fn lemma_next_ready(
    start: Coord,
    f: Frontier,
    cur: Coord,
    goal: spec_fn(Coord) -> bool,
    pass: spec_fn(Coord) -> bool,
)
    requires
        midway(start, f, cur, 4, goal, pass),
    ensures
        ready(start, f, goal, pass),
{
    if f.queue.len() > 0 {
        let g = f.popped();
        let next = f.queue[0];
        assert(f.queue.contains(next));
        assert forall|k: int| 0 <= k < g.queue.len() implies g.queue[k] == f.queue[k + 1] by {}
        assert(!g.queue.contains(next)) by {
            if g.queue.contains(next) {
                let k = g.queue.index_of(next);
                assert(f.queue[k + 1] == next);
            }
        }
        assert forall|k: int| 0 <= k < g.queue.len() implies g.paths[next].len()
            <= g.paths[#[trigger] g.queue[k]].len() <= g.paths[next].len() + 1 by {
            assert(g.queue[k] == f.queue[k + 1]);
        }
        assert forall|k: int| 0 <= k < g.queue.len() implies g.paths.contains_key(
            #[trigger] g.queue[k],
        ) by {
            assert(g.queue[k] == f.queue[k + 1]);
        }
        assert forall|k: int, l: int| 0 <= k <= l < g.queue.len() implies g.paths[#[trigger] g.queue[k]].len()
            <= g.paths[#[trigger] g.queue[l]].len() by {
            assert(g.queue[k] == f.queue[k + 1]);
            assert(g.queue[l] == f.queue[l + 1]);
        }
        assert(g.queue.no_duplicates()) by {
            assert forall|k: int, l: int| 0 <= k < l < g.queue.len() implies g.queue[k]
                != g.queue[l] by {
                assert(g.queue[k] == f.queue[k + 1]);
                assert(g.queue[l] == f.queue[l + 1]);
            }
        }
        assert forall|t: Coord| #[trigger]
            g.paths.contains_key(t) && !g.queue.contains(t) && t != next implies dealt_with(
            g,
            t,
            4,
            goal,
            pass,
        ) && g.paths[t].len() <= g.paths[next].len() by {
            assert(f.paths.contains_key(t));
            if f.queue.contains(t) {
                let k = f.queue.index_of(t);
                assert(f.queue[k] == t);
                assert(g.queue[k - 1] == t);
            }
            assert(dealt_with(f, t, 4, goal, pass));
        }
        assert(reached_well(start, g, goal, pass)) by {
            assert forall|t: Coord| #[trigger] g.paths.contains_key(t) implies {
                &&& is_walk(start, g.paths[t])
                &&& before_step(start, g.paths[t], g.paths[t].len() as int) == t
                &&& forall|k: int| 0 <= k < g.paths[t].len() ==> pass(#[trigger] g.paths[t][k])
                &&& !goal(t)
            } by {
                assert(f.paths.contains_key(t));
            }
        }
    } else {
        assert forall|t: Coord| #[trigger] f.paths.contains_key(t) implies dealt_with(
            f,
            t,
            4,
            goal,
            pass,
        ) by {
            assert(!f.queue.contains(t));
        }
    }
}

/// Along a route, tiles nearer than the front of the queue have all been reached.
proof fn lemma_route_reached(
    start: Coord,
    f: Frontier,
    bound: int,
    w: Seq<Coord>,
    k: int,
    goal: spec_fn(Coord) -> bool,
    pass: spec_fn(Coord) -> bool,
)
    requires
        f.paths.contains_key(start),
        f.paths[start].len() == 0,
        forall|t: Coord| #[trigger]
            f.paths.contains_key(t) && f.paths[t].len() < bound ==> dealt_with(
                f,
                t,
                4,
                goal,
                pass,
            ),
        is_route(start, w, goal, pass),
        0 <= k < w.len(),
        k <= bound,
    ensures
        f.paths.contains_key(before_step(start, w, k)),
        f.paths[before_step(start, w, k)].len() <= k,
    decreases k,
{
    if k > 0 {
        lemma_route_reached(start, f, bound, w, k - 1, goal, pass);
        let t = before_step(start, w, k - 1);
        let n = w[k - 1];
        assert(adjacent_spec(t, n));
        lemma_some_neighbor(t, n);
        assert(pass(n));
    }
}

proof fn lemma_some_neighbor(a: Coord, b: Coord)
    requires
        adjacent_spec(a, b),
    ensures
        exists|i: int| 0 <= i < 4 && #[trigger] neighbor_spec(a, i) == Some(b),
{
    assert(neighbor_spec(a, 0) == Some(b) || neighbor_spec(a, 1) == Some(b) || neighbor_spec(a, 2)
        == Some(b) || neighbor_spec(a, 3) == Some(b));
}

/// No route is shorter than one that the current tile's distance allows.
proof fn lemma_no_shorter(
    start: Coord,
    f: Frontier,
    bound: int,
    w: Seq<Coord>,
    goal: spec_fn(Coord) -> bool,
    pass: spec_fn(Coord) -> bool,
)
    requires
        reached_well(start, f, goal, pass),
        forall|t: Coord| #[trigger]
            f.paths.contains_key(t) && f.paths[t].len() < bound ==> dealt_with(
                f,
                t,
                4,
                goal,
                pass,
            ),
        is_route(start, w, goal, pass),
    ensures
        w.len() > bound,
{
    if w.len() == 0 {
        assert(f.paths.contains_key(start));
    } else if w.len() <= bound {
        let k = w.len() - 1;
        lemma_route_reached(start, f, bound, w, k, goal, pass);
        let t = before_step(start, w, k);
        assert(dealt_with(f, t, 4, goal, pass));
        lemma_some_neighbor(t, w[k]);
    }
}

proof fn lemma_search_shortest(
    start: Coord,
    f: Frontier,
    left: nat,
    w: Seq<Coord>,
    goal: spec_fn(Coord) -> bool,
    pass: spec_fn(Coord) -> bool,
)
    requires
        ready(start, f, goal, pass),
    ensures
        f.search(left, goal, pass) is Some ==> is_route(
            start,
            f.search(left, goal, pass)->0,
            goal,
            pass,
        ),
        f.search(left, goal, pass) is Some && is_route(start, w, goal, pass) ==> f.search(
            left,
            goal,
            pass,
        )->0.len() <= w.len(),
    decreases left,
{
    if f.queue.len() > 0 && left > 0 {
        let cur = f.queue[0];
        let g = f.popped();
        lemma_expand(start, g, cur, 0, goal, pass);
        match g.expand(cur, 0, goal, pass) {
            Expansion::Found(p) => {
                if is_route(start, w, goal, pass) {
                    assert forall|t: Coord| #[trigger]
                        g.paths.contains_key(t) && g.paths[t].len()
                            < g.paths[cur].len() implies dealt_with(g, t, 4, goal, pass) by {
                        if g.queue.contains(t) {
                            let k = g.queue.index_of(t);
                            assert(g.queue[k] == t);
                        }
                    }
                    lemma_no_shorter(start, g, g.paths[cur].len() as int, w, goal, pass);
                }
            },
            Expansion::Open(h) => {
                lemma_next_ready(start, h, cur, goal, pass);
                lemma_search_shortest(start, h, (left - 1) as nat, w, goal, pass);
            },
        }
    }
}

proof fn lemma_start_ready(
    start: Coord,
    goal: spec_fn(Coord) -> bool,
    pass: spec_fn(Coord) -> bool,
)
    requires
        !goal(start),
    ensures
        ready(start, Frontier::start(start), goal, pass),
{
    let f = Frontier::start(start);
    assert(f.popped().queue =~= Seq::empty());
    assert forall|t: Coord| #[trigger] f.popped().paths.contains_key(t) implies t == start by {}
}

/// What a search returns is a route: each step goes to an adjacent tile, every
/// tile but the last is passable, and the last is a goal.
pub proof fn law_bfs_route(
    start: Coord,
    max_visited: int,
    goal: spec_fn(Coord) -> bool,
    pass: spec_fn(Coord) -> bool,
)
    ensures
        bfs_spec(start, max_visited, goal, pass) matches Some(p) ==> is_route(
            start,
            p,
            goal,
            pass,
        ),
{
    if !goal(start) {
        lemma_start_ready(start, goal, pass);
        lemma_search_shortest(
            start,
            Frontier::start(start),
            max_visited as nat,
            Seq::empty(),
            goal,
            pass,
        );
    }
}

/// No route is shorter than the one a search returns.
pub proof fn law_bfs_shortest(
    start: Coord,
    max_visited: int,
    goal: spec_fn(Coord) -> bool,
    pass: spec_fn(Coord) -> bool,
    w: Seq<Coord>,
)
    requires
        is_route(start, w, goal, pass),
    ensures
        bfs_spec(start, max_visited, goal, pass) matches Some(p) ==> p.len() <= w.len(),
{
    if !goal(start) {
        lemma_start_ready(start, goal, pass);
        lemma_search_shortest(start, Frontier::start(start), max_visited as nat, w, goal, pass);
    }
}

/// The set holds the start and, with a tile, its passable neighbours.
pub open spec fn encloses(room: Set<Coord>, start: Coord, pass: spec_fn(Coord) -> bool) -> bool {
    &&& room.contains(start)
    &&& forall|t: Coord, n: Coord|
        room.contains(t) && #[trigger] adjacent_spec(t, n) && pass(n) ==> room.contains(n)
}

proof fn lemma_expand_inside(
    f: Frontier,
    cur: Coord,
    i: int,
    goal: spec_fn(Coord) -> bool,
    pass: spec_fn(Coord) -> bool,
    room: Set<Coord>,
    start: Coord,
    done: Set<Coord>,
)
    requires
        0 <= i <= 4,
        encloses(room, start, pass),
        f.paths.dom().subset_of(room),
        f.paths.contains_key(cur),
        done.subset_of(f.paths.dom()),
        forall|k: int| 0 <= k < f.queue.len() ==> !done.contains(#[trigger] f.queue[k]),
    ensures
        match f.expand(cur, i, goal, pass) {
            Expansion::Found(p) => true,
            Expansion::Open(g) => g.paths.dom().subset_of(room) && done.subset_of(g.paths.dom())
                && forall|k: int|
                0 <= k < g.queue.len() ==> !done.contains(#[trigger] g.queue[k]),
        },
    decreases 4 - i,
{
    if i < 4 {
        match neighbor_spec(cur, i) {
            None => {
                lemma_expand_inside(f, cur, i + 1, goal, pass, room, start, done);
            },
            Some(n) => {
                lemma_neighbor_adjacent(cur, i);
                if !f.paths.contains_key(n) && !goal(n) && pass(n) {
                    let g = f.reach(cur, n);
                    assert(room.contains(cur));
                    assert(room.contains(n));
                    assert forall|k: int| 0 <= k < g.queue.len() implies !done.contains(
                        #[trigger] g.queue[k],
                    ) by {
                        if k < f.queue.len() {
                            assert(g.queue[k] == f.queue[k]);
                        }
                    }
                    lemma_expand_inside(g, cur, i + 1, goal, pass, room, start, done);
                } else if !(!f.paths.contains_key(n) && goal(n)) {
                    lemma_expand_inside(f, cur, i + 1, goal, pass, room, start, done);
                }
            },
        }
    }
}

proof fn lemma_search_complete(
    start: Coord,
    f: Frontier,
    left: nat,
    w: Seq<Coord>,
    goal: spec_fn(Coord) -> bool,
    pass: spec_fn(Coord) -> bool,
    room: Set<Coord>,
    done: Set<Coord>,
)
    requires
        ready(start, f, goal, pass),
        is_route(start, w, goal, pass),
        encloses(room, start, pass),
        room.finite(),
        f.paths.dom().subset_of(room),
        done.subset_of(f.paths.dom()),
        forall|k: int| 0 <= k < f.queue.len() ==> !done.contains(#[trigger] f.queue[k]),
        room.len() <= done.len() + left,
    ensures
        f.search(left, goal, pass) is Some,
    decreases left,
{
    vstd::set_lib::lemma_set_subset_finite(room, done);
    vstd::set_lib::lemma_len_subset(done, room);
    if f.queue.len() == 0 {
        assert forall|t: Coord| #[trigger]
            f.paths.contains_key(t) && f.paths[t].len() < w.len() implies dealt_with(
            f,
            t,
            4,
            goal,
            pass,
        ) by {}
        lemma_no_shorter(start, f, w.len() as int, w, goal, pass);
    } else {
        let cur = f.queue[0];
        let g = f.popped();
        assert(g.paths.contains_key(cur));
        assert(room.contains(cur) && !done.contains(cur));
        let more = done.insert(cur);
        assert(more.subset_of(room));
        vstd::set_lib::lemma_len_subset(more, room);
        assert(left > 0);
        lemma_expand(start, g, cur, 0, goal, pass);
        assert forall|k: int| 0 <= k < g.queue.len() implies !more.contains(
            #[trigger] g.queue[k],
        ) by {
            assert(g.queue[k] == f.queue[k + 1]);
            assert(g.queue.contains(g.queue[k]));
        }
        lemma_expand_inside(g, cur, 0, goal, pass, room, start, more);
        match g.expand(cur, 0, goal, pass) {
            Expansion::Found(p) => {},
            Expansion::Open(h) => {
                lemma_next_ready(start, h, cur, goal, pass);
                lemma_search_complete(
                    start,
                    h,
                    (left - 1) as nat,
                    w,
                    goal,
                    pass,
                    room,
                    more,
                );
            },
        }
    }
}

/// A search whose budget covers the tiles that can be reached finds a route
/// wherever there is one.
pub proof fn law_bfs_complete(
    start: Coord,
    max_visited: int,
    goal: spec_fn(Coord) -> bool,
    pass: spec_fn(Coord) -> bool,
    w: Seq<Coord>,
    room: Set<Coord>,
)
    requires
        is_route(start, w, goal, pass),
        encloses(room, start, pass),
        room.finite(),
        room.len() <= max_visited,
    ensures
        bfs_spec(start, max_visited, goal, pass) is Some,
{
    if !goal(start) {
        lemma_start_ready(start, goal, pass);
        lemma_search_complete(
            start,
            Frontier::start(start),
            max_visited as nat,
            w,
            goal,
            pass,
            room,
            Set::empty(),
        );
    }
}

proof fn lemma_drop_last(start: Coord, w: Seq<Coord>)
    requires
        is_walk(start, w),
        w.len() > 0,
    ensures
        is_walk(start, w.drop_last()),
        before_step(start, w.drop_last(), w.len() - 1) == before_step(start, w, w.len() - 1),
        adjacent_spec(before_step(start, w, w.len() - 1), w.last()),
{
    let p = w.drop_last();
    assert(adjacent_spec(before_step(start, w, w.len() - 1), w[w.len() - 1]));
    assert forall|k: int| 0 <= k < p.len() implies adjacent_spec(
                #[trigger] before_step(start, p, k),
                p[k],
            ) by {
        assert(p[k] == w[k]);
        assert(before_step(start, p, k) == before_step(start, w, k));
    }
}

/// Where a unit that follows a path from `start` comes to stand.
pub open spec fn path_end(start: Coord, p: Seq<Coord>) -> Coord {
    before_step(start, p, p.len() as int)
}

/// A unit that follows a path to a tile only ever steps onto tiles it can walk
/// on, and comes to stand on the goal, or next to it where the goal itself
/// cannot be walked on.
pub proof fn law_path_to(w: WorldView, owner: u8, start: Coord, goal: Coord, max_visited: int)
    ensures
        path_to_spec(w, owner, start, goal, max_visited) matches Some(p) ==> {
            &&& is_walk(start, p)
            &&& forall|k: int| 0 <= k < p.len() ==> walks(w, owner)(#[trigger] p[k])
            &&& path_end(start, p) == goal || (!walks(w, owner)(goal) && adjacent_spec(
                path_end(start, p),
                goal,
            ))
        },
{
    let g = is_tile(goal);
    let pass = walks(w, owner);
    law_bfs_route(start, max_visited, g, pass);
    if let Some(whole) = bfs_spec(start, max_visited, g, pass) {
        let n = whole.len() as int;
        assert(g(before_step(start, whole, n)));
        assert(before_step(start, whole, n) == goal);
        if n > 0 {
            lemma_drop_last(start, whole);
            assert(whole[n - 1] == goal);
            let p = path_to_spec(w, owner, start, goal, max_visited)->0;
            assert forall|k: int| 0 <= k < p.len() implies pass(#[trigger] p[k]) by {
                assert(p[k] == whole[k]);
                if k < n - 1 {
                    assert(pass(whole[k]));
                }
            }
        }
    }
}

} // verus!
