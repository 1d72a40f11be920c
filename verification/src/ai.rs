//! The search engine: recursive alpha-beta negamax with iterative
//! deepening, a forced-win (threat-only) phase, and a transposition table
//! keyed by the board's fingerprint.
//!
//! Every recursive frame that applies a move takes it back on every exit
//! path, so the one shared board comes back to each caller exactly as that
//! caller left it — grid, history, fingerprint and score matrices alike.

use crate::board::Board;
use crate::board::lemma_probe_restores;
use crate::board::pos_eq;
use crate::board::put_applied;
use crate::cache::Cache;
use crate::cache::CacheConfig;
use crate::patterns::cell_at;
use crate::patterns::gidx;
use crate::patterns::in_range;
use crate::player::Role;
use vstd::prelude::*;

verus! {

/// The search's infinity: no reachable value leaves (-MAX, MAX).
pub const MAX: i64 = 100000000;

/// The decisive threshold: a value of this magnitude means a forced win or
/// loss, and gates pruning and transposition reuse.
pub const HIGH_VALUE: i64 = 4000000;

/// Every value the search handles stays within this bound: evaluations,
/// sentinels and the search's own infinity all fit.
pub const VALUE_LIMIT: i64 = 1000000000000000;

/// Counters of transposition-table traffic.
#[derive(Debug, Default)]
pub struct CacheHits {
    pub search: u64,
    pub total: u64,
    pub hit: u64,
}

/// One transposition-table entry: the result a previous visit of a position
/// stored, with the query it answered.
#[derive(Debug)]
pub struct CacheEntry {
    pub depth: i32,
    pub value: i64,
    pub role: Role,
    pub move_xy: Option<(usize, usize)>,
    pub path: Vec<(usize, usize)>,
    pub only_three: bool,
    pub only_four: bool,
}

/// The engine: its configured base depth, its transposition table, and the
/// table's traffic counters.
#[derive(Debug)]
pub struct AIEngine {
    pub depth: i32,
    pub cache_hits: CacheHits,
    cache: Cache<CacheEntry>,
    only_three_threshold: i32,
}

/// Adds one, stopping at the counter's ceiling.
fn bump(c: u64) -> (r: u64)
    ensures
        r >= c,
{
    if c < 18446744073709551615 {
        c + 1
    } else {
        c
    }
}

/// Copies a path.
fn copy_path(v: &Vec<(usize, usize)>) -> (r: Vec<(usize, usize)>)
    ensures
        r@ == v@,
{
    let mut r: Vec<(usize, usize)> = Vec::new();
    let mut i: usize = 0;
    while i < v.len()
        invariant
            i <= v@.len(),
            r@.len() == i,
            forall|j: int| 0 <= j < i ==> r@[j] == v@[j],
        decreases v@.len() - i,
    {
        r.push(v[i]);
        i = i + 1;
    }
    proof {
        assert(r@ =~= v@);
    }
    r
}

impl AIEngine {
    /// Every stored value stays within the search's value bound, and the
    /// configured depth leaves room for the threat-search multiplier.
    pub closed spec fn wf(self) -> bool {
        &&& self.cache.wf()
        &&& 0 <= self.depth <= 1000
        &&& self.only_three_threshold == 6
        &&& forall|k: u64|
            #[trigger] self.cache.smap().contains_key(k) ==> -VALUE_LIMIT
                <= self.cache.smap()[k].value <= VALUE_LIMIT && self.cache.smap()[k].move_xy
                is Some
    }

    pub closed spec fn spec_depth(self) -> int {
        self.depth as int
    }

    /// The transposition-table traffic counters (searches, stores, hits),
    /// as spec values: the engine is opaque outside this module.
    pub closed spec fn spec_hits(self) -> (u64, u64, u64) {
        (self.cache_hits.search, self.cache_hits.total, self.cache_hits.hit)
    }

    /// The stored transposition entries.
    pub closed spec fn spec_table(self) -> Map<u64, CacheEntry> {
        self.cache.smap()
    }

    /// The ply past which full-width move generation escalates to
    /// threat-only candidates.
    pub closed spec fn spec_escalation_threshold(self) -> int {
        self.only_three_threshold as int
    }

    /// An engine searching `depth` plies in the full-width phase: an empty
    /// transposition table, zeroed counters, and the fixed escalation
    /// threshold.
    pub fn new(depth: i32) -> (r: AIEngine)
        requires
            0 <= depth <= 1000,
        ensures
            r.wf(),
            r.spec_depth() == depth,
            r.spec_hits() == (0u64, 0u64, 0u64),
            r.spec_table() == Map::<u64, CacheEntry>::empty(),
            r.spec_escalation_threshold() == 6,
    {
        AIEngine {
            depth,
            cache_hits: CacheHits { search: 0, total: 0, hit: 0 },
            cache: Cache::new(CacheConfig::default()),
            only_three_threshold: 6,
        }
    }

    /// Recursive alpha-beta negamax over the shared board. Returns the
    /// value from the mover's perspective, the best move found (an empty
    /// in-range cell), and the predicted continuation, which always extends
    /// the caller's path so far. The board and the caller's path come back
    /// exactly as they went in.
    ///
    /// At the depth limit or on a finished board the result is the static
    /// evaluation, no move, the caller's path. A position whose candidate
    /// list is empty gets the same answer, except that the transposition
    /// probe runs before move generation, so a valid stored continuation
    /// for the same fingerprint may be served first; that exit is therefore
    /// not pinned in the contract.
    fn analyze(
        &mut self,
        only_three: bool,
        only_four: bool,
        board: &mut Board,
        role: Role,
        depth: i32,
        cdepth: i32,
        path: &mut Vec<(usize, usize)>,
        alpha: i64,
        beta: i64,
    ) -> (r: (i64, Option<(usize, usize)>, Vec<(usize, usize)>))
        requires
            old(self).wf(),
            old(board).wf(),
            0 <= cdepth <= depth <= 10000,
            -VALUE_LIMIT <= alpha <= VALUE_LIMIT,
            -VALUE_LIMIT <= beta <= VALUE_LIMIT,
            alpha < HIGH_VALUE,
            -HIGH_VALUE < beta,
        ensures
            final(self).wf(),
            final(self).spec_depth() == old(self).spec_depth(),
            final(self).spec_escalation_threshold() == old(self).spec_escalation_threshold(),
            final(board).wf(),
            pos_eq(*final(board), *old(board)),
            final(path)@ == old(path)@,
            -VALUE_LIMIT <= r.0 <= VALUE_LIMIT,
            (match r.1 {
                Some(m) => in_range(old(board).sz(), m.0 as int, m.1 as int) && cell_at(
                    old(board).grid(),
                    old(board).sz(),
                    m.0 as int,
                    m.1 as int,
                ) == 0,
                None => true,
            }),
            r.2@.len() >= old(path)@.len() && r.2@.subrange(0, old(path)@.len() as int) == old(
                path,
            )@,
            ({
                let g = old(board).grid();
                let sz = old(board).sz();
                let rv = role.to_int_spec();
                &&& (crate::board::has_five(g, sz, rv) && !crate::board::has_five(g, sz, -rv))
                    ==> r.0 == 10000000
                &&& (crate::board::has_five(g, sz, -rv) && !crate::board::has_five(g, sz, rv))
                    ==> r.0 == -10000000
                &&& (crate::board::has_five(g, sz, rv) && crate::board::has_five(g, sz, -rv))
                    ==> (r.0 == 10000000 || r.0 == -10000000)
                &&& (cdepth >= depth || crate::board::has_five(g, sz, 1)
                    || crate::board::has_five(g, sz, -1) || crate::board::board_full(g, sz)) ==> {
                    &&& r.1 == Option::<(usize, usize)>::None
                    &&& r.2@ == old(path)@
                    &&& (!crate::board::has_five(g, sz, 1) && !crate::board::has_five(g, sz, -1))
                        ==> r.0 as int == crate::board::eval_of_grid(g, sz, role)
                }
                &&& (cdepth < depth && !crate::board::has_five(g, sz, 1)
                    && !crate::board::has_five(g, sz, -1) && !crate::board::board_full(g, sz)
                    && crate::board::has_candidate(
                    g,
                    sz,
                    only_three || (cdepth as int) > old(self).spec_escalation_threshold(),
                    only_four,
                )) ==> r.1 is Some
            }),
        decreases depth - cdepth,
    {
        let ghost path0 = path@;
        let ghost board0 = *board;
        proof {
            crate::board::lemma_board_facts(*board);
        }
        self.cache_hits.search = bump(self.cache_hits.search);

        if cdepth >= depth || board.is_game_over() {
            let score = board.evaluate(role);
            let rp = copy_path(path);
            proof {
                assert(rp@.subrange(0, path0.len() as int) =~= path0);
            }
            return (score, None, rp);
        }
        proof {
            crate::board::lemma_board_facts(*board);
        }
        let hash_val = board.hash();
        let mut cached: Option<(i64, Option<(usize, usize)>, Vec<(usize, usize)>, i32)> = None;
        match self.cache.get(&hash_val) {
            Some(prev) => {
                if prev.role == role && prev.only_three == only_three && prev.only_four
                    == only_four {
                    let depth_left = depth - cdepth;
                    if (prev.value >= HIGH_VALUE || prev.value <= -HIGH_VALUE) || prev.depth
                        >= depth_left {
                        let move_ok = match prev.move_xy {
                            Some((mx, my)) => board.get_cell(mx, my) == 0,
                            None => true,
                        };
                        if move_ok {
                            proof {
                                assert(self.cache.smap().contains_key(hash_val));
                            }
                            cached = Some(
                                (prev.value, prev.move_xy, copy_path(&prev.path), prev.depth),
                            );
                        }
                    }
                }
            },
            None => {},
        }
        match cached {
            Some((cv, cm, cp, _cd)) => {
                self.cache_hits.hit = bump(self.cache_hits.hit);
                let mut new_path = copy_path(path);
                let mut i: usize = 0;
                while i < cp.len()
                    invariant
                        i <= cp@.len(),
                        new_path@.len() == path0.len() + i,
                        new_path@.subrange(0, path0.len() as int) == path0,
                        cm is Some,
                    decreases cp@.len() - i,
                {
                    new_path.push(cp[i]);
                    proof {
                        assert(new_path@.subrange(0, path0.len() as int) =~= path0);
                    }
                    i = i + 1;
                }
                return (cv, cm, new_path);
            },
            None => {},
        }
        let mut value: i64 = -MAX;
        let mut best_move: Option<(usize, usize)> = None;
        let mut best_path = copy_path(path);
        proof {
            assert(best_path@.subrange(0, path0.len() as int) =~= path0);
        }
        let points = board.get_valuable_moves(
            role,
            cdepth,
            only_three || cdepth > self.only_three_threshold,
            only_four,
        );
        if points.len() == 0 {
            proof {
                reveal(crate::board::has_candidate);
                let g = old(board).grid();
                let sz = old(board).sz();
                let o3 = only_three || (cdepth as int) > old(self).spec_escalation_threshold();
                if crate::board::has_candidate(g, sz, o3, only_four) {
                    let (a, b) = choose|a: int, b: int|
                        in_range(sz, a, b) && crate::board::move_pass(g, sz, o3, only_four, a, b);
                    let au = a as usize;
                    let bu = b as usize;
                    assert(crate::board::move_pass(g, sz, o3, only_four, au as int, bu as int));
                    assert(points@.contains((au, bu)));
                    assert(false);
                }
            }
            let score = board.evaluate(role);
            let rp = copy_path(path);
            proof {
                assert(rp@.subrange(0, path0.len() as int) =~= path0);
            }
            return (score, None, rp);
        }
        let mut alpha_cur = alpha;
        let mut abandon = false;
        let mut d = cdepth + 1;
        while d <= depth && !abandon
            invariant
                self.wf(),
                board.wf(),
                pos_eq(*board, board0),
                board0 == *old(board),
                path@ == path0,
                0 <= cdepth < d <= depth + 1,
                depth <= 10000,
                alpha < HIGH_VALUE,
                -HIGH_VALUE < beta,
                points@.len() > 0,
                self.depth == old(self).depth,
                self.only_three_threshold == old(self).only_three_threshold,
                value == -MAX || best_move is Some,
                !abandon ==> alpha_cur < HIGH_VALUE,
                abandon ==> best_move is Some,
                d > depth ==> best_move is Some,
                -VALUE_LIMIT <= alpha_cur <= VALUE_LIMIT,
                -VALUE_LIMIT <= beta <= VALUE_LIMIT,
                -VALUE_LIMIT <= value <= VALUE_LIMIT,
                (match best_move {
                    Some(m) => in_range(board0.sz(), m.0 as int, m.1 as int) && cell_at(
                        board0.grid(),
                        board0.sz(),
                        m.0 as int,
                        m.1 as int,
                    ) == 0,
                    None => true,
                }),
                best_path@.len() >= path0.len() && best_path@.subrange(0, path0.len() as int)
                    == path0,
                forall|i: int|
                    0 <= i < points@.len() ==> in_range(
                        board0.sz(),
                        (#[trigger] points@[i]).0 as int,
                        points@[i].1 as int,
                    ) && cell_at(board0.grid(), board0.sz(), points@[i].0 as int, points@[i].1 as int)
                        == 0,
            decreases depth - d + 1 + (if abandon { 0int } else { 1int }),
        {
            let mut pi: usize = 0;
            let mut prune = false;
            while pi < points.len() && !abandon && !prune
                invariant
                    self.wf(),
                    board.wf(),
                    pos_eq(*board, board0),
                    board0 == *old(board),
                    path@ == path0,
                    0 <= cdepth < d <= depth,
                    depth <= 10000,
                    pi <= points@.len(),
                    alpha < HIGH_VALUE,
                    -HIGH_VALUE < beta,
                    points@.len() > 0,
                    self.depth == old(self).depth,
                    self.only_three_threshold == old(self).only_three_threshold,
                    value == -MAX || best_move is Some,
                    !abandon ==> alpha_cur < HIGH_VALUE,
                    abandon ==> best_move is Some,
                    prune ==> pi > 0,
                    d == depth && pi > 0 ==> best_move is Some,
                    -VALUE_LIMIT <= alpha_cur <= VALUE_LIMIT,
                    -VALUE_LIMIT <= beta <= VALUE_LIMIT,
                    -VALUE_LIMIT <= value <= VALUE_LIMIT,
                    (match best_move {
                        Some(m) => in_range(board0.sz(), m.0 as int, m.1 as int) && cell_at(
                            board0.grid(),
                            board0.sz(),
                            m.0 as int,
                            m.1 as int,
                        ) == 0,
                        None => true,
                    }),
                    best_path@.len() >= path0.len() && best_path@.subrange(0, path0.len() as int)
                        == path0,
                    forall|i: int|
                        0 <= i < points@.len() ==> in_range(
                            board0.sz(),
                            (#[trigger] points@[i]).0 as int,
                            points@[i].1 as int,
                        ) && cell_at(
                            board0.grid(),
                            board0.sz(),
                            points@[i].0 as int,
                            points@[i].1 as int,
                        ) == 0,
                decreases points@.len() - pi,
            {
                let (px, py) = points[pi];
                let ghost cur = *board;
                let ok = board.put(px, py, role);
                proof {
                    assert(ok);
                }
                let ghost mid = *board;
                path.push((px, py));
                let (rv0, _rm, eval_path) = self.analyze(
                    only_three,
                    only_four,
                    board,
                    role.opponent(),
                    d,
                    cdepth + 1,
                    path,
                    -beta,
                    -alpha_cur,
                );
                let ghost mid2 = *board;
                let undone = board.undo();
                proof {
                    assert(undone);
                    lemma_probe_restores(
                        cur,
                        mid,
                        mid2,
                        *board,
                        px as int,
                        py as int,
                        role,
                    );
                }
                path.pop();
                proof {
                    assert(path@ =~= path0);
                }
                let eval_score = -rv0;
                if eval_score >= HIGH_VALUE || d == depth {
                    let replace = if eval_score > value {
                        true
                    } else if best_move.is_none() {
                        // adopt the first candidate even when its value does
                        // not beat the initial floor: with legal moves on the
                        // board the search always proposes one
                        true
                    } else if eval_score <= -HIGH_VALUE && value <= -HIGH_VALUE && eval_path.len()
                        > best_path.len() {
                        true
                    } else {
                        false
                    };
                    if replace {
                        value = eval_score;
                        proof {
                            assert(eval_path@.subrange(0, path0.len() as int) =~= path0) by {
                                assert(eval_path@.subrange(0, path0.len() as int + 1) == path0.push(
                                    (px, py),
                                ));
                                assert forall|j: int| 0 <= j < path0.len() implies eval_path@[j]
                                    == path0[j] by {
                                    assert(eval_path@.subrange(0, path0.len() as int + 1)[j]
                                        == path0.push((px, py))[j]);
                                }
                            }
                        }
                        best_path = eval_path;
                        best_move = Some((px, py));
                    }
                }
                if value > alpha_cur {
                    alpha_cur = value;
                }
                if alpha_cur >= HIGH_VALUE {
                    proof {
                        assert(alpha_cur == value);
                        assert(best_move is Some);
                    }
                    abandon = true;
                } else if alpha_cur >= beta {
                    prune = true;
                }
                pi = pi + 1;
            }
            if !abandon {
                d = d + 1;
            }
        }
        let depth_left = depth - cdepth;
        let do_put = (cdepth < self.only_three_threshold) || only_three || only_four;
        if do_put {
            let mut sliced_path: Vec<(usize, usize)> = Vec::new();
            if best_path.len() >= cdepth as usize {
                let mut i: usize = cdepth as usize;
                while i < best_path.len()
                    invariant
                        cdepth as usize <= i <= best_path@.len(),
                        sliced_path@.len() == i - cdepth as usize,
                    decreases best_path@.len() - i,
                {
                    sliced_path.push(best_path[i]);
                    i = i + 1;
                }
            }
            let ghost pre_cache = self.cache;
            self.cache.put(
                hash_val,
                CacheEntry {
                    depth: depth_left,
                    value,
                    role,
                    move_xy: best_move,
                    path: sliced_path,
                    only_three,
                    only_four,
                },
            );
            proof {
                assert forall|k: u64|
                    #[trigger] self.cache.smap().contains_key(k) implies -VALUE_LIMIT
                    <= self.cache.smap()[k].value <= VALUE_LIMIT by {
                    if k == hash_val && pre_cache.spec_enabled() {
                    } else {
                        assert(pre_cache.smap().contains_key(k));
                        assert(self.cache.smap()[k] == pre_cache.smap()[k]);
                    }
                }
            }
            self.cache_hits.total = bump(self.cache_hits.total);
        }
        (value, best_move, best_path)
    }

    /// Choose a move for `role`. An empty board gets the center at once.
    /// Otherwise a deep threat-only search looks for a forced win; failing
    /// that, a full-width search at the base depth picks a candidate, and a
    /// mirrored threat-only probe checks whether the opponent, after that
    /// move, would hold the faster forced win — preferring the probe's move
    /// when a second identical probe confirms it is no shortcut. The board
    /// comes back exactly as it went in whenever a move is only proposed,
    /// not played.
    ///
    /// Both shortcut returns insist on an actual move: a decisive value
    /// without one (possible only when a bare static evaluation crosses the
    /// threshold) falls through to the next phase instead, so on any
    /// undecided, unfilled board a positive-depth engine always proposes a
    /// move.
    #[verifier::rlimit(100)]
    #[verifier::spinoff_prover]
    pub fn make_move(&mut self, board: &mut Board, role: Role) -> (r: (
        i64,
        Option<(usize, usize)>,
        Vec<(usize, usize)>,
    ))
        requires
            old(self).wf(),
            old(board).wf(),
        ensures
            final(self).wf(),
            final(board).wf(),
            -VALUE_LIMIT <= r.0 <= VALUE_LIMIT,
            old(board).spec_history().len() == 0 ==> {
                &&& r.0 == 0
                &&& r.2@.len() == 0
                &&& (match r.1 {
                    Some(m) => m.0 as int == old(board).sz() / 2 && m.1 as int == old(board).sz()
                        / 2,
                    None => false,
                })
                &&& put_applied(
                    *old(board),
                    *final(board),
                    old(board).sz() / 2,
                    old(board).sz() / 2,
                    role,
                )
            },
            old(board).spec_history().len() > 0 ==> pos_eq(*final(board), *old(board)) && (
            match r.1 {
                Some(m) => in_range(old(board).sz(), m.0 as int, m.1 as int) && cell_at(
                    old(board).grid(),
                    old(board).sz(),
                    m.0 as int,
                    m.1 as int,
                ) == 0,
                None => true,
            }),
            ({
                let g = old(board).grid();
                let sz = old(board).sz();
                let rv = role.to_int_spec();
                old(board).spec_history().len() > 0 ==> {
                    &&& (crate::board::has_five(g, sz, rv) && !crate::board::has_five(g, sz, -rv))
                        ==> r.0 == 10000000
                    &&& (crate::board::has_five(g, sz, -rv) && !crate::board::has_five(g, sz, rv))
                        ==> r.0 == -10000000
                }
            }),
            ({
                let g = old(board).grid();
                let sz = old(board).sz();
                (!crate::board::has_five(g, sz, 1) && !crate::board::has_five(g, sz, -1)
                    && !crate::board::board_full(g, sz) && old(self).spec_depth() >= 1) ==> r.1
                    is Some
            }),
    {
        let ghost board0 = *old(board);
        proof {
            crate::board::lemma_board_facts(*board);
        }
        if board.history_len() == 0 {
            let center = board.side() / 2;
            let ok = board.put(center, center, role);
            proof {
                assert(ok);
            }
            return (0, Some((center, center)), Vec::new());
        }
        let (value, mv, path) = self.search_phases(board, role);
        let (mx, my) = match mv {
            Some(m) => m,
            None => {
                return (value, mv, path);
            },
        };
        self.confirm_with_mirror(board, role, value, (mx, my), path)
    }

    /// The two search phases of the move protocol: a deep threat-only
    /// search for a forced win, returned at once when it proposes a
    /// decisive move, else a full-width search at the base depth. On an
    /// undecided, unfilled board a positive-depth engine always comes back
    /// with a move.
    #[verifier::rlimit(100)]
    #[verifier::spinoff_prover]
    fn search_phases(&mut self, board: &mut Board, role: Role) -> (r: (
        i64,
        Option<(usize, usize)>,
        Vec<(usize, usize)>,
    ))
        requires
            old(self).wf(),
            old(board).wf(),
        ensures
            final(self).wf(),
            final(self).spec_depth() == old(self).spec_depth(),
            final(board).wf(),
            pos_eq(*final(board), *old(board)),
            -VALUE_LIMIT <= r.0 <= VALUE_LIMIT,
            (match r.1 {
                Some(m) => in_range(old(board).sz(), m.0 as int, m.1 as int) && cell_at(
                    old(board).grid(),
                    old(board).sz(),
                    m.0 as int,
                    m.1 as int,
                ) == 0,
                None => true,
            }),
            ({
                let g = old(board).grid();
                let sz = old(board).sz();
                let rv = role.to_int_spec();
                &&& (crate::board::has_five(g, sz, rv) && !crate::board::has_five(g, sz, -rv))
                    ==> r.0 == 10000000
                &&& (crate::board::has_five(g, sz, -rv) && !crate::board::has_five(g, sz, rv))
                    ==> r.0 == -10000000
            }),
            ({
                let g = old(board).grid();
                let sz = old(board).sz();
                (!crate::board::has_five(g, sz, 1) && !crate::board::has_five(g, sz, -1)
                    && !crate::board::board_full(g, sz) && old(self).spec_depth() >= 1) ==> r.1
                    is Some
            }),
    {
        let vct_depth = self.depth + self.depth * 2;
        let mut path_buf: Vec<(usize, usize)> = Vec::new();
        let (value1, mv1, path1) = self.analyze(
            true,
            false,
            board,
            role,
            vct_depth,
            0,
            &mut path_buf,
            -MAX,
            MAX,
        );
        if value1 >= HIGH_VALUE && mv1.is_some() {
            return (value1, mv1, path1);
        }
        let mut path_buf2: Vec<(usize, usize)> = Vec::new();
        let (value, mv, path) = self.analyze(
            false,
            false,
            board,
            role,
            self.depth,
            0,
            &mut path_buf2,
            -MAX,
            MAX,
        );
        proof {
            let g0 = old(board).grid();
            let sz = old(board).sz();
            if !crate::board::has_five(g0, sz, 1) && !crate::board::has_five(g0, sz, -1)
                && !crate::board::board_full(g0, sz) && old(self).spec_depth() >= 1 {
                crate::board::lemma_not_full_has_candidate(g0, sz);
                assert(mv is Some);
            }
        }
        proof {
            let g0 = old(board).grid();
            let sz = old(board).sz();
            if !crate::board::has_five(g0, sz, 1) && !crate::board::has_five(g0, sz, -1)
                && !crate::board::board_full(g0, sz) && old(self).spec_depth() >= 1 {
                crate::board::lemma_not_full_has_candidate(g0, sz);
                assert(mv is Some);
            }
        }
        (value, mv, path)
    }

    /// The mirrored probe of the move protocol: tentatively play the
    /// chosen move, search the role-swapped board for a faster opposing
    /// forced win, take the move back, and — when a second identical probe
    /// confirms the longer line — hand back the probe's move instead. The
    /// reported value is always the full-width search's.
    fn confirm_with_mirror(
        &mut self,
        board: &mut Board,
        role: Role,
        value: i64,
        mv: (usize, usize),
        path: Vec<(usize, usize)>,
    ) -> (r: (i64, Option<(usize, usize)>, Vec<(usize, usize)>))
        requires
            old(self).wf(),
            old(board).wf(),
            in_range(old(board).sz(), mv.0 as int, mv.1 as int),
            cell_at(old(board).grid(), old(board).sz(), mv.0 as int, mv.1 as int) == 0,
            -VALUE_LIMIT <= value <= VALUE_LIMIT,
        ensures
            final(self).wf(),
            final(board).wf(),
            pos_eq(*final(board), *old(board)),
            r.0 == value,
            r.1 is Some,
            (match r.1 {
                Some(m) => in_range(old(board).sz(), m.0 as int, m.1 as int) && cell_at(
                    old(board).grid(),
                    old(board).sz(),
                    m.0 as int,
                    m.1 as int,
                ) == 0,
                None => true,
            }),
    {
        let vct_depth = self.depth + self.depth * 2;
        let (mx, my) = mv;
        let ghost cur = *board;
        let ok = board.put(mx, my, role);
        proof {
            assert(ok);
        }
        let ghost mid = *board;
        let mut rev_board = board.reverse();
        let ghost rev0 = rev_board;
        let mut rev_board2 = board.reverse();
        let mut path_buf3: Vec<(usize, usize)> = Vec::new();
        let (value_rev, move_rev, path_rev) = self.analyze(
            true,
            false,
            &mut rev_board,
            role,
            vct_depth,
            0,
            &mut path_buf3,
            -MAX,
            MAX,
        );
        let ghost mid2 = *board;
        let undone = board.undo();
        proof {
            assert(undone);
            lemma_probe_restores(cur, mid, mid2, *board, mx as int, my as int, role);
        }
        if value < HIGH_VALUE && value_rev == HIGH_VALUE && move_rev.is_some() && path_rev.len()
            > path.len() {
            let mut path_buf4: Vec<(usize, usize)> = Vec::new();
            let (_v2, _m2, path_rev2) = self.analyze(
                true,
                false,
                &mut rev_board2,
                role,
                vct_depth,
                0,
                &mut path_buf4,
                -MAX,
                MAX,
            );
            if path_rev.len() <= path_rev2.len() {
                proof {
                    crate::board::lemma_board_facts(cur);
                    crate::board::lemma_board_facts(mid);
                    match move_rev {
                        Some(m) => {
                            assert(cell_at(rev0.grid(), rev0.sz(), m.0 as int, m.1 as int) == 0);
                            assert(cell_at(rev0.grid(), rev0.sz(), m.0 as int, m.1 as int)
                                == Board::flip_val(
                                cell_at(mid.grid(), mid.sz(), m.0 as int, m.1 as int),
                            ));
                            assert(cell_at(mid.grid(), mid.sz(), m.0 as int, m.1 as int) == 0);
                            assert(mid.grid() == cur.grid().update(
                                gidx(cur.sz(), mx as int, my as int),
                                role.to_int_spec() as i32,
                            ));
                            crate::patterns::lemma_gidx_bound_pub(
                                cur.sz(),
                                m.0 as int,
                                m.1 as int,
                            );
                            crate::patterns::lemma_gidx_bound_pub(
                                cur.sz(),
                                mx as int,
                                my as int,
                            );
                            if gidx(cur.sz(), m.0 as int, m.1 as int) == gidx(
                                cur.sz(),
                                mx as int,
                                my as int,
                            ) {
                                crate::patterns::lemma_gidx_inj_pub(
                                    cur.sz(),
                                    m.0 as int,
                                    m.1 as int,
                                    mx as int,
                                    my as int,
                                );
                                assert(cell_at(mid.grid(), mid.sz(), m.0 as int, m.1 as int)
                                    == role.to_int_spec());
                                assert(false);
                            }
                            assert(cell_at(cur.grid(), cur.sz(), m.0 as int, m.1 as int) == 0);
                        },
                        None => {},
                    }
                }
                return (value, move_rev, path_rev);
            }
        }
        (value, Some(mv), path)
    }
}

} // verus!
