//! A canvas of square tiles of which only those painted on exist, with undo by stroke.
//!
//! What a tile is made of is the caller's: the canvas says which tiles a stroke touches, when one
//! is made, when one is copied before it is painted on, and which come back when a stroke is
//! taken back.
use crate::halfedge::{code_of, lemma_pair_code, pair_code};
use crate::pixels::{cell, lemma_cell};
use std::collections::HashMap;
use vstd::prelude::*;

verus! {

/// How many cells wide and high a tile is.
pub const TILE_SIZE: u32 = 256;

/// How many tiles wide and high a canvas is.
pub const CANVAS_TILES: u32 = 16;

/// How many cells wide and high a canvas is.
pub const DISPLAY_SIZE: u32 = 4096;

/// How many strokes can be taken back.
pub const TILE_HISTORY: usize = 32;

/// A tile as it was, and where it was: its column and its row among the tiles.
#[derive(Debug)]
pub struct TileSnapshot<T> {
    pub coord: (u32, u32),
    pub tex: T,
}

/// The tiles that a stroke touched, as they were.
#[derive(Debug)]
pub struct StrokeEntry<T> {
    pub snapshots: Vec<TileSnapshot<T>>,
}

/// A canvas of tiles.
#[derive(Debug)]
pub struct TileCanvas<T> {
    tiles: HashMap<u64, T>,
    stroke_active: bool,
    stroke_snapshots: Vec<TileSnapshot<T>>,
    undo: Vec<StrokeEntry<T>>,
    redo: Vec<StrokeEntry<T>>,
}

/// What a canvas of tiles is.
#[verifier::ext_equal]
pub struct TileModel<T> {
    /// The tiles, by the number of their column and row.
    pub tiles: Map<u64, T>,
    /// Whether a stroke is being painted.
    pub active: bool,
    /// The tiles that the stroke touched, as they were.
    pub snaps: Seq<TileSnapshot<T>>,
    /// The strokes that can be taken back, the last one last.
    pub undo: Seq<Seq<TileSnapshot<T>>>,
    /// The strokes that were taken back, the last one last.
    pub redo: Seq<Seq<TileSnapshot<T>>>,
}

/// The snapshots of some strokes.
pub open spec fn entries<T>(s: Seq<StrokeEntry<T>>) -> Seq<Seq<TileSnapshot<T>>> {
    Seq::new(s.len(), |i: int| s[i].snapshots@)
}

/// The number of a tile.
pub open spec fn tile_code(coord: (u32, u32)) -> u64 {
    pair_code(coord.0, coord.1)
}

/// Whether some snapshots have one of a tile.
pub open spec fn has_snap<T>(s: Seq<TileSnapshot<T>>, coord: (u32, u32)) -> bool {
    exists|i: int| 0 <= i < s.len() && (#[trigger] s[i]).coord == coord
}

/// Whether no tile comes twice.
pub open spec fn once_each<T>(s: Seq<TileSnapshot<T>>) -> bool {
    forall|i: int, j: int|
        0 <= i < j < s.len() ==> (#[trigger] s[i]).coord != (#[trigger] s[j]).coord
}

/// Tiles with those of the first `n` snapshots put in place.
pub open spec fn with_snaps<T>(tiles: Map<u64, T>, s: Seq<TileSnapshot<T>>, n: int) -> Map<u64, T>
    decreases n,
{
    if n <= 0 {
        tiles
    } else {
        with_snaps(tiles, s, n - 1).insert(tile_code(s[n - 1].coord), s[n - 1].tex)
    }
}

impl<T> TileModel<T> {
    /// What holds of every canvas: without a stroke there are no snapshots of one, no stroke has
    /// a tile twice, and no more strokes are remembered than can be taken back.
    pub open spec fn valid(self) -> bool {
        &&& !self.active ==> self.snaps.len() == 0
        &&& once_each(self.snaps)
        &&& forall|i: int| 0 <= i < self.undo.len() ==> once_each(#[trigger] self.undo[i])
        &&& forall|i: int| 0 <= i < self.redo.len() ==> once_each(#[trigger] self.redo[i])
        &&& self.undo.len() + self.redo.len() <= TILE_HISTORY
    }

    /// A canvas without tiles.
    pub open spec fn blank() -> TileModel<T> {
        TileModel {
            tiles: Map::empty(),
            active: false,
            snaps: Seq::empty(),
            undo: Seq::empty(),
            redo: Seq::empty(),
        }
    }
}

/// Whether a stroke that goes over the first `n` of some tiles can lead from one canvas to
/// another. Each that is missing is made, and each of which there is no snapshot yet is copied.
pub open spec fn touched<T, M: Fn() -> T, C: Fn(&T) -> T>(
    before: TileModel<T>,
    after: TileModel<T>,
    coords: Seq<(u32, u32)>,
    n: int,
    make: &M,
    copy: &C,
) -> bool {
    &&& after.undo == before.undo
    &&& after.redo == before.redo
    &&& once_each(after.snaps)
    &&& forall|k: u64| #[trigger] before.tiles.contains_key(k) ==> after.tiles.contains_key(k)
        && after.tiles[k] == before.tiles[k]
    &&& forall|k: u64| #[trigger]
        after.tiles.contains_key(k) && !before.tiles.contains_key(k) ==> (*make).ensures(
            (),
            after.tiles[k],
        ) && coded(coords, n, k)
    &&& forall|i: int| 0 <= i < n ==> after.tiles.contains_key(tile_code(#[trigger] coords[i]))
    &&& before.snaps.len() <= after.snaps.len()
    &&& forall|i: int|
        0 <= i < before.snaps.len() ==> #[trigger] after.snaps[i] == before.snaps[i]
    &&& forall|i: int|
        before.snaps.len() <= i < after.snaps.len() ==> snapped(
            after.tiles,
            coords,
            n,
            copy,
            #[trigger] after.snaps[i],
        )
    &&& forall|i: int| 0 <= i < n ==> has_snap(after.snaps, #[trigger] coords[i])
}

/// Whether a number is that of one of the first `n` tiles.
pub open spec fn coded(coords: Seq<(u32, u32)>, n: int, k: u64) -> bool {
    exists|i: int| 0 <= i < n && tile_code(#[trigger] coords[i]) == k
}

/// Whether a snapshot can be a copy of one of the first `n` tiles.
pub open spec fn snapped<T, C: Fn(&T) -> T>(
    tiles: Map<u64, T>,
    coords: Seq<(u32, u32)>,
    n: int,
    copy: &C,
    s: TileSnapshot<T>,
) -> bool {
    &&& exists|i: int| 0 <= i < n && #[trigger] coords[i] == s.coord
    &&& tiles.contains_key(tile_code(s.coord))
    &&& (*copy).ensures((&tiles[tile_code(s.coord)],), s.tex)
}

/// Whether `now` can be what some tiles were before snapshots were put in their places: the
/// tile that was there, or a new one where there was none.
pub open spec fn replaced<T, M: Fn() -> T>(
    tiles: Map<u64, T>,
    s: Seq<TileSnapshot<T>>,
    make: &M,
    now: Seq<TileSnapshot<T>>,
) -> bool {
    &&& now.len() == s.len()
    &&& forall|i: int|
        0 <= i < s.len() ==> (#[trigger] now[i]).coord == s[i].coord && (
        if tiles.contains_key(tile_code(s[i].coord)) {
            now[i].tex == tiles[tile_code(s[i].coord)]
        } else {
            (*make).ensures((), now[i].tex)
        })
}

/// Snapshots of other tiles leave a tile as it is.
proof fn lemma_with_snaps_other<T>(tiles: Map<u64, T>, s: Seq<TileSnapshot<T>>, n: int, k: u64)
    requires
        0 <= n <= s.len(),
        forall|i: int| 0 <= i < n ==> tile_code((#[trigger] s[i]).coord) != k,
    ensures
        with_snaps(tiles, s, n).contains_key(k) == tiles.contains_key(k),
        tiles.contains_key(k) ==> with_snaps(tiles, s, n)[k] == tiles[k],
    decreases n,
{
    if n > 0 {
        lemma_with_snaps_other(tiles, s, n - 1, k);
    }
}

/// A snapshot put in place is there.
proof fn lemma_with_snaps_own<T>(tiles: Map<u64, T>, s: Seq<TileSnapshot<T>>, n: int, i: int)
    requires
        0 <= i < n <= s.len(),
        once_each(s),
    ensures
        with_snaps(tiles, s, n).contains_key(tile_code(s[i].coord)),
        with_snaps(tiles, s, n)[tile_code(s[i].coord)] == s[i].tex,
    decreases n,
{
    if i < n - 1 {
        lemma_with_snaps_own(tiles, s, n - 1, i);
        lemma_pair_code(s[i].coord.0, s[i].coord.1, s[n - 1].coord.0, s[n - 1].coord.1);
        assert(s[i].coord != s[n - 1].coord);
    }
}

impl<T> View for TileCanvas<T> {
    type V = TileModel<T>;

    closed spec fn view(&self) -> TileModel<T> {
        TileModel {
            tiles: self.tiles@,
            active: self.stroke_active,
            snaps: self.stroke_snapshots@,
            undo: entries(self.undo@),
            redo: entries(self.redo@),
        }
    }
}

impl<T> TileCanvas<T> {
    /// A canvas without tiles.
    pub fn new() -> (r: TileCanvas<T>)
        ensures
            r@ == TileModel::<T>::blank(),
            r@.valid(),
    {
        broadcast use vstd::std_specs::hash::group_hash_axioms;

        let r = TileCanvas {
            tiles: HashMap::new(),
            stroke_active: false,
            stroke_snapshots: Vec::new(),
            undo: Vec::new(),
            redo: Vec::new(),
        };
        assert(r@ =~= TileModel::<T>::blank());
        r
    }

    /// Whether a stroke can be taken back.
    pub fn can_undo(&self) -> (r: bool)
        ensures
            r == (self@.undo.len() > 0),
    {
        self.undo.len() > 0
    }

    /// Whether a stroke that was taken back can be brought back.
    pub fn can_redo(&self) -> (r: bool)
        ensures
            r == (self@.redo.len() > 0),
    {
        self.redo.len() > 0
    }

    /// A tile.
    pub fn tile(&self, coord: (u32, u32)) -> (r: Option<&T>)
        ensures
            match r {
                Some(t) => self@.tiles.contains_key(tile_code(coord)) && *t
                    == self@.tiles[tile_code(coord)],
                None => !self@.tiles.contains_key(tile_code(coord)),
            },
    {
        broadcast use vstd::std_specs::hash::group_hash_axioms;

        self.tiles.get(&code_of(coord.0, coord.1))
    }

    /// Drops every tile, the stroke and what can be taken back.
    pub fn clear(&mut self)
        ensures
            final(self)@ == TileModel::<T>::blank(),
            final(self)@.valid(),
    {
        broadcast use vstd::std_specs::hash::group_hash_axioms;

        self.tiles.clear();
        self.stroke_snapshots.clear();
        self.stroke_active = false;
        self.undo.clear();
        self.redo.clear();
        assert(self@ =~= TileModel::<T>::blank());
    }

    /// Whether there is a snapshot of a tile.
    fn is_snapped(&self, coord: (u32, u32)) -> (r: bool)
        ensures
            r == has_snap(self.stroke_snapshots@, coord),
    {
        let mut i: usize = 0;
        while i < self.stroke_snapshots.len()
            invariant
                i <= self.stroke_snapshots.len(),
                forall|k: int| 0 <= k < i ==> (#[trigger] self.stroke_snapshots@[k]).coord != coord,
            decreases self.stroke_snapshots.len() - i,
        {
            let c: (u32, u32) = self.stroke_snapshots[i].coord;
            if c.0 == coord.0 && c.1 == coord.1 {
                assert(self.stroke_snapshots@[i as int].coord == coord);
                return true;
            }
            i = i + 1;
        }
        false
    }

    /// Makes ready for painting over some tiles: makes those that are missing, and copies those
    /// that the stroke has not touched yet. A stroke begins with the first of these.
    pub fn touch<M: Fn() -> T, C: Fn(&T) -> T>(
        &mut self,
        coords: &Vec<(u32, u32)>,
        make: &M,
        copy: &C,
    )
        requires
            old(self)@.valid(),
            (*make).requires(()),
            forall|t: &T| #[trigger] (*copy).requires((t,)),
        ensures
            touched(old(self)@, final(self)@, coords@, coords@.len() as int, make, copy),
            final(self)@.active,
            final(self)@.valid(),
    {
        broadcast use vstd::std_specs::hash::group_hash_axioms;

        let ghost before = self@;
        let mut i: usize = 0;
        while i < coords.len()
            invariant
                i <= coords.len(),
                before == old(self)@,
                before.valid(),
                (*make).requires(()),
                forall|t: &T| #[trigger] (*copy).requires((t,)),
                touched(before, self@, coords@, i as int, make, copy),
                self@.active == before.active,
                forall|k: int|
                    0 <= k < before.undo.len() ==> once_each(#[trigger] before.undo[k]),
            decreases coords.len() - i,
        {
            broadcast use vstd::std_specs::hash::group_hash_axioms;

            let ghost had = self@;
            let coord: (u32, u32) = coords[i];
            let code: u64 = code_of(coord.0, coord.1);
            if !self.tiles.contains_key(&code) {
                let t: T = make();
                self.tiles.insert(code, t);
            }
            assert(self@.tiles.contains_key(code));
            if !self.is_snapped(coord) {
                let tex: Option<T> = match self.tiles.get(&code) {
                    Some(t) => Some(copy(t)),
                    None => None,
                };
                if let Some(tex) = tex {
                    self.stroke_snapshots.push(TileSnapshot { coord, tex });
                }
            }
            proof {
                let now = self@;
                assert(now.undo =~= before.undo && now.redo =~= before.redo);
                assert(has_snap(now.snaps, coord)) by {
                    if !has_snap(had.snaps, coord) {
                        assert(now.snaps[had.snaps.len() as int].coord == coord);
                    }
                }
                assert forall|j: int| 0 <= j < i + 1 implies has_snap(
                    now.snaps,
                    #[trigger] coords@[j],
                ) by {
                    if j < i {
                        assert(has_snap(had.snaps, coords@[j]));
                        let q = choose|q: int|
                            0 <= q < had.snaps.len() && (#[trigger] had.snaps[q]).coord
                                == coords@[j];
                        assert(now.snaps[q].coord == coords@[j]);
                    }
                }
                assert forall|k: u64| #[trigger]
                    now.tiles.contains_key(k) && !before.tiles.contains_key(k) implies (
                *make).ensures((), now.tiles[k]) && coded(coords@, i + 1, k) by {
                    if had.tiles.contains_key(k) {
                        assert(coded(coords@, i as int, k));
                        let q = choose|q: int|
                            0 <= q < i && tile_code(#[trigger] coords@[q]) == k;
                        assert(tile_code(coords@[q]) == k);
                    } else {
                        assert(tile_code(coords@[i as int]) == k);
                    }
                }
                assert forall|j: int|
                    before.snaps.len() <= j < now.snaps.len() implies snapped(
                    now.tiles,
                    coords@,
                    i + 1,
                    copy,
                    #[trigger] now.snaps[j],
                ) by {
                    if j < had.snaps.len() {
                        let s = had.snaps[j];
                        assert(now.snaps[j] == s);
                        assert(snapped(had.tiles, coords@, i as int, copy, s));
                        let q = choose|q: int| 0 <= q < i && #[trigger] coords@[q] == s.coord;
                        assert(coords@[q] == s.coord);
                        assert(had.tiles.contains_key(tile_code(s.coord)));
                    } else {
                        assert(coords@[i as int] == now.snaps[j].coord);
                    }
                }
            }
            i = i + 1;
        }
        let ghost made = self@;
        assert(touched(before, made, coords@, coords@.len() as int, make, copy));
        self.stroke_active = true;
        assert(self@.undo =~= before.undo && self@.redo =~= before.redo);
        assert(self@.tiles == made.tiles && self@.snaps == made.snaps);
        assert(touched(before, self@, coords@, coords@.len() as int, make, copy));
    }

    /// Ends a stroke: what it touched can be taken back, and what was taken back is forgotten.
    /// Of more strokes than can be taken back the oldest is forgotten.
    pub fn end_stroke(&mut self)
        requires
            old(self)@.valid(),
        ensures
            final(self)@ == stroke_ended(old(self)@),
            final(self)@.valid(),
    {
        if !self.stroke_active {
            return;
        }
        let ghost before = self@;
        self.stroke_active = false;
        let mut snapshots: Vec<TileSnapshot<T>> = Vec::new();
        std::mem::swap(&mut snapshots, &mut self.stroke_snapshots);
        if snapshots.len() > 0 {
            self.undo.push(StrokeEntry { snapshots });
            assert(entries(self.undo@) =~= before.undo.push(before.snaps));
            if self.undo.len() > TILE_HISTORY {
                let ghost full = self.undo@;
                self.undo.remove(0);
                assert(entries(self.undo@) =~= entries(full).remove(0));
            }
        }
        self.redo.clear();
    }
}

/// A canvas after its stroke ended.
pub open spec fn stroke_ended<T>(m: TileModel<T>) -> TileModel<T> {
    if !m.active {
        m
    } else {
        TileModel {
            active: false,
            snaps: Seq::empty(),
            undo: if m.snaps.len() == 0 {
                m.undo
            } else if m.undo.len() >= TILE_HISTORY {
                m.undo.push(m.snaps).remove(0)
            } else {
                m.undo.push(m.snaps)
            },
            redo: Seq::empty(),
            ..m
        }
    }
}

/// The tiles of some snapshots.
pub open spec fn coords_of<T>(s: Seq<TileSnapshot<T>>) -> Seq<(u32, u32)> {
    Seq::new(s.len(), |i: int| s[i].coord)
}

/// Whether taking back the last stroke can lead from one canvas to another: its tiles come back
/// as they were, and as they are now they can be brought back.
pub open spec fn taken_back<T, M: Fn() -> T>(
    before: TileModel<T>,
    after: TileModel<T>,
    make: &M,
) -> bool {
    exists|now: Seq<TileSnapshot<T>>| #[trigger]
        replaced(before.tiles, before.undo.last(), make, now) && after == (TileModel {
            tiles: with_snaps(before.tiles, before.undo.last(), before.undo.last().len() as int),
            undo: before.undo.drop_last(),
            redo: before.redo.push(now),
            ..before
        })
}

/// Whether bringing back the last stroke taken back can lead from one canvas to another.
pub open spec fn brought_back<T, M: Fn() -> T>(
    before: TileModel<T>,
    after: TileModel<T>,
    make: &M,
) -> bool {
    exists|now: Seq<TileSnapshot<T>>| #[trigger]
        replaced(before.tiles, before.redo.last(), make, now) && after == (TileModel {
            tiles: with_snaps(before.tiles, before.redo.last(), before.redo.last().len() as int),
            redo: before.redo.drop_last(),
            undo: before.undo.push(now),
            ..before
        })
}

impl<T> TileCanvas<T> {
    /// Puts snapshots in the places of their tiles, and gives back what was there.
    fn swap_in<M: Fn() -> T>(&mut self, snapshots: Vec<TileSnapshot<T>>, make: &M) -> (now: Vec<
        TileSnapshot<T>,
    >)
        requires
            once_each(snapshots@),
            (*make).requires(()),
        ensures
            replaced(old(self)@.tiles, snapshots@, make, now@),
            final(self)@ == (TileModel {
                tiles: with_snaps(old(self)@.tiles, snapshots@, snapshots@.len() as int),
                ..old(self)@
            }),
    {
        broadcast use vstd::std_specs::hash::group_hash_axioms;

        let ghost before = self@;
        let ghost all = snapshots@;
        let n: usize = snapshots.len();
        let mut rest: Vec<TileSnapshot<T>> = snapshots;
        let mut now: Vec<TileSnapshot<T>> = Vec::new();
        let mut i: usize = 0;
        assert(all.skip(0) =~= all);
        while i < n
            invariant
                i <= n,
                n == all.len(),
                once_each(all),
                before == old(self)@,
                (*make).requires(()),
                rest@ == all.skip(i as int),
                now.len() == i,
                self@ == (TileModel { tiles: with_snaps(before.tiles, all, i as int), ..before }),
                forall|k: int|
                    0 <= k < i ==> (#[trigger] now@[k]).coord == all[k].coord && (
                    if before.tiles.contains_key(tile_code(all[k].coord)) {
                        now@[k].tex == before.tiles[tile_code(all[k].coord)]
                    } else {
                        (*make).ensures((), now@[k].tex)
                    }),
            decreases n - i,
        {
            broadcast use vstd::std_specs::hash::group_hash_axioms;

            let snap: TileSnapshot<T> = rest.remove(0);
            assert(snap == all[i as int]);
            assert(rest@ =~= all.skip(i + 1));
            let coord: (u32, u32) = snap.coord;
            let code: u64 = code_of(coord.0, coord.1);
            proof {
                assert forall|k: int| 0 <= k < i implies tile_code((#[trigger] all[k]).coord)
                    != code by {
                    lemma_pair_code(all[k].coord.0, all[k].coord.1, coord.0, coord.1);
                    assert(all[k].coord != all[i as int].coord);
                }
                lemma_with_snaps_other(before.tiles, all, i as int, code);
            }
            let ghost had = self@;
            let was: T = match self.tiles.remove(&code) {
                Some(t) => t,
                None => make(),
            };
            self.tiles.insert(code, snap.tex);
            now.push(TileSnapshot { coord, tex: was });
            proof {
                assert(self@.tiles =~= had.tiles.insert(code, all[i as int].tex));
                assert(self@.undo =~= before.undo && self@.redo =~= before.redo);
            }
            i = i + 1;
        }
        now
    }

    /// Takes back the last stroke, and says which tiles changed; none where there is no stroke to
    /// take back.
    pub fn undo<M: Fn() -> T>(&mut self, make: &M) -> (r: Option<Vec<(u32, u32)>>)
        requires
            old(self)@.valid(),
            (*make).requires(()),
        ensures
            match r {
                Some(coords) => old(self)@.undo.len() > 0 && coords@ == coords_of(
                    old(self)@.undo.last(),
                ) && taken_back(old(self)@, final(self)@, make),
                None => old(self)@.undo.len() == 0 && final(self)@ == old(self)@,
            },
            final(self)@.valid(),
    {
        let ghost before = self@;
        match self.undo.pop() {
            None => None,
            Some(entry) => {
                assert(entries(self.undo@) =~= before.undo.drop_last());
                let ghost e = before.undo.last();
                assert(entry.snapshots@ == e);
                let coords: Vec<(u32, u32)> = list_coords(&entry.snapshots);
                let now: Vec<TileSnapshot<T>> = self.swap_in(entry.snapshots, make);
                let ghost shown = now@;
                let ghost mid = self@;
                proof {
                    lemma_replaced_once(before.tiles, e, make, shown);
                }
                self.redo.push(StrokeEntry { snapshots: now });
                assert(entries(self.redo@) =~= before.redo.push(shown));
                assert(self@.undo =~= mid.undo);
                assert(replaced(before.tiles, before.undo.last(), make, shown));
                assert(self@ =~= (TileModel {
                    tiles: with_snaps(before.tiles, e, e.len() as int),
                    undo: before.undo.drop_last(),
                    redo: before.redo.push(shown),
                    ..before
                }));
                Some(coords)
            },
        }
    }

    /// Brings back the last stroke taken back, and says which tiles changed; none where there is
    /// no stroke to bring back.
    pub fn redo<M: Fn() -> T>(&mut self, make: &M) -> (r: Option<Vec<(u32, u32)>>)
        requires
            old(self)@.valid(),
            (*make).requires(()),
        ensures
            match r {
                Some(coords) => old(self)@.redo.len() > 0 && coords@ == coords_of(
                    old(self)@.redo.last(),
                ) && brought_back(old(self)@, final(self)@, make),
                None => old(self)@.redo.len() == 0 && final(self)@ == old(self)@,
            },
            final(self)@.valid(),
    {
        let ghost before = self@;
        match self.redo.pop() {
            None => None,
            Some(entry) => {
                assert(entries(self.redo@) =~= before.redo.drop_last());
                let ghost e = before.redo.last();
                assert(entry.snapshots@ == e);
                let coords: Vec<(u32, u32)> = list_coords(&entry.snapshots);
                let now: Vec<TileSnapshot<T>> = self.swap_in(entry.snapshots, make);
                let ghost shown = now@;
                let ghost mid = self@;
                proof {
                    lemma_replaced_once(before.tiles, e, make, shown);
                }
                self.undo.push(StrokeEntry { snapshots: now });
                assert(entries(self.undo@) =~= before.undo.push(shown));
                assert(self@.redo =~= mid.redo);
                assert(replaced(before.tiles, before.redo.last(), make, shown));
                assert(self@ =~= (TileModel {
                    tiles: with_snaps(before.tiles, e, e.len() as int),
                    redo: before.redo.drop_last(),
                    undo: before.undo.push(shown),
                    ..before
                }));
                Some(coords)
            },
        }
    }
}

proof fn lemma_replaced_once<T, M: Fn() -> T>(
    tiles: Map<u64, T>,
    s: Seq<TileSnapshot<T>>,
    make: &M,
    now: Seq<TileSnapshot<T>>,
)
    requires
        once_each(s),
        replaced(tiles, s, make, now),
    ensures
        once_each(now),
{
    assert forall|i: int, j: int| 0 <= i < j < now.len() implies (#[trigger] now[i]).coord != (
    #[trigger] now[j]).coord by {
        assert(s[i].coord != s[j].coord);
    }
}

/// The tiles of some snapshots.
fn list_coords<T>(s: &Vec<TileSnapshot<T>>) -> (r: Vec<(u32, u32)>)
    ensures
        r@ == coords_of(s@),
{
    let mut r: Vec<(u32, u32)> = Vec::new();
    let mut i: usize = 0;
    while i < s.len()
        invariant
            i <= s.len(),
            r@ == coords_of(s@).take(i as int),
        decreases s.len() - i,
    {
        r.push(s[i].coord);
        i = i + 1;
        assert(r@ =~= coords_of(s@).take(i as int));
    }
    assert(r@ =~= coords_of(s@));
    r
}

/// The tiles as they were before the stroke: those it touched as their snapshots have them, the
/// others as they are.
pub open spec fn pre_stroke<T>(m: TileModel<T>) -> Map<u64, T> {
    with_snaps(m.tiles, m.snaps, m.snaps.len() as int)
}

/// Whether copies are like what they are copies of.
pub open spec fn faithful<T, C: Fn(&T) -> T>(copy: &C) -> bool {
    forall|t: &T, r: T| #[trigger] (*copy).ensures((t,), r) ==> r == *t
}

/// What a tile was before the stroke: its snapshot, or what it is.
proof fn lemma_pre_stroke<T>(m: TileModel<T>, k: u64)
    requires
        once_each(m.snaps),
    ensures
        forall|i: int|
            0 <= i < m.snaps.len() && tile_code((#[trigger] m.snaps[i]).coord) == k ==> pre_stroke(
                m,
            ).contains_key(k) && pre_stroke(m)[k] == m.snaps[i].tex,
        (forall|i: int| 0 <= i < m.snaps.len() ==> tile_code((#[trigger] m.snaps[i]).coord) != k)
            ==> pre_stroke(m).contains_key(k) == m.tiles.contains_key(k) && (m.tiles.contains_key(k)
            ==> pre_stroke(m)[k] == m.tiles[k]),
{
    let n = m.snaps.len() as int;
    assert forall|i: int|
        0 <= i < m.snaps.len() && tile_code((#[trigger] m.snaps[i]).coord) == k implies pre_stroke(
        m,
    ).contains_key(k) && pre_stroke(m)[k] == m.snaps[i].tex by {
        lemma_with_snaps_own(m.tiles, m.snaps, n, i);
    }
    if forall|i: int| 0 <= i < n ==> tile_code((#[trigger] m.snaps[i]).coord) != k {
        lemma_with_snaps_other(m.tiles, m.snaps, n, k);
    }
}

/// Going over tiles keeps what the tiles were before the stroke.
pub proof fn touching_keeps_what_was<T, M: Fn() -> T, C: Fn(&T) -> T>(
    before: TileModel<T>,
    after: TileModel<T>,
    coords: Seq<(u32, u32)>,
    make: &M,
    copy: &C,
    k: u64,
)
    requires
        once_each(before.snaps),
        touched(before, after, coords, coords.len() as int, make, copy),
        faithful(copy),
        before.tiles.contains_key(k),
    ensures
        pre_stroke(after).contains_key(k),
        pre_stroke(after)[k] == pre_stroke(before)[k],
{
    lemma_pre_stroke(before, k);
    lemma_pre_stroke(after, k);
    if exists|i: int|
        0 <= i < before.snaps.len() && tile_code((#[trigger] before.snaps[i]).coord) == k {
        let i = choose|i: int|
            0 <= i < before.snaps.len() && tile_code((#[trigger] before.snaps[i]).coord) == k;
        assert(after.snaps[i] == before.snaps[i]);
    } else if exists|i: int|
        0 <= i < after.snaps.len() && tile_code((#[trigger] after.snaps[i]).coord) == k {
        let i = choose|i: int|
            0 <= i < after.snaps.len() && tile_code((#[trigger] after.snaps[i]).coord) == k;
        if i < before.snaps.len() {
            assert(after.snaps[i] == before.snaps[i]);
        }
        assert(snapped(after.tiles, coords, coords.len() as int, copy, after.snaps[i]));
    }
}

/// Painting on tiles of which there is a snapshot keeps what the tiles were before the stroke.
pub proof fn painting_keeps_what_was<T>(before: TileModel<T>, after: TileModel<T>, k: u64)
    requires
        once_each(before.snaps),
        after.snaps == before.snaps,
        forall|j: u64|
            (forall|i: int|
                0 <= i < before.snaps.len() ==> tile_code((#[trigger] before.snaps[i]).coord) != j)
                ==> before.tiles.contains_key(j) == #[trigger] after.tiles.contains_key(j) && (
            before.tiles.contains_key(j) ==> after.tiles[j] == before.tiles[j]),
    ensures
        pre_stroke(after).contains_key(k) == pre_stroke(before).contains_key(k),
        pre_stroke(before).contains_key(k) ==> pre_stroke(after)[k] == pre_stroke(before)[k],
{
    lemma_pre_stroke(before, k);
    lemma_pre_stroke(after, k);
    if exists|i: int|
        0 <= i < before.snaps.len() && tile_code((#[trigger] before.snaps[i]).coord) == k {
        let i = choose|i: int|
            0 <= i < before.snaps.len() && tile_code((#[trigger] before.snaps[i]).coord) == k;
        assert(tile_code(after.snaps[i].coord) == k);
    } else {
        let has = after.tiles.contains_key(k);
    }
}

/// Taking back a stroke once it ended gives back the tiles as they were before it.
pub proof fn undo_brings_back_what_was<T, M: Fn() -> T>(
    painted: TileModel<T>,
    after: TileModel<T>,
    make: &M,
)
    requires
        painted.valid(),
        painted.active,
        painted.snaps.len() > 0,
        taken_back(stroke_ended(painted), after, make),
    ensures
        after.tiles == pre_stroke(painted),
{
    let ended = stroke_ended(painted);
    assert(ended.undo.last() == painted.snaps);
}

/// Bringing back a stroke that was just taken back gives back the canvas, stroke for stroke.
pub proof fn redo_inverts_undo<T, M: Fn() -> T>(
    before: TileModel<T>,
    mid: TileModel<T>,
    after: TileModel<T>,
    make: &M,
)
    requires
        before.valid(),
        before.undo.len() > 0,
        taken_back(before, mid, make),
        brought_back(mid, after, make),
        forall|i: int|
            0 <= i < before.undo.last().len() ==> before.tiles.contains_key(
                tile_code((#[trigger] before.undo.last()[i]).coord),
            ),
    ensures
        after == before,
{
    let e = before.undo.last();
    let n = e.len() as int;
    assert(once_each(e)) by {
        assert(once_each(before.undo[before.undo.len() - 1]));
    }
    let now = choose|now: Seq<TileSnapshot<T>>| #[trigger]
        replaced(before.tiles, e, make, now) && mid == (TileModel {
            tiles: with_snaps(before.tiles, e, n),
            undo: before.undo.drop_last(),
            redo: before.redo.push(now),
            ..before
        });
    assert(mid.redo.last() == now);
    lemma_replaced_once(before.tiles, e, make, now);
    let again = choose|again: Seq<TileSnapshot<T>>| #[trigger]
        replaced(mid.tiles, now, make, again) && after == (TileModel {
            tiles: with_snaps(mid.tiles, now, now.len() as int),
            redo: mid.redo.drop_last(),
            undo: mid.undo.push(again),
            ..mid
        });
    assert(again =~= e) by {
        assert forall|i: int| 0 <= i < n implies again[i] == e[i] by {
            lemma_with_snaps_own(before.tiles, e, n, i);
            assert(now[i].coord == e[i].coord);
            assert(again[i].coord == now[i].coord);
        }
    }
    assert(after.tiles =~= before.tiles) by {
        assert forall|k: u64|
            #![trigger after.tiles.dom().contains(k)]
            #![trigger before.tiles.dom().contains(k)]
            after.tiles.dom().contains(k) == before.tiles.dom().contains(k) && (
            before.tiles.dom().contains(k) ==> after.tiles[k] == before.tiles[k]) by {
            if exists|i: int| 0 <= i < n && tile_code((#[trigger] e[i]).coord) == k {
                let i = choose|i: int| 0 <= i < n && tile_code((#[trigger] e[i]).coord) == k;
                assert(now[i].coord == e[i].coord);
                lemma_with_snaps_own(mid.tiles, now, n, i);
                assert(before.tiles.contains_key(tile_code(e[i].coord)));
            } else {
                assert forall|i: int| 0 <= i < n implies tile_code((#[trigger] now[i]).coord)
                    != k by {
                    assert(now[i].coord == e[i].coord);
                    assert(tile_code(e[i].coord) != k);
                }
                lemma_with_snaps_other(before.tiles, e, n, k);
                lemma_with_snaps_other(mid.tiles, now, n, k);
            }
        }
    }
    assert(after.undo =~= before.undo);
    assert(after.redo =~= before.redo);
}

/// A number held to `lo ..= hi`.
pub open spec fn held(v: int, lo: int, hi: int) -> int {
    if v < lo {
        lo
    } else if v > hi {
        hi
    } else {
        v
    }
}

/// The tiles of the canvas in the columns from `left` up to `right` and the rows from `top` up
/// to `bottom`, row by row. Of what is left of the canvas or above it, the first column or row
/// stands in.
pub open spec fn tile_block(left: int, top: int, right: int, bottom: int) -> Seq<(u32, u32)> {
    let x0 = held(left, 0, CANVAS_TILES - 1);
    let x1 = held(right, 0, CANVAS_TILES as int);
    let y0 = held(top, 0, CANVAS_TILES - 1);
    let y1 = held(bottom, 0, CANVAS_TILES as int);
    if x1 <= x0 || y1 <= y0 {
        Seq::empty()
    } else {
        Seq::new(
            ((x1 - x0) * (y1 - y0)) as nat,
            |i: int| ((x0 + i % (x1 - x0)) as u32, (y0 + i / (x1 - x0)) as u32),
        )
    }
}

fn held_to(v: i32, lo: i32, hi: i32) -> (r: u32)
    requires
        0 <= lo <= hi,
    ensures
        r == held(v as int, lo as int, hi as int),
{
    if v < lo {
        lo as u32
    } else if v > hi {
        hi as u32
    } else {
        v as u32
    }
}

/// The tiles that a stroke touches which reaches from column `left` of the tiles up to `right`,
/// and from row `top` up to `bottom`.
pub fn tiles_touched(left: i32, top: i32, right: i32, bottom: i32) -> (r: Vec<(u32, u32)>)
    ensures
        r@ == tile_block(left as int, top as int, right as int, bottom as int),
{
    let x0: u32 = held_to(left, 0, 15);
    let x1: u32 = held_to(right, 0, 16);
    let y0: u32 = held_to(top, 0, 15);
    let y1: u32 = held_to(bottom, 0, 16);
    let ghost all = tile_block(left as int, top as int, right as int, bottom as int);
    let mut out: Vec<(u32, u32)> = Vec::new();
    if x1 <= x0 || y1 <= y0 {
        assert(out@ =~= all);
        return out;
    }
    let ghost w = x1 - x0;
    let ghost h = y1 - y0;
    assert(w * h >= 0) by (nonlinear_arith)
        requires
            w > 0,
            h > 0,
    ;
    let mut ty: u32 = y0;
    assert(cell(w, 0, 0) == 0);
    while ty < y1
        invariant
            y0 <= ty <= y1 <= 16,
            x0 < x1 <= 16,
            w == x1 - x0,
            h == y1 - y0,
            all.len() == w * h,
            forall|i: int|
                0 <= i < all.len() ==> #[trigger] all[i] == ((x0 + i % w) as u32, (y0 + i
                    / w) as u32),
            out.len() == cell(w, 0, ty - y0),
            out.len() <= all.len(),
            forall|i: int| 0 <= i < out.len() ==> #[trigger] out@[i] == all[i],
        decreases y1 - ty,
    {
        let mut tx: u32 = x0;
        while tx < x1
            invariant
                y0 <= ty < y1 <= 16,
                x0 <= tx <= x1 <= 16,
                x0 < x1,
                w == x1 - x0,
                h == y1 - y0,
                all.len() == w * h,
                forall|i: int|
                    0 <= i < all.len() ==> #[trigger] all[i] == ((x0 + i % w) as u32, (y0 + i
                        / w) as u32),
                out.len() == cell(w, tx - x0, ty - y0),
                out.len() <= all.len(),
                forall|i: int| 0 <= i < out.len() ==> #[trigger] out@[i] == all[i],
            decreases x1 - tx,
        {
            proof {
                lemma_cell(w, h, tx - x0, ty - y0);
            }
            out.push((tx, ty));
            assert(all[out.len() - 1] == (tx, ty));
            tx = tx + 1;
        }
        assert((ty - y0 + 1) * w == (ty - y0) * w + w) by (nonlinear_arith);
        ty = ty + 1;
    }
    assert(h * w == w * h) by (nonlinear_arith);
    assert(out@ =~= all);
    out
}

/// A piece of a picture that becomes a tile: the tile, where in the picture the piece begins, and
/// how wide and how high it is.
#[derive(Clone, Copy, Debug, PartialEq, Eq, Structural)]
pub struct TileCopy {
    pub tx: u32,
    pub ty: u32,
    pub x: u32,
    pub y: u32,
    pub w: u32,
    pub h: u32,
}

/// How many tiles a picture `size` cells wide needs side by side.
pub open spec fn tiles_across(size: int) -> int {
    (size + TILE_SIZE - 1) / TILE_SIZE as int
}

/// How much of a picture `size` wide is in its tile number `t` along an axis.
pub open spec fn tile_share(size: int, t: int) -> int {
    if size - t * TILE_SIZE < TILE_SIZE {
        size - t * TILE_SIZE
    } else {
        TILE_SIZE as int
    }
}

/// The piece of a square picture that becomes a tile.
pub open spec fn tile_copy(size: int, tx: int, ty: int) -> TileCopy {
    TileCopy {
        tx: tx as u32,
        ty: ty as u32,
        x: (tx * TILE_SIZE) as u32,
        y: (ty * TILE_SIZE) as u32,
        w: tile_share(size, tx) as u32,
        h: tile_share(size, ty) as u32,
    }
}

impl TileCopy {
    /// Whether the piece has the cell in column `x` of row `y` of the picture.
    pub open spec fn has(self, x: int, y: int) -> bool {
        self.x <= x < self.x + self.w && self.y <= y < self.y + self.h
    }
}

impl<T> TileCanvas<T> {
    /// Makes ready for a square picture `size` cells wide to be loaded: drops the tiles and what
    /// can be taken back, makes the tiles that the picture needs, and says which piece of the
    /// picture becomes which tile, row by row.
    pub fn load<M: Fn() -> T>(&mut self, size: u32, make: &M) -> (r: Vec<TileCopy>)
        requires
            size <= 0xffff_ff00,
            (*make).requires(()),
            old(self)@.valid(),
        ensures
            r.len() == tiles_across(size as int) * tiles_across(size as int),
            forall|tx: int, ty: int|
                0 <= tx < tiles_across(size as int) && 0 <= ty < tiles_across(size as int) ==> r@[
                #[trigger] cell(tiles_across(size as int), tx, ty)] == tile_copy(
                    size as int,
                    tx,
                    ty,
                ),
            final(self)@.undo.len() == 0,
            final(self)@.redo.len() == 0,
            final(self)@.active == old(self)@.active,
            final(self)@.snaps == old(self)@.snaps,
            forall|k: u64| #[trigger]
                final(self)@.tiles.contains_key(k) <==> needed_tile(size as int, k),
            forall|k: u64| #[trigger]
                final(self)@.tiles.contains_key(k) ==> (*make).ensures(
                    (),
                    final(self)@.tiles[k],
                ),
            final(self)@.valid(),
    {
        broadcast use vstd::std_specs::hash::group_hash_axioms;

        let ghost before = self@;
        self.undo.clear();
        self.redo.clear();
        self.tiles.clear();
        let n: u32 = (size + (TILE_SIZE - 1)) / TILE_SIZE;
        let ghost m = n as int;
        let mut out: Vec<TileCopy> = Vec::new();
        let mut ty: u32 = 0;
        assert(cell(m, 0, 0) == 0);
        while ty < n
            invariant
                size <= 0xffff_ff00,
                (*make).requires(()),
                m == n,
                m == tiles_across(size as int),
                ty <= n,
                out.len() == cell(m, 0, ty as int),
                forall|a: int, b: int|
                    0 <= a < m && 0 <= b < m && cell(m, a, b) < cell(m, 0, ty as int) ==> out@[
                    #[trigger] cell(m, a, b)] == tile_copy(size as int, a, b),
                self.undo.len() == 0,
                self.redo.len() == 0,
                self.stroke_active == before.active,
                self.stroke_snapshots@ == before.snaps,
                forall|a: int, b: int|
                    0 <= a < m && 0 <= b < ty ==> self.tiles@.contains_key(
                        #[trigger] tile_code((a as u32, b as u32)),
                    ),
                forall|k: u64| #[trigger]
                    self.tiles@.contains_key(k) ==> needed_tile(size as int, k) && (*make).ensures(
                        (),
                        self.tiles@[k],
                    ),
            decreases n - ty,
        {
            let mut tx: u32 = 0;
            while tx < n
                invariant
                    size <= 0xffff_ff00,
                    (*make).requires(()),
                    m == n,
                    m == tiles_across(size as int),
                    ty < n,
                    tx <= n,
                    out.len() == cell(m, tx as int, ty as int),
                    forall|a: int, b: int|
                        0 <= a < m && 0 <= b < m && cell(m, a, b) < cell(m, tx as int, ty as int)
                            ==> out@[#[trigger] cell(m, a, b)] == tile_copy(size as int, a, b),
                    self.undo.len() == 0,
                    self.redo.len() == 0,
                    self.stroke_active == before.active,
                    self.stroke_snapshots@ == before.snaps,
                    forall|a: int, b: int|
                        0 <= a < m && 0 <= b < m && (b < ty || b == ty && a < tx)
                            ==> self.tiles@.contains_key(
                            #[trigger] tile_code((a as u32, b as u32)),
                        ),
                    forall|k: u64| #[trigger]
                        self.tiles@.contains_key(k) ==> needed_tile(size as int, k) && (
                        *make).ensures((), self.tiles@[k]),
                decreases n - tx,
            {
                broadcast use vstd::std_specs::hash::group_hash_axioms;

                let code: u64 = code_of(tx, ty);
                assert(needed_tile(size as int, code)) by {
                    assert(tile_code((tx as int as u32, ty as int as u32)) == code);
                }
                if !self.tiles.contains_key(&code) {
                    let t: T = make();
                    self.tiles.insert(code, t);
                }
                let x: u32 = tx * TILE_SIZE;
                let y: u32 = ty * TILE_SIZE;
                let w: u32 = if size - x < TILE_SIZE {
                    size - x
                } else {
                    TILE_SIZE
                };
                let h: u32 = if size - y < TILE_SIZE {
                    size - y
                } else {
                    TILE_SIZE
                };
                let ghost had = out@;
                out.push(TileCopy { tx, ty, x, y, w, h });
                proof {
                    lemma_cell(m, m, tx as int, ty as int);
                    assert forall|a: int, b: int|
                        0 <= a < m && 0 <= b < m && cell(m, a, b) < cell(m, tx as int, ty as int)
                            + 1 implies out@[#[trigger] cell(m, a, b)] == tile_copy(
                        size as int,
                        a,
                        b,
                    ) by {
                        lemma_cell(m, m, a, b);
                    }
                }
                tx = tx + 1;
            }
            assert((ty + 1) * m == ty * m + m) by (nonlinear_arith);
            ty = ty + 1;
        }
        proof {
            assert forall|k: u64| needed_tile(size as int, k) implies #[trigger]
                self.tiles@.contains_key(k) by {
                let (a, b) = choose|a: int, b: int|
                    0 <= a < tiles_across(size as int) && 0 <= b < tiles_across(size as int)
                        && #[trigger] tile_code((a as u32, b as u32)) == k;
                assert(self.tiles@.contains_key(tile_code((a as u32, b as u32))));
            }
            assert forall|a: int, b: int| 0 <= a < m && 0 <= b < m implies out@[#[trigger] cell(
                m,
                a,
                b,
            )] == tile_copy(size as int, a, b) by {
                lemma_cell(m, m, a, b);
            }
            assert(self@.undo =~= Seq::empty());
            assert(self@.redo =~= Seq::empty());
        }
        out
    }
}

/// Whether a number is that of a tile that a square picture `size` cells wide needs.
pub open spec fn needed_tile(size: int, k: u64) -> bool {
    exists|a: int, b: int|
        0 <= a < tiles_across(size) && 0 <= b < tiles_across(size) && #[trigger] tile_code(
            (a as u32, b as u32),
        ) == k
}

/// The pieces of a picture leave nothing out and do not overlap: every cell is in the piece of
/// exactly one tile.
pub proof fn pieces_tile_the_picture(size: int, x: int, y: int, tx: int, ty: int)
    requires
        0 <= size <= 0xffff_ff00,
        0 <= x < size,
        0 <= y < size,
        0 <= tx < tiles_across(size),
        0 <= ty < tiles_across(size),
    ensures
        tile_copy(size, tx, ty).has(x, y) <==> tx == x / 256 && ty == y / 256,
        0 <= x / 256 < tiles_across(size),
        0 <= y / 256 < tiles_across(size),
{
}

} // verus!
