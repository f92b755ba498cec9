//! User address spaces: a set of disjoint virtual page ranges, each mapped
//! with one permission.
use vstd::prelude::*;

verus! {

/// Bytes in one page.
pub const PAGE_SIZE: usize = 4096;

/// Access rights of a mapped page.
#[derive(Clone, Copy, PartialEq, Eq, Debug, Structural)]
pub struct MapPermission {
    pub readable: bool,
    pub writable: bool,
    pub executable: bool,
    pub user: bool,
}

/// A range `[start_vpn, end_vpn)` of virtual page numbers mapped with `perm`.
#[derive(Clone, Copy, PartialEq, Eq, Debug, Structural)]
pub struct MapArea {
    pub start_vpn: usize,
    pub end_vpn: usize,
    pub perm: MapPermission,
}

/// The address space of a process.
pub struct MemorySet {
    /// The page-table token (`satp` value) that selects this address space.
    pub token: usize,
    pub areas: Vec<MapArea>,
}

/// Whether `area` maps page `vpn`.
pub open spec fn area_contains(area: MapArea, vpn: int) -> bool {
    area.start_vpn <= vpn < area.end_vpn
}

/// The two areas share no page.
pub open spec fn areas_disjoint(a: MapArea, b: MapArea) -> bool {
    a.end_vpn <= b.start_vpn || b.end_vpn <= a.start_vpn
}

/// `area` shares a page with the range `[start_vpn, end_vpn)`.
pub open spec fn mmap_conflicts(area: MapArea, start_vpn: int, end_vpn: int) -> bool {
    area.start_vpn < end_vpn && start_vpn < area.end_vpn
}

/// `p` is a non-empty part of area `o` of `olds`, with `o < bound`, lying
/// entirely below `[s, e)` when `low` and entirely above it otherwise.
pub open spec fn piece_of(p: MapArea, olds: Seq<MapArea>, o: int, low: bool, bound: int, s: int, e: int) -> bool {
    &&& 0 <= o < bound
    &&& o < olds.len()
    &&& p.start_vpn < p.end_vpn
    &&& olds[o].start_vpn <= p.start_vpn
    &&& p.end_vpn <= olds[o].end_vpn
    &&& p.perm == olds[o].perm
    &&& low ==> p.end_vpn <= s
    &&& !low ==> e <= p.start_vpn
}

/// The page holding address `va`.
pub open spec fn spec_floor(va: int) -> int {
    va / PAGE_SIZE as int
}

/// The first page boundary at or above address `va`, as a page number.
pub open spec fn spec_ceil(va: int) -> int {
    if va % PAGE_SIZE as int == 0 {
        va / PAGE_SIZE as int
    } else {
        va / PAGE_SIZE as int + 1
    }
}

/// The page number of the page that holds `va`.
pub fn floor_vpn(va: usize) -> (vpn: usize)
    ensures
        vpn == spec_floor(va as int),
{
    va / PAGE_SIZE
}

/// The page number of the first page boundary at or above `va`.
pub fn ceil_vpn(va: usize) -> (vpn: usize)
    ensures
        vpn == spec_ceil(va as int),
{
    if va % PAGE_SIZE == 0 {
        va / PAGE_SIZE
    } else {
        va / PAGE_SIZE + 1
    }
}

/// The offset of `va` within its page.
pub fn page_offset(va: usize) -> (off: usize)
    ensures
        off == va % PAGE_SIZE,
{
    va % PAGE_SIZE
}

impl MemorySet {
    /// An empty address space selected by `token`.
    pub fn new(token: usize) -> (ms: MemorySet)
        ensures
            ms.token == token,
            ms.areas@.len() == 0,
    {
        MemorySet { token, areas: Vec::new() }
    }

    /// Areas are non-empty and pairwise disjoint.
    pub open spec fn wf(&self) -> bool {
        &&& forall|k: int|
            0 <= k < self.areas@.len() ==> #[trigger] self.areas@[k].start_vpn < self.areas@[k].end_vpn
        &&& forall|k: int, j: int|
            0 <= k < self.areas@.len() && 0 <= j < self.areas@.len() && k != j ==> areas_disjoint(
                #[trigger] self.areas@[k],
                #[trigger] self.areas@[j],
            )
    }

    /// Whether page `vpn` is mapped.
    pub open spec fn is_mapped(&self, vpn: int) -> bool {
        exists|k: int| 0 <= k < self.areas@.len() && #[trigger] area_contains(self.areas@[k], vpn)
    }

    /// The permission page `vpn` is mapped with, if it is mapped.
    pub open spec fn translate(&self, vpn: int) -> Option<MapPermission> {
        if self.is_mapped(vpn) {
            Some(
                self.areas@[choose|k: int|
                    0 <= k < self.areas@.len() && #[trigger] area_contains(self.areas@[k], vpn)].perm,
            )
        } else {
            None
        }
    }

    /// In a well-formed address space the area holding a page decides its permission.
    pub proof fn lemma_translate_area(&self, k: int, vpn: int)
        requires
            self.wf(),
            0 <= k < self.areas@.len(),
            area_contains(self.areas@[k], vpn),
        ensures
            self.translate(vpn) == Some(self.areas@[k].perm),
    {
        let j = choose|j: int| 0 <= j < self.areas@.len() && #[trigger] area_contains(self.areas@[j], vpn);
        if j != k {
            assert(areas_disjoint(self.areas@[k], self.areas@[j]));
        }
    }

    /// A copy of the user address space `user`, selected by `token`.
    pub fn from_existed_user(user: &MemorySet, token: usize) -> (ms: MemorySet)
        ensures
            ms.token == token,
            ms.areas@ == user.areas@,
    {
        let mut areas: Vec<MapArea> = Vec::new();
        let mut k: usize = 0;
        while k < user.areas.len()
            invariant
                k <= user.areas@.len(),
                areas@ == user.areas@.take(k as int),
            decreases user.areas@.len() - k,
        {
            areas.push(user.areas[k]);
            k = k + 1;
            assert(areas@ =~= user.areas@.take(k as int));
        }
        assert(areas@ =~= user.areas@);
        MemorySet { token, areas }
    }

    /// The page-table token of this address space.
    pub fn token(&self) -> (t: usize)
        ensures
            t == self.token,
    {
        self.token
    }

    /// Whether some area shares a page with the range `[start_vpn, end_vpn)`.
    pub fn conflicts_with_any(&self, start_vpn: usize, end_vpn: usize) -> (b: bool)
        ensures
            b == exists|k: int|
                0 <= k < self.areas@.len() && #[trigger] mmap_conflicts(
                    self.areas@[k],
                    start_vpn as int,
                    end_vpn as int,
                ),
    {
        let mut k: usize = 0;
        while k < self.areas.len()
            invariant
                k <= self.areas@.len(),
                forall|j: int|
                    0 <= j < k ==> !#[trigger] mmap_conflicts(
                        self.areas@[j],
                        start_vpn as int,
                        end_vpn as int,
                    ),
            decreases self.areas@.len() - k,
        {
            let a = self.areas[k];
            let l = a.start_vpn;
            let r = a.end_vpn;
            if l < end_vpn && start_vpn < r {
                assert(mmap_conflicts(self.areas@[k as int], start_vpn as int, end_vpn as int));
                return true;
            }
            k = k + 1;
        }
        false
    }

    /// Maps the pages `[start_vpn, end_vpn)` with `perm`.
    pub fn insert_framed_area(&mut self, start_vpn: usize, end_vpn: usize, perm: MapPermission)
        requires
            old(self).wf(),
            start_vpn < end_vpn,
            forall|k: int|
                0 <= k < old(self).areas@.len() ==> !#[trigger] mmap_conflicts(
                    old(self).areas@[k],
                    start_vpn as int,
                    end_vpn as int,
                ),
        ensures
            final(self).wf(),
            final(self).token == old(self).token,
            final(self).areas@ == old(self).areas@.push(
                MapArea { start_vpn, end_vpn, perm },
            ),
            forall|v: int|
                #[trigger] final(self).translate(v) == if start_vpn <= v < end_vpn {
                    Some(perm)
                } else {
                    old(self).translate(v)
                },
    {
        let area = MapArea { start_vpn, end_vpn, perm };
        self.areas.push(area);
        proof {
            let n = old(self).areas@.len() as int;
            assert forall|k: int, j: int|
                0 <= k < self.areas@.len() && 0 <= j < self.areas@.len() && k != j implies areas_disjoint(
                #[trigger] self.areas@[k],
                #[trigger] self.areas@[j],
            ) by {
                if k < n && j < n {
                    assert(areas_disjoint(old(self).areas@[k], old(self).areas@[j]));
                } else if k < n {
                    assert(!mmap_conflicts(old(self).areas@[k], start_vpn as int, end_vpn as int));
                } else {
                    assert(!mmap_conflicts(old(self).areas@[j], start_vpn as int, end_vpn as int));
                }
            }
            assert forall|v: int|
                #[trigger] self.translate(v) == if start_vpn <= v < end_vpn {
                    Some(perm)
                } else {
                    old(self).translate(v)
                } by {
                if start_vpn <= v < end_vpn {
                    assert(area_contains(self.areas@[n], v));
                    self.lemma_translate_area(n, v);
                } else if old(self).is_mapped(v) {
                    let k = choose|k: int|
                        0 <= k < old(self).areas@.len() && #[trigger] area_contains(
                            old(self).areas@[k],
                            v,
                        );
                    old(self).lemma_translate_area(k, v);
                    assert(area_contains(self.areas@[k], v));
                    self.lemma_translate_area(k, v);
                } else {
                    assert forall|k: int| 0 <= k < self.areas@.len() implies !#[trigger] area_contains(
                        self.areas@[k],
                        v,
                    ) by {
                        if k < n {
                            assert(self.areas@[k] == old(self).areas@[k]);
                        }
                    }
                }
            }
        }
    }

    /// In a well-formed address space, some area shares a page with the
    /// non-empty range `[s, e)` exactly when some page of that range is mapped.
    pub proof fn lemma_conflict_iff_mapped(&self, s: int, e: int)
        requires
            self.wf(),
            s < e,
        ensures
            (exists|k: int|
                0 <= k < self.areas@.len() && #[trigger] mmap_conflicts(self.areas@[k], s, e)) <==> (
            exists|v: int| s <= v < e && #[trigger] self.is_mapped(v)),
    {
        if exists|k: int| 0 <= k < self.areas@.len() && #[trigger] mmap_conflicts(self.areas@[k], s, e) {
            let k = choose|k: int|
                0 <= k < self.areas@.len() && #[trigger] mmap_conflicts(self.areas@[k], s, e);
            let a = self.areas@[k];
            let v = if a.start_vpn < s {
                s
            } else {
                a.start_vpn as int
            };
            assert(area_contains(self.areas@[k], v));
            assert(self.is_mapped(v));
        }
        if exists|v: int| s <= v < e && #[trigger] self.is_mapped(v) {
            let v = choose|v: int| s <= v < e && #[trigger] self.is_mapped(v);
            let k = choose|k: int| 0 <= k < self.areas@.len() && #[trigger] area_contains(self.areas@[k], v);
            assert(mmap_conflicts(self.areas@[k], s, e));
        }
    }

    /// Whether `vpn` is mapped.
    pub fn contains_vpn(&self, vpn: usize) -> (b: bool)
        ensures
            b == self.is_mapped(vpn as int),
    {
        let mut k: usize = 0;
        while k < self.areas.len()
            invariant
                k <= self.areas@.len(),
                forall|j: int| 0 <= j < k ==> !#[trigger] area_contains(self.areas@[j], vpn as int),
            decreases self.areas@.len() - k,
        {
            if self.areas[k].start_vpn <= vpn && vpn < self.areas[k].end_vpn {
                assert(area_contains(self.areas@[k as int], vpn as int));
                return true;
            }
            k = k + 1;
        }
        false
    }

    /// Whether every page of `[start_vpn, end_vpn)` is mapped.
    pub fn all_mapped(&self, start_vpn: usize, end_vpn: usize) -> (b: bool)
        ensures
            b == forall|v: int| start_vpn <= v < end_vpn ==> #[trigger] self.is_mapped(v),
    {
        let mut v: usize = start_vpn;
        while v < end_vpn
            invariant
                start_vpn <= v,
                forall|u: int| start_vpn <= u < v ==> #[trigger] self.is_mapped(u),
            decreases end_vpn - v,
        {
            if !self.contains_vpn(v) {
                return false;
            }
            v = v + 1;
        }
        true
    }

    /// Unmaps the pages `[start_vpn, end_vpn)`, keeping the parts of areas
    /// outside the range.
    pub fn remove_range(&mut self, start_vpn: usize, end_vpn: usize)
        requires
            old(self).wf(),
            start_vpn <= end_vpn,
        ensures
            final(self).wf(),
            final(self).token == old(self).token,
            forall|v: int|
                #[trigger] final(self).translate(v) == if start_vpn <= v < end_vpn {
                    None
                } else {
                    old(self).translate(v)
                },
    {
        let ghost olds = old(self).areas@;
        let mut pieces: Vec<MapArea> = Vec::new();
        // For each piece, the area it comes from and whether it lies below the range.
        let ghost mut origin: Seq<(int, bool)> = Seq::empty();
        let mut i: usize = 0;
        while i < self.areas.len()
            invariant
                i <= olds.len(),
                self.areas@ == olds,
                self.wf(),
                start_vpn <= end_vpn,
                origin.len() == pieces@.len(),
                forall|k: int|
                    0 <= k < pieces@.len() ==> piece_of(
                        #[trigger] pieces@[k],
                        olds,
                        origin[k].0,
                        origin[k].1,
                        i as int,
                        start_vpn as int,
                        end_vpn as int,
                    ),
                forall|k: int, j: int|
                    0 <= k < pieces@.len() && 0 <= j < pieces@.len() && k != j && (#[trigger] origin[k]).0
                        == (#[trigger] origin[j]).0 ==> origin[k].1 != origin[j].1,
                forall|o: int, v: int|
                    0 <= o < i && #[trigger] area_contains(olds[o], v) && !(start_vpn <= v < end_vpn)
                        ==> exists|k: int|
                        0 <= k < pieces@.len() && #[trigger] area_contains(pieces@[k], v) && origin[k].0
                            == o,
            decreases olds.len() - i,
        {
            let a = self.areas[i];
            let ghost before: int = pieces@.len() as int;
            let ghost origin0 = origin;
            let ghost pieces0 = pieces@;
            let low_end = if a.end_vpn < start_vpn {
                a.end_vpn
            } else {
                start_vpn
            };
            if a.start_vpn < low_end {
                pieces.push(MapArea { start_vpn: a.start_vpn, end_vpn: low_end, perm: a.perm });
                proof {
                    origin = origin.push((i as int, true));
                }
            }
            let high_start = if a.start_vpn > end_vpn {
                a.start_vpn
            } else {
                end_vpn
            };
            if high_start < a.end_vpn {
                pieces.push(MapArea { start_vpn: high_start, end_vpn: a.end_vpn, perm: a.perm });
                proof {
                    origin = origin.push((i as int, false));
                }
            }
            proof {
                assert forall|k: int| 0 <= k < pieces@.len() implies piece_of(
                    #[trigger] pieces@[k],
                    olds,
                    origin[k].0,
                    origin[k].1,
                    i + 1,
                    start_vpn as int,
                    end_vpn as int,
                ) by {
                    if k < before {
                        assert(pieces@[k] == pieces0[k]);
                        assert(origin[k] == origin0[k]);
                        assert(piece_of(pieces0[k], olds, origin0[k].0, origin0[k].1, i as int, start_vpn as int, end_vpn as int));
                    }
                }
                assert forall|k: int, j: int|
                    0 <= k < pieces@.len() && 0 <= j < pieces@.len() && k != j && (
                    #[trigger] origin[k]).0 == (#[trigger] origin[j]).0 implies origin[k].1
                    != origin[j].1 by {
                    if k >= before || j >= before {
                        if k < before {
                            assert(piece_of(pieces0[k], olds, origin0[k].0, origin0[k].1, i as int, start_vpn as int, end_vpn as int));
                            assert(origin[k] == origin0[k]);
                        } else if j < before {
                            assert(piece_of(pieces0[j], olds, origin0[j].0, origin0[j].1, i as int, start_vpn as int, end_vpn as int));
                            assert(origin[j] == origin0[j]);
                        }
                    }
                }
                assert forall|o: int, v: int|
                    0 <= o < i + 1 && #[trigger] area_contains(olds[o], v) && !(start_vpn <= v
                        < end_vpn) implies exists|k: int|
                    0 <= k < pieces@.len() && #[trigger] area_contains(pieces@[k], v) && origin[k].0
                        == o by {
                    if o < i {
                        let k = choose|k: int|
                            0 <= k < before && #[trigger] area_contains(pieces0[k], v)
                                && origin0[k].0 == o;
                        assert(pieces@[k] == pieces0[k]);
                        assert(origin[k] == origin0[k]);
                        assert(area_contains(pieces@[k], v) && origin[k].0 == o);
                    } else {
                        if v < start_vpn {
                            let k = before as int;
                            assert(area_contains(pieces@[k], v) && origin[k].0 == o);
                        } else {
                            let k = if a.start_vpn < low_end {
                                before + 1int
                            } else {
                                before as int
                            };
                            assert(area_contains(pieces@[k], v) && origin[k].0 == o);
                        }
                    }
                }
            }
            i = i + 1;
        }
        proof {
            let ps = pieces@;
            assert forall|k: int| 0 <= k < ps.len() implies #[trigger] ps[k].start_vpn < ps[k].end_vpn by {
                assert(piece_of(ps[k], olds, origin[k].0, origin[k].1, olds.len() as int, start_vpn as int, end_vpn as int));
            }
            assert forall|k: int, j: int|
                0 <= k < ps.len() && 0 <= j < ps.len() && k != j implies areas_disjoint(
                #[trigger] ps[k],
                #[trigger] ps[j],
            ) by {
                assert(piece_of(ps[k], olds, origin[k].0, origin[k].1, olds.len() as int, start_vpn as int, end_vpn as int));
                assert(piece_of(ps[j], olds, origin[j].0, origin[j].1, olds.len() as int, start_vpn as int, end_vpn as int));
                if origin[k].0 != origin[j].0 {
                    assert(areas_disjoint(olds[origin[k].0], olds[origin[j].0]));
                } else {
                    assert(origin[k].1 != origin[j].1);
                }
            }
        }
        self.areas = pieces;
        proof {
            assert forall|v: int|
                #[trigger] self.translate(v) == if start_vpn <= v < end_vpn {
                    None
                } else {
                    old(self).translate(v)
                } by {
                if self.is_mapped(v) {
                    let k = choose|k: int|
                        0 <= k < self.areas@.len() && #[trigger] area_contains(self.areas@[k], v);
                    self.lemma_translate_area(k, v);
                    let o = origin[k].0;
                    assert(piece_of(self.areas@[k], olds, o, origin[k].1, olds.len() as int, start_vpn as int, end_vpn as int));
                    assert(area_contains(olds[o], v));
                    old(self).lemma_translate_area(o, v);
                } else if old(self).is_mapped(v) && !(start_vpn <= v < end_vpn) {
                    let o = choose|o: int| 0 <= o < olds.len() && #[trigger] area_contains(olds[o], v);
                    let k = choose|k: int|
                        0 <= k < self.areas@.len() && #[trigger] area_contains(self.areas@[k], v)
                            && origin[k].0 == o;
                    assert(self.is_mapped(v));
                }
            }
        }
    }
}

} // verus!
