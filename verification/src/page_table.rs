//! Per-segment paging scratch state.
//!
//! For every page index the table records whether the page is resident,
//! dirty, or dragged in as a Merkle ancestor.  A Merkle overlay sits over
//! the data pages: loading a leaf page transitively requires loading every
//! overlay page on the path to the root that is not yet charged, and
//! storing requires the dirty mark on the whole path.  Each page that
//! transitions costs `CYCLES_PER_FULL_PAGE` cycles.

use vstd::prelude::*;
use crate::{
    CYCLES_PER_FULL_PAGE, L1_BASE, L2_BASE, NUM_DATA_PAGES, NUM_PAGES, ROOT_PAGE,
};

verus! {

/// Direction of a page transition: paging in, or marking dirty for page-out.
#[derive(Clone, Copy, Debug, PartialEq, Eq, Structural)]
pub enum Dir {
    Load,
    Store,
}

/// Status of one page within the current segment.
#[derive(Clone, Copy, Debug, PartialEq, Eq, Structural)]
pub enum PageState {
    /// Not touched this segment.
    Unloaded,
    /// Resident and clean.
    LoadedClean,
    /// Resident and scheduled for flush at segment exit.
    LoadedDirty,
    /// Dragged in only as the Merkle ancestor of a loaded page.
    Pending,
}

/// The pages that were paged in (`reads`) or made dirty (`writes`) during a
/// segment; only data pages are listed.
#[derive(Clone, Debug)]
pub struct PageFaults {
    pub reads: Vec<u32>,
    pub writes: Vec<u32>,
}

/// The Merkle parent of page `p`: the overlay page holding `p`'s digest.
pub open spec fn parent_of(p: int) -> int {
    if p < L1_BASE {
        L1_BASE + p / 32
    } else if p < L2_BASE {
        L2_BASE + (p - L1_BASE) / 32
    } else {
        ROOT_PAGE as int
    }
}

/// Whether the page has been charged for paging in.
pub open spec fn loaded(s: Seq<PageState>, p: int) -> bool {
    !(s[p] is Unloaded)
}

/// Whether the page has been charged for flushing at segment exit.
pub open spec fn dirty(s: Seq<PageState>, p: int) -> bool {
    s[p] is LoadedDirty
}

/// Whether the page's transition in the given direction has been charged.
pub open spec fn charged(s: Seq<PageState>, p: int, dir: Dir) -> bool {
    match dir {
        Dir::Load => loaded(s, p),
        Dir::Store => dirty(s, p),
    }
}

/// Number of overlay levels above page `p`.
pub open spec fn depth_of(p: int) -> int {
    if p < L1_BASE {
        3
    } else if p < L2_BASE {
        2
    } else if p < ROOT_PAGE {
        1
    } else {
        0
    }
}

/// Incremental cycles to make page `p` charged in direction `dir`,
/// including every ancestor overlay page not yet charged.
pub open spec fn needed_spec(s: Seq<PageState>, p: int, dir: Dir) -> nat
    decreases ROOT_PAGE - p,
        when 0 <= p <= ROOT_PAGE
{
    if charged(s, p, dir) {
        0
    } else if p == ROOT_PAGE {
        CYCLES_PER_FULL_PAGE as nat
    } else {
        CYCLES_PER_FULL_PAGE as nat + needed_spec(s, parent_of(p), dir)
    }
}

/// The state a page takes when charged in the given direction: data pages
/// become resident, overlay pages are dragged in as pending, and stores
/// dirty either kind.
pub open spec fn mark_state(p: int, dir: Dir) -> PageState {
    match dir {
        Dir::Load => if p < NUM_DATA_PAGES {
            PageState::LoadedClean
        } else {
            PageState::Pending
        },
        Dir::Store => PageState::LoadedDirty,
    }
}

/// The table after committing the transition of `p` and of every
/// uncharged ancestor.
pub open spec fn mark_spec(s: Seq<PageState>, p: int, dir: Dir) -> Seq<PageState>
    decreases ROOT_PAGE - p,
        when 0 <= p <= ROOT_PAGE
{
    if charged(s, p, dir) {
        s
    } else if p == ROOT_PAGE {
        s.update(p, mark_state(p, dir))
    } else {
        mark_spec(s.update(p, mark_state(p, dir)), parent_of(p), dir)
    }
}

/// The table after marking each listed page in turn.
pub open spec fn fold_mark(s: Seq<PageState>, leaves: Seq<u32>, dir: Dir) -> Seq<PageState>
    decreases leaves.len(),
{
    if leaves.len() == 0 {
        s
    } else {
        fold_mark(mark_spec(s, leaves[0] as int, dir), leaves.subrange(1, leaves.len() as int), dir)
    }
}

/// The cycles charged by marking each listed page in turn.
pub open spec fn fold_cost(s: Seq<PageState>, leaves: Seq<u32>, dir: Dir) -> nat
    decreases leaves.len(),
{
    if leaves.len() == 0 {
        0
    } else {
        needed_spec(s, leaves[0] as int, dir) + fold_cost(
            mark_spec(s, leaves[0] as int, dir),
            leaves.subrange(1, leaves.len() as int),
            dir,
        )
    }
}

/// Folding one more page marks the fold of the rest.
pub proof fn lemma_fold_mark_push(s: Seq<PageState>, leaves: Seq<u32>, x: u32, dir: Dir)
    requires
        x < NUM_PAGES,
        forall|i: int| 0 <= i < leaves.len() ==> #[trigger] leaves[i] < NUM_PAGES,
    ensures
        fold_mark(s, leaves.push(x), dir) == mark_spec(fold_mark(s, leaves, dir), x as int, dir),
        fold_cost(s, leaves.push(x), dir) == fold_cost(s, leaves, dir) + needed_spec(
            fold_mark(s, leaves, dir),
            x as int,
            dir,
        ),
    decreases leaves.len(),
{
    let l2 = leaves.push(x);
    assert(l2[0] == if leaves.len() == 0 { x } else { leaves[0] });
    if leaves.len() == 0 {
        let e = l2.subrange(1, l2.len() as int);
        assert(e =~= Seq::<u32>::empty());
        assert(fold_mark(s, l2, dir) == fold_mark(mark_spec(s, x as int, dir), e, dir));
        assert(fold_mark(mark_spec(s, x as int, dir), e, dir) == mark_spec(s, x as int, dir));
        assert(fold_mark(s, leaves, dir) == s);
        assert(fold_cost(s, l2, dir) == needed_spec(s, x as int, dir) + fold_cost(
            mark_spec(s, x as int, dir),
            e,
            dir,
        ));
        assert(fold_cost(mark_spec(s, x as int, dir), e, dir) == 0);
        assert(fold_cost(s, leaves, dir) == 0);
    } else {
        let sub = leaves.subrange(1, leaves.len() as int);
        let m0 = mark_spec(s, leaves[0] as int, dir);
        assert(l2.subrange(1, l2.len() as int) =~= sub.push(x));
        lemma_fold_mark_push(m0, sub, x, dir);
        assert(fold_mark(s, l2, dir) == fold_mark(m0, sub.push(x), dir));
        assert(fold_mark(s, leaves, dir) == fold_mark(m0, sub, dir));
        assert(fold_cost(s, l2, dir) == needed_spec(s, leaves[0] as int, dir) + fold_cost(
            m0,
            sub.push(x),
            dir,
        ));
        assert(fold_cost(s, leaves, dir) == needed_spec(s, leaves[0] as int, dir) + fold_cost(
            m0,
            sub,
            dir,
        ));
    }
}

/// Upward closure of the resident marks, with a possible gap at the pages
/// whose parent is `at`: the intermediate states of a path walk.
pub open spec fn load_closure_except(s: Seq<PageState>, at: int) -> bool {
    forall|q: int|
        0 <= q < ROOT_PAGE && #[trigger] loaded(s, q) ==> loaded(s, parent_of(q)) || parent_of(q)
            == at
}

/// Upward closure of the dirty marks, with a possible gap at the pages
/// whose parent is `at`.
pub open spec fn dirty_closure_except(s: Seq<PageState>, at: int) -> bool {
    forall|q: int|
        0 <= q < ROOT_PAGE && #[trigger] dirty(s, q) ==> dirty(s, parent_of(q)) || parent_of(q)
            == at
}

/// Tracks, during a segment, which pages are resident, dirty, or pending;
/// answers "cycles to load/store this page" and commits those transitions.
pub struct PageTable {
    states: Vec<PageState>,
}

impl PageTable {
    /// The per-page states, for specification purposes.
    pub closed spec fn view(self) -> Seq<PageState> {
        self.states@
    }

    /// Well-formed: one entry per page, charged marks upward closed.
    pub open spec fn wf(self) -> bool {
        &&& self@.len() == NUM_PAGES
        &&& forall|q: int|
            0 <= q < ROOT_PAGE && #[trigger] loaded(self@, q) ==> loaded(self@, parent_of(q))
        &&& forall|q: int|
            0 <= q < ROOT_PAGE && #[trigger] dirty(self@, q) ==> dirty(self@, parent_of(q))
    }

    /// All pages untouched: the state at segment start before the root mark.
    pub open spec fn fresh(self) -> bool {
        &&& self@.len() == NUM_PAGES
        &&& forall|q: int| 0 <= q < NUM_PAGES ==> (#[trigger] self@[q]) is Unloaded
    }

    pub fn new() -> (r: PageTable)
        ensures
            r.fresh(),
            r.wf(),
    {
        let mut states: Vec<PageState> = Vec::new();
        let mut i: usize = 0;
        while i < NUM_PAGES
            invariant
                i <= NUM_PAGES,
                states@.len() == i,
                forall|q: int| 0 <= q < i ==> #[trigger] states@[q] is Unloaded,
            decreases NUM_PAGES - i,
        {
            states.push(PageState::Unloaded);
            i = i + 1;
        }
        PageTable { states }
    }

    /// Reset every page to Unloaded for the next segment.
    pub fn clear(&mut self)
        ensures
            final(self).fresh(),
            final(self).wf(),
    {
        let fresh_table = PageTable::new();
        self.states = fresh_table.states;
    }

    /// The Merkle parent of a page, by index arithmetic.
    pub fn page_parent(p: usize) -> (r: usize)
        requires
            p < ROOT_PAGE,
        ensures
            r == parent_of(p as int),
            p < r < NUM_PAGES,
    {
        if p < L1_BASE {
            assert(p / 32 < 128) by (nonlinear_arith)
                requires p < 4096;
            L1_BASE + p / 32
        } else if p < L2_BASE {
            assert((p - L1_BASE) / 32 < 4) by (nonlinear_arith)
                requires L1_BASE <= p < L2_BASE;
            L2_BASE + (p - L1_BASE) / 32
        } else {
            ROOT_PAGE
        }
    }

    /// Incremental cycles to make `page` charged in direction `dir`;
    /// zero if nothing would change.
    pub fn cycles_needed(&self, page: usize, dir: Dir) -> (r: usize)
        requires
            self@.len() == NUM_PAGES,
            page < NUM_PAGES,
        ensures
            r == needed_spec(self@, page as int, dir),
            r <= 4 * CYCLES_PER_FULL_PAGE,
        decreases ROOT_PAGE - page,
    {
        proof {
            lemma_needed_bound(self@, page as int, dir);
        }
        let s = self.states[page];
        let is_charged = match dir {
            Dir::Load => !(s == PageState::Unloaded),
            Dir::Store => s == PageState::LoadedDirty,
        };
        if is_charged {
            0
        } else if page == ROOT_PAGE {
            CYCLES_PER_FULL_PAGE
        } else {
            CYCLES_PER_FULL_PAGE + self.cycles_needed(Self::page_parent(page), dir)
        }
    }
}

impl PageTable {
    /// Pre-charge the Merkle root page as resident and dirty for this
    /// segment; returns the (read, write) cycles that costs.
    pub fn mark_root(&mut self) -> (r: (usize, usize))
        requires
            old(self).fresh(),
        ensures
            r == (CYCLES_PER_FULL_PAGE, CYCLES_PER_FULL_PAGE),
            final(self).wf(),
            final(self)@.len() == NUM_PAGES,
            charged(final(self)@, ROOT_PAGE as int, Dir::Load),
            charged(final(self)@, ROOT_PAGE as int, Dir::Store),
            forall|q: int|
                0 <= q < NUM_PAGES && q != ROOT_PAGE ==> final(self)@[q] == old(self)@[q],
            forall|q: int| 0 <= q < NUM_DATA_PAGES ==> !#[trigger] dirty(final(self)@, q),
    {
        self.states.set(ROOT_PAGE, PageState::LoadedDirty);
        (CYCLES_PER_FULL_PAGE, CYCLES_PER_FULL_PAGE)
    }

    /// Commit the transition of `page` (and of every uncharged ancestor) in
    /// direction `dir`; returns the cycles that charges, exactly the value
    /// `cycles_needed` reported for the same state.
    pub fn mark_page(&mut self, page: usize, dir: Dir) -> (r: usize)
        requires
            old(self)@.len() == NUM_PAGES,
            page < NUM_PAGES,
            load_closure_except(old(self)@, page as int),
            dir is Store ==> dirty_closure_except(old(self)@, page as int),
            dir is Load ==> dirty_closure_except(old(self)@, -1),
        ensures
            final(self)@.len() == NUM_PAGES,
            final(self).wf(),
            final(self)@ == mark_spec(old(self)@, page as int, dir),
            r == needed_spec(old(self)@, page as int, dir),
            r <= 4 * CYCLES_PER_FULL_PAGE,
            charged(final(self)@, page as int, dir),
            forall|q: int|
                0 <= q < NUM_PAGES && loaded(old(self)@, q) ==> #[trigger] loaded(final(self)@, q),
            forall|q: int|
                0 <= q < NUM_PAGES && dirty(old(self)@, q) ==> #[trigger] dirty(final(self)@, q),
            dir is Load ==> forall|q: int|
                0 <= q < NUM_PAGES ==> #[trigger] dirty(final(self)@, q) == dirty(old(self)@, q),
            forall|q: int|
                0 <= q < L1_BASE && q != page ==> final(self)@[q] == old(self)@[q],
        decreases ROOT_PAGE - page,
    {
        proof {
            lemma_needed_bound(self@, page as int, dir);
        }
        let s = self.states[page];
        let is_charged = match dir {
            Dir::Load => !(s == PageState::Unloaded),
            Dir::Store => s == PageState::LoadedDirty,
        };
        if is_charged {
            proof {
                assert forall|q: int|
                    0 <= q < ROOT_PAGE && #[trigger] loaded(self@, q) implies loaded(
                    self@,
                    parent_of(q),
                ) by {
                    lemma_parent_step(q);
                    if parent_of(q) == page && dir is Store {
                        assert(dirty(self@, page as int));
                    }
                }
                assert forall|q: int|
                    0 <= q < ROOT_PAGE && #[trigger] dirty(self@, q) implies dirty(
                    self@,
                    parent_of(q),
                ) by {
                    lemma_parent_step(q);
                    if parent_of(q) == page && dir is Store {
                        assert(dirty(self@, page as int));
                    }
                }
            }
            return 0;
        }
        let ghost s_old = self@;
        let new_state = match dir {
            Dir::Load => if page < NUM_DATA_PAGES {
                PageState::LoadedClean
            } else {
                PageState::Pending
            },
            Dir::Store => PageState::LoadedDirty,
        };
        self.states.set(page, new_state);
        let ghost s_mid = self@;
        if page == ROOT_PAGE {
            proof {
                assert forall|q: int|
                    0 <= q < ROOT_PAGE && #[trigger] loaded(s_mid, q) implies loaded(
                    s_mid,
                    parent_of(q),
                ) by {
                    lemma_parent_step(q);
                    assert(loaded(s_old, q));
                    if parent_of(q) != ROOT_PAGE {
                        assert(loaded(s_old, parent_of(q)));
                    }
                }
                assert forall|q: int|
                    0 <= q < ROOT_PAGE && #[trigger] dirty(s_mid, q) implies dirty(
                    s_mid,
                    parent_of(q),
                ) by {
                    lemma_parent_step(q);
                    assert(dirty(s_old, q));
                    if dir is Load {
                        // the root was unloaded, so no page below can be dirty
                        // with the root as its dirty parent
                        assert(dirty(s_old, parent_of(q)));
                        assert(parent_of(q) != ROOT_PAGE);
                    }
                }
            }
            CYCLES_PER_FULL_PAGE
        } else {
            let parent = Self::page_parent(page);
            proof {
                lemma_parent_step(page as int);
                assert forall|q: int|
                    0 <= q < ROOT_PAGE && #[trigger] loaded(s_mid, q) implies loaded(
                    s_mid,
                    parent_of(q),
                ) || parent_of(q) == parent by {
                    lemma_parent_step(q);
                    if q != page {
                        assert(loaded(s_old, q));
                        if parent_of(q) != page && parent_of(q) != parent {
                            assert(loaded(s_old, parent_of(q)));
                        }
                    }
                }
                if dir is Store {
                    assert forall|q: int|
                        0 <= q < ROOT_PAGE && #[trigger] dirty(s_mid, q) implies dirty(
                        s_mid,
                        parent_of(q),
                    ) || parent_of(q) == parent by {
                        lemma_parent_step(q);
                        if q != page {
                            assert(dirty(s_old, q));
                            if parent_of(q) != page && parent_of(q) != parent {
                                assert(dirty(s_old, parent_of(q)));
                            }
                        }
                    }
                } else {
                    assert forall|q: int|
                        0 <= q < ROOT_PAGE && #[trigger] dirty(s_mid, q) implies dirty(
                        s_mid,
                        parent_of(q),
                    ) by {
                        lemma_parent_step(q);
                        assert(dirty(s_old, q));
                        if parent_of(q) == page {
                            // the marked page was unloaded, so nothing below
                            // it can be dirty
                            assert(!loaded(s_old, page as int));
                            assert(dirty(s_old, parent_of(q)));
                        }
                        assert(dirty(s_old, parent_of(q)));
                        assert(parent_of(q) != page);
                    }
                }
            }
            let rest = self.mark_page(parent, dir);
            proof {
                lemma_needed_frame(s_old, s_mid, parent as int, dir);
            }
            CYCLES_PER_FULL_PAGE + rest
        }
    }
}

/// The set of uncharged pages on the path from `p` to the root: exactly
/// the pages that would transition on marking `p`.
pub open spec fn needed_path(s: Seq<PageState>, p: int, dir: Dir) -> Set<u32>
    decreases ROOT_PAGE - p,
        when 0 <= p <= ROOT_PAGE
{
    if charged(s, p, dir) {
        Set::empty()
    } else if p == ROOT_PAGE {
        Set::empty().insert(p as u32)
    } else {
        needed_path(s, parent_of(p), dir).insert(p as u32)
    }
}

impl PageTable {
    /// The page indices that would transition on marking `page` in
    /// direction `dir`: the uncharged part of the path to the root,
    /// root-most first, without duplicates.
    pub fn pages_needed(&self, page: usize, dir: Dir) -> (r: Vec<u32>)
        requires
            self@.len() == NUM_PAGES,
            page < NUM_PAGES,
        ensures
            r@.len() * CYCLES_PER_FULL_PAGE == needed_spec(self@, page as int, dir),
            r@.to_set() == needed_path(self@, page as int, dir),
            r@.no_duplicates(),
            forall|i: int|
                0 <= i < r@.len() ==> #[trigger] r@[i] < NUM_PAGES && r@[i] >= page && !charged(
                    self@,
                    r@[i] as int,
                    dir,
                ),
        decreases ROOT_PAGE - page,
    {
        let s = self.states[page];
        let is_charged = match dir {
            Dir::Load => !(s == PageState::Unloaded),
            Dir::Store => s == PageState::LoadedDirty,
        };
        if is_charged {
            let v: Vec<u32> = Vec::new();
            proof {
                assert(v@.to_set() =~= needed_path(self@, page as int, dir));
            }
            v
        } else if page == ROOT_PAGE {
            let mut v: Vec<u32> = Vec::new();
            v.push(page as u32);
            proof {
                assert(v@[0] == page as u32);
                assert(v@.to_set() =~= needed_path(self@, page as int, dir));
            }
            v
        } else {
            let parent = Self::page_parent(page);
            let mut v = self.pages_needed(parent, dir);
            proof {
                lemma_needed_bound(self@, page as int, dir);
            }
            let ghost prev = v@;
            v.push(page as u32);
            proof {
                assert forall|x: u32| #[trigger] v@.contains(x) implies prev.contains(x) || x
                    == page as u32 by {
                    let j = choose|j: int| 0 <= j < v@.len() && v@[j] == x;
                    if j < prev.len() {
                        assert(prev[j] == x);
                    }
                }
                assert forall|x: u32| prev.contains(x) implies #[trigger] v@.contains(x) by {
                    let j = choose|j: int| 0 <= j < prev.len() && prev[j] == x;
                    assert(v@[j] == x);
                }
                assert(v@[v@.len() - 1] == page as u32);
                assert(v@.contains(page as u32));
                assert(v@.to_set() =~= needed_path(self@, page as int, dir));
                assert forall|i: int, j: int|
                    0 <= i < v@.len() && 0 <= j < v@.len() && i != j implies v@[i] != v@[j] by {
                    if i < prev.len() && j < prev.len() {
                        assert(prev[i] != prev[j]);
                    }
                }
            }
            v
        }
    }

    /// A copy of the table, used to estimate costs without committing.
    pub fn snapshot(&self) -> (r: PageTable)
        requires
            self@.len() == NUM_PAGES,
        ensures
            r@ == self@,
    {
        let states = self.states.clone();
        proof {
            assert forall|q: int| 0 <= q < states@.len() implies #[trigger] states@[q]
                == self.states@[q] by {
                assert(vstd::pervasive::cloned::<PageState>(self.states@[q], states@[q]));
            }
            assert(states@ =~= self.states@);
        }
        PageTable { states }
    }

    /// Commit the transition of the page holding byte address `addr`,
    /// ancestors included; returns the cycles charged.
    pub fn mark_addr(&mut self, addr: u32, dir: Dir) -> (r: usize)
        requires
            old(self)@.len() == NUM_PAGES,
            addr < 0x0040_0000,
            load_closure_except(old(self)@, addr as int / 1024),
            dir is Store ==> dirty_closure_except(old(self)@, addr as int / 1024),
            dir is Load ==> dirty_closure_except(old(self)@, -1),
        ensures
            final(self).wf(),
            final(self)@ == mark_spec(old(self)@, addr as int / 1024, dir),
            r == needed_spec(old(self)@, addr as int / 1024, dir),
    {
        proof {
            assert(0 <= addr as int / 1024 < NUM_DATA_PAGES) by (nonlinear_arith)
                requires
                    addr < 0x0040_0000,
                    NUM_DATA_PAGES == 4096;
        }
        self.mark_page((addr / 1024) as usize, dir)
    }

    /// Whether the data page is scheduled for flush.
    pub fn is_dirty_page(&self, p: usize) -> (r: bool)
        requires
            self@.len() == NUM_PAGES,
            p < NUM_PAGES,
        ensures
            r == dirty(self@, p as int),
    {
        self.states[p] == PageState::LoadedDirty
    }

    /// The per-direction sets of data pages that were paged in or made
    /// dirty during this segment.
    pub fn calc_page_faults(&self) -> (r: PageFaults)
        requires
            self@.len() == NUM_PAGES,
        ensures
            forall|p: int|
                0 <= p < NUM_DATA_PAGES ==> (r.reads@.contains(p as u32) <==> loaded(self@, p)),
            forall|p: int|
                0 <= p < NUM_DATA_PAGES ==> (r.writes@.contains(p as u32) <==> dirty(self@, p)),
            forall|i: int|
                0 <= i < r.writes@.len() ==> r.reads@.contains(#[trigger] r.writes@[i]),
    {
        let mut reads: Vec<u32> = Vec::new();
        let mut writes: Vec<u32> = Vec::new();
        let mut p: usize = 0;
        while p < NUM_DATA_PAGES
            invariant
                p <= NUM_DATA_PAGES,
                self@.len() == NUM_PAGES,
                forall|q: int| 0 <= q < p ==> (reads@.contains(q as u32) <==> loaded(self@, q)),
                forall|q: int| 0 <= q < p ==> (writes@.contains(q as u32) <==> dirty(self@, q)),
                forall|i: int| 0 <= i < reads@.len() ==> #[trigger] reads@[i] < p,
                forall|i: int| 0 <= i < writes@.len() ==> #[trigger] writes@[i] < p,
                forall|i: int|
                    0 <= i < writes@.len() ==> reads@.contains(#[trigger] writes@[i]),
            decreases NUM_DATA_PAGES - p,
        {
            let s = self.states[p];
            let ghost reads_before = reads@;
            let ghost writes_before = writes@;
            if !(s == PageState::Unloaded) {
                reads.push(p as u32);
            }
            if s == PageState::LoadedDirty {
                writes.push(p as u32);
                proof {
                    assert(reads@[reads@.len() - 1] == p as u32);
                }
            }
            proof {
                assert forall|i: int|
                    0 <= i < writes@.len() implies reads@.contains(#[trigger] writes@[i]) by {
                    if writes@[i] < p {
                        let j = choose|j: int|
                            0 <= j < reads_before.len() && reads_before[j] == writes@[i];
                        assert(reads@[j] == writes@[i]);
                    } else {
                        assert(reads@[reads@.len() - 1] == p as u32);
                    }
                }
                assert forall|q: int|
                    0 <= q < p + 1 implies (reads@.contains(q as u32) <==> loaded(self@, q)) by {
                    if loaded(self@, q) {
                        if q < p {
                            let j = choose|j: int|
                                0 <= j < reads_before.len() && reads_before[j] == q as u32;
                            assert(reads@[j] == q as u32);
                        } else {
                            assert(reads@[reads@.len() - 1] == p as u32);
                        }
                    } else if reads@.contains(q as u32) {
                        let j = choose|j: int| 0 <= j < reads@.len() && reads@[j] == q as u32;
                        assert(j < reads_before.len());
                        assert(reads_before.contains(q as u32));
                    }
                }
                assert forall|q: int|
                    0 <= q < p + 1 implies (writes@.contains(q as u32) <==> dirty(self@, q)) by {
                    if dirty(self@, q) {
                        if q < p {
                            let j = choose|j: int|
                                0 <= j < writes_before.len() && writes_before[j] == q as u32;
                            assert(writes@[j] == q as u32);
                        } else {
                            assert(writes@[writes@.len() - 1] == p as u32);
                        }
                    } else if writes@.contains(q as u32) {
                        let j = choose|j: int| 0 <= j < writes@.len() && writes@[j] == q as u32;
                        assert(j < writes_before.len());
                        assert(writes_before.contains(q as u32));
                    }
                }
            }
            p = p + 1;
        }
        PageFaults { reads, writes }
    }
}

/// Charging more pages never increases the cost of a later walk.
pub proof fn lemma_needed_monotone(s1: Seq<PageState>, s2: Seq<PageState>, p: int, dir: Dir)
    requires
        0 <= p < NUM_PAGES,
        forall|q: int| 0 <= q < NUM_PAGES && loaded(s1, q) ==> #[trigger] loaded(s2, q),
        forall|q: int| 0 <= q < NUM_PAGES && dirty(s1, q) ==> #[trigger] dirty(s2, q),
    ensures
        needed_spec(s2, p, dir) <= needed_spec(s1, p, dir),
    decreases ROOT_PAGE - p,
{
    if !charged(s1, p, dir) && !charged(s2, p, dir) && p != ROOT_PAGE {
        lemma_parent_step(p);
        lemma_needed_monotone(s1, s2, parent_of(p), dir);
    }
}

/// One step of parent arithmetic stays inside the overlay and climbs one
/// level.
pub proof fn lemma_parent_step(p: int)
    requires
        0 <= p < ROOT_PAGE,
    ensures
        p < parent_of(p) < NUM_PAGES,
        L1_BASE <= parent_of(p),
        depth_of(parent_of(p)) == depth_of(p) - 1,
{
    if p < L1_BASE {
        assert(0 <= p / 32 < 128) by (nonlinear_arith)
            requires 0 <= p < 4096;
    } else if p < L2_BASE {
        assert(0 <= (p - L1_BASE) / 32 < 4) by (nonlinear_arith)
            requires L1_BASE <= p < L2_BASE;
    }
}

/// The cost of a path walk reads only the states of `p` and pages above it.
pub proof fn lemma_needed_frame(s1: Seq<PageState>, s2: Seq<PageState>, p: int, dir: Dir)
    requires
        0 <= p < NUM_PAGES,
        forall|q: int| p <= q < NUM_PAGES ==> s1[q] == s2[q],
    ensures
        needed_spec(s1, p, dir) == needed_spec(s2, p, dir),
    decreases ROOT_PAGE - p,
{
    if p != ROOT_PAGE {
        lemma_parent_step(p);
        lemma_needed_frame(s1, s2, parent_of(p), dir);
    }
}

/// The cost of a path walk is bounded by the depth of the Merkle overlay.
pub proof fn lemma_needed_bound(s: Seq<PageState>, p: int, dir: Dir)
    requires
        0 <= p < NUM_PAGES,
    ensures
        needed_spec(s, p, dir) <= (depth_of(p) + 1) * CYCLES_PER_FULL_PAGE,
        needed_spec(s, p, dir) <= 4 * CYCLES_PER_FULL_PAGE,
    decreases ROOT_PAGE - p,
{
    if charged(s, p, dir) {
    } else if p == ROOT_PAGE {
    } else {
        assert(parent_of(p) > p && parent_of(p) < NUM_PAGES && depth_of(parent_of(p)) == depth_of(p) - 1) by {
            if p < L1_BASE {
                assert(0 <= p / 32 < 128) by (nonlinear_arith)
                    requires 0 <= p < 4096;
            } else if p < L2_BASE {
                assert(0 <= (p - L1_BASE) / 32 < 4) by (nonlinear_arith)
                    requires L1_BASE <= p < L2_BASE;
            }
        }
        lemma_needed_bound(s, parent_of(p), dir);
    }
}

} // verus!
