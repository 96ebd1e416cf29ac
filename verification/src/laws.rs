//! Driver-wide properties stated on their own: facts that relate several
//! operations, proved over the same models their contracts use.

use vstd::prelude::*;
use crate::exec::{regs_bytes, REG_BYTES};
use crate::image::{le_bytes, overwrite, word_at};
use crate::page_table::{
    charged, lemma_parent_step, mark_spec, mark_state, needed_spec, parent_of, Dir, PageState,
};
use crate::{MEM_SIZE, NUM_PAGES, ROOT_PAGE, SYSTEM_START};

verus! {

/// A path walk never touches the pages below its start.
proof fn lemma_mark_spec_frame_below(s: Seq<PageState>, p: int, dir: Dir)
    requires
        s.len() == NUM_PAGES,
        0 <= p <= ROOT_PAGE,
    ensures
        forall|q: int| 0 <= q < p ==> mark_spec(s, p, dir)[q] == s[q],
    decreases ROOT_PAGE - p,
{
    if charged(s, p, dir) {
    } else if p == ROOT_PAGE {
        assert forall|q: int| 0 <= q < p implies mark_spec(s, p, dir)[q] == s[q] by {
            assert(mark_spec(s, p, dir) == s.update(p, mark_state(p, dir)));
        }
    } else {
        lemma_parent_step(p);
        let s1 = s.update(p, mark_state(p, dir));
        lemma_mark_spec_frame_below(s1, parent_of(p), dir);
        assert forall|q: int| 0 <= q < p implies mark_spec(s, p, dir)[q] == s[q] by {
            assert(mark_spec(s, p, dir) == mark_spec(s1, parent_of(p), dir));
            assert(mark_spec(s1, parent_of(p), dir)[q] == s1[q]);
            assert(s1[q] == s[q]);
        }
    }
}

/// After a marking that covers page `p`, the page is charged.
proof fn lemma_mark_spec_charges(s: Seq<PageState>, p: int, dir: Dir)
    requires
        s.len() == NUM_PAGES,
        0 <= p <= ROOT_PAGE,
    ensures
        charged(mark_spec(s, p, dir), p, dir),
    decreases ROOT_PAGE - p,
{
    if charged(s, p, dir) {
    } else if p == ROOT_PAGE {
        assert(mark_spec(s, p, dir) == s.update(p, mark_state(p, dir)));
        assert(mark_spec(s, p, dir)[p] == mark_state(p, dir));
    } else {
        lemma_parent_step(p);
        let s1 = s.update(p, mark_state(p, dir));
        lemma_mark_spec_charges(s1, parent_of(p), dir);
        lemma_mark_spec_frame_below(s1, parent_of(p), dir);
        assert(charged(s1, p, dir));
        assert(mark_spec(s, p, dir) == mark_spec(s1, parent_of(p), dir));
        assert(mark_spec(s1, parent_of(p), dir)[p] == s1[p]);
    }
}

/// Idempotence: immediately after a marking that covers page `p`, the
/// incremental cycles to charge `p` again in the same direction are zero.
/// This is the model-level form of `cycles_needed` returning 0 right
/// after `mark_addr` covered the page.
pub proof fn law_mark_idempotent(s: Seq<PageState>, p: int, dir: Dir)
    requires
        0 <= p < NUM_PAGES,
        s.len() == NUM_PAGES,
    ensures
        needed_spec(mark_spec(s, p, dir), p, dir) == 0,
{
    lemma_mark_spec_charges(s, p, dir);
}

/// The little-endian bytes of the word read at `x` are the bytes at `x`.
proof fn lemma_le_bytes_of_word(buf: Seq<u8>, x: int)
    requires
        0 <= x,
        x + 4 <= buf.len(),
    ensures
        forall|b: int| 0 <= b < 4 ==> #[trigger] le_bytes(word_at(buf, x))[b] == buf[x + b],
{
    let w = word_at(buf, x);
    assert forall|b: int| 0 <= b < 4 implies #[trigger] le_bytes(w)[b] == buf[x + b] by {
        assert(w % 0x100 == buf[x] && (w / 0x100) % 0x100 == buf[x + 1] && (w / 0x10000) % 0x100
            == buf[x + 2] && (w / 0x1000000) % 0x100 == buf[x + 3]) by (nonlinear_arith)
            requires
                w == (buf[x] + buf[x + 1] * 0x100 + buf[x + 2] * 0x10000 + buf[x + 3]
                    * 0x1000000) as u32,
                buf[x] < 0x100,
                buf[x + 1] < 0x100,
                buf[x + 2] < 0x100,
                buf[x + 3] < 0x100;
    }
}

/// Round trip: writing back over the register-file region the very words
/// that were read out of it leaves the memory bytes unchanged.  With an
/// unchanged program counter the re-hashed image therefore keeps its
/// root: a segment that commits nothing folds back to its own pre image.
pub proof fn law_fold_round_trip(buf: Seq<u8>, regs: Seq<u32>)
    requires
        buf.len() == MEM_SIZE,
        regs.len() == 32,
        forall|i: int| 0 <= i < 32 ==> #[trigger] regs[i] == word_at(buf, SYSTEM_START + 4 * i),
    ensures
        overwrite(buf, SYSTEM_START as int, regs_bytes(regs)) == buf,
{
    let folded = overwrite(buf, SYSTEM_START as int, regs_bytes(regs));
    assert forall|a: int| 0 <= a < MEM_SIZE implies folded[a] == buf[a] by {
        if SYSTEM_START <= a < SYSTEM_START + REG_BYTES {
            let k = a - SYSTEM_START;
            let j = k / 4;
            let b = k % 4;
            assert(0 <= j < 32 && 0 <= b < 4 && k == 4 * j + b) by (nonlinear_arith)
                requires
                    0 <= k < 128,
                    j == k / 4,
                    b == k % 4;
            assert(regs_bytes(regs)[k] == le_bytes(regs[j])[b]);
            lemma_le_bytes_of_word(buf, SYSTEM_START + 4 * j);
            assert(le_bytes(word_at(buf, SYSTEM_START + 4 * j))[b] == buf[SYSTEM_START + 4 * j
                + b]);
        }
    }
    assert(folded =~= buf);
}

} // verus!
