use vstd::prelude::*;

use crate::types::{entries_view, EntryView, KvEntry};

verus! {

/// The fixed page size of the scan-cursor protocol.  A page of exactly this
/// size signals that more rows may follow; a shorter page is the exhaustion
/// signal.
pub const PAGE_SIZE: usize = 32;

/// The pages that repeated `scan_next` calls deliver for a result sequence:
/// full pages while at least `PAGE_SIZE` entries remain, then one final
/// short page.  When the count is an exact multiple of the page size the
/// final page is empty — callers must tolerate a trailing empty page.
pub open spec fn scan_pages(s: Seq<EntryView>) -> Seq<Seq<EntryView>>
    decreases s.len(),
{
    if s.len() < PAGE_SIZE {
        seq![s]
    } else {
        seq![s.take(PAGE_SIZE as int)] + scan_pages(s.skip(PAGE_SIZE as int))
    }
}

/// Pagination completeness: the pages of a scan concatenate back to exactly
/// the scanned sequence — every entry is delivered once and nothing else is —
/// every page but the last is full, and the last page is short.
pub proof fn lemma_scan_pages_complete(s: Seq<EntryView>)
    ensures
        scan_pages(s).flatten() == s,
        scan_pages(s).len() >= 1,
        forall|i: int|
            0 <= i < scan_pages(s).len() - 1 ==> (#[trigger] scan_pages(s)[i]).len() == PAGE_SIZE,
        scan_pages(s).last().len() < PAGE_SIZE,
    decreases s.len(),
{
    let pages = scan_pages(s);
    if s.len() < PAGE_SIZE {
        pages.lemma_flatten_one_element();
    } else {
        let head = s.take(PAGE_SIZE as int);
        let tail = s.skip(PAGE_SIZE as int);
        lemma_scan_pages_complete(tail);
        assert(pages.first() == head);
        assert(pages.drop_first() =~= scan_pages(tail));
        assert(pages.flatten() == head + scan_pages(tail).flatten());
        assert(head + tail =~= s);
        assert forall|i: int| 0 <= i < pages.len() - 1 implies (#[trigger] pages[i]).len()
            == PAGE_SIZE by {
            if i >= 1 {
                assert(pages[i] == scan_pages(tail)[i - 1]);
            }
        }
    }
}

/// The pending entries of an open cursor, most recent page boundary first:
/// the buffer is held in reverse so that delivering a page moves values out
/// of its end.
pub open spec fn pending_view(buf: Seq<KvEntry>) -> Seq<EntryView> {
    Seq::new(buf.len(), |i: int| buf[buf.len() - 1 - i]@)
}

/// How many entries the next page of a cursor with `pending` entries holds.
pub open spec fn page_len(pending: Seq<EntryView>) -> int {
    if pending.len() < PAGE_SIZE {
        pending.len() as int
    } else {
        PAGE_SIZE as int
    }
}

/// Moves the next page out of a cursor buffer: the first `PAGE_SIZE` pending
/// entries, or all of them when fewer are left.
pub fn take_page(buf: &mut Vec<KvEntry>) -> (page: Vec<KvEntry>)
    ensures
        ({
            let pend0 = pending_view(old(buf)@);
            let k = page_len(pend0);
            &&& page@.len() == k
            &&& entries_view(page@) == pend0.take(k)
            &&& pending_view(final(buf)@) == pend0.skip(k)
        }),
{
    let ghost pend0 = pending_view(old(buf)@);
    let mut page: Vec<KvEntry> = Vec::new();
    while page.len() < PAGE_SIZE && buf.len() > 0
        invariant
            pend0 == pending_view(old(buf)@),
            page@.len() + buf@.len() == pend0.len(),
            page@.len() <= PAGE_SIZE,
            entries_view(page@) == pend0.take(page@.len() as int),
            pending_view(buf@) == pend0.skip(page@.len() as int),
        decreases buf@.len(),
    {
        let ghost buf1 = buf@;
        let ghost page1 = page@;
        let ghost j0 = page@.len() as int;
        let e = match buf.pop() {
            Some(e) => e,
            None => {
                proof {
                    assert(false);
                }
                return page;
            },
        };
        page.push(e);
        proof {
            assert(e@ == pending_view(buf1)[0]);
            assert(e@ == pend0[j0]);
            assert forall|i: int| 0 <= i < j0 + 1 implies entries_view(page@)[i] == pend0.take(
                j0 + 1,
            )[i] by {
                if i < j0 {
                    assert(entries_view(page@)[i] == entries_view(page1)[i]);
                }
            }
            assert(entries_view(page@) =~= pend0.take(j0 + 1));
            assert forall|i: int| 0 <= i < pending_view(buf@).len() implies pending_view(
                buf@,
            )[i] == pend0.skip(j0 + 1)[i] by {
                assert(pending_view(buf@)[i] == pending_view(buf1)[i + 1]);
            }
            assert(pending_view(buf@) =~= pend0.skip(j0 + 1));
        }
    }
    proof {
        assert(entries_view(page@) =~= pend0.take(page@.len() as int));
        assert(pending_view(buf@) =~= pend0.skip(page@.len() as int));
    }
    page
}

} // verus!
