//! A page table as a map from page addresses to entries.
use std::collections::BTreeMap;

use vstd::prelude::*;

use super::flags::{effective_pte_flags, MappingFlags};

verus! {

broadcast use vstd::std_specs::btree::group_btree_axioms;

pub const PAGE_SIZE_4K: usize = 0x1000;

pub const PAGE_SIZE_2M: usize = 0x20_0000;

pub const PAGE_SIZE_1G: usize = 0x4000_0000;

/// The size of a leaf page.
#[derive(Clone, Copy, Debug, PartialEq, Eq, Structural)]
pub enum PageSize {
    Size4K,
    Size2M,
    Size1G,
}

impl PageSize {
    pub open spec fn spec_bytes(self) -> usize {
        match self {
            PageSize::Size4K => PAGE_SIZE_4K,
            PageSize::Size2M => PAGE_SIZE_2M,
            PageSize::Size1G => PAGE_SIZE_1G,
        }
    }

    pub fn bytes(&self) -> (r: usize)
        ensures
            r == self.spec_bytes(),
    {
        match self {
            PageSize::Size4K => PAGE_SIZE_4K,
            PageSize::Size2M => PAGE_SIZE_2M,
            PageSize::Size1G => PAGE_SIZE_1G,
        }
    }

    pub fn is_huge(&self) -> (r: bool)
        ensures
            r == (*self != PageSize::Size4K),
    {
        *self != PageSize::Size4K
    }
}

pub open spec fn aligned_4k(a: int) -> bool {
    a % 0x1000 == 0
}

/// The start of the 4 KiB page that holds `a`.
pub open spec fn page_of(a: usize) -> usize {
    (a - a % 0x1000) as usize
}

/// `a` rounded up to a page boundary.
pub open spec fn round_up_4k(a: int) -> int {
    if a % 0x1000 == 0 {
        a
    } else {
        a + 0x1000 - a % 0x1000
    }
}

pub fn align_down_4k(a: usize) -> (r: usize)
    ensures
        r == page_of(a),
        aligned_4k(r as int),
        r <= a < r + 0x1000,
{
    a - a % PAGE_SIZE_4K
}

pub fn align_up_4k(a: usize) -> (r: usize)
    requires
        round_up_4k(a as int) <= usize::MAX,
    ensures
        r == round_up_4k(a as int),
        aligned_4k(r as int),
        a <= r < a + 0x1000,
{
    let offset: usize = a % PAGE_SIZE_4K;
    if offset == 0 {
        a
    } else {
        a + (PAGE_SIZE_4K - offset)
    }
}

pub fn is_aligned_4k(a: usize) -> (r: bool)
    ensures
        r == aligned_4k(a as int),
{
    a % PAGE_SIZE_4K == 0
}

/// A multiple of a page size is a multiple of 4 KiB, and so is the size itself.
pub(crate) proof fn lemma_size_multiple_of_4k(a: usize, size: PageSize)
    requires
        offset_in(a, size) == 0,
    ensures
        aligned_4k(a as int),
        size.spec_bytes() == (size.spec_bytes() / 0x1000) * 0x1000,
        size.spec_bytes() > 0,
{
    match size {
        PageSize::Size4K => {},
        PageSize::Size2M => {
            assert(a % 0x20_0000 == 0);
        },
        PageSize::Size1G => {
            assert(a % 0x4000_0000 == 0);
        },
    }
}

/// `a` rounded down to a multiple of `size`.
fn align_down(a: usize, size: PageSize) -> (r: usize)
    ensures
        r == base_of(a, size),
        r <= a,
        a - r < size.spec_bytes(),
{
    match size {
        PageSize::Size4K => a - a % PAGE_SIZE_4K,
        PageSize::Size2M => a - a % PAGE_SIZE_2M,
        PageSize::Size1G => a - a % PAGE_SIZE_1G,
    }
}

/// One leaf entry: the frame it maps, the permissions it grants, its size. A
/// frame of zero stands for an entry that is reserved and not yet backed.
#[derive(Clone, Copy, Debug, PartialEq, Eq, Structural)]
pub struct Pte {
    pub frame: usize,
    pub flags: MappingFlags,
    pub size: PageSize,
}

/// The entries of a page table by the address of their first byte.
pub type PtMap = Map<usize, Pte>;

/// How far `a` is behind a multiple of `size`.
pub open spec fn offset_in(a: usize, size: PageSize) -> usize {
    match size {
        PageSize::Size4K => a % 0x1000,
        PageSize::Size2M => a % 0x20_0000,
        PageSize::Size1G => a % 0x4000_0000,
    }
}

/// The start of the page of size `size` that holds `va`.
pub open spec fn base_of(va: usize, size: PageSize) -> usize {
    (va - offset_in(va, size)) as usize
}

/// Whether `m` holds an entry of size `size` that covers `va`.
pub open spec fn covered_by(m: PtMap, va: usize, size: PageSize) -> bool {
    m.contains_key(base_of(va, size)) && m[base_of(va, size)].size == size
}

/// The address of the entry that translates `va`, if one does.
#[verifier::opaque]
pub open spec fn lookup(m: PtMap, va: usize) -> Option<usize> {
    if covered_by(m, va, PageSize::Size4K) {
        Some(base_of(va, PageSize::Size4K))
    } else if covered_by(m, va, PageSize::Size2M) {
        Some(base_of(va, PageSize::Size2M))
    } else if covered_by(m, va, PageSize::Size1G) {
        Some(base_of(va, PageSize::Size1G))
    } else {
        None
    }
}

/// The entry that translates `va`.
pub open spec fn pte_at(m: PtMap, va: usize) -> Option<Pte> {
    match lookup(m, va) {
        Some(b) => Some(m[b]),
        None => None,
    }
}

/// The memory that `va` is translated to: within a larger page, the part of it
/// that `va` shows.
pub open spec fn shown_frame(m: PtMap, va: usize) -> usize {
    let e = pte_at(m, va)->0;
    (e.frame + offset_in(va, e.size)) as usize
}

/// Whether `va` is translated to a frame.
pub open spec fn resident(m: PtMap, va: usize) -> bool {
    pte_at(m, va) is Some && shown_frame(m, va) != 0
}

/// Whether only small pages wait for a frame: no larger page is mapped to the
/// start of memory.
pub open spec fn small_gaps(m: PtMap) -> bool {
    forall|b: usize| #[trigger]
        m.contains_key(b) && m[b].frame == 0 ==> m[b].size == PageSize::Size4K
}

/// Whether the entry that translates `va` can be pointed at what `va` shows.
pub open spec fn repointable(m: PtMap, va: usize) -> bool {
    resident(m, va) ==> shown_frame(m, va) + (pte_at(m, va)->0).size.spec_bytes() <= usize::MAX
}

/// No page in `[va, va + bytes)` is translated.
pub open spec fn range_free(m: PtMap, va: usize, bytes: int) -> bool {
    forall|q: usize|
        va <= q < va + bytes && aligned_4k(q as int) ==> #[trigger] lookup(m, q) is None
}

/// Entries start at a multiple of their size and map frames that do not run
/// past the end of the address range.
pub open spec fn pt_wf(m: PtMap) -> bool {
    forall|b: usize| #[trigger]
        m.contains_key(b) ==> offset_in(b, m[b].size) == 0 && m[b].frame + m[b].size.spec_bytes()
            <= usize::MAX
}

/// No two entries translate the same address.
#[verifier::opaque]
pub open spec fn entries_disjoint(m: PtMap) -> bool {
    forall|b: usize, c: usize|
        #![trigger m.contains_key(b), m.contains_key(c)]
        m.contains_key(b) && m.contains_key(c) && b < c ==> b + m[b].size.spec_bytes() <= c
}

/// The addresses that an entry translates find it.
pub(crate) proof fn lemma_lookup_inside(m: PtMap, b: usize, a: usize)
    requires
        pt_wf(m),
        m.contains_key(b),
        b <= a < b + m[b].size.spec_bytes(),
    ensures
        lookup(m, a) is Some,
{
    reveal(lookup);
    assert(base_of(a, m[b].size) == b);
    assert(covered_by(m, a, m[b].size));
}

/// The addresses that an entry translates find no other.
pub(crate) proof fn lemma_lookup_inside_is(m: PtMap, b: usize, a: usize)
    requires
        pt_wf(m),
        entries_disjoint(m),
        m.contains_key(b),
        b <= a < b + m[b].size.spec_bytes(),
    ensures
        lookup(m, a) == Some(b),
{
    lemma_lookup_inside(m, b, a);
    lemma_lookup_finds(m, a);
    reveal(entries_disjoint);
}

/// What a lookup finds is an entry around the address.
pub(crate) proof fn lemma_lookup_finds(m: PtMap, a: usize)
    requires
        lookup(m, a) is Some,
    ensures
        m.contains_key(lookup(m, a)->0),
        lookup(m, a)->0 <= a < lookup(m, a)->0 + m[lookup(m, a)->0].size.spec_bytes(),
{
    reveal(lookup);
}

/// An address that shows no frame is the first of an entry without one.
pub(crate) proof fn lemma_gap(m: PtMap, va: usize)
    requires
        pt_wf(m),
        lookup(m, va) is Some,
        !resident(m, va),
    ensures
        lookup(m, va) == Some(va),
        m[va].frame == 0,
        offset_in(va, m[va].size) == 0,
{
    lemma_lookup_finds(m, va);
    let b = lookup(m, va)->0;
    assert(offset_in(va, m[b].size) == 0);
    assert(base_of(va, m[b].size) == va);
    reveal(lookup);
}

/// An entry that fills a free range meets no other.
proof fn lemma_disjoint_insert(m: PtMap, va: usize, e: Pte)
    requires
        pt_wf(m),
        entries_disjoint(m),
        offset_in(va, e.size) == 0,
        range_free(m, va, e.size.spec_bytes() as int),
    ensures
        entries_disjoint(m.insert(va, e)),
{
    reveal(entries_disjoint);
    let m2 = m.insert(va, e);
    lemma_size_multiple_of_4k(va, e.size);
    assert(lookup(m, va) is None);
    assert forall|b: usize, c: usize|
        #![trigger m2.contains_key(b), m2.contains_key(c)]
        m2.contains_key(b) && m2.contains_key(c) && b < c implies b + m2[b].size.spec_bytes()
        <= c by {
        if b == va {
            assert(m.contains_key(c));
            lemma_size_multiple_of_4k(c, m[c].size);
            if c < va + e.size.spec_bytes() {
                lemma_lookup_inside(m, c, c);
                assert(lookup(m, c) is None);
            }
        } else if c == va {
            assert(m.contains_key(b));
            if va < b + m[b].size.spec_bytes() {
                lemma_lookup_inside(m, b, va);
            }
        } else {
            assert(m.contains_key(b) && m.contains_key(c));
        }
    }
}

/// Changing what an entry holds moves nothing.
proof fn lemma_disjoint_update(m: PtMap, b: usize, e: Pte)
    requires
        entries_disjoint(m),
        m.contains_key(b),
        m[b].size == e.size,
    ensures
        entries_disjoint(m.insert(b, e)),
{
    reveal(entries_disjoint);
    let m2 = m.insert(b, e);
    assert forall|x: usize, y: usize|
        #![trigger m2.contains_key(x), m2.contains_key(y)]
        m2.contains_key(x) && m2.contains_key(y) && x < y implies x + m2[x].size.spec_bytes()
        <= y by {
        assert(m.contains_key(x) && m.contains_key(y));
    }
}

proof fn lemma_disjoint_remove(m: PtMap, b: usize)
    requires
        entries_disjoint(m),
    ensures
        entries_disjoint(m.remove(b)),
{
    reveal(entries_disjoint);
    let m2 = m.remove(b);
    assert forall|x: usize, y: usize|
        #![trigger m2.contains_key(x), m2.contains_key(y)]
        m2.contains_key(x) && m2.contains_key(y) && x < y implies x + m2[x].size.spec_bytes()
        <= y by {
        assert(m.contains_key(x) && m.contains_key(y));
    }
}

/// A page with a small entry is translated by the entry at its own address.
pub(crate) proof fn lemma_small_entry(m: PtMap, page: usize)
    requires
        aligned_4k(page as int),
        pte_at(m, page) matches Some(e) && e.size == PageSize::Size4K,
    ensures
        lookup(m, page) == Some(page),
        m.contains_key(page),
        m[page] == pte_at(m, page)->0,
{
    reveal(lookup);
}

/// A page lies in the memory that its entry maps, up to its last byte.
pub(crate) proof fn lemma_page_in_entry(m: PtMap, page: usize)
    requires
        pt_wf(m),
        aligned_4k(page as int),
        lookup(m, page) is Some,
    ensures
        ({
            let e = m[lookup(m, page)->0];
            e.frame + offset_in(page, e.size) + 0x1000 <= usize::MAX
        }),
{
    lemma_lookup_finds(m, page);
}

/// The frame that an entry maps is an address.
pub(crate) proof fn lemma_entry_frame(m: PtMap, a: usize)
    requires
        pt_wf(m),
        pte_at(m, a) is Some,
    ensures
        (pte_at(m, a)->0).frame + (pte_at(m, a)->0).size.spec_bytes() <= usize::MAX,
{
    lemma_lookup_finds(m, a);
}

/// A small entry translates its page.
pub(crate) proof fn lemma_small_key(m: PtMap, page: usize)
    requires
        aligned_4k(page as int),
        m.contains_key(page),
        m[page].size == PageSize::Size4K,
    ensures
        lookup(m, page) == Some(page),
        pte_at(m, page) == Some(m[page]),
{
    reveal(lookup);
}

/// A new small entry translates its page.
pub(crate) proof fn lemma_new_entry(m: PtMap, page: usize, e: Pte)
    requires
        aligned_4k(page as int),
        e.size == PageSize::Size4K,
    ensures
        lookup(m.insert(page, e), page) == Some(page),
        pte_at(m.insert(page, e), page) == Some(e),
{
    reveal(lookup);
}

/// A changed entry of the same size translates what it translated before.
pub(crate) proof fn lemma_changed_entry(m: PtMap, b: usize, e: Pte, q: usize)
    requires
        m.contains_key(b),
        m[b].size == e.size,
    ensures
        lookup(m.insert(b, e), q) == lookup(m, q),
        lookup(m, q) != Some(b) ==> pte_at(m.insert(b, e), q) == pte_at(m, q),
        lookup(m, q) == Some(b) ==> pte_at(m.insert(b, e), q) == Some(e),
{
    reveal(lookup);
    let m2 = m.insert(b, e);
    assert(forall|va: usize, size: PageSize|
        #![auto]
        covered_by(m2, va, size) == covered_by(m, va, size));
}

/// An address and the page that holds it lie in the same larger pages.
proof fn lemma_base_of_page(q: usize)
    ensures
        base_of(base_of(q, PageSize::Size4K), PageSize::Size4K) == base_of(q, PageSize::Size4K),
        base_of(base_of(q, PageSize::Size4K), PageSize::Size2M) == base_of(q, PageSize::Size2M),
        base_of(base_of(q, PageSize::Size4K), PageSize::Size1G) == base_of(q, PageSize::Size1G),
        aligned_4k(base_of(q, PageSize::Size4K) as int),
{
    let page = base_of(q, PageSize::Size4K);
    assert(page == q - q % 0x1000);
    assert(page % 0x20_0000 == q % 0x20_0000 - q % 0x1000);
    assert(page % 0x4000_0000 == q % 0x4000_0000 - q % 0x1000);
}

/// A lookup does not depend on where in a page the address lies.
pub(crate) proof fn lemma_lookup_of_page(m: PtMap, q: usize)
    ensures
        lookup(m, base_of(q, PageSize::Size4K)) == lookup(m, q),
        aligned_4k(base_of(q, PageSize::Size4K) as int),
{
    lemma_base_of_page(q);
    reveal(lookup);
}

/// The addresses of a page of any size are those whose base it is.
proof fn lemma_inside(va: usize, size: PageSize, q: usize)
    requires
        offset_in(va, size) == 0,
    ensures
        va <= q < va + size.spec_bytes() <==> base_of(q, size) == va,
{
    match size {
        PageSize::Size4K => {},
        PageSize::Size2M => {},
        PageSize::Size1G => {},
    }
}

/// A new entry in a free range translates that range, and leaves every address
/// outside of it as it was.
pub(crate) proof fn lemma_entry_in_free_range(m: PtMap, va: usize, e: Pte, q: usize)
    requires
        pt_wf(m),
        offset_in(va, e.size) == 0,
        range_free(m, va, e.size.spec_bytes() as int),
        e.frame + e.size.spec_bytes() <= usize::MAX,
    ensures
        pt_wf(m.insert(va, e)),
        va <= q < va + e.size.spec_bytes() ==> lookup(m.insert(va, e), q) == Some(va) && pte_at(
            m.insert(va, e),
            q,
        ) == Some(e),
        !(va <= q < va + e.size.spec_bytes()) ==> lookup(m.insert(va, e), q) == lookup(m, q)
            && pte_at(m.insert(va, e), q) == pte_at(m, q),
{
    let m2 = m.insert(va, e);
    lemma_size_multiple_of_4k(va, e.size);
    assert(lookup(m, va) is None);
    lemma_free_page_has_no_entry(m, va);
    assert forall|b: usize| #[trigger] m2.contains_key(b) implies offset_in(b, m2[b].size) == 0
        && m2[b].frame + m2[b].size.spec_bytes() <= usize::MAX by {
        if b != va {
            assert(m.contains_key(b));
        }
    }
    lemma_inside(va, e.size, q);
    assert forall|size: PageSize| base_of(q, size) != va implies #[trigger] covered_by(m2, q, size)
        == covered_by(m, q, size) by {}
    assert forall|size: PageSize| base_of(q, size) == va implies !(#[trigger] covered_by(m, q, size))
        && covered_by(m2, q, size) == (size == e.size) by {}
    if va <= q < va + e.size.spec_bytes() {
        let page = base_of(q, PageSize::Size4K);
        lemma_lookup_of_page(m, q);
        assert(va <= page) by {
            assert(va % 0x1000 == 0);
        }
        assert(lookup(m, page) is None);
        reveal(lookup);
        assert(covered_by(m2, q, e.size));
        assert(!covered_by(m, q, PageSize::Size4K));
        assert(!covered_by(m, q, PageSize::Size2M));
        assert(!covered_by(m, q, PageSize::Size1G));
    } else {
        reveal(lookup);
        assert(covered_by(m2, q, PageSize::Size4K) == covered_by(m, q, PageSize::Size4K));
        assert(covered_by(m2, q, PageSize::Size2M) == covered_by(m, q, PageSize::Size2M));
        assert(covered_by(m2, q, PageSize::Size1G) == covered_by(m, q, PageSize::Size1G));
    }
}

/// Whether no page reaches across `a`.
pub open spec fn cuts_no_page(m: PtMap, a: usize) -> bool {
    lookup(m, a) is Some ==> lookup(m, a) == Some(a)
}

/// The pages of an entry of any size that was dropped are not translated any
/// more, every other page is as it was, and no page reaches across its end.
pub(crate) proof fn lemma_drop_whole_entry(m: PtMap, b: usize, q: usize)
    requires
        pt_wf(m),
        entries_disjoint(m),
        m.contains_key(b),
        aligned_4k(q as int),
        b + m[b].size.spec_bytes() <= usize::MAX,
    ensures
        pt_wf(m.remove(b)),
        entries_disjoint(m.remove(b)),
        b <= q < b + m[b].size.spec_bytes() ==> lookup(m.remove(b), q) is None,
        !(b <= q < b + m[b].size.spec_bytes()) ==> lookup(m.remove(b), q) == lookup(m, q)
            && pte_at(m.remove(b), q) == pte_at(m, q),
        cuts_no_page(m.remove(b), (b + m[b].size.spec_bytes()) as usize),
        aligned_4k(b + m[b].size.spec_bytes()),
{
    let m2 = m.remove(b);
    let e = m[b];
    let next = (b + e.size.spec_bytes()) as usize;
    lemma_disjoint_remove(m, b);
    lemma_size_multiple_of_4k(b, e.size);
    assert forall|c: usize| #[trigger] m2.contains_key(c) implies offset_in(c, m2[c].size) == 0
        && m2[c].frame + m2[c].size.spec_bytes() <= usize::MAX by {
        assert(m.contains_key(c));
    }
    assert forall|x: usize| b <= x <= next && #[trigger] lookup(m2, x) is Some implies x == next
        && lookup(m2, x) == Some(x) by {
        lemma_lookup_finds(m2, x);
        let c = lookup(m2, x)->0;
        reveal(entries_disjoint);
        assert(m.contains_key(b) && m.contains_key(c));
    }
    assert(range_free(m2, b, e.size.spec_bytes() as int));
    lemma_entry_in_free_range(m2, b, e, q);
    assert(m2.insert(b, e) =~= m);
}

/// A page whose entry was dropped is not translated any more, and every other
/// page is as it was.
pub(crate) proof fn lemma_drop_entry(m: PtMap, page: usize, q: usize)
    requires
        pt_wf(m),
        entries_disjoint(m),
        aligned_4k(page as int),
        aligned_4k(q as int),
        pte_at(m, page) matches Some(e) && e.size == PageSize::Size4K,
    ensures
        lookup(m, page) == Some(page),
        lookup(m.remove(page), page) is None,
        q != page ==> lookup(m.remove(page), q) == lookup(m, q) && pte_at(m.remove(page), q)
            == pte_at(m, q),
        pt_wf(m.remove(page)),
        entries_disjoint(m.remove(page)),
{
    reveal(lookup);
    let m2 = m.remove(page);
    lemma_disjoint_remove(m, page);
    assert(lookup(m, page) == Some(page));
    if lookup(m2, page) is Some {
        lemma_lookup_finds(m2, page);
        let b = lookup(m2, page)->0;
        reveal(entries_disjoint);
        assert(m.contains_key(b) && m.contains_key(page));
    }
    assert forall|b: usize| #[trigger] m2.contains_key(b) implies offset_in(b, m2[b].size) == 0
        && m2[b].frame + m2[b].size.spec_bytes() <= usize::MAX by {
        assert(m.contains_key(b));
    }
    if q != page {
        lemma_lookup_other_page(m, m2, page, q);
    }
}

/// The entry for one page.
pub open spec fn leaf(frame: usize, flags: MappingFlags) -> Pte {
    Pte { frame, flags, size: PageSize::Size4K }
}

/// Storing or dropping a 4 KiB entry at page `p` leaves the translation of
/// every other page as it was, unless a larger entry starts at `p`.
pub(crate) proof fn lemma_lookup_other_page(m: PtMap, m2: PtMap, p: usize, q: usize)
    requires
        pt_wf(m),
        pt_wf(m2),
        aligned_4k(p as int),
        aligned_4k(q as int),
        p != q,
        forall|b: usize| b != p ==> (m.contains_key(b) <==> #[trigger] m2.contains_key(b)),
        forall|b: usize| b != p && #[trigger] m2.contains_key(b) ==> m[b] == m2[b],
        m.contains_key(p) ==> m[p].size == PageSize::Size4K,
        m2.contains_key(p) ==> m2[p].size == PageSize::Size4K,
    ensures
        lookup(m2, q) == lookup(m, q),
        pte_at(m2, q) == pte_at(m, q),
{
    reveal(lookup);
    let b4 = base_of(q, PageSize::Size4K);
    let b2 = base_of(q, PageSize::Size2M);
    let b1 = base_of(q, PageSize::Size1G);
    assert(b4 == q);
    assert(m.contains_key(b4) <==> m2.contains_key(b4));
    assert(covered_by(m, q, PageSize::Size2M) == covered_by(m2, q, PageSize::Size2M)) by {
        if b2 != p {
            assert(m.contains_key(b2) <==> m2.contains_key(b2));
        }
    }
    assert(covered_by(m, q, PageSize::Size1G) == covered_by(m2, q, PageSize::Size1G)) by {
        if b1 != p {
            assert(m.contains_key(b1) <==> m2.contains_key(b1));
        }
    }
}

/// A page that is not translated has no entry of its own.
pub(crate) proof fn lemma_free_page_has_no_entry(m: PtMap, p: usize)
    requires
        pt_wf(m),
        aligned_4k(p as int),
        lookup(m, p) is None,
    ensures
        !m.contains_key(p),
{
    reveal(lookup);
    if m.contains_key(p) {
        assert(base_of(p, m[p].size) == p);
        assert(covered_by(m, p, m[p].size));
    }
}

/// A free range stays free with a free page behind it.
proof fn lemma_page_range_grows(m: PtMap, va: usize, page: int)
    requires
        aligned_4k(va as int),
        0 <= page,
        va + page * 0x1000 <= usize::MAX,
        range_free(m, va, page * 0x1000),
        lookup(m, (va + page * 0x1000) as usize) is None,
    ensures
        range_free(m, va, (page + 1) * 0x1000),
{
    assert forall|q: usize|
        va <= q < va + (page + 1) * 0x1000 && aligned_4k(q as int) implies #[trigger] lookup(m, q)
        is None by {
        if q >= va + page * 0x1000 {
            assert(q == va + page * 0x1000);
        }
    }
}

/// A page table. The memory set aside for it bounds the number of entries.
pub struct PageTable {
    entries: BTreeMap<usize, Pte>,
    write_implies_read: bool,
    limit: usize,
}

impl PageTable {
    /// The entries, by the address of their first byte.
    pub closed spec fn view(&self) -> PtMap {
        self.entries@
    }

    /// Whether the hardware reads a writable entry as readable.
    pub closed spec fn wr(&self) -> bool {
        self.write_implies_read
    }

    /// How many entries the memory set aside for tables can hold.
    pub closed spec fn limit(&self) -> usize {
        self.limit
    }

    pub open spec fn wf(&self) -> bool {
        pt_wf(self@) && entries_disjoint(self@)
    }

    /// The table changed at most in its entries.
    pub open spec fn same_kind(&self, other: &Self) -> bool {
        self.wr() == other.wr() && self.limit() == other.limit()
    }

    /// The flags that an entry holds after `flags` were written to it.
    pub open spec fn stored(&self, flags: MappingFlags) -> MappingFlags {
        super::flags::spec_effective_pte_flags(flags, self.wr())
    }

    /// An empty table.
    pub fn new(write_implies_read: bool, limit: usize) -> (r: Self)
        ensures
            r@ == PtMap::empty(),
            r.wr() == write_implies_read,
            r.limit() == limit,
            r.wf(),
    {
        reveal(entries_disjoint);
        PageTable { entries: BTreeMap::new(), write_implies_read, limit }
    }

    pub fn effective(&self, flags: MappingFlags) -> (r: MappingFlags)
        ensures
            r == self.stored(flags),
    {
        effective_pte_flags(flags, self.write_implies_read)
    }

    fn find(&self, va: usize) -> (r: Option<usize>)
        ensures
            r == lookup(self@, va),
            r matches Some(b) ==> self@.contains_key(b) && b <= va,
    {
        reveal(lookup);
        let b4: usize = va - va % PAGE_SIZE_4K;
        if let Some(e) = self.entries.get(&b4) {
            if e.size == PageSize::Size4K {
                return Some(b4);
            }
        }
        let b2: usize = va - va % PAGE_SIZE_2M;
        if let Some(e) = self.entries.get(&b2) {
            if e.size == PageSize::Size2M {
                return Some(b2);
            }
        }
        let b1: usize = va - va % PAGE_SIZE_1G;
        if let Some(e) = self.entries.get(&b1) {
            if e.size == PageSize::Size1G {
                return Some(b1);
            }
        }
        None
    }

    /// The physical address, the flags and the page size that `va` is
    /// translated to.
    pub fn query(&self, va: usize) -> (r: Option<(usize, MappingFlags, PageSize)>)
        requires
            self.wf(),
        ensures
            r == match pte_at(self@, va) {
                Some(e) => Some((shown_frame(self@, va), e.flags, e.size)),
                None => None,
            },
    {
        match self.find(va) {
            None => None,
            Some(b) => {
                let e: Pte = *self.entries.get(&b).unwrap();
                assert(self@.contains_key(b));
                let offset: usize = va - align_down(va, e.size);
                Some((e.frame + offset, e.flags, e.size))
            },
        }
    }

    /// The entry that translates `va`.
    pub fn entry(&self, va: usize) -> (r: Option<Pte>)
        ensures
            r == pte_at(self@, va),
    {
        match self.find(va) {
            None => None,
            Some(b) => Some(*self.entries.get(&b).unwrap()),
        }
    }

    /// Whether none of `pages` pages from `va` on is translated.
    fn is_range_free(&self, va: usize, pages: usize) -> (r: bool)
        requires
            aligned_4k(va as int),
            va + pages * 0x1000 <= usize::MAX + 1,
        ensures
            r == range_free(self@, va, pages * 0x1000),
    {
        let mut page: usize = 0;
        while page < pages
            invariant
                page <= pages,
                aligned_4k(va as int),
                va + pages * 0x1000 <= usize::MAX + 1,
                range_free(self@, va, page * 0x1000),
            decreases pages - page,
        {
            let q: usize = va + page * PAGE_SIZE_4K;
            assert(aligned_4k(q as int));
            let found: Option<usize> = self.find(q);
            if found.is_some() {
                return false;
            }
            proof {
                lemma_page_range_grows(self@, va, page as int);
            }
            page = page + 1;
        }
        true
    }

    /// Maps the page at `va` to `frame`. Fails and changes nothing when a part
    /// of the page is already translated or the table is full.
    pub fn map(&mut self, va: usize, frame: usize, size: PageSize, flags: MappingFlags) -> (r: bool)
        requires
            old(self).wf(),
            offset_in(va, size) == 0,
            va + size.spec_bytes() <= usize::MAX + 1,
            frame + size.spec_bytes() <= usize::MAX,
        ensures
            final(self).wf(),
            final(self).same_kind(old(self)),
            r == (range_free(old(self)@, va, size.spec_bytes() as int) && old(self)@.len() < old(self).limit()),
            r ==> final(self)@ == old(self)@.insert(
                va,
                Pte { frame: base_of(frame, size), flags: old(self).stored(flags), size },
            ),
            !r ==> final(self)@ == old(self)@,
    {
        let bytes: usize = size.bytes();
        let pages: usize = bytes / PAGE_SIZE_4K;
        proof {
            lemma_size_multiple_of_4k(va, size);
        }
        if !self.is_range_free(va, pages) {
            return false;
        }
        if self.entries.len() >= self.limit {
            return false;
        }
        let stored: MappingFlags = self.effective(flags);
        let target: usize = align_down(frame, size);
        proof {
            lemma_disjoint_insert(self@, va, Pte { frame: target, flags: stored, size });
        }
        self.entries.insert(va, Pte { frame: target, flags: stored, size });
        true
    }

    /// Points the entry that translates `va` at `frame` with `flags`.
    pub fn remap(&mut self, va: usize, frame: usize, flags: MappingFlags) -> (r: bool)
        requires
            old(self).wf(),
            pte_at(old(self)@, va) matches Some(e) ==> frame + e.size.spec_bytes() <= usize::MAX,
        ensures
            final(self).wf(),
            final(self).same_kind(old(self)),
            r == (lookup(old(self)@, va) is Some),
            r ==> ({
                let b = lookup(old(self)@, va)->0;
                final(self)@ == old(self)@.insert(
                    b,
                    Pte { frame, flags: old(self).stored(flags), size: old(self)@[b].size },
                )
            }),
            !r ==> final(self)@ == old(self)@,
    {
        match self.find(va) {
            None => false,
            Some(b) => {
                let size: PageSize = self.entries.get(&b).unwrap().size;
                let stored: MappingFlags = self.effective(flags);
                proof {
                    lemma_disjoint_update(self@, b, Pte { frame, flags: stored, size });
                }
                self.entries.insert(b, Pte { frame, flags: stored, size });
                true
            },
        }
    }

    /// Changes the flags of the entry that translates `va` and returns its size.
    pub fn protect(&mut self, va: usize, flags: MappingFlags) -> (r: Option<PageSize>)
        requires
            old(self).wf(),
        ensures
            final(self).wf(),
            final(self).same_kind(old(self)),
            r == match pte_at(old(self)@, va) {
                Some(e) => Some(e.size),
                None => None,
            },
            r is Some ==> ({
                let b = lookup(old(self)@, va)->0;
                final(self)@ == old(self)@.insert(
                    b,
                    Pte { flags: old(self).stored(flags), ..old(self)@[b] },
                )
            }),
            r is None ==> final(self)@ == old(self)@,
    {
        match self.find(va) {
            None => None,
            Some(b) => {
                let e: Pte = *self.entries.get(&b).unwrap();
                let stored: MappingFlags = self.effective(flags);
                proof {
                    lemma_disjoint_update(self@, b, Pte { flags: stored, ..e });
                }
                self.entries.insert(b, Pte { flags: stored, ..e });
                Some(e.size)
            },
        }
    }

    /// Drops the entry that translates `va` and returns its frame and size.
    pub fn unmap(&mut self, va: usize) -> (r: Option<(usize, PageSize)>)
        requires
            old(self).wf(),
        ensures
            final(self).wf(),
            final(self).same_kind(old(self)),
            r == match pte_at(old(self)@, va) {
                Some(e) => Some((e.frame, e.size)),
                None => None,
            },
            r is Some ==> final(self)@ == old(self)@.remove(lookup(old(self)@, va)->0),
            r is None ==> final(self)@ == old(self)@,
    {
        match self.find(va) {
            None => None,
            Some(b) => {
                let e: Pte = *self.entries.get(&b).unwrap();
                proof {
                    lemma_disjoint_remove(self@, b);
                }
                self.entries.remove(&b);
                Some((e.frame, e.size))
            },
        }
    }

    /// Drops every entry.
    pub fn clear(&mut self)
        ensures
            final(self)@ == PtMap::empty(),
            final(self).same_kind(old(self)),
            final(self).wf(),
    {
        reveal(entries_disjoint);
        self.entries.clear();
    }
}

} // verus!
