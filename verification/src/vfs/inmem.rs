//! Directories in memory.
use std::cmp::Ordering;

use vstd::prelude::*;
use vstd::string::StringSliceAdditionalSpecFns;

use super::node::NodeType;

verus! {

/// A file name. `.` comes first, then `..`, then the others by their bytes.
#[derive(PartialEq, Eq, Hash, Debug)]
pub struct FileName(pub String);

impl Clone for FileName {
    fn clone(&self) -> (r: Self)
        ensures
            r.0@ == self.0@,
    {
        FileName(self.0.clone())
    }
}

/// Where a name stands to another.
#[derive(Debug, Clone, Copy, PartialEq, Eq, Structural)]
pub enum NameOrder {
    Before,
    Same,
    After,
}

/// The order of `a` and `b` from the `i`-th byte on.
pub open spec fn byte_order(a: Seq<u8>, b: Seq<u8>, i: nat) -> NameOrder
    decreases a.len() - i,
{
    if i >= a.len() {
        if i >= b.len() {
            NameOrder::Same
        } else {
            NameOrder::Before
        }
    } else if i >= b.len() {
        NameOrder::After
    } else if a[i as int] < b[i as int] {
        NameOrder::Before
    } else if a[i as int] > b[i as int] {
        NameOrder::After
    } else {
        byte_order(a, b, i + 1)
    }
}

/// Whether a name is `.`, `..` or another.
pub open spec fn name_rank(s: Seq<u8>) -> int {
    if s == seq![46u8] {
        0
    } else if s == seq![46u8, 46u8] {
        1
    } else {
        2
    }
}

/// The order of file names.
pub open spec fn name_order(a: Seq<u8>, b: Seq<u8>) -> NameOrder {
    if name_rank(a) < name_rank(b) {
        NameOrder::Before
    } else if name_rank(a) > name_rank(b) {
        NameOrder::After
    } else {
        byte_order(a, b, 0)
    }
}

fn rank_of(s: &[u8]) -> (r: u8)
    ensures
        r == name_rank(s@),
{
    if s.len() == 1 && s[0] == 46 {
        assert(s@ =~= seq![46u8]);
        0
    } else if s.len() == 2 && s[0] == 46 && s[1] == 46 {
        assert(s@ =~= seq![46u8, 46u8]);
        1
    } else {
        2
    }
}

/// Where one file name stands to another.
fn compare_names(a: &str, b: &str) -> (r: NameOrder)
    ensures
        r == name_order(a.spec_bytes(), b.spec_bytes()),
{
    let x: &[u8] = a.as_bytes();
    let y: &[u8] = b.as_bytes();
    let p: u8 = rank_of(x);
    let q: u8 = rank_of(y);
    if p < q {
        return NameOrder::Before;
    }
    if p > q {
        return NameOrder::After;
    }
    let mut i: usize = 0;
    while i < x.len() && i < y.len()
        invariant
            x@ == a.spec_bytes(),
            y@ == b.spec_bytes(),
            name_rank(x@) == name_rank(y@),
            i <= x@.len(),
            i <= y@.len(),
            byte_order(x@, y@, 0) == byte_order(x@, y@, i as nat),
        decreases x@.len() - i,
    {
        if x[i] < y[i] {
            return NameOrder::Before;
        }
        if x[i] > y[i] {
            return NameOrder::After;
        }
        i = i + 1;
    }
    if i < x.len() {
        NameOrder::After
    } else if i < y.len() {
        NameOrder::Before
    } else {
        NameOrder::Same
    }
}

/// Compares two file names.
pub fn cmp_file_name(a: &str, b: &str) -> (r: Ordering)
    ensures
        r == match name_order(a.spec_bytes(), b.spec_bytes()) {
            NameOrder::Before => Ordering::Less,
            NameOrder::Same => Ordering::Equal,
            NameOrder::After => Ordering::Greater,
        },
{
    match compare_names(a, b) {
        NameOrder::Before => Ordering::Less,
        NameOrder::Same => Ordering::Equal,
        NameOrder::After => Ordering::Greater,
    }
}

/// The opposite order.
pub open spec fn flipped(o: NameOrder) -> NameOrder {
    match o {
        NameOrder::Before => NameOrder::After,
        NameOrder::Same => NameOrder::Same,
        NameOrder::After => NameOrder::Before,
    }
}

proof fn lemma_byte_order_flips(a: Seq<u8>, b: Seq<u8>, i: nat)
    ensures
        byte_order(b, a, i) == flipped(byte_order(a, b, i)),
    decreases a.len() - i,
{
    if i < a.len() && i < b.len() && a[i as int] == b[i as int] {
        lemma_byte_order_flips(a, b, i + 1);
    }
}

proof fn lemma_byte_order_equal(a: Seq<u8>, b: Seq<u8>, i: nat)
    requires
        byte_order(a, b, i) == NameOrder::Same,
        i <= a.len(),
        i <= b.len(),
        forall|k: int| 0 <= k < i ==> a[k] == b[k],
    ensures
        a == b,
    decreases a.len() - i,
{
    if i < a.len() && i < b.len() {
        lemma_byte_order_equal(a, b, i + 1);
    } else {
        assert(a =~= b);
    }
}

proof fn lemma_byte_order_transitive(a: Seq<u8>, b: Seq<u8>, c: Seq<u8>, i: nat)
    requires
        byte_order(a, b, i) == NameOrder::Before,
        byte_order(b, c, i) == NameOrder::Before,
    ensures
        byte_order(a, c, i) == NameOrder::Before,
    decreases a.len() - i,
{
    if i < a.len() && i < b.len() && i < c.len() && a[i as int] == b[i as int] && b[i as int]
        == c[i as int] {
        lemma_byte_order_transitive(a, b, c, i + 1);
    }
}

proof fn lemma_byte_order_reflexive(a: Seq<u8>, i: nat)
    ensures
        byte_order(a, a, i) == NameOrder::Same,
    decreases a.len() - i,
{
    if i < a.len() {
        lemma_byte_order_reflexive(a, i + 1);
    }
}

/// The order of file names is total: names are equal exactly where their bytes
/// are, turning them round turns the order round, and it goes on from one to
/// the next.
pub proof fn lemma_name_order_is_total(a: Seq<u8>, b: Seq<u8>, c: Seq<u8>)
    ensures
        name_order(a, b) == NameOrder::Same <==> a == b,
        name_order(b, a) == flipped(name_order(a, b)),
        name_order(a, b) == NameOrder::Before && name_order(b, c) == NameOrder::Before ==> name_order(a, c)
            == NameOrder::Before,
{
    lemma_byte_order_flips(a, b, 0);
    lemma_byte_order_reflexive(a, 0);
    if name_order(a, b) == NameOrder::Same {
        lemma_byte_order_equal(a, b, 0);
    }
    if byte_order(a, b, 0) == NameOrder::Before && byte_order(b, c, 0) == NameOrder::Before {
        lemma_byte_order_transitive(a, b, c, 0);
    }
}

/// `.` and `..` come before every other name.
pub proof fn lemma_dots_come_first(a: Seq<u8>)
    requires
        a != seq![46u8],
        a != seq![46u8, 46u8],
    ensures
        name_order(seq![46u8], a) == NameOrder::Before,
        name_order(seq![46u8, 46u8], a) == NameOrder::Before,
        name_order(seq![46u8], seq![46u8, 46u8]) == NameOrder::Before,
{
    let one: Seq<u8> = seq![46u8];
    let two: Seq<u8> = seq![46u8, 46u8];
    assert(one.len() == 1 && two.len() == 2);
    assert(name_rank(one) == 0);
    assert(name_rank(two) == 1);
}

/// What a directory hands out of an entry.
pub struct DirItem {
    pub name: Seq<char>,
    pub ino: u64,
    pub node_type: NodeType,
    /// The offset of the next entry.
    pub offset: u64,
}

/// What receives the entries of a directory.
pub trait DirEntrySink {
    /// The entries that were accepted so far.
    spec fn accepted(&self) -> Seq<DirItem>;

    /// Whether an entry would be accepted now.
    spec fn takes(&self, item: DirItem) -> bool;

    /// Offers an entry; false if there is no room for it, and then there is
    /// none afterwards.
    fn accept(&mut self, name: &str, ino: u64, node_type: NodeType, offset: u64) -> (r: bool)
        ensures
            r == old(self).takes(DirItem { name: name@, ino, node_type, offset }),
            !r ==> !final(self).takes(DirItem { name: name@, ino, node_type, offset }),
            final(self).accepted() == if r {
                old(self).accepted().push(DirItem { name: name@, ino, node_type, offset })
            } else {
                old(self).accepted()
            },
    ;
}

/// An entry of a directory in memory.
pub struct InMemEntry {
    pub name: FileName,
    pub ino: u64,
    pub node_type: NodeType,
}

/// The entries of a directory in memory, in the order of their names.
pub struct InMemDir {
    pub entries: Vec<InMemEntry>,
}

/// The `i`-th entry as it is handed out.
pub open spec fn item_at(s: Seq<InMemEntry>, i: int) -> DirItem {
    DirItem {
        name: s[i].name.0@,
        ino: s[i].ino,
        node_type: s[i].node_type,
        offset: (i + 1) as u64,
    }
}

/// The entries from `lo` to `hi` as they are handed out.
pub open spec fn items_between(s: Seq<InMemEntry>, lo: int, hi: int) -> Seq<DirItem> {
    Seq::new((hi - lo) as nat, |k: int| item_at(s, lo + k))
}

/// Hands the entries from `offset` on to `sink`, until it takes no more, and
/// returns how many it took. An offset beyond what memory can hold hands out
/// nothing.
pub fn read_dir_impl<S: DirEntrySink>(dir: &InMemDir, offset: u64, sink: &mut S) -> (r: usize)
    ensures
        offset < dir.entries@.len() ==> offset + r <= dir.entries@.len(),
        offset >= dir.entries@.len() ==> r == 0,
        final(sink).accepted() == old(sink).accepted() + items_between(
            dir.entries@,
            offset as int,
            offset + r,
        ),
        offset + r < dir.entries@.len() ==> !final(sink).takes(item_at(dir.entries@, offset + r)),
{
    let n: usize = dir.entries.len();
    let mut count: usize = 0;
    if offset >= n as u64 {
        assert(sink.accepted() =~= old(sink).accepted() + items_between(
            dir.entries@,
            offset as int,
            offset as int,
        ));
        return 0;
    }
    let first: usize = offset as usize;
    let mut i: usize = first;
    assert(sink.accepted() =~= old(sink).accepted() + items_between(
        dir.entries@,
        first as int,
        i as int,
    ));
    while i < n
        invariant
            n == dir.entries@.len(),
            first == offset,
            first <= i <= n,
            count == i - first,
            sink.accepted() == old(sink).accepted() + items_between(
                dir.entries@,
                first as int,
                i as int,
            ),
        decreases n - i,
    {
        let ghost before = sink.accepted();
        let e: &InMemEntry = &dir.entries[i];
        let taken: bool = sink.accept(e.name.0.as_str(), e.ino, e.node_type, (i + 1) as u64);
        if !taken {
            return count;
        }
        proof {
            let a = items_between(dir.entries@, first as int, i as int);
            let b = items_between(dir.entries@, first as int, i + 1);
            assert(b =~= a.push(item_at(dir.entries@, i as int)));
            assert(sink.accepted() =~= old(sink).accepted() + b);
        }
        i = i + 1;
        count = count + 1;
    }
    count
}

/// An entry that a sink has accepted.
pub struct DirRecord {
    pub name: String,
    pub ino: u64,
    pub node_type: NodeType,
    pub offset: u64,
}

impl View for DirRecord {
    type V = DirItem;

    open spec fn view(&self) -> DirItem {
        DirItem {
            name: self.name@,
            ino: self.ino,
            node_type: self.node_type,
            offset: self.offset,
        }
    }
}

/// A sink with room for a number of entries.
pub struct DirBuffer {
    pub records: Vec<DirRecord>,
    pub room: usize,
}

impl DirBuffer {
    pub fn new(room: usize) -> (r: Self)
        ensures
            r.accepted() == Seq::<DirItem>::empty(),
            r.room == room,
    {
        let r = DirBuffer { records: Vec::new(), room };
        assert(r.accepted() =~= Seq::<DirItem>::empty());
        r
    }
}

impl DirEntrySink for DirBuffer {
    open spec fn accepted(&self) -> Seq<DirItem> {
        self.records@.map_values(|e: DirRecord| e@)
    }

    open spec fn takes(&self, item: DirItem) -> bool {
        self.room > 0
    }

    fn accept(&mut self, name: &str, ino: u64, node_type: NodeType, offset: u64) -> (r: bool) {
        if self.room == 0 {
            return false;
        }
        self.room = self.room - 1;
        self.records.push(DirRecord { name: name.to_owned(), ino, node_type, offset });
        assert(self.accepted() =~= old(self).accepted().push(
            DirItem { name: name@, ino, node_type, offset },
        ));
        true
    }
}

} // verus!
