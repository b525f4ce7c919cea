//! What backs a mapping, and how each kind of backing maps, unmaps, protects
//! and answers page faults.
use vstd::prelude::*;

use super::file_map::FileMapping;
use super::paging::PageSize;

verus! {

/// Physical memory that several mappings share.
#[derive(Clone, Copy, Debug, PartialEq, Eq, Structural)]
pub struct SharedFrame {
    pub vaddr: usize,
    pub page_count: usize,
}

/// A mapping whose pages are copied before the first write.
pub struct CowMapping {
    pub inner: Box<Backend>,
}

/// What backs a mapping.
pub enum Backend {
    /// Memory that is shared with other mappings.
    Shared { shared_frame: SharedFrame, frame_paddr: usize, align: PageSize },
    /// A fixed distance between virtual and physical addresses.
    Linear { pa_va_offset: usize },
    /// Anonymous memory: all of it at once, or on the first access to a page.
    Alloc { populate: bool, grows_down: bool },
    /// A part of a file.
    File(FileMapping),
    /// A private copy of what another backend gives.
    Cow(CowMapping),
}

impl Clone for CowMapping {
    fn clone(&self) -> (r: Self)
        ensures
            r == *self,
        decreases self,
    {
        let inner: Backend = (&*self.inner).clone();
        CowMapping { inner: Box::new(inner) }
    }
}

impl Clone for Backend {
    fn clone(&self) -> (r: Self)
        ensures
            r == *self,
        decreases self,
    {
        match self {
            Backend::Shared { shared_frame, frame_paddr, align } => Backend::Shared {
                shared_frame: *shared_frame,
                frame_paddr: *frame_paddr,
                align: *align,
            },
            Backend::Linear { pa_va_offset } => Backend::Linear { pa_va_offset: *pa_va_offset },
            Backend::Alloc { populate, grows_down } => Backend::Alloc {
                populate: *populate,
                grows_down: *grows_down,
            },
            Backend::File(mapping) => Backend::File(*mapping),
            Backend::Cow(cow) => Backend::Cow(cow.clone()),
        }
    }
}

impl CowMapping {
    pub fn new(inner: Box<Backend>) -> (r: Self)
        ensures
            r.inner == inner,
    {
        CowMapping { inner }
    }

    pub fn inner(&self) -> (r: &Backend)
        ensures
            *r == *self.inner,
    {
        &self.inner
    }
}

impl Backend {
    /// The backend below any number of copy-on-write layers.
    pub open spec fn bottom(self) -> Backend
        decreases self,
    {
        match self {
            Backend::Cow(cow) => (*cow.inner).bottom(),
            _ => self,
        }
    }

    pub fn new_alloc(populate: bool) -> (r: Self)
        ensures
            r == (Backend::Alloc { populate, grows_down: false }),
    {
        Backend::Alloc { populate, grows_down: false }
    }

    pub fn new_alloc_grows_down(populate: bool, grows_down: bool) -> (r: Self)
        ensures
            r == (Backend::Alloc { populate, grows_down }),
    {
        Backend::Alloc { populate, grows_down }
    }

    pub fn new_linear(pa_va_offset: usize) -> (r: Self)
        ensures
            r == (Backend::Linear { pa_va_offset }),
    {
        Backend::Linear { pa_va_offset }
    }

    /// A backend on shared memory for `size` bytes, once the allocator has
    /// answered where the memory is: its virtual and its physical address.
    pub fn new_shared(size: usize, align: PageSize, memory: Option<(usize, usize)>) -> (r: Option<
        Self,
    >)
        requires
            size + 0xfff <= usize::MAX,
        ensures
            r == match memory {
                Some((vaddr, frame_paddr)) => Some(
                    Backend::Shared {
                        shared_frame: SharedFrame {
                            vaddr,
                            page_count: ((size + 0xfff) / 0x1000) as usize,
                        },
                        frame_paddr,
                        align,
                    },
                ),
                None => None,
            },
    {
        let page_count: usize = (size + 0xfff) / 0x1000;
        match memory {
            Some((vaddr, frame_paddr)) => Some(
                Backend::Shared {
                    shared_frame: SharedFrame { vaddr, page_count },
                    frame_paddr,
                    align,
                },
            ),
            None => None,
        }
    }

    pub open spec fn spec_grows_down(self) -> bool {
        self.bottom() matches Backend::Alloc { grows_down, .. } && grows_down
    }

    pub fn is_grows_down(&self) -> (r: bool)
        ensures
            r == self.spec_grows_down(),
        decreases self,
    {
        match self {
            Backend::Alloc { grows_down, .. } => *grows_down,
            Backend::Cow(cow) => (&*cow.inner).is_grows_down(),
            _ => false,
        }
    }

    pub open spec fn spec_discardable(self) -> bool {
        self.bottom() is Alloc
    }

    /// Whether pages can be dropped and come back filled with zeros.
    pub fn is_discardable(&self) -> (r: bool)
        ensures
            r == self.spec_discardable(),
        decreases self,
    {
        match self {
            Backend::Alloc { .. } => true,
            Backend::Cow(cow) => (&*cow.inner).is_discardable(),
            _ => false,
        }
    }

    /// The backend for the same contents at another place.
    pub open spec fn moved(self, old_start: usize, new_start: usize, new_size: usize) -> Backend
        decreases self,
    {
        match self {
            Backend::File(mapping) => Backend::File(
                FileMapping { start: new_start, file_bytes: new_size, ..mapping },
            ),
            Backend::Cow(cow) => Backend::Cow(
                CowMapping { inner: Box::new((*cow.inner).moved(old_start, new_start, new_size)) },
            ),
            Backend::Linear { pa_va_offset } => Backend::Linear {
                pa_va_offset: pa_va_offset.wrapping_add(new_start.wrapping_sub(old_start)),
            },
            _ => self,
        }
    }

    /// Follows a mapping to another place.
    pub fn update_address(self, old_start: usize, new_start: usize, new_size: usize) -> (r: Backend)
        ensures
            r == self.moved(old_start, new_start, new_size),
        decreases self,
    {
        match self {
            Backend::File(mapping) => {
                let mut mapping = mapping;
                mapping.update_address(new_start, new_size);
                Backend::File(mapping)
            },
            Backend::Cow(cow) => {
                let inner: Backend = *cow.inner;
                Backend::Cow(
                    CowMapping {
                        inner: Box::new(inner.update_address(old_start, new_start, new_size)),
                    },
                )
            },
            Backend::Linear { pa_va_offset } => Backend::Linear {
                pa_va_offset: pa_va_offset.wrapping_add(new_start.wrapping_sub(old_start)),
            },
            other => other,
        }
    }
}

/// A mapping that was moved shows at its new place what it showed at the old one:
/// the same part of the file, the same memory. What is mapped lazily moves by
/// itself, and a copy-on-write layer moves with what is below it.
pub proof fn lemma_moved_backend(b: Backend, old_start: usize, new_start: usize, new_size: usize)
    ensures
        match b {
            Backend::File(m) => b.moved(old_start, new_start, new_size) matches Backend::File(n)
                && n.start == new_start && n.file_bytes == new_size && n.file == m.file
                && n.file_offset == m.file_offset && n.shared == m.shared && n.file_flags
                == m.file_flags,
            Backend::Linear { pa_va_offset } => b.moved(old_start, new_start, new_size) matches Backend::Linear {
                pa_va_offset: now,
            } && new_start.wrapping_sub(now) == old_start.wrapping_sub(pa_va_offset),
            Backend::Cow(w) => b.moved(old_start, new_start, new_size) matches Backend::Cow(v)
                && *v.inner == (*w.inner).moved(old_start, new_start, new_size),
            _ => b.moved(old_start, new_start, new_size) == b,
        },
{
    if let Backend::Linear { pa_va_offset } = b {
        let all = usize::MAX + 1;
        let d = new_start.wrapping_sub(old_start);
        assert(d == new_start - old_start || d == new_start - old_start + all);
        let o = pa_va_offset.wrapping_add(d);
        assert(o == pa_va_offset + d || o == pa_va_offset + d - all);
        let x = new_start.wrapping_sub(o);
        assert(x == new_start - o || x == new_start - o + all);
        let y = old_start.wrapping_sub(pa_va_offset);
        assert(y == old_start - pa_va_offset || y == old_start - pa_va_offset + all);
    }
}

} // verus!
