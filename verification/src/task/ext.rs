//! Data that the user of the scheduler attaches to a task.
use vstd::prelude::*;

verus! {

/// The attached data, if any.
pub struct AxTaskExt<T> {
    data: Option<T>,
}

/// Gives the data that is attached to a task.
pub trait TaskExtRef<T: Sized> {
    spec fn attached(&self) -> Option<T>;

    fn task_ext(&self) -> (r: &T)
        requires
            self.attached() is Some,
        ensures
            self.attached() == Some(*r),
    ;

    fn task_ext_opt(&self) -> (r: Option<&T>)
        ensures
            match r {
                Some(x) => self.attached() == Some(*x),
                None => self.attached() is None,
            },
    ;
}

/// Gives the data that is attached to a task so that it can be changed.
pub trait TaskExtMut<T: Sized>: TaskExtRef<T> {
    fn task_ext_mut(&mut self) -> (r: &mut T)
        requires
            old(self).attached() is Some,
        ensures
            old(self).attached() == Some(*r),
            final(self).attached() == Some(*final(r)),
    ;

    fn task_ext_mut_opt(&mut self) -> (r: Option<&mut T>)
        ensures
            match r {
                Some(x) => old(self).attached() == Some(*x) && final(self).attached() == Some(
                    *final(x),
                ),
                None => old(self).attached() is None && final(self).attached() is None,
            },
    ;
}

/// What the data does when its task gets or loses a CPU; nothing, unless it
/// says otherwise.
pub trait TaskExtSwitch {
    fn on_enter(&self) {
    }

    fn on_leave(&self) {
    }
}

impl<T> AxTaskExt<T> {
    pub closed spec fn view(&self) -> Option<T> {
        self.data
    }

    pub fn empty() -> (r: Self)
        ensures
            r@ is None,
    {
        AxTaskExt { data: None }
    }

    pub fn is_empty(&self) -> (r: bool)
        ensures
            r == (self@ is None),
    {
        self.data.is_none()
    }

    /// The data itself.
    pub fn as_ptr(&self) -> (r: Option<&T>)
        ensures
            match r {
                Some(x) => self@ == Some(*x),
                None => self@ is None,
            },
    {
        self.data.as_ref()
    }

    /// Attaches data. Data without a size takes no room and stays unattached.
    pub fn write(&mut self, data: T) -> (r: bool)
        ensures
            r == (vstd::layout::size_of::<T>() > 0),
            final(self)@ == if r {
                Some(data)
            } else {
                old(self)@
            },
    {
        if core::mem::size_of::<T>() > 0 {
            self.data = Some(data);
            true
        } else {
            false
        }
    }

    /// Attaches data where there is none yet.
    pub fn init_task_ext(&mut self, data: T) -> (r: bool)
        ensures
            r == (old(self)@ is None && vstd::layout::size_of::<T>() > 0),
            final(self)@ == if r {
                Some(data)
            } else {
                old(self)@
            },
    {
        if self.is_empty() {
            self.write(data)
        } else {
            false
        }
    }
}

impl<T> TaskExtRef<T> for AxTaskExt<T> {
    open spec fn attached(&self) -> Option<T> {
        self@
    }

    fn task_ext(&self) -> (r: &T) {
        self.data.as_ref().unwrap()
    }

    fn task_ext_opt(&self) -> (r: Option<&T>) {
        self.data.as_ref()
    }
}

impl<T> TaskExtMut<T> for AxTaskExt<T> {
    fn task_ext_mut(&mut self) -> (r: &mut T) {
        match &mut self.data {
            Some(x) => x,
            None => {
                proof {
                    assert(false);
                }
                vstd::pervasive::unreached()
            },
        }
    }

    fn task_ext_mut_opt(&mut self) -> (r: Option<&mut T>) {
        match &mut self.data {
            Some(x) => Some(x),
            None => None,
        }
    }
}

impl<T: TaskExtSwitch> AxTaskExt<T> {
    /// The task of the data gets a CPU.
    pub fn on_enter(&self) -> (r: bool)
        ensures
            r == (self@ is Some),
    {
        match &self.data {
            Some(x) => {
                x.on_enter();
                true
            },
            None => false,
        }
    }

    /// The task of the data loses its CPU.
    pub fn on_leave(&self) -> (r: bool)
        ensures
            r == (self@ is Some),
    {
        match &self.data {
            Some(x) => {
                x.on_leave();
                true
            },
            None => false,
        }
    }
}

} // verus!
