use vstd::prelude::*;

verus! {

/// Updating a variable with a smaller or larger value, reporting whether it
/// changed.
pub trait SetMinMax: Sized {
    /// Replaces `self` by `v` when `v` is smaller; returns whether it did.
    fn setmin(&mut self, v: Self) -> (changed: bool);

    /// Replaces `self` by `v` when `v` is larger; returns whether it did.
    fn setmax(&mut self, v: Self) -> (changed: bool);
}

impl SetMinMax for i32 {
    fn setmin(&mut self, v: i32) -> (changed: bool)
        ensures
            changed == (*old(self) > v),
            *final(self) == if *old(self) > v { v } else { *old(self) },
    {
        if *self > v {
            *self = v;
            true
        } else {
            false
        }
    }

    fn setmax(&mut self, v: i32) -> (changed: bool)
        ensures
            changed == (*old(self) < v),
            *final(self) == if *old(self) < v { v } else { *old(self) },
    {
        if *self < v {
            *self = v;
            true
        } else {
            false
        }
    }
}

impl SetMinMax for i64 {
    fn setmin(&mut self, v: i64) -> (changed: bool)
        ensures
            changed == (*old(self) > v),
            *final(self) == if *old(self) > v { v } else { *old(self) },
    {
        if *self > v {
            *self = v;
            true
        } else {
            false
        }
    }

    fn setmax(&mut self, v: i64) -> (changed: bool)
        ensures
            changed == (*old(self) < v),
            *final(self) == if *old(self) < v { v } else { *old(self) },
    {
        if *self < v {
            *self = v;
            true
        } else {
            false
        }
    }
}

impl SetMinMax for u64 {
    fn setmin(&mut self, v: u64) -> (changed: bool)
        ensures
            changed == (*old(self) > v),
            *final(self) == if *old(self) > v { v } else { *old(self) },
    {
        if *self > v {
            *self = v;
            true
        } else {
            false
        }
    }

    fn setmax(&mut self, v: u64) -> (changed: bool)
        ensures
            changed == (*old(self) < v),
            *final(self) == if *old(self) < v { v } else { *old(self) },
    {
        if *self < v {
            *self = v;
            true
        } else {
            false
        }
    }
}

impl SetMinMax for usize {
    fn setmin(&mut self, v: usize) -> (changed: bool)
        ensures
            changed == (*old(self) > v),
            *final(self) == if *old(self) > v { v } else { *old(self) },
    {
        if *self > v {
            *self = v;
            true
        } else {
            false
        }
    }

    fn setmax(&mut self, v: usize) -> (changed: bool)
        ensures
            changed == (*old(self) < v),
            *final(self) == if *old(self) < v { v } else { *old(self) },
    {
        if *self < v {
            *self = v;
            true
        } else {
            false
        }
    }
}

}
