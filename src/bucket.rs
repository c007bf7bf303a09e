use vstd::prelude::*;

verus! {

/// Counts keypresses per time slice and hands out each slice's count once a later
/// keypress shows that the slice is over.
pub struct SliceCounter {
    current: Option<u32>,
    count: u8,
}

impl View for SliceCounter {
    /// The open slice, if any, and its keypresses so far.
    type V = (Option<u32>, u8);

    closed spec fn view(&self) -> (Option<u32>, u8) {
        (self.current, self.count)
    }
}

impl SliceCounter {
    /// An open slice has at least one keypress.
    pub open spec fn wf(&self) -> bool {
        self@.0 is Some ==> self@.1 >= 1
    }

    /// A counter with no open slice.
    pub fn new() -> (r: SliceCounter)
        ensures
            r.wf(),
            r@.0 is None,
    {
        SliceCounter { current: None, count: 0 }
    }

    /// Counts a keypress in slice `time_slice`. Where it falls in another slice than the
    /// open one, that one is closed and returned with its count, and `time_slice` opens
    /// with one keypress. The count of a slice saturates at 255.
    pub fn key_press(&mut self, time_slice: u32) -> (r: Option<(u32, u8)>)
        requires
            old(self).wf(),
        ensures
            final(self).wf(),
            match old(self)@.0 {
                None => r is None && final(self)@ == (Some(time_slice), 1u8),
                Some(open) => if open == time_slice {
                    r is None && final(self)@ == (
                        Some(time_slice),
                        if old(self)@.1 == 255 { 255u8 } else { (old(self)@.1 + 1) as u8 },
                    )
                } else {
                    r == Some((open, old(self)@.1)) && final(self)@ == (Some(time_slice), 1u8)
                },
            },
            r matches Some(closed) ==> closed.1 >= 1,
    {
        match self.current {
            Some(open) => {
                if open == time_slice {
                    self.count = self.count.saturating_add(1);
                    None
                } else {
                    let closed = (open, self.count);
                    self.current = Some(time_slice);
                    self.count = 1;
                    Some(closed)
                }
            },
            None => {
                self.current = Some(time_slice);
                self.count = 1;
                None
            },
        }
    }
}

} // verus!
