use vstd::prelude::*;

verus! {

/// The points of one plant in the order in which they are drawn, with a
/// cursor that hands them out one by one.
#[derive(Clone, Debug)]
pub struct LsystemDots {
    dots: Vec<usize>,
    current: usize,
}

impl LsystemDots {
    /// All the points, handed out or not.
    pub closed spec fn dots(&self) -> Seq<usize> {
        self.dots@
    }

    /// How many points have been handed out.
    pub closed spec fn handed_out(&self) -> nat {
        if self.current <= self.dots@.len() {
            self.current as nat
        } else {
            self.dots@.len()
        }
    }

    pub fn new(dots: Vec<usize>) -> (cursor: LsystemDots)
        ensures
            cursor.dots() == dots@,
            cursor.handed_out() == 0,
    {
        LsystemDots { dots, current: 0 }
    }

    /// The next point, or `None` once all have been handed out.
    pub fn next_dot(&mut self) -> (dot: Option<usize>)
        ensures
            final(self).dots() == old(self).dots(),
            old(self).handed_out() < old(self).dots().len() ==> dot == Some(
                old(self).dots()[old(self).handed_out() as int],
            ) && final(self).handed_out() == old(self).handed_out() + 1,
            old(self).handed_out() >= old(self).dots().len() ==> dot.is_none()
                && final(self).handed_out() == old(self).handed_out(),
    {
        if self.current < self.dots.len() {
            let item = self.dots[self.current];
            self.current += 1;
            Some(item)
        } else {
            None
        }
    }
}

} // verus!
