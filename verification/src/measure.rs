//! Measurement of a guest's initial memory image.

use crate::page::Page4k;
use vstd::prelude::*;

verus! {

/// An accumulator over the pages of a guest's initial image.
///
/// What a measurement stands for is the sequence of the pages that were
/// added to it, each with the guest address it was added at, in the order of
/// the calls: `log`. An implementation folds the contents of each page into
/// a digest as it sees fit; the digest is a function of that sequence and of
/// what the frames held when they were added.
pub trait DataMeasure: Sized {
    /// The pages measured so far: guest address and frame address of each.
    spec fn log(&self) -> Seq<(u64, u64)>;

    /// The measurement of no pages.
    fn default() -> (r: Self)
        ensures
            r.log() == Seq::<(u64, u64)>::empty(),
    ;

    /// Measures `page` as the content of the guest page at `gpa`.
    fn add_page(&mut self, gpa: u64, page: &Page4k)
        ensures
            final(self).log() == old(self).log().push((gpa, page@)),
    ;
}

/// A measurement that keeps the sequence of the measured pages itself, for
/// a digest to be computed over it later.
#[derive(Debug)]
pub struct PageLog {
    entries: Vec<(u64, u64)>,
}

impl PageLog {
    /// The measured pages, oldest first: guest address and frame address.
    pub fn entries(&self) -> (r: &Vec<(u64, u64)>)
        ensures
            r@ == self.log(),
    {
        &self.entries
    }
}

impl DataMeasure for PageLog {
    closed spec fn log(&self) -> Seq<(u64, u64)> {
        self.entries@
    }

    fn default() -> (r: Self) {
        PageLog { entries: Vec::new() }
    }

    fn add_page(&mut self, gpa: u64, page: &Page4k) {
        self.entries.push((gpa, page.addr().bits()));
    }
}

} // verus!
