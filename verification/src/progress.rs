//! Reporting how far a long computation has come.

use vstd::prelude::*;

verus! {

/// Someone who is told how far a computation has come. The listener is only
/// told: it is not changed, and what it does with the news has no effect on
/// what is computed.
pub trait Progress {
    /// `by` more steps are done.
    fn advance(&self, by: u64);

    /// The computation is over.
    fn complete(&self, message: &str);
}

/// Reports to nobody.
pub struct Silent;

impl Progress for Silent {
    fn advance(&self, by: u64) {
    }

    fn complete(&self, message: &str) {
    }
}

/// One piece of news.
pub enum Report {
    /// So many more steps are done.
    Advance(u64),
    /// The computation is over, with this message.
    Complete(Seq<char>),
}

/// Passes news on to a listener and keeps the record of what was passed on.
pub struct Reporter<'a, P: Progress> {
    listener: &'a P,
    told: Ghost<Seq<Report>>,
}

impl<'a, P: Progress> Reporter<'a, P> {
    /// What the listener was told through this reporter, in order.
    pub closed spec fn told(&self) -> Seq<Report> {
        self.told@
    }

    /// A reporter that has told `listener` nothing yet.
    pub fn new(listener: &'a P) -> (reporter: Self)
        ensures
            reporter.told() == Seq::<Report>::empty(),
    {
        Reporter { listener, told: Ghost(Seq::empty()) }
    }

    /// Tells the listener that `by` more steps are done.
    pub fn advance(&mut self, by: u64)
        ensures
            final(self).told() == old(self).told().push(Report::Advance(by)),
    {
        self.listener.advance(by);
        self.told = Ghost(self.told@.push(Report::Advance(by)));
    }

    /// Tells the listener that the computation is over.
    pub fn complete(&mut self, message: &str)
        ensures
            final(self).told() == old(self).told().push(Report::Complete(message@)),
    {
        self.listener.complete(message);
        self.told = Ghost(self.told@.push(Report::Complete(message@)));
    }
}

} // verus!
