use std::time::Duration;
use vstd::prelude::*;

verus! {

/// Collects what a one-shot unit needs before it is built: its name, the
/// program with its arguments, and how often it is to be run again, if at all.
pub struct OneshotBuilder<'a> {
    pub name: String,
    pub prog: &'a str,
    pub args: Vec<&'a str>,
    pub schedule: Option<Duration>,
}

/// The mathematical value of a [`OneshotBuilder`].
pub struct OneshotBuilderView {
    pub name: Seq<char>,
    pub prog: Seq<char>,
    pub args: Seq<Seq<char>>,
    pub schedule: Option<Duration>,
}

impl<'a> View for OneshotBuilder<'a> {
    type V = OneshotBuilderView;

    open spec fn view(&self) -> OneshotBuilderView {
        OneshotBuilderView {
            name: self.name@,
            prog: self.prog@,
            args: self.args.deep_view(),
            schedule: self.schedule,
        }
    }
}

impl<'a> OneshotBuilder<'a> {
    /// A builder for the unit `name` that runs `prog` with `args`, once.
    pub fn new(name: String, prog: &'a str, args: Vec<&'a str>) -> (builder: Self)
        ensures
            builder@ == (OneshotBuilderView {
                name: name@,
                prog: prog@,
                args: args.deep_view(),
                schedule: None,
            }),
    {
        Self { name, prog, args, schedule: None }
    }

    /// Asks for the unit to be run again after every `every`. Replaces an
    /// earlier schedule.
    pub fn schedule(&mut self, every: Duration)
        ensures
            final(self)@ == (OneshotBuilderView { schedule: Some(every), ..old(self)@ }),
    {
        self.schedule = Some(every)
    }
}

} // verus!
