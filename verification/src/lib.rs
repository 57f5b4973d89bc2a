//! A typed schema for a small continuous-integration workflow description
//! (name, trigger, jobs, build steps), together with a verified codec that
//! serializes a [`Workflow`] to a YAML-subset text document and parses such a
//! document back, preserving structural equality across the round trip.

use vstd::prelude::*;

pub mod codec;
pub mod errors;
pub mod laws;
pub mod text;

pub use codec::decode;
pub use codec::encode;
pub use codec::normalize;

verus! {

/// Ghost model of a [`Workflow`]: every text field as a sequence of characters.
pub ghost struct WorkflowView {
    pub name: Seq<char>,
    pub on: Seq<char>,
    pub jobs: JobsView,
}

/// Ghost model of [`Jobs`].
pub ghost struct JobsView {
    pub build: BuildView,
}

/// Ghost model of [`Build`].
pub ghost struct BuildView {
    pub runs_on: Seq<char>,
    pub steps: Seq<StepsView>,
}

/// Ghost model of a [`Steps`] entry.
pub ghost enum StepsView {
    Uses { uses: Seq<char> },
    Run { name: Seq<char>, run: Seq<char> },
}

/// The basic Workflow struct. Takes in the following information:
/// name: The workflow name.
/// on: When the workflow action will occur (push, pull...etc)
/// jobs: The actual actions which will occur when the action is triggered.
#[derive(Debug)]
pub struct Workflow {
    pub name: String,
    pub on: String,
    pub jobs: Jobs,
}

/// Defines a set of actions which will occur. This stores all build commands
/// which will happen when the trigger occurs.
#[derive(Debug)]
pub struct Jobs {
    pub build: Build,
}

/// Defines an action, or set of actions. The struct takes in the following inputs:
/// runs_on: defines the system it will run on.
/// steps: Defines what commands will be undertaken with this job.
#[derive(Debug)]
pub struct Build {
    pub runs_on: String,
    pub steps: Vec<Steps>,
}

/// Enums which store information about which steps will be occuring.
/// So far, two steps are defined:
/// uses: defines a separate action url which will occur.
/// name: Defines a command name, along with its specific cli command
/// eg: cargo run.
#[allow(non_camel_case_types)]
#[derive(Debug)]
pub enum Steps {
    uses { uses: String },
    name { name: String, run: String },
}

impl View for Workflow {
    type V = WorkflowView;

    open spec fn view(&self) -> WorkflowView {
        WorkflowView { name: self.name@, on: self.on@, jobs: self.jobs@ }
    }
}

impl View for Jobs {
    type V = JobsView;

    open spec fn view(&self) -> JobsView {
        JobsView { build: self.build@ }
    }
}

/// The ghost models of a sequence of steps, element for element.
pub open spec fn steps_view(v: Seq<Steps>) -> Seq<StepsView> {
    Seq::new(v.len(), |i: int| v[i]@)
}

impl View for Build {
    type V = BuildView;

    open spec fn view(&self) -> BuildView {
        BuildView { runs_on: self.runs_on@, steps: steps_view(self.steps@) }
    }
}

impl View for Steps {
    type V = StepsView;

    open spec fn view(&self) -> StepsView {
        match self {
            Steps::uses { uses } => StepsView::Uses { uses: uses@ },
            Steps::name { name, run } => StepsView::Run { name: name@, run: run@ },
        }
    }
}

impl PartialEq for Steps {
    /// Structural equality: the same variant with equal fields.
    fn eq(&self, o: &Steps) -> (r: bool) {
        match (self, o) {
            (Steps::uses { uses: a }, Steps::uses { uses: b }) => {
                let same = *a == *b;
                proof {
                    assert(self@ == (StepsView::Uses { uses: a@ }));
                    assert(o@ == (StepsView::Uses { uses: b@ }));
                }
                same
            },
            (Steps::name { name: a, run: c }, Steps::name { name: b, run: d }) => {
                let same = *a == *b && *c == *d;
                proof {
                    assert(self@ == (StepsView::Run { name: a@, run: c@ }));
                    assert(o@ == (StepsView::Run { name: b@, run: d@ }));
                }
                same
            },
            _ => {
                proof {
                    assert(self@ is Uses <==> self is uses);
                    assert(o@ is Uses <==> o is uses);
                }
                false
            },
        }
    }
}

impl vstd::std_specs::cmp::PartialEqSpecImpl for Steps {
    open spec fn obeys_eq_spec() -> bool {
        true
    }

    open spec fn eq_spec(&self, o: &Steps) -> bool {
        self@ == o@
    }
}

impl PartialEq for Build {
    /// Structural equality: equal runner and equal steps, in the same order.
    fn eq(&self, o: &Build) -> (r: bool) {
        if !(self.runs_on == o.runs_on) {
            return false;
        }
        if self.steps.len() != o.steps.len() {
            proof {
                assert(steps_view(self.steps@).len() == self.steps@.len());
                assert(steps_view(o.steps@).len() == o.steps@.len());
            }
            return false;
        }
        let mut i: usize = 0;
        while i < self.steps.len()
            invariant
                i <= self.steps@.len(),
                self.steps@.len() == o.steps@.len(),
                forall|k: int| 0 <= k < i ==> self.steps@[k]@ == o.steps@[k]@,
            decreases self.steps@.len() - i,
        {
            if !(self.steps[i] == o.steps[i]) {
                assert(steps_view(self.steps@)[i as int] != steps_view(o.steps@)[i as int]);
                return false;
            }
            i += 1;
        }
        proof {
            assert(steps_view(self.steps@) =~= steps_view(o.steps@));
        }
        true
    }
}

impl vstd::std_specs::cmp::PartialEqSpecImpl for Build {
    open spec fn obeys_eq_spec() -> bool {
        true
    }

    open spec fn eq_spec(&self, o: &Build) -> bool {
        self@ == o@
    }
}

impl PartialEq for Jobs {
    /// Structural equality: equal build jobs.
    fn eq(&self, o: &Jobs) -> (r: bool) {
        self.build == o.build
    }
}

impl vstd::std_specs::cmp::PartialEqSpecImpl for Jobs {
    open spec fn obeys_eq_spec() -> bool {
        true
    }

    open spec fn eq_spec(&self, o: &Jobs) -> bool {
        self@ == o@
    }
}

impl PartialEq for Workflow {
    /// Structural equality: equal name, trigger and jobs.
    fn eq(&self, o: &Workflow) -> (r: bool) {
        self.name == o.name && self.on == o.on && self.jobs == o.jobs
    }
}

impl vstd::std_specs::cmp::PartialEqSpecImpl for Workflow {
    open spec fn obeys_eq_spec() -> bool {
        true
    }

    open spec fn eq_spec(&self, o: &Workflow) -> bool {
        self@ == o@
    }
}

} // verus!
