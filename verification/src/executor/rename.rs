//! The renaming engine of one work unit, as a state machine: it decides
//! what is to be done to the directory next, and is told how that went.
//!
//! The files are known by their names in the directory of the work unit,
//! without any directory part. They are taken in natural order. The n-th
//! gets the n-th number of the scheme. Where the name that a file is to
//! have is taken by a file whose turn has not come yet, that file is first
//! moved to a temporary name, under which the engine keeps track of it.
//!
//! The engine touches no file itself. Its driver asks it what to do
//! (`action`), does it, and reports back (`handle`), until the engine says
//! `Finish` or `Abort`. A rename that failed is asked for again, for as
//! long as the retry policy allows.

use crate::executor::numbering::Numbering;
use crate::executor::sorting::{
    natural_sorted, sort_in_order, sort_natural, sortable, sorted_in, SortOrder,
};
use crate::executor::utils::{extension_or_empty, file_extension};
use crate::text::{str_eq, views_of};
use vstd::prelude::*;

verus! {

/// What is done when a rename fails.
#[derive(Clone, Copy, Debug, PartialEq, Eq, Structural)]
pub enum RetryPolicy {
    /// The rename is tried again until it succeeds.
    Forever,
    /// The rename is tried again this many times, then the file is given up.
    Limited(u32),
}

impl RetryPolicy {
    /// Whether a rename that has failed `failures` times is tried again.
    pub open spec fn allows(self, failures: nat) -> bool {
        match self {
            RetryPolicy::Forever => true,
            RetryPolicy::Limited(retries) => failures <= retries,
        }
    }

    /// Whether a rename that has failed `failures` times is tried again.
    pub fn retry_allowed(&self, failures: u32) -> (allowed: bool)
        ensures
            allowed == self.allows(failures as nat),
    {
        match self {
            RetryPolicy::Forever => true,
            RetryPolicy::Limited(retries) => failures <= *retries,
        }
    }
}

/// One more failure, counted up to the largest count that is kept.
pub open spec fn one_more(failures: nat) -> nat {
    if failures < u32::MAX {
        failures + 1
    } else {
        failures
    }
}

/// How the engine left a file.
#[derive(Clone, Copy, Debug, PartialEq, Eq, Structural)]
pub enum FileOutcome {
    /// The file was given the name it is to have.
    Renamed,
    /// The file had that name already.
    Skipped,
    /// The file was given up after its rename kept failing.
    Error,
}

/// What the engine is waiting for.
#[derive(Clone, Copy, Debug, PartialEq, Eq, Structural)]
pub enum Phase {
    /// To hear whether the destination of the current file exists.
    Probing,
    /// To be given a temporary name for the file at the destination.
    NeedTemporary,
    /// To hear whether the temporary name it was given exists.
    CheckingTemporary,
    /// To hear how moving that file to the temporary name went.
    Displacing,
    /// To hear how moving the current file to its destination went.
    Moving,
    /// For nothing: every file has had its turn.
    Finished,
    /// For nothing: the destination is taken by something that the engine
    /// does not keep track of.
    Aborted,
}

/// What the driver is asked to do.
#[derive(Debug, PartialEq, Eq)]
pub enum Action {
    /// Say whether `name` exists in the directory.
    Probe { name: String },
    /// Give a name with this extension, a random one for choice. Whether it
    /// is free the engine asks next.
    ChooseTemporary { extension: String },
    /// Rename `from` to `to`.
    Rename { from: String, to: String },
    /// Stop: the work is done.
    Finish,
    /// Stop: the run cannot go on.
    Abort,
}

/// An action as a mathematical value.
pub enum ActionView {
    Probe { name: Seq<char> },
    ChooseTemporary { extension: Seq<char> },
    Rename { from: Seq<char>, to: Seq<char> },
    Finish,
    Abort,
}

impl View for Action {
    type V = ActionView;

    open spec fn view(&self) -> ActionView {
        match self {
            Action::Probe { name } => ActionView::Probe { name: name@ },
            Action::ChooseTemporary { extension } => ActionView::ChooseTemporary {
                extension: extension@,
            },
            Action::Rename { from, to } => ActionView::Rename { from: from@, to: to@ },
            Action::Finish => ActionView::Finish,
            Action::Abort => ActionView::Abort,
        }
    }
}

/// What the driver reports back.
#[derive(Debug, PartialEq, Eq)]
pub enum Event {
    /// The answer to `Probe`.
    Probed { exists: bool },
    /// The answer to `ChooseTemporary`.
    Temporary { name: String },
    /// The rename asked for was done.
    Renamed,
    /// The rename asked for failed.
    RenameFailed,
}

/// An event as a mathematical value.
pub enum EventView {
    Probed { exists: bool },
    Temporary { name: Seq<char> },
    Renamed,
    RenameFailed,
}

impl View for Event {
    type V = EventView;

    open spec fn view(&self) -> EventView {
        match self {
            Event::Probed { exists } => EventView::Probed { exists: *exists },
            Event::Temporary { name } => EventView::Temporary { name: name@ },
            Event::Renamed => EventView::Renamed,
            Event::RenameFailed => EventView::RenameFailed,
        }
    }
}

/// The first position from `from` on at which `files` holds `name`.
pub open spec fn find_from(files: Seq<Seq<char>>, from: int, name: Seq<char>) -> Option<int>
    decreases files.len() - from,
{
    if from >= files.len() {
        None
    } else if files[from] == name {
        Some(from)
    } else {
        find_from(files, from + 1, name)
    }
}

/// The state of the engine as a mathematical value.
pub struct SessionView {
    /// The present name of each file, in the order of processing.
    pub files: Seq<Seq<char>>,
    /// How each file that has had its turn was left.
    pub outcomes: Seq<FileOutcome>,
    pub numbering: Numbering,
    pub policy: RetryPolicy,
    /// How often the rename that is asked for has failed.
    pub failures: nat,
    pub phase: Phase,
    /// While a file is being moved out of the way: its place in `files`.
    pub occupant: int,
    /// While a file is being moved out of the way: the name it moves to.
    pub temporary: Seq<char>,
}

impl SessionView {
    /// The place of the file whose turn it is.
    pub open spec fn cursor(self) -> int {
        self.outcomes.len() as int
    }

    /// The present name of the file whose turn it is.
    pub open spec fn current(self) -> Seq<char> {
        self.files[self.cursor()]
    }

    /// The name that the file whose turn it is is to have.
    pub open spec fn target(self) -> Seq<char> {
        self.numbering.destination(self.cursor() as nat, self.current())
    }

    /// Whether the engine is in the middle of a file's turn.
    pub open spec fn active(self) -> bool {
        self.phase != Phase::Finished && self.phase != Phase::Aborted
    }

    /// Whether the engine is about moving a file out of the way.
    pub open spec fn displaces(self) -> bool {
        self.phase == Phase::NeedTemporary || self.phase == Phase::CheckingTemporary || self.phase
            == Phase::Displacing
    }

    /// What always holds of the state.
    pub open spec fn wf(self) -> bool {
        &&& self.outcomes.len() <= self.files.len()
        &&& self.phase == Phase::Finished ==> self.outcomes.len() == self.files.len()
        &&& self.active() ==> self.cursor() < self.files.len() && !self.numbering.placed(
            self.cursor() as nat,
            self.current(),
        )
        &&& self.displaces() ==> self.cursor() < self.occupant < self.files.len()
            && self.files[self.occupant] == self.target()
        &&& (self.phase == Phase::CheckingTemporary || self.phase == Phase::Displacing)
            ==> extension_or_empty(self.temporary) == extension_or_empty(self.current())
        &&& forall|k: int|
            0 <= k < self.outcomes.len() && #[trigger] self.outcomes[k] != FileOutcome::Error
                ==> self.numbering.placed(k as nat, self.files[k])
        &&& self.failures <= u32::MAX
    }

    /// Passes over the files that already have the name they are to have,
    /// and stops at the first that does not, or at the end.
    pub open spec fn settle(self) -> SessionView
        decreases self.files.len() - self.outcomes.len(),
    {
        if self.outcomes.len() >= self.files.len() {
            SessionView { phase: Phase::Finished, failures: 0, ..self }
        } else if self.numbering.placed(self.cursor() as nat, self.current()) {
            SessionView { outcomes: self.outcomes.push(FileOutcome::Skipped), ..self }.settle()
        } else {
            SessionView { phase: Phase::Probing, failures: 0, ..self }
        }
    }

    /// The current file has its new name: on to the next.
    pub open spec fn moved(self) -> SessionView {
        SessionView {
            files: self.files.update(self.cursor(), self.target()),
            outcomes: self.outcomes.push(FileOutcome::Renamed),
            ..self
        }.settle()
    }

    /// A rename failed: it is tried again if the policy allows, else the
    /// current file is given up and the next one has its turn.
    pub open spec fn failed(self) -> SessionView {
        if self.policy.allows(one_more(self.failures)) {
            SessionView { failures: one_more(self.failures), ..self }
        } else {
            SessionView { outcomes: self.outcomes.push(FileOutcome::Error), ..self }.settle()
        }
    }

    /// What the driver is asked to do in this state.
    pub open spec fn pending(self) -> ActionView {
        match self.phase {
            Phase::Probing => ActionView::Probe { name: self.target() },
            Phase::NeedTemporary => ActionView::ChooseTemporary {
                extension: extension_or_empty(self.current()),
            },
            Phase::CheckingTemporary => ActionView::Probe { name: self.temporary },
            Phase::Displacing => ActionView::Rename { from: self.target(), to: self.temporary },
            Phase::Moving => ActionView::Rename { from: self.current(), to: self.target() },
            Phase::Finished => ActionView::Finish,
            Phase::Aborted => ActionView::Abort,
        }
    }

    /// The state after the driver's report. A report that does not answer
    /// what was asked changes nothing, nor does a temporary name whose
    /// extension is not the one asked for. A temporary name is taken only
    /// once the driver has reported that it does not exist; where it
    /// exists, another is asked for.
    pub open spec fn next(self, event: EventView) -> SessionView {
        match (self.phase, event) {
            (Phase::Probing, EventView::Probed { exists }) => if !exists {
                SessionView { phase: Phase::Moving, failures: 0, ..self }
            } else {
                match find_from(self.files, self.cursor() + 1, self.target()) {
                    Some(occupant) => SessionView { phase: Phase::NeedTemporary, occupant, ..self },
                    None => SessionView { phase: Phase::Aborted, ..self },
                }
            },
            (Phase::NeedTemporary, EventView::Temporary { name }) => if extension_or_empty(name)
                == extension_or_empty(self.current()) {
                SessionView { phase: Phase::CheckingTemporary, temporary: name, ..self }
            } else {
                self
            },
            (Phase::CheckingTemporary, EventView::Probed { exists }) => if exists {
                SessionView { phase: Phase::NeedTemporary, ..self }
            } else {
                SessionView { phase: Phase::Displacing, failures: 0, ..self }
            },
            (Phase::Displacing, EventView::Renamed) => SessionView {
                files: self.files.update(self.occupant, self.temporary),
                phase: Phase::Moving,
                failures: 0,
                ..self
            },
            (Phase::Displacing, EventView::RenameFailed) => self.failed(),
            (Phase::Moving, EventView::Renamed) => self.moved(),
            (Phase::Moving, EventView::RenameFailed) => self.failed(),
            _ => self,
        }
    }
}

/// The state in which the engine starts on `files`, taken in the order
/// given.
pub open spec fn initial_session(
    files: Seq<Seq<char>>,
    numbering: Numbering,
    policy: RetryPolicy,
) -> SessionView {
    SessionView {
        files,
        outcomes: Seq::empty(),
        numbering,
        policy,
        failures: 0,
        phase: Phase::Probing,
        occupant: 0,
        temporary: Seq::empty(),
    }.settle()
}

impl SessionView {
    /// What holds between two turns: the files that have had theirs are
    /// where they belong.
    pub open spec fn between(self) -> bool {
        &&& self.outcomes.len() <= self.files.len()
        &&& forall|k: int|
            0 <= k < self.outcomes.len() && #[trigger] self.outcomes[k] != FileOutcome::Error
                ==> self.numbering.placed(k as nat, self.files[k])
    }

    /// Passing over placed files touches no name and ends in a sound state
    /// that waits for a probe or is finished.
    pub proof fn lemma_settle(self)
        requires
            self.between(),
        ensures
            self.settle().wf(),
            self.settle().files == self.files,
            self.settle().numbering == self.numbering,
            self.settle().policy == self.policy,
            self.settle().occupant == self.occupant,
            self.settle().temporary == self.temporary,
            self.settle().phase == Phase::Probing || self.settle().phase == Phase::Finished,
            self.settle().outcomes.len() >= self.outcomes.len(),
            self.settle().outcomes.take(self.outcomes.len() as int) == self.outcomes,
            forall|k: int|
                self.outcomes.len() <= k < self.settle().outcomes.len() ==> #[trigger] self.settle().outcomes[k]
                    == FileOutcome::Skipped && self.numbering.placed(k as nat, self.files[k]),
        decreases self.files.len() - self.outcomes.len(),
    {
        if self.outcomes.len() >= self.files.len() {
        } else if self.numbering.placed(self.cursor() as nat, self.current()) {
            let skipped = SessionView {
                outcomes: self.outcomes.push(FileOutcome::Skipped),
                ..self
            };
            assert(skipped.between());
            skipped.lemma_settle();
            assert(skipped.settle().outcomes.take(self.outcomes.len() as int)
                == skipped.settle().outcomes.take(skipped.outcomes.len() as int).take(
                self.outcomes.len() as int,
            ));
            assert forall|k: int|
                self.outcomes.len() <= k < self.settle().outcomes.len() implies #[trigger] self.settle().outcomes[k]
                == FileOutcome::Skipped && self.numbering.placed(k as nat, self.files[k]) by {
                if k == self.outcomes.len() {
                    assert(skipped.settle().outcomes.take(skipped.outcomes.len() as int)[k]
                        == skipped.outcomes[k]);
                }
            }
        } else {
        }
    }

    /// Where every file that has not had its turn is in place, passing over
    /// them ends the run: each of them is skipped.
    pub proof fn lemma_settle_in_place(self)
        requires
            self.between(),
            forall|k: int|
                self.outcomes.len() <= k < self.files.len() ==> self.numbering.placed(
                    k as nat,
                    #[trigger] self.files[k],
                ),
        ensures
            self.settle().phase == Phase::Finished,
            self.settle().outcomes.len() == self.files.len(),
        decreases self.files.len() - self.outcomes.len(),
    {
        if self.outcomes.len() < self.files.len() {
            assert(self.numbering.placed(self.cursor() as nat, self.files[self.cursor()]));
            let skipped = SessionView {
                outcomes: self.outcomes.push(FileOutcome::Skipped),
                ..self
            };
            assert(skipped.between());
            skipped.lemma_settle_in_place();
        }
    }

    /// Every report leaves the state sound.
    pub proof fn lemma_next_wf(self, event: EventView)
        requires
            self.wf(),
        ensures
            self.next(event).wf(),
            self.next(event).files.len() == self.files.len(),
            self.next(event).numbering == self.numbering,
            self.next(event).policy == self.policy,
            self.next(event).outcomes.len() >= self.outcomes.len(),
            self.next(event).outcomes.take(self.outcomes.len() as int) == self.outcomes,
            same_extensions(self.next(event).files, self.files),
    {
        assert(self.outcomes.take(self.outcomes.len() as int) == self.outcomes);
        if self.active() {
            self.numbering.lemma_destination_is_placed(self.cursor() as nat, self.current());
        }
        match (self.phase, event) {
            (Phase::Probing, EventView::Probed { exists }) => {
                if exists {
                    lemma_find_from(self.files, self.cursor() + 1, self.target());
                }
            },
            (Phase::Displacing, EventView::RenameFailed) => {
                self.lemma_failed();
            },
            (Phase::Moving, EventView::Renamed) => {
                self.lemma_moved();
            },
            (Phase::Moving, EventView::RenameFailed) => {
                self.lemma_failed();
            },
            _ => {},
        }
    }

    /// A file is given up only after a rename has failed: no other report
    /// adds an error to the outcomes, and none changes an outcome once it
    /// is there.
    pub proof fn lemma_errors_come_from_failures(self, event: EventView)
        requires
            self.wf(),
            event != EventView::RenameFailed,
            forall|k: int| 0 <= k < self.outcomes.len() ==> self.outcomes[k] != FileOutcome::Error,
        ensures
            forall|k: int|
                0 <= k < self.next(event).outcomes.len() ==> self.next(event).outcomes[k]
                    != FileOutcome::Error,
    {
        self.lemma_next_wf(event);
        let after = self.next(event).outcomes;
        if self.phase == Phase::Moving && event == EventView::Renamed {
            self.lemma_moved();
        }
        assert forall|k: int| 0 <= k < after.len() implies after[k] != FileOutcome::Error by {
            if k < self.outcomes.len() {
                assert(after.take(self.outcomes.len() as int)[k] == self.outcomes[k]);
            }
        }
    }

    /// Under the policy of trying forever no file is ever given up.
    pub proof fn lemma_forever_gives_nothing_up(self, event: EventView)
        requires
            self.wf(),
            self.policy == RetryPolicy::Forever,
            forall|k: int| 0 <= k < self.outcomes.len() ==> self.outcomes[k] != FileOutcome::Error,
        ensures
            forall|k: int|
                0 <= k < self.next(event).outcomes.len() ==> self.next(event).outcomes[k]
                    != FileOutcome::Error,
    {
        if event != EventView::RenameFailed {
            self.lemma_errors_come_from_failures(event);
        }
    }

    /// Giving the current file its name leaves the state sound.
    pub proof fn lemma_moved(self)
        requires
            self.wf(),
            self.active(),
        ensures
            self.moved().wf(),
            self.moved().files == self.files.update(self.cursor(), self.target()),
            self.moved().numbering == self.numbering,
            self.moved().policy == self.policy,
            self.moved().outcomes.len() > self.outcomes.len(),
            self.moved().outcomes[self.cursor()] == FileOutcome::Renamed,
            self.moved().outcomes.take(self.outcomes.len() as int) == self.outcomes,
            forall|k: int|
                self.outcomes.len() < k < self.moved().outcomes.len() ==> #[trigger] self.moved().outcomes[k]
                    == FileOutcome::Skipped && self.numbering.placed(k as nat, self.files[k]),
            self.moved().phase == Phase::Probing || self.moved().phase == Phase::Finished,
    {
        let done = SessionView {
            files: self.files.update(self.cursor(), self.target()),
            outcomes: self.outcomes.push(FileOutcome::Renamed),
            ..self
        };
        self.numbering.lemma_destination_is_placed(self.cursor() as nat, self.current());
        assert(done.between());
        done.lemma_settle();
        assert(done.settle().outcomes.take(done.outcomes.len() as int)[self.cursor()]
            == done.outcomes[self.cursor()]);
        assert(done.settle().outcomes.take(self.outcomes.len() as int) == done.settle().outcomes.take(
            done.outcomes.len() as int,
        ).take(self.outcomes.len() as int));
    }

    /// A failed rename leaves the state sound and every name as it was.
    pub proof fn lemma_failed(self)
        requires
            self.wf(),
            self.active(),
        ensures
            self.failed().wf(),
            self.failed().files == self.files,
            self.failed().numbering == self.numbering,
            self.failed().policy == self.policy,
            self.failed().outcomes.len() >= self.outcomes.len(),
            self.failed().outcomes.take(self.outcomes.len() as int) == self.outcomes,
            self.failed().temporary == self.temporary,
            self.failed().occupant == self.occupant,
            !self.policy.allows(one_more(self.failures)) ==> self.failed().phase == Phase::Probing
                || self.failed().phase == Phase::Finished,
    {
        if self.policy.allows(one_more(self.failures)) {
            assert(self.outcomes.take(self.outcomes.len() as int) == self.outcomes);
        } else {
            let left = SessionView {
                outcomes: self.outcomes.push(FileOutcome::Error),
                ..self
            };
            assert(left.between());
            left.lemma_settle();
            assert(left.settle().outcomes.take(self.outcomes.len() as int) == left.settle().outcomes.take(
                left.outcomes.len() as int,
            ).take(self.outcomes.len() as int));
        }
    }
}

/// Whether two names have the same extension, or both none.
pub fn same_extension(a: &str, b: &str) -> (same: bool)
    ensures
        same == (extension_or_empty(a@) == extension_or_empty(b@)),
{
    let left = match file_extension(a) {
        Some(extension) => extension,
        None => String::new(),
    };
    let right = match file_extension(b) {
        Some(extension) => extension,
        None => String::new(),
    };
    left == right
}

/// The names `a` and `b` have, place by place, the same extensions.
pub open spec fn same_extensions(a: Seq<Seq<char>>, b: Seq<Seq<char>>) -> bool {
    &&& a.len() == b.len()
    &&& forall|k: int|
        0 <= k < a.len() ==> extension_or_empty(#[trigger] a[k]) == extension_or_empty(b[k])
}

/// The counts of a run over one work unit.
#[derive(Clone, Copy, Debug, PartialEq, Eq, Structural)]
pub struct RenameReport {
    /// How many files the run was given.
    pub total: usize,
    /// How many of them were renamed.
    pub renamed: usize,
    /// How many had the right name already.
    pub skipped: usize,
    /// How many were given up.
    pub errors: usize,
}

/// How many of `outcomes` are `kind`.
pub open spec fn count_of(outcomes: Seq<FileOutcome>, kind: FileOutcome) -> nat
    decreases outcomes.len(),
{
    if outcomes.len() == 0 {
        0
    } else {
        count_of(outcomes.drop_last(), kind) + if outcomes.last() == kind {
            1nat
        } else {
            0nat
        }
    }
}

/// No kind of outcome is counted more often than there are outcomes.
pub proof fn lemma_count_of_bound(outcomes: Seq<FileOutcome>, kind: FileOutcome)
    ensures
        count_of(outcomes, kind) <= outcomes.len(),
    decreases outcomes.len(),
{
    if outcomes.len() > 0 {
        lemma_count_of_bound(outcomes.drop_last(), kind);
    }
}

/// The renaming engine of one work unit.
pub struct RenameSession {
    files: Vec<String>,
    outcomes: Vec<FileOutcome>,
    numbering: Numbering,
    policy: RetryPolicy,
    failures: u32,
    phase: Phase,
    occupant: usize,
    temporary: String,
    target: String,
}

impl View for RenameSession {
    type V = SessionView;

    closed spec fn view(&self) -> SessionView {
        SessionView {
            files: views_of(self.files@),
            outcomes: self.outcomes@,
            numbering: self.numbering,
            policy: self.policy,
            failures: self.failures as nat,
            phase: self.phase,
            occupant: self.occupant as int,
            temporary: self.temporary@,
        }
    }
}

impl RenameSession {
    /// The destination of the current file is kept at hand.
    pub closed spec fn cached(&self) -> bool {
        self@.active() ==> self.target@ == self@.target()
    }

    /// What always holds of the engine.
    pub open spec fn wf(&self) -> bool {
        self@.wf() && self.cached()
    }

    /// Starts on `files`, taken in the order given.
    pub fn ordered(files: Vec<String>, numbering: Numbering, policy: RetryPolicy) -> (session:
        Self)
        ensures
            session.wf(),
            session@ == initial_session(views_of(files@), numbering, policy),
            session@.files == views_of(files@),
            session@.numbering == numbering,
            session@.policy == policy,
    {
        proof {
            lemma_initial_session(views_of(files@), numbering, policy);
        }
        let mut session = RenameSession {
            files,
            outcomes: Vec::new(),
            numbering,
            policy,
            failures: 0,
            phase: Phase::Probing,
            occupant: 0,
            temporary: String::new(),
            target: String::new(),
        };
        session.settle();
        session
    }

    /// Starts on `files`, taken in natural order.
    pub fn new(files: Vec<String>, numbering: Numbering, policy: RetryPolicy) -> (session: Self)
        ensures
            session.wf(),
            session@ == initial_session(natural_sorted(views_of(files@)), numbering, policy),
            session@.files == natural_sorted(views_of(files@)),
            session@.files.len() == files.len(),
            session@.numbering == numbering,
            session@.policy == policy,
    {
        let mut files = files;
        sort_natural(&mut files);
        Self::ordered(files, numbering, policy)
    }

    /// Starts on `files`, taken in the given order, if they can be sorted
    /// in it.
    pub fn sorted(
        files: Vec<String>,
        order: SortOrder,
        numbering: Numbering,
        policy: RetryPolicy,
    ) -> (session: Option<Self>)
        ensures
            match session {
                Some(session) => {
                    &&& sortable(order, views_of(files@))
                    &&& session.wf()
                    &&& session@ == initial_session(
                        sorted_in(order, views_of(files@)),
                        numbering,
                        policy,
                    )
                },
                None => !sortable(order, views_of(files@)),
            },
    {
        let mut files = files;
        if sort_in_order(&mut files, order) {
            Some(Self::ordered(files, numbering, policy))
        } else {
            None
        }
    }

    fn settle(&mut self)
        requires
            old(self)@.between(),
            old(self).failures <= u32::MAX,
        ensures
            final(self)@ == old(self)@.settle(),
            final(self).wf(),
    {
        let ghost start = self@;
        proof {
            start.lemma_settle();
        }
        while self.outcomes.len() < self.files.len()
            invariant
                start == old(self)@,
                self@.between(),
                self@.settle() == start.settle(),
            decreases self.files.len() - self.outcomes.len(),
        {
            let index = self.outcomes.len();
            let ghost before = self@;
            assert(before.files[index as int] == self.files[index as int]@);
            let destination = self.numbering.destination_name(index, self.files[index].as_str());
            if str_eq(destination.as_str(), self.files[index].as_str()) {
                self.outcomes.push(FileOutcome::Skipped);
                assert(self@ == SessionView {
                    outcomes: before.outcomes.push(FileOutcome::Skipped),
                    ..before
                });
            } else {
                self.target = destination;
                self.phase = Phase::Probing;
                self.failures = 0;
                assert(self@ == before.settle());
                return ;
            }
        }
        let ghost before = self@;
        self.phase = Phase::Finished;
        self.failures = 0;
        assert(self@ == before.settle());
    }

    /// What the engine is waiting for.
    pub fn phase(&self) -> (phase: Phase)
        ensures
            phase == self@.phase,
    {
        self.phase
    }

    /// The present names of the files, in the order of processing.
    pub fn files(&self) -> (files: &Vec<String>)
        ensures
            views_of(files@) == self@.files,
    {
        &self.files
    }

    /// How the files that have had their turn were left, in the order of
    /// processing.
    pub fn outcomes(&self) -> (outcomes: &Vec<FileOutcome>)
        ensures
            outcomes@ == self@.outcomes,
    {
        &self.outcomes
    }

    /// The counts of the run so far.
    pub fn report(&self) -> (report: RenameReport)
        ensures
            report.total == self@.files.len(),
            report.renamed == count_of(self@.outcomes, FileOutcome::Renamed),
            report.skipped == count_of(self@.outcomes, FileOutcome::Skipped),
            report.errors == count_of(self@.outcomes, FileOutcome::Error),
    {
        let mut renamed: usize = 0;
        let mut skipped: usize = 0;
        let mut errors: usize = 0;
        let mut i: usize = 0;
        while i < self.outcomes.len()
            invariant
                i <= self.outcomes.len(),
                renamed == count_of(self.outcomes@.take(i as int), FileOutcome::Renamed),
                skipped == count_of(self.outcomes@.take(i as int), FileOutcome::Skipped),
                errors == count_of(self.outcomes@.take(i as int), FileOutcome::Error),
            decreases self.outcomes.len() - i,
        {
            proof {
                let upto = self.outcomes@.take(i + 1);
                assert(upto.drop_last() == self.outcomes@.take(i as int));
                lemma_count_of_bound(upto, FileOutcome::Renamed);
                lemma_count_of_bound(upto, FileOutcome::Skipped);
                lemma_count_of_bound(upto, FileOutcome::Error);
            }
            match self.outcomes[i] {
                FileOutcome::Renamed => {
                    renamed += 1;
                },
                FileOutcome::Skipped => {
                    skipped += 1;
                },
                FileOutcome::Error => {
                    errors += 1;
                },
            }
            i += 1;
        }
        assert(self.outcomes@.take(i as int) == self.outcomes@);
        RenameReport { total: self.files.len(), renamed, skipped, errors }
    }

    /// What the driver is asked to do now.
    pub fn action(&self) -> (action: Action)
        requires
            self.wf(),
        ensures
            action@ == self@.pending(),
    {
        match self.phase {
            Phase::Probing => Action::Probe { name: self.target.clone() },
            Phase::NeedTemporary => {
                let current = &self.files[self.outcomes.len()];
                assert(self@.current() == current@);
                let extension = match file_extension(current.as_str()) {
                    Some(extension) => extension,
                    None => String::new(),
                };
                Action::ChooseTemporary { extension }
            },
            Phase::CheckingTemporary => Action::Probe { name: self.temporary.clone() },
            Phase::Displacing => Action::Rename {
                from: self.target.clone(),
                to: self.temporary.clone(),
            },
            Phase::Moving => {
                let current = &self.files[self.outcomes.len()];
                assert(self@.current() == current@);
                Action::Rename { from: current.clone(), to: self.target.clone() }
            },
            Phase::Finished => Action::Finish,
            Phase::Aborted => Action::Abort,
        }
    }

    fn find_occupant(&self) -> (found: Option<usize>)
        requires
            self.wf(),
            self.phase == Phase::Probing,
        ensures
            match found {
                Some(place) => find_from(self@.files, self@.cursor() + 1, self@.target()) == Some(
                    place as int,
                ),
                None => find_from(self@.files, self@.cursor() + 1, self@.target()) is None,
            },
    {
        assert(self@.active() && self@.cursor() < self@.files.len());
        assert(self@.files.len() == self.files.len());
        assert(self@.cursor() == self.outcomes.len());
        let mut place: usize = self.outcomes.len() + 1;
        while place < self.files.len()
            invariant
                self.outcomes.len() < place <= self.files.len(),
                find_from(self@.files, self@.cursor() + 1, self@.target()) == find_from(
                    self@.files,
                    place as int,
                    self@.target(),
                ),
                self.target@ == self@.target(),
            decreases self.files.len() - place,
        {
            assert(self@.files[place as int] == self.files[place as int]@);
            if str_eq(self.files[place].as_str(), self.target.as_str()) {
                return Some(place);
            }
            place += 1;
        }
        None
    }

    fn fail(&mut self)
        requires
            old(self).wf(),
            old(self)@.active(),
        ensures
            final(self)@ == old(self)@.failed(),
            final(self).wf(),
    {
        proof {
            old(self)@.lemma_failed();
        }
        let failures = if self.failures < u32::MAX {
            self.failures + 1
        } else {
            self.failures
        };
        if self.policy.retry_allowed(failures) {
            self.failures = failures;
        } else {
            self.outcomes.push(FileOutcome::Error);
            self.settle();
        }
    }

    /// Takes the driver's report on what was asked, and says what is to be
    /// done next. A report that does not answer what was asked is passed
    /// over, and the same is asked again.
    pub fn handle(&mut self, event: Event) -> (action: Action)
        requires
            old(self).wf(),
        ensures
            final(self).wf(),
            final(self)@ == old(self)@.next(event@),
            final(self)@.files.len() == old(self)@.files.len(),
            final(self)@.numbering == old(self)@.numbering,
            final(self)@.policy == old(self)@.policy,
            action@ == final(self)@.pending(),
    {
        proof {
            old(self)@.lemma_next_wf(event@);
        }
        match self.phase {
            Phase::Probing => match event {
                Event::Probed { exists } => {
                    if !exists {
                        self.phase = Phase::Moving;
                        self.failures = 0;
                    } else {
                        match self.find_occupant() {
                            Some(place) => {
                                self.occupant = place;
                                self.phase = Phase::NeedTemporary;
                            },
                            None => {
                                self.phase = Phase::Aborted;
                            },
                        }
                    }
                },
                _ => {},
            },
            Phase::NeedTemporary => match event {
                Event::Temporary { name } => {
                    let current = &self.files[self.outcomes.len()];
                    assert(self@.current() == current@);
                    if same_extension(name.as_str(), current.as_str()) {
                        self.temporary = name;
                        self.phase = Phase::CheckingTemporary;
                    }
                },
                _ => {},
            },
            Phase::CheckingTemporary => match event {
                Event::Probed { exists } => {
                    if exists {
                        self.phase = Phase::NeedTemporary;
                    } else {
                        self.phase = Phase::Displacing;
                        self.failures = 0;
                    }
                },
                _ => {},
            },
            Phase::Displacing => match event {
                Event::Renamed => {
                    let moved_to = self.temporary.clone();
                    self.files.set(self.occupant, moved_to);
                    self.phase = Phase::Moving;
                    self.failures = 0;
                    assert(self@.files == old(self)@.files.update(
                        old(self)@.occupant,
                        old(self)@.temporary,
                    ));
                },
                Event::RenameFailed => {
                    self.fail();
                },
                _ => {},
            },
            Phase::Moving => match event {
                Event::Renamed => {
                    let index = self.outcomes.len();
                    let moved_to = self.target.clone();
                    self.files.set(index, moved_to);
                    self.outcomes.push(FileOutcome::Renamed);
                    proof {
                        old(self)@.numbering.lemma_destination_is_placed(
                            index as nat,
                            old(self)@.current(),
                        );
                        assert(self@.files == old(self)@.files.update(
                            old(self)@.cursor(),
                            old(self)@.target(),
                        ));
                    }
                    self.settle();
                },
                Event::RenameFailed => {
                    self.fail();
                },
                _ => {},
            },
            _ => {},
        }
        self.action()
    }
}

/// The engine starts in a sound state that holds the names as given, has
/// passed over the files that are in place already, and waits for a probe
/// or is finished.
pub proof fn lemma_initial_session(
    files: Seq<Seq<char>>,
    numbering: Numbering,
    policy: RetryPolicy,
)
    ensures
        initial_session(files, numbering, policy).wf(),
        initial_session(files, numbering, policy).files == files,
        initial_session(files, numbering, policy).numbering == numbering,
        initial_session(files, numbering, policy).policy == policy,
        initial_session(files, numbering, policy).phase == Phase::Probing || initial_session(
            files,
            numbering,
            policy,
        ).phase == Phase::Finished,
        forall|k: int|
            0 <= k < initial_session(files, numbering, policy).outcomes.len()
                ==> #[trigger] initial_session(files, numbering, policy).outcomes[k]
                == FileOutcome::Skipped && numbering.placed(k as nat, files[k]),
{
    let start = SessionView {
        files,
        outcomes: Seq::empty(),
        numbering,
        policy,
        failures: 0,
        phase: Phase::Probing,
        occupant: 0,
        temporary: Seq::empty(),
    };
    start.lemma_settle();
}

/// `find_from` gives the first place from `from` on that holds `name`, and
/// none only where there is no such place.
pub proof fn lemma_find_from(files: Seq<Seq<char>>, from: int, name: Seq<char>)
    requires
        0 <= from,
    ensures
        match find_from(files, from, name) {
            Some(found) => from <= found < files.len() && files[found] == name && forall|k: int|
                from <= k < found ==> #[trigger] files[k] != name,
            None => forall|k: int| from <= k < files.len() ==> #[trigger] files[k] != name,
        },
    decreases files.len() - from,
{
    if from < files.len() && files[from] != name {
        lemma_find_from(files, from + 1, name);
    }
}

} // verus!
