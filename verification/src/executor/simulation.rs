//! Running the renaming engine on a directory in memory.

use crate::executor::directory::Directory;
use crate::executor::numbering::{
    lemma_extension_is_dotless, lemma_random_name_extension, lemma_random_name_is_no_destination,
    Numbering,
};
use crate::executor::rename::{
    find_from, initial_session, lemma_find_from, lemma_initial_session, same_extensions, Action,
    Event, EventView, FileOutcome, Phase, RenameSession, RetryPolicy, SessionView,
};
use crate::executor::rename::ActionView;
use crate::executor::renumbering::{
    destinations, files_behind, lemma_destinations_are_in_place, lemma_finished_directory,
    lemma_others_kept_on, lemma_renumbered_in_place, lemma_second_run_skips_every_file,
    no_foreign_occupant, renumbered, state_after, trackable, truthful,
};
use crate::executor::sorting::natural_sorted;
use crate::executor::tracking::{
    injective, lemma_rename_is_safe, lemma_step_keeps_track, others_kept, renamed, tracks, Files,
};
use crate::executor::utils::{
    extension_or_empty, is_hyphenated_id, temporary_file_name, temporary_name,
};
use crate::text::{str_eq, views_of};
use vstd::prelude::*;

verus! {

/// In which order the files have their turn.
#[derive(Clone, Copy, Debug, PartialEq, Eq, Structural)]
pub enum Order {
    /// In natural order.
    Natural,
    /// In the order in which they are given.
    AsGiven,
}

/// Why a run in memory ended early.
#[derive(Clone, Copy, Debug, PartialEq, Eq, Structural)]
pub enum RunError {
    /// A file to rename is not in the directory, or is named twice.
    Untracked,
    /// A file had to be moved out of the way and no identifier was left
    /// that gave a free name.
    OutOfTemporaryNames,
    /// A destination is taken by something that is not to be renamed.
    ForeignOccupant,
}

/// The names in the order in which they have their turn.
pub open spec fn in_order(names: Seq<Seq<char>>, order: Order) -> Seq<Seq<char>> {
    match order {
        Order::Natural => natural_sorted(names),
        Order::AsGiven => names,
    }
}

/// The temporary name made from the identifier at `u` for a file with the
/// extension of the name at `k`.
pub open spec fn candidate(
    identifiers: Seq<Seq<char>>,
    names: Seq<Seq<char>>,
    u: int,
    k: int,
) -> Seq<char> {
    temporary_name(identifiers[u], extension_or_empty(names[k]))
}

/// Every identifier gives good temporary names: they have the extension
/// asked for, are neither in the directory nor among the destinations, and
/// two identifiers never give the same name.
pub open spec fn identifiers_usable(
    identifiers: Seq<Seq<char>>,
    names: Seq<Seq<char>>,
    dir: Files,
    numbering: Numbering,
) -> bool {
    &&& forall|u: int, k: int|
        0 <= u < identifiers.len() && 0 <= k < names.len() ==> extension_or_empty(
            #[trigger] candidate(identifiers, names, u, k),
        ) == extension_or_empty(names[k]) && !dir.contains_key(
            candidate(identifiers, names, u, k),
        ) && !destinations(names, numbering).contains(candidate(identifiers, names, u, k))
    &&& forall|u: int, k: int, v: int, j: int|
        0 <= u < v < identifiers.len() && 0 <= k < names.len() && 0 <= j < names.len()
            ==> #[trigger] candidate(identifiers, names, u, k) != #[trigger] candidate(
            identifiers,
            names,
            v,
            j,
        )
}

/// Whether the destination of the file at `i` is the name of a file whose
/// turn comes later: that file has to be moved out of the way.
pub open spec fn collides(names: Seq<Seq<char>>, numbering: Numbering, i: int) -> bool {
    exists|j: int| i < j < names.len() && #[trigger] names[j] == destinations(names, numbering)[i]
}

/// How many of the files from place `from` on find their destination taken
/// by a file whose turn comes later.
pub open spec fn collisions_from(names: Seq<Seq<char>>, numbering: Numbering, from: int) -> nat
    decreases names.len() - from,
{
    if from >= names.len() {
        0
    } else {
        collisions_from(names, numbering, from + 1) + if collides(names, numbering, from) {
            1nat
        } else {
            0nat
        }
    }
}

/// Whether in `dir` some destination is taken by a file that is to be
/// renamed and whose turn comes later than that of the file it is meant
/// for.
pub open spec fn destination_taken_by_pending(
    dir: Files,
    before: Files,
    names: Seq<Seq<char>>,
    numbering: Numbering,
) -> bool {
    exists|i: int, j: int|
        0 <= i < j < names.len() && dir.contains_key(
            #[trigger] destinations(names, numbering)[i],
        ) && dir[destinations(names, numbering)[i]] == #[trigger] files_behind(names, before)[j]
}

/// What makes a run sure to succeed: the files are there, the step is at
/// least one, no destination is taken by a foreign file, the identifiers
/// are usable, and there is one for each file that has to be moved out of
/// the way.
pub open spec fn success_is_owed(
    names: Seq<Seq<char>>,
    dir: Files,
    numbering: Numbering,
    identifiers: Seq<Seq<char>>,
) -> bool {
    &&& trackable(names, dir)
    &&& numbering.step >= 1
    &&& no_foreign_occupant(names, dir, numbering)
    &&& identifiers_usable(identifiers, names, dir, numbering)
    &&& identifiers.len() >= collisions_from(names, numbering, 0)
}

/// How each file is left by a run that succeeds: skipped where it was in
/// place from the start, renamed where not.
pub open spec fn expected_outcomes(names: Seq<Seq<char>>, numbering: Numbering) -> Seq<
    FileOutcome,
> {
    Seq::new(
        names.len(),
        |k: int|
            if numbering.placed(k as nat, names[k]) {
                FileOutcome::Skipped
            } else {
                FileOutcome::Renamed
            },
    )
}

/// The temporary names reported in `events`, in their order.
pub open spec fn offered(events: Seq<EventView>) -> Seq<Seq<char>>
    decreases events.len(),
{
    if events.len() == 0 {
        Seq::empty()
    } else {
        match events.last() {
            EventView::Temporary { name } => offered(events.drop_last()).push(name),
            _ => offered(events.drop_last()),
        }
    }
}

/// One step of a run in memory: the report answers what the engine asks in
/// state `s` and is true of the directory `dir`, which it leaves as
/// `after`. A probe is answered by what is in the directory, a temporary
/// name is made from the next identifier, of which `drawn` have been used,
/// and with the extension asked for, and a rename is done.
pub open spec fn step_in_memory(
    s: SessionView,
    event: EventView,
    dir: Files,
    after: Files,
    identifiers: Seq<Seq<char>>,
    drawn: int,
) -> bool {
    match (s.pending(), event) {
        (ActionView::Probe { name }, EventView::Probed { exists }) => exists == dir.contains_key(
            name,
        ) && after == dir,
        (ActionView::ChooseTemporary { extension }, EventView::Temporary { name }) => 0 <= drawn
            < identifiers.len() && name == temporary_name(identifiers[drawn], extension) && after
            == dir,
        (ActionView::Rename { from, to }, EventView::Renamed) => dir.contains_key(from) && after
            == renamed(dir, from, to),
        _ => false,
    }
}

/// A run in memory from the state `start` and the directory `dir`: the
/// reports `events`, and in `dirs` the directory before the first report
/// and after each one, every step being a step in memory.
pub open spec fn is_run_in_memory(
    start: SessionView,
    dir: Files,
    identifiers: Seq<Seq<char>>,
    events: Seq<EventView>,
    dirs: Seq<Files>,
) -> bool {
    &&& dirs.len() == events.len() + 1
    &&& dirs[0] == dir
    &&& forall|i: int|
        0 <= i < events.len() ==> step_in_memory(
            state_after(start, events.take(i)),
            #[trigger] events[i],
            dirs[i],
            dirs[i + 1],
            identifiers,
            offered(events.take(i)).len() as int,
        )
}

/// How a run that has brought the engine to the state `end`, with `drawn`
/// of the identifiers used, accounts for `result`: success where the
/// engine is finished, a foreign occupant where it has aborted, and out of
/// temporary names where it asks for one and every identifier is used.
pub open spec fn accounts_for(
    result: Result<RenameSession, RunError>,
    end: SessionView,
    drawn: nat,
    identifiers: nat,
) -> bool {
    match result {
        Ok(session) => session@ == end && end.phase == Phase::Finished,
        Err(RunError::ForeignOccupant) => end.phase == Phase::Aborted,
        Err(RunError::OutOfTemporaryNames) => end.phase == Phase::NeedTemporary && drawn
            == identifiers,
        Err(RunError::Untracked) => false,
    }
}

/// Whether `events` and `dirs` are a run in memory that ends in the
/// directory `last` and accounts for `result`.
pub open spec fn run_gives(
    start: SessionView,
    dir: Files,
    identifiers: Seq<Seq<char>>,
    events: Seq<EventView>,
    dirs: Seq<Files>,
    last: Files,
    result: Result<RenameSession, RunError>,
) -> bool {
    &&& is_run_in_memory(start, dir, identifiers, events, dirs)
    &&& dirs.last() == last
    &&& accounts_for(
        result,
        state_after(start, events),
        offered(events).len(),
        identifiers.len(),
    )
}

/// A run in memory is a run with truthful reports, so what holds of those
/// holds of it.
pub proof fn lemma_run_in_memory_is_truthful(
    start: SessionView,
    dir: Files,
    identifiers: Seq<Seq<char>>,
    events: Seq<EventView>,
    dirs: Seq<Files>,
)
    requires
        is_run_in_memory(start, dir, identifiers, events, dirs),
    ensures
        truthful(start, events, dirs),
{
}

/// A run in memory goes on by one step.
proof fn lemma_run_goes_on(
    start: SessionView,
    dir: Files,
    identifiers: Seq<Seq<char>>,
    events: Seq<EventView>,
    dirs: Seq<Files>,
    event: EventView,
    after: Files,
)
    requires
        is_run_in_memory(start, dir, identifiers, events, dirs),
        step_in_memory(
            state_after(start, events),
            event,
            dirs.last(),
            after,
            identifiers,
            offered(events).len() as int,
        ),
    ensures
        is_run_in_memory(start, dir, identifiers, events.push(event), dirs.push(after)),
        state_after(start, events.push(event)) == state_after(start, events).next(event),
        offered(events.push(event)).len() == offered(events).len() + if event is Temporary {
            1int
        } else {
            0int
        },
        dirs.push(after).last() == after,
{
    let more = events.push(event);
    let further = dirs.push(after);
    assert(more.drop_last() == events);
    assert forall|i: int| 0 <= i < more.len() implies step_in_memory(
        state_after(start, more.take(i)),
        #[trigger] more[i],
        further[i],
        further[i + 1],
        identifiers,
        offered(more.take(i)).len() as int,
    ) by {
        if i < events.len() {
            assert(more.take(i) == events.take(i));
            assert(more[i] == events[i]);
        } else {
            assert(more.take(i) == events);
        }
    }
}

/// Renames `files` in `dir` by the numbering scheme, as the engine directs.
/// Where the engine asks for a temporary name, it is made from the next of
/// `identifiers`; the run gives up with `OutOfTemporaryNames` only where
/// the engine asks for one and none is left.
///
/// On success the directory is the renumbered one. Whenever the run ends,
/// the files that were not to be renamed are behind the names they had, and
/// every file that was to be renamed is still in the directory. What comes
/// out is what a run in memory gives, step by step: there is no other way
/// for it to end.
#[verifier::rlimit(30)]
pub fn rename_in_memory(
    dir: &mut Directory,
    files: Vec<String>,
    numbering: Numbering,
    order: Order,
    identifiers: &Vec<String>,
) -> (result: Result<RenameSession, RunError>)
    requires
        old(dir).wf(),
    ensures
        final(dir).wf(),
        success_is_owed(
            in_order(views_of(files@), order),
            old(dir)@,
            numbering,
            views_of(identifiers@),
        ) ==> result is Ok && result->Ok_0@.outcomes == expected_outcomes(
            in_order(views_of(files@), order),
            numbering,
        ),
        result == Err::<RenameSession, RunError>(RunError::ForeignOccupant) ==> numbering.step == 0
            || !no_foreign_occupant(in_order(views_of(files@), order), old(dir)@, numbering),
        result == Err::<RenameSession, RunError>(RunError::OutOfTemporaryNames)
            ==> destination_taken_by_pending(
            final(dir)@,
            old(dir)@,
            in_order(views_of(files@), order),
            numbering,
        ),
        result != Err::<RenameSession, RunError>(RunError::Untracked) ==> exists|
            events: Seq<EventView>,
            dirs: Seq<Files>,
        |
            #[trigger] run_gives(
                initial_session(in_order(views_of(files@), order), numbering, RetryPolicy::Forever),
                old(dir)@,
                views_of(identifiers@),
                events,
                dirs,
                final(dir)@,
                result,
            ),
        ({
            let names = in_order(views_of(files@), order);
            let ids = files_behind(names, old(dir)@);
            match result {
                Ok(session) => {
                    &&& trackable(names, old(dir)@)
                    &&& no_foreign_occupant(names, old(dir)@, numbering)
                    &&& session.wf()
                    &&& session@.phase == Phase::Finished
                    &&& session@.files == destinations(names, numbering)
                    &&& forall|k: int|
                        0 <= k < session@.outcomes.len() ==> session@.outcomes[k]
                            != FileOutcome::Error
                    &&& final(dir)@ == renumbered(old(dir)@, names, numbering)
                },
                Err(RunError::Untracked) => !trackable(names, old(dir)@) && final(dir)@ == old(
                    dir,
                )@,
                Err(_) => {
                    &&& trackable(names, old(dir)@)
                    &&& others_kept(old(dir)@, final(dir)@, ids)
                    &&& forall|k: int|
                        0 <= k < ids.len() ==> final(dir)@.contains_value(#[trigger] ids[k])
                },
            }
        }),
{
    let mut session = match order {
        Order::Natural => RenameSession::new(files, numbering, RetryPolicy::Forever),
        Order::AsGiven => RenameSession::ordered(files, numbering, RetryPolicy::Forever),
    };
    let ghost names = in_order(views_of(files@), order);
    let ghost before = dir@;
    let ghost ids = files_behind(names, before);
    let ghost spare = views_of(identifiers@);
    let ghost clear = numbering.step >= 1 && no_foreign_occupant(names, before, numbering);
    let ghost owed = success_is_owed(names, before, numbering, spare);
    proof {
        lemma_initial_session(names, numbering, RetryPolicy::Forever);
        dir.lemma_injective();
    }
    if !all_present(session.files(), dir) {
        return Err(RunError::Untracked);
    }
    proof {
        assert forall|i: int, j: int| 0 <= i < j < ids.len() implies ids[i] != ids[j] by {
            assert(before.contains_key(names[i]) && before.contains_key(names[j]));
        }
        assert(same_extensions(session@.files, names));
    }
    let mut used: usize = 0;
    let ghost start = session@;
    let ghost mut events: Seq<EventView> = Seq::empty();
    let ghost mut dirs: Seq<Files> = seq![before];
    proof {
        lemma_collisions_lessen(names, numbering, 0, session@.cursor());
        assert(events.take(0) == events);
    }
    loop
        invariant
            start == initial_session(names, numbering, RetryPolicy::Forever),
            is_run_in_memory(start, before, spare, events, dirs),
            state_after(start, events) == session@,
            dirs.last() == dir@,
            offered(events).len() == used,
            dir.wf(),
            session.wf(),
            before == old(dir)@,
            names == in_order(views_of(files@), order),
            ids == files_behind(names, before),
            trackable(names, before),
            injective(before),
            session@.numbering == numbering,
            tracks(session@, dir@, ids),
            others_kept(before, dir@, ids),
            same_extensions(session@.files, names),
            forall|k: int|
                0 <= k < session@.outcomes.len() ==> session@.outcomes[k] != FileOutcome::Error,
            used <= identifiers.len(),
            spare == views_of(identifiers@),
            clear == (numbering.step >= 1 && no_foreign_occupant(names, before, numbering)),
            owed == success_is_owed(names, before, numbering, spare),
            clear ==> session@.phase != Phase::Aborted,
            names_accounted(dir@, before, names, numbering, spare, spent(session@, used as int)),
            session@.phase == Phase::CheckingTemporary ==> used >= 1 && session@.temporary
                == candidate(spare, names, used - 1, session@.cursor()),
            session@.phase == Phase::Displacing ==> is_candidate(
                session@.temporary,
                spare,
                names,
                used as int,
            ),
            owed ==> identifiers.len() - used >= may_need(session@, names),
            owed ==> on_course(session@, names, spare, used as int),
        decreases distance(session@), patience(session@, identifiers.len() - used),
    {
        let ghost s = session@;
        let ghost now = dir@;
        match session.action() {
            Action::Finish => {
                proof {
                    lemma_finished_directory(s, names, before, now);
                    if owed {
                        assert(s.outcomes =~= expected_outcomes(names, numbering));
                    }
                    assert(run_gives(
                        start,
                        before,
                        spare,
                        events,
                        dirs,
                        now,
                        Ok::<RenameSession, RunError>(session),
                    ));
                }
                return Ok(session);
            },
            Action::Abort => {
                proof {
                    lemma_tracked_files_remain(s, now, ids);
                    assert(run_gives(
                        start,
                        before,
                        spare,
                        events,
                        dirs,
                        now,
                        Err::<RenameSession, RunError>(RunError::ForeignOccupant),
                    ));
                }
                return Err(RunError::ForeignOccupant);
            },
            Action::Probe { name } => {
                let exists = dir.contains(name.as_str());
                let event = Event::Probed { exists };
                proof {
                    if s.phase == Phase::Probing {
                        if clear && exists {
                            lemma_occupant_is_pending(s, names, before, now);
                        }
                        lemma_collisions_lessen(names, numbering, s.cursor(), s.cursor() + 1);
                    } else {
                        if owed {
                            lemma_candidate_is_free(
                                now,
                                before,
                                names,
                                numbering,
                                spare,
                                used - 1,
                                s.cursor(),
                            );
                        }
                        lemma_accounted_further(now, before, names, numbering, spare, used - 1);
                    }
                    if owed {
                        lemma_stays_on_course(s, event@, names, before, spare, used as int);
                    }
                    lemma_step_keeps_track(s, event@, now, now, ids);
                    s.lemma_next_wf(event@);
                    s.lemma_errors_come_from_failures(event@);
                    lemma_others_kept_on(before, now, now, ids);
                    lemma_run_goes_on(start, before, spare, events, dirs, event@, now);
                    events = events.push(event@);
                    dirs = dirs.push(now);
                }
                session.handle(event);
            },
            Action::ChooseTemporary { extension } => {
                if used >= identifiers.len() {
                    proof {
                        lemma_tracked_files_remain(s, now, ids);
                        lemma_target_is_destination(s, names);
                        assert(now.contains_key(s.files[s.occupant]) && now[s.files[s.occupant]]
                            == ids[s.occupant]);
                        assert(0 <= s.cursor() < s.occupant < names.len() && now.contains_key(
                            destinations(names, numbering)[s.cursor()],
                        ) && now[destinations(names, numbering)[s.cursor()]] == files_behind(
                            names,
                            before,
                        )[s.occupant]);
                        if owed {
                            lemma_need_is_collision(s, names, before, spare, used as int);
                        }
                        assert(run_gives(
                            start,
                            before,
                            spare,
                            events,
                            dirs,
                            now,
                            Err::<RenameSession, RunError>(RunError::OutOfTemporaryNames),
                        ));
                    }
                    return Err(RunError::OutOfTemporaryNames);
                }
                let made = temporary_file_name(identifiers[used].as_str(), extension.as_str());
                let event = Event::Temporary { name: made };
                proof {
                    assert(spare[used as int] == identifiers[used as int]@);
                    assert(event@ == EventView::Temporary {
                        name: candidate(spare, names, used as int, s.cursor()),
                    });
                    if owed {
                        lemma_need_is_collision(s, names, before, spare, used as int);
                        lemma_on_course_further(s, names, spare, used as int);
                        lemma_stays_on_course(s, event@, names, before, spare, used + 1);
                        assert(extension_or_empty(
                            candidate(spare, names, used as int, s.cursor()),
                        ) == extension_or_empty(names[s.cursor()]));
                    }
                    lemma_step_keeps_track(s, event@, now, now, ids);
                    s.lemma_next_wf(event@);
                    s.lemma_errors_come_from_failures(event@);
                    lemma_others_kept_on(before, now, now, ids);
                    if s.next(event@).phase != Phase::CheckingTemporary {
                        lemma_accounted_further(now, before, names, numbering, spare, used as int);
                    }
                    lemma_run_goes_on(start, before, spare, events, dirs, event@, now);
                    events = events.push(event@);
                    dirs = dirs.push(now);
                }
                used += 1;
                session.handle(event);
            },
            Action::Rename { from, to } => {
                proof {
                    lemma_rename_is_safe(s, now, ids);
                    lemma_target_is_destination(s, names);
                    if s.phase == Phase::Moving {
                        assert(destinations(names, numbering)[s.cursor()] == to@);
                    }
                    lemma_rename_accounted(
                        now,
                        before,
                        names,
                        numbering,
                        spare,
                        used as int,
                        from@,
                        to@,
                    );
                }
                let done = dir.rename(from.as_str(), to.as_str());
                assert(done);
                let event = if done {
                    Event::Renamed
                } else {
                    Event::RenameFailed
                };
                proof {
                    lemma_step_keeps_track(s, event@, now, dir@, ids);
                    s.lemma_next_wf(event@);
                    s.lemma_errors_come_from_failures(event@);
                    lemma_others_kept_on(before, now, dir@, ids);
                    if s.phase == Phase::Moving {
                        s.lemma_moved();
                        lemma_collisions_lessen(
                            names,
                            numbering,
                            s.cursor() + 1,
                            s.next(event@).cursor(),
                        );
                    }
                    if owed {
                        lemma_stays_on_course(s, event@, names, before, spare, used as int);
                    }
                    lemma_run_goes_on(start, before, spare, events, dirs, event@, dir@);
                    events = events.push(event@);
                    dirs = dirs.push(dir@);
                }
                session.handle(event);
            },
        }
    }
}

/// Identifiers in hyphenated form, such as random ones, are usable as soon
/// as they are different from each other and the names made from them are
/// not in the directory: such a name has the extension asked for and is
/// never a destination.
pub proof fn lemma_hyphenated_identifiers_are_usable(
    identifiers: Seq<Seq<char>>,
    names: Seq<Seq<char>>,
    dir: Files,
    numbering: Numbering,
)
    requires
        identifiers.no_duplicates(),
        forall|u: int| 0 <= u < identifiers.len() ==> is_hyphenated_id(#[trigger] identifiers[u]),
        forall|u: int, k: int|
            0 <= u < identifiers.len() && 0 <= k < names.len() ==> !dir.contains_key(
                #[trigger] candidate(identifiers, names, u, k),
            ),
    ensures
        identifiers_usable(identifiers, names, dir, numbering),
{
    let targets = destinations(names, numbering);
    assert forall|u: int, k: int|
        0 <= u < identifiers.len() && 0 <= k < names.len() implies extension_or_empty(
        #[trigger] candidate(identifiers, names, u, k),
    ) == extension_or_empty(names[k]) && !dir.contains_key(candidate(identifiers, names, u, k))
        && !targets.contains(candidate(identifiers, names, u, k)) by {
        let made = candidate(identifiers, names, u, k);
        lemma_extension_is_dotless(names[k]);
        lemma_random_name_extension(identifiers[u], extension_or_empty(names[k]));
        if targets.contains(made) {
            let j = targets.index_of(made);
            assert(targets[j] == made);
            lemma_random_name_is_no_destination(
                identifiers[u],
                extension_or_empty(names[k]),
                numbering.number(j as nat),
                numbering.digit as nat,
                extension_or_empty(names[j]),
            );
        }
    }
    assert forall|u: int, k: int, v: int, j: int|
        0 <= u < v < identifiers.len() && 0 <= k < names.len() && 0 <= j < names.len() implies
        #[trigger] candidate(identifiers, names, u, k) != #[trigger] candidate(
        identifiers,
        names,
        v,
        j,
    ) by {
        let one = candidate(identifiers, names, u, k);
        let other = candidate(identifiers, names, v, j);
        if one == other {
            assert(one.take(36) == identifiers[u]);
            assert(other.take(36) == identifiers[v]);
        }
    }
}

/// Running twice is running once. Let a run have given the files `names`
/// their destinations in `dir`, and let `listed` be those destinations in
/// whatever order the directory lists them. Then a second run in memory is
/// sure to succeed without any identifier, skips every file, and leaves the
/// directory as it is.
pub proof fn lemma_second_run_changes_nothing(
    dir: Files,
    listed: Seq<Seq<char>>,
    names: Seq<Seq<char>>,
    numbering: Numbering,
)
    requires
        numbering.step >= 1,
        numbering.number(names.len() as nat) <= usize::MAX,
        listed.to_multiset() == destinations(names, numbering).to_multiset(),
        forall|k: int|
            0 <= k < names.len() ==> dir.contains_key(#[trigger] destinations(names, numbering)[k]),
    ensures
        success_is_owed(natural_sorted(listed), dir, numbering, Seq::empty()),
        renumbered(dir, natural_sorted(listed), numbering) == dir,
        expected_outcomes(natural_sorted(listed), numbering) == Seq::new(
            names.len(),
            |k: int| FileOutcome::Skipped,
        ),
{
    let targets = destinations(names, numbering);
    lemma_second_run_skips_every_file(listed, names, numbering, RetryPolicy::Forever);
    lemma_destinations_are_in_place(names, numbering);
    lemma_renumbered_in_place(dir, targets, numbering);
    assert(targets.no_duplicates()) by {
        assert forall|i: int, j: int|
            0 <= i < targets.len() && 0 <= j < targets.len() && i != j implies targets[i]
            != targets[j] by {
            if targets[i] == targets[j] {
                numbering.lemma_destinations_differ(i as nat, j as nat, names[i], names[j]);
            }
        }
    }
    assert(no_foreign_occupant(targets, dir, numbering)) by {
        assert forall|k: int|
            0 <= k < targets.len() && dir.contains_key(
                #[trigger] destinations(targets, numbering)[k],
            ) implies targets.contains(destinations(targets, numbering)[k]) by {
            assert(targets[k] == destinations(targets, numbering)[k]);
        }
    }
    assert(expected_outcomes(targets, numbering) =~= Seq::new(
        names.len(),
        |k: int| FileOutcome::Skipped,
    ));
    lemma_no_collision_in_place(targets, numbering, 0);
}

fn all_present(names: &Vec<String>, dir: &Directory) -> (present: bool)
    requires
        dir.wf(),
    ensures
        present == trackable(views_of(names@), dir@),
{
    let mut i: usize = 0;
    while i < names.len()
        invariant
            dir.wf(),
            i <= names.len(),
            forall|k: int| 0 <= k < i ==> dir@.contains_key(#[trigger] views_of(names@)[k]),
            forall|k: int, j: int| 0 <= k < j < i ==> views_of(names@)[k] != views_of(names@)[j],
        decreases names.len() - i,
    {
        assert(views_of(names@)[i as int] == names[i as int]@);
        if !dir.contains(names[i].as_str()) {
            return false;
        }
        let mut j: usize = 0;
        while j < i
            invariant
                j <= i < names.len(),
                forall|k: int| 0 <= k < j ==> views_of(names@)[k] != views_of(names@)[i as int],
            decreases i - j,
        {
            assert(views_of(names@)[j as int] == names[j as int]@);
            assert(views_of(names@)[i as int] == names[i as int]@);
            if str_eq(names[j].as_str(), names[i].as_str()) {
                return false;
            }
            j += 1;
        }
        i += 1;
    }
    true
}

/// How far the engine is from the end of its run.
pub open spec fn distance(s: SessionView) -> nat {
    ((s.files.len() - s.outcomes.len()) * 4 + match s.phase {
        Phase::Probing => 3int,
        Phase::NeedTemporary => 2int,
        Phase::CheckingTemporary => 2int,
        Phase::Displacing => 1int,
        _ => 0int,
    }) as nat
}

/// How long the run can still go on asking for temporary names, with
/// `left` identifiers left.
pub open spec fn patience(s: SessionView, left: int) -> int {
    2 * left + if s.phase == Phase::CheckingTemporary {
        1int
    } else {
        0int
    }
}

/// How many identifiers have been given a chance: all that were drawn but
/// the one that the engine is asking about.
pub open spec fn spent(s: SessionView, used: int) -> int {
    if s.phase == Phase::CheckingTemporary {
        used - 1
    } else {
        used
    }
}

/// How many identifiers the rest of the run needs at most: one for each
/// file still to be moved out of the way.
pub open spec fn may_need(s: SessionView, names: Seq<Seq<char>>) -> nat {
    collisions_from(
        names,
        s.numbering,
        if s.phase == Phase::CheckingTemporary || s.phase == Phase::Displacing || s.phase
            == Phase::Moving {
            s.cursor() + 1
        } else {
            s.cursor()
        },
    )
}

/// Files that are in place, none named twice, do not collide.
proof fn lemma_no_collision_in_place(names: Seq<Seq<char>>, numbering: Numbering, from: int)
    requires
        0 <= from,
        names.no_duplicates(),
        destinations(names, numbering) == names,
    ensures
        collisions_from(names, numbering, from) == 0,
    decreases names.len() - from,
{
    if from < names.len() {
        lemma_no_collision_in_place(names, numbering, from + 1);
        if collides(names, numbering, from) {
            let j = choose|j: int|
                from < j < names.len() && #[trigger] names[j] == destinations(
                    names,
                    numbering,
                )[from];
            assert(names[j] == names[from]);
        }
    }
}

/// The later the start, the fewer collisions are counted.
proof fn lemma_collisions_lessen(names: Seq<Seq<char>>, numbering: Numbering, from: int, to: int)
    requires
        from <= to,
    ensures
        collisions_from(names, numbering, to) <= collisions_from(names, numbering, from),
    decreases to - from,
{
    if from < to {
        lemma_collisions_lessen(names, numbering, from + 1, to);
    }
}

/// Where the engine asks for a temporary name in a run that is on course,
/// the file whose turn it is collides with a later one.
proof fn lemma_need_is_collision(
    s: SessionView,
    names: Seq<Seq<char>>,
    before: Files,
    identifiers: Seq<Seq<char>>,
    used: int,
)
    requires
        s.wf(),
        s.phase == Phase::NeedTemporary,
        same_extensions(s.files, names),
        identifiers_usable(identifiers, names, before, s.numbering),
        0 <= used <= identifiers.len(),
        on_course(s, names, identifiers, used),
    ensures
        collides(names, s.numbering, s.cursor()),
        collisions_from(names, s.numbering, s.cursor()) == collisions_from(
            names,
            s.numbering,
            s.cursor() + 1,
        ) + 1,
{
    lemma_target_is_destination(s, names);
    let j = s.occupant;
    if s.files[j] != names[j] {
        let (u, k) = choose|u: int, k: int|
            0 <= u < used && 0 <= k < names.len() && s.files[j] == candidate(
                identifiers,
                names,
                u,
                k,
            );
        assert(destinations(names, s.numbering).contains(candidate(identifiers, names, u, k)));
    }
    assert(names[j] == destinations(names, s.numbering)[s.cursor()]);
}

/// Every name in `dir` was in `before`, or is a destination, or was made
/// from one of the first `used` identifiers.
pub open spec fn names_accounted(
    dir: Files,
    before: Files,
    names: Seq<Seq<char>>,
    numbering: Numbering,
    identifiers: Seq<Seq<char>>,
    used: int,
) -> bool {
    forall|name: Seq<char>| #[trigger]
        dir.contains_key(name) ==> before.contains_key(name) || destinations(
            names,
            numbering,
        ).contains(name) || exists|u: int, k: int|
            0 <= u < used && 0 <= k < names.len() && name == candidate(identifiers, names, u, k)
}

/// Whether `name` was made from one of the first `used` identifiers.
pub open spec fn is_candidate(
    name: Seq<char>,
    identifiers: Seq<Seq<char>>,
    names: Seq<Seq<char>>,
    used: int,
) -> bool {
    exists|u: int, k: int|
        0 <= u < used && 0 <= k < names.len() && name == candidate(identifiers, names, u, k)
}

/// The outcomes so far are the expected ones, and a file whose turn is to
/// come has the name it came with, unless it was moved out of the way, and
/// then it was not in place.
pub open spec fn on_course(
    s: SessionView,
    names: Seq<Seq<char>>,
    identifiers: Seq<Seq<char>>,
    used: int,
) -> bool {
    &&& s.files.len() == names.len()
    &&& forall|k: int|
        0 <= k < s.outcomes.len() ==> #[trigger] s.outcomes[k] == expected_outcomes(
            names,
            s.numbering,
        )[k]
    &&& forall|k: int|
        s.outcomes.len() <= k < s.files.len() ==> #[trigger] s.files[k] == names[k] || (
        is_candidate(s.files[k], identifiers, names, used) && !s.numbering.placed(
            k as nat,
            names[k],
        ))
}

/// The destination of the file whose turn it is depends on its extension
/// alone, which it has had from the start.
proof fn lemma_target_is_destination(s: SessionView, names: Seq<Seq<char>>)
    requires
        s.wf(),
        s.active(),
        same_extensions(s.files, names),
    ensures
        s.target() == destinations(names, s.numbering)[s.cursor()],
{
}

/// With a step of at least one and no foreign occupant, a destination that
/// is taken is taken by a file whose turn is still to come.
proof fn lemma_occupant_is_pending(
    s: SessionView,
    names: Seq<Seq<char>>,
    before: Files,
    now: Files,
)
    requires
        s.wf(),
        s.phase == Phase::Probing,
        forall|k: int| 0 <= k < s.outcomes.len() ==> s.outcomes[k] != FileOutcome::Error,
        trackable(names, before),
        same_extensions(s.files, names),
        tracks(s, now, files_behind(names, before)),
        others_kept(before, now, files_behind(names, before)),
        s.numbering.step >= 1,
        no_foreign_occupant(names, before, s.numbering),
        now.contains_key(s.target()),
    ensures
        find_from(s.files, s.cursor() + 1, s.target()) is Some,
{
    let ids = files_behind(names, before);
    let target = s.target();
    let file = now[target];
    lemma_target_is_destination(s, names);
    lemma_find_from(s.files, s.cursor() + 1, target);
    if !ids.contains(file) {
        assert(before.contains_key(target) && before[target] == file);
        assert(names.contains(target));
        let j = names.index_of(target);
        assert(names[j] == target);
        assert(ids[j] == file);
    }
    let k = ids.index_of(file);
    assert(ids[k] == file);
    assert(now.contains_key(s.files[k]) && now[s.files[k]] == ids[k]);
    assert(s.files[k] == target);
    if k < s.cursor() {
        assert(s.outcomes[k] != FileOutcome::Error);
        assert(s.numbering.placed(k as nat, s.files[k]));
        s.numbering.lemma_destinations_differ(
            k as nat,
            s.cursor() as nat,
            s.files[k],
            s.current(),
        );
    }
}

/// A name made from an identifier that has not been used is free.
proof fn lemma_candidate_is_free(
    now: Files,
    before: Files,
    names: Seq<Seq<char>>,
    numbering: Numbering,
    identifiers: Seq<Seq<char>>,
    used: int,
    k: int,
)
    requires
        identifiers_usable(identifiers, names, before, numbering),
        names_accounted(now, before, names, numbering, identifiers, used),
        0 <= used < identifiers.len(),
        0 <= k < names.len(),
    ensures
        !now.contains_key(candidate(identifiers, names, used, k)),
        extension_or_empty(candidate(identifiers, names, used, k)) == extension_or_empty(names[k]),
{
    let name = candidate(identifiers, names, used, k);
    if now.contains_key(name) {
        assert(!before.contains_key(name));
        assert(!destinations(names, numbering).contains(name));
        let (u, j) = choose|u: int, j: int|
            0 <= u < used && 0 <= j < names.len() && name == candidate(identifiers, names, u, j);
        assert(candidate(identifiers, names, u, j) != candidate(identifiers, names, used, k));
    }
}

/// A rename to a destination or to a name made from a used identifier
/// leaves every name accounted for.
proof fn lemma_rename_accounted(
    now: Files,
    before: Files,
    names: Seq<Seq<char>>,
    numbering: Numbering,
    identifiers: Seq<Seq<char>>,
    used: int,
    from: Seq<char>,
    to: Seq<char>,
)
    requires
        names_accounted(now, before, names, numbering, identifiers, used),
        destinations(names, numbering).contains(to) || exists|u: int, k: int|
            0 <= u < used && 0 <= k < names.len() && to == candidate(identifiers, names, u, k),
    ensures
        names_accounted(renamed(now, from, to), before, names, numbering, identifiers, used),
{
    let after = renamed(now, from, to);
    assert forall|name: Seq<char>| #[trigger] after.contains_key(name) implies before.contains_key(
        name,
    ) || destinations(names, numbering).contains(name) || exists|u: int, k: int|
        0 <= u < used && 0 <= k < names.len() && name == candidate(identifiers, names, u, k) by {
        if name != to {
            assert(now.contains_key(name));
        }
    }
}

/// Using one more identifier leaves every name accounted for.
proof fn lemma_accounted_further(
    now: Files,
    before: Files,
    names: Seq<Seq<char>>,
    numbering: Numbering,
    identifiers: Seq<Seq<char>>,
    used: int,
)
    requires
        names_accounted(now, before, names, numbering, identifiers, used),
    ensures
        names_accounted(now, before, names, numbering, identifiers, used + 1),
{
    assert forall|name: Seq<char>| #[trigger] now.contains_key(name) implies before.contains_key(
        name,
    ) || destinations(names, numbering).contains(name) || exists|u: int, k: int|
        0 <= u < used + 1 && 0 <= k < names.len() && name == candidate(
            identifiers,
            names,
            u,
            k,
        ) by {
        if !before.contains_key(name) && !destinations(names, numbering).contains(name) {
            let (u, k) = choose|u: int, k: int|
                0 <= u < used && 0 <= k < names.len() && name == candidate(
                    identifiers,
                    names,
                    u,
                    k,
                );
            assert(0 <= u < used + 1 && 0 <= k < names.len() && name == candidate(
                identifiers,
                names,
                u,
                k,
            ));
        }
    }
}

/// A name made from an identifier is in nobody's place.
proof fn lemma_candidate_is_not_placed(
    s: SessionView,
    names: Seq<Seq<char>>,
    before: Files,
    identifiers: Seq<Seq<char>>,
    used: int,
    k: int,
)
    requires
        same_extensions(s.files, names),
        identifiers_usable(identifiers, names, before, s.numbering),
        0 <= used <= identifiers.len(),
        0 <= k < s.files.len(),
        is_candidate(s.files[k], identifiers, names, used),
    ensures
        !s.numbering.placed(k as nat, s.files[k]),
{
    let (u, j) = choose|u: int, j: int|
        0 <= u < used && 0 <= j < names.len() && s.files[k] == candidate(identifiers, names, u, j);
    if s.numbering.placed(k as nat, s.files[k]) {
        assert(s.files[k] == destinations(names, s.numbering)[k]);
        assert(destinations(names, s.numbering).contains(candidate(identifiers, names, u, j)));
    }
}

/// A truthful report that is no failure keeps the run on course.
proof fn lemma_stays_on_course(
    s: SessionView,
    event: EventView,
    names: Seq<Seq<char>>,
    before: Files,
    identifiers: Seq<Seq<char>>,
    used: int,
)
    requires
        s.wf(),
        event != EventView::RenameFailed,
        s.numbering.step >= 1,
        same_extensions(s.files, names),
        identifiers_usable(identifiers, names, before, s.numbering),
        0 <= used <= identifiers.len(),
        on_course(s, names, identifiers, used),
        s.phase == Phase::Displacing ==> is_candidate(s.temporary, identifiers, names, used),
    ensures
        on_course(s.next(event), names, identifiers, used),
{
    let next = s.next(event);
    let cursor = s.cursor();
    s.lemma_next_wf(event);
    match (s.phase, event) {
        (Phase::Displacing, EventView::Renamed) => {
            lemma_target_is_destination(s, names);
            assert forall|k: int| next.outcomes.len() <= k < next.files.len() implies
                #[trigger] next.files[k] == names[k] || (is_candidate(
                next.files[k],
                identifiers,
                names,
                used,
            ) && !next.numbering.placed(k as nat, names[k])) by {
                if k == s.occupant {
                    if s.files[k] == names[k] {
                        if s.numbering.placed(k as nat, names[k]) {
                            s.numbering.lemma_destinations_differ(
                                k as nat,
                                cursor as nat,
                                names[k],
                                s.current(),
                            );
                        }
                    }
                } else {
                    assert(next.files[k] == s.files[k]);
                }
            }
        },
        (Phase::Moving, EventView::Renamed) => {
            s.lemma_moved();
            assert(next.outcomes.take(s.outcomes.len() as int) == s.outcomes);
            assert forall|k: int| 0 <= k < next.outcomes.len() implies #[trigger] next.outcomes[k]
                == expected_outcomes(names, s.numbering)[k] by {
                if k < cursor {
                    assert(next.outcomes.take(s.outcomes.len() as int)[k] == s.outcomes[k]);
                } else if k == cursor {
                    if s.files[k] == names[k] {
                    } else {
                        assert(!s.numbering.placed(k as nat, names[k]));
                    }
                } else {
                    assert(s.moved().outcomes[k] == FileOutcome::Skipped);
                    assert(s.numbering.placed(k as nat, s.files[k]));
                    if s.files[k] != names[k] {
                        lemma_candidate_is_not_placed(s, names, before, identifiers, used, k);
                    }
                }
            }
            assert forall|k: int| next.outcomes.len() <= k < next.files.len() implies
                #[trigger] next.files[k] == names[k] || (is_candidate(
                next.files[k],
                identifiers,
                names,
                used,
            ) && !next.numbering.placed(k as nat, names[k])) by {
                assert(next.files[k] == s.files[k]);
            }
        },
        _ => {
            assert(next.files == s.files);
            assert(next.outcomes == s.outcomes);
        },
    }
}

/// Using one more identifier leaves the run on course.
proof fn lemma_on_course_further(
    s: SessionView,
    names: Seq<Seq<char>>,
    identifiers: Seq<Seq<char>>,
    used: int,
)
    requires
        on_course(s, names, identifiers, used),
    ensures
        on_course(s, names, identifiers, used + 1),
{
    assert forall|k: int| s.outcomes.len() <= k < s.files.len() implies #[trigger] s.files[k]
        == names[k] || (is_candidate(s.files[k], identifiers, names, used + 1)
        && !s.numbering.placed(k as nat, names[k])) by {
        if s.files[k] != names[k] {
            let (u, j) = choose|u: int, j: int|
                0 <= u < used && 0 <= j < names.len() && s.files[k] == candidate(
                    identifiers,
                    names,
                    u,
                    j,
                );
            assert(0 <= u < used + 1 && 0 <= j < names.len() && s.files[k] == candidate(
                identifiers,
                names,
                u,
                j,
            ));
        }
    }
}

/// While the engine keeps track of its files, each of them is in the
/// directory.
proof fn lemma_tracked_files_remain(s: SessionView, dir: Files, ids: Seq<u64>)
    requires
        tracks(s, dir, ids),
    ensures
        forall|k: int| 0 <= k < ids.len() ==> dir.contains_value(#[trigger] ids[k]),
{
    assert forall|k: int| 0 <= k < ids.len() implies dir.contains_value(#[trigger] ids[k]) by {
        assert(dir.contains_key(s.files[k]) && dir[s.files[k]] == ids[k]);
    }
}

} // verus!
