//! What a finished run leaves behind: the renumbered directory. Whoever
//! drives the engine, truthful reports lead there and nowhere else, and a
//! second run finds nothing to do.

use crate::executor::natural::lemma_natural_order_reverses;
use crate::executor::numbering::{lemma_numbered_names_in_order, Numbering};
use crate::executor::rename::{
    initial_session, lemma_initial_session, same_extensions, EventView, FileOutcome, Phase,
    RetryPolicy, SessionView,
};
use crate::executor::sorting::{lemma_natural_sorted_restores, natural_sorted, precedes};
use crate::executor::tracking::{
    answers, injective, lemma_finished_is_renumbered, lemma_step_keeps_track, others_kept, tracks,
    Files,
};
use crate::executor::utils::extension_or_empty;
use vstd::prelude::*;

verus! {

/// The names that the files are to have, in the order of their turns.
pub open spec fn destinations(names: Seq<Seq<char>>, numbering: Numbering) -> Seq<Seq<char>> {
    Seq::new(names.len(), |k: int| numbering.destination(k as nat, names[k]))
}

/// Whether the files named can be renamed in `dir`: each is there, and none
/// is named twice.
pub open spec fn trackable(names: Seq<Seq<char>>, dir: Files) -> bool {
    &&& names.no_duplicates()
    &&& forall|k: int| 0 <= k < names.len() ==> dir.contains_key(#[trigger] names[k])
}

/// The files behind `names` in `dir`, in that order.
pub open spec fn files_behind(names: Seq<Seq<char>>, dir: Files) -> Seq<u64> {
    Seq::new(names.len(), |k: int| dir[names[k]])
}

/// The directory once the files `names` have the names they are to have:
/// behind the k-th destination is the file that was behind the k-th name,
/// every other file is behind the name it had, and there is nothing else.
pub open spec fn renumbered(dir: Files, names: Seq<Seq<char>>, numbering: Numbering) -> Files {
    let targets = destinations(names, numbering);
    Map::new(
        |name: Seq<char>| targets.contains(name) || (dir.contains_key(name) && !names.contains(name)),
        |name: Seq<char>|
            if targets.contains(name) {
                dir[names[targets.index_of(name)]]
            } else {
                dir[name]
            },
    )
}

/// No destination is taken by something that is not itself to be renamed.
pub open spec fn no_foreign_occupant(names: Seq<Seq<char>>, dir: Files, numbering: Numbering) -> bool {
    forall|k: int|
        0 <= k < names.len() && dir.contains_key(#[trigger] destinations(names, numbering)[k])
            ==> names.contains(destinations(names, numbering)[k])
}

/// Keeping the other files is kept up from step to step.
pub proof fn lemma_others_kept_on(before: Files, now: Files, after: Files, ids: Seq<u64>)
    requires
        others_kept(before, now, ids),
        others_kept(now, after, ids),
    ensures
        others_kept(before, after, ids),
{
    assert forall|name: Seq<char>|
        before.contains_key(name) && !ids.contains(#[trigger] before[name]) implies after.contains_key(
        name,
    ) && after[name] == before[name] by {
        assert(now.contains_key(name) && now[name] == before[name]);
        assert(!ids.contains(now[name]));
    }
    assert forall|name: Seq<char>|
        after.contains_key(name) && !ids.contains(#[trigger] after[name]) implies before.contains_key(
        name,
    ) && before[name] == after[name] by {
        assert(now.contains_key(name) && now[name] == after[name]);
        assert(!ids.contains(now[name]));
    }
}

/// When the engine is finished with no file given up, and has kept track
/// of its files all along, the directory is the renumbered one.
pub proof fn lemma_finished_directory(
    s: SessionView,
    names: Seq<Seq<char>>,
    before: Files,
    after: Files,
)
    requires
        s.wf(),
        s.phase == Phase::Finished,
        forall|k: int| 0 <= k < s.outcomes.len() ==> s.outcomes[k] != FileOutcome::Error,
        trackable(names, before),
        injective(before),
        same_extensions(s.files, names),
        tracks(s, after, files_behind(names, before)),
        others_kept(before, after, files_behind(names, before)),
    ensures
        s.files == destinations(names, s.numbering),
        after == renumbered(before, names, s.numbering),
        no_foreign_occupant(names, before, s.numbering),
{
    let ids = files_behind(names, before);
    let targets = destinations(names, s.numbering);
    lemma_finished_is_renumbered(s);
    assert forall|k: int|
        0 <= k < names.len() && before.contains_key(
            #[trigger] destinations(names, s.numbering)[k],
        ) implies names.contains(destinations(names, s.numbering)[k]) by {
        let name = targets[k];
        assert(s.numbering.placed(k as nat, s.files[k]));
        assert(s.files[k] == name);
        assert(after.contains_key(s.files[k]) && after[s.files[k]] == ids[k]);
        if !ids.contains(before[name]) {
            assert(after[name] == before[name]);
            assert(ids.contains(ids[k]));
        }
        let j = ids.index_of(before[name]);
        assert(ids[j] == before[name]);
        assert(before.contains_key(names[j]));
        assert(names[j] == name);
    }
    assert(s.files =~= targets) by {
        assert forall|k: int| 0 <= k < s.files.len() implies s.files[k] == targets[k] by {
            assert(s.numbering.placed(k as nat, s.files[k]));
        }
    }
    let expected = renumbered(before, names, s.numbering);
    assert forall|name: Seq<char>| after.contains_key(name) <==> expected.contains_key(name) by {
        if targets.contains(name) {
            let k = targets.index_of(name);
            assert(targets[k] == name);
            assert(after.contains_key(s.files[k]));
        }
        if before.contains_key(name) && !names.contains(name) {
            if ids.contains(before[name]) {
                let k = ids.index_of(before[name]);
                assert(ids[k] == before[name]);
                assert(before.contains_key(names[k]));
                assert(names[k] == name);
            }
        }
        if after.contains_key(name) {
            if ids.contains(after[name]) {
                let k = ids.index_of(after[name]);
                assert(ids[k] == after[name]);
                assert(after.contains_key(s.files[k]));
                assert(s.files[k] == name);
                assert(targets[k] == name);
            } else {
                assert(before.contains_key(name) && before[name] == after[name]);
                if names.contains(name) {
                    let k = names.index_of(name);
                    assert(names[k] == name);
                    assert(ids[k] == before[name]);
                }
            }
        }
    }
    assert forall|name: Seq<char>| after.contains_key(name) implies after[name] == expected[name] by {
        if targets.contains(name) {
            let k = targets.index_of(name);
            assert(targets[k] == name);
            assert(after.contains_key(s.files[k]));
            assert(after[s.files[k]] == ids[k]);
        } else {
            if ids.contains(after[name]) {
                let k = ids.index_of(after[name]);
                assert(ids[k] == after[name]);
                assert(after.contains_key(s.files[k]));
                assert(s.files[k] == name);
                assert(targets[k] == name);
            }
        }
    }
    assert(after =~= expected);
}

/// The state of the engine after the reports `events`, one after another.
pub open spec fn state_after(s: SessionView, events: Seq<EventView>) -> SessionView
    decreases events.len(),
{
    if events.len() == 0 {
        s
    } else {
        state_after(s, events.drop_last()).next(events.last())
    }
}

/// The driver was truthful all along: `dirs` holds the directory before
/// the first report and after each one, and every report answers what the
/// engine asked at that point.
pub open spec fn truthful(s: SessionView, events: Seq<EventView>, dirs: Seq<Files>) -> bool {
    &&& dirs.len() == events.len() + 1
    &&& forall|i: int|
        0 <= i < events.len() ==> answers(
            state_after(s, events.take(i)),
            #[trigger] events[i],
            dirs[i],
            dirs[i + 1],
        )
}

/// As long as the reports are truthful, and however far the run has come,
/// the engine keeps track of every file it was given, no file is lost or
/// overwritten, none is given up, and the files that are none of its
/// business are where they were.
pub proof fn lemma_truthful_run_keeps_track(
    names: Seq<Seq<char>>,
    numbering: Numbering,
    events: Seq<EventView>,
    dirs: Seq<Files>,
)
    requires
        trackable(names, dirs[0]),
        injective(dirs[0]),
        truthful(initial_session(names, numbering, RetryPolicy::Forever), events, dirs),
    ensures
        ({
            let end = state_after(initial_session(names, numbering, RetryPolicy::Forever), events);
            let ids = files_behind(names, dirs[0]);
            &&& end.wf()
            &&& end.numbering == numbering
            &&& end.policy == RetryPolicy::Forever
            &&& same_extensions(end.files, names)
            &&& tracks(end, dirs.last(), ids)
            &&& others_kept(dirs[0], dirs.last(), ids)
            &&& forall|k: int| 0 <= k < end.outcomes.len() ==> end.outcomes[k] != FileOutcome::Error
        }),
    decreases events.len(),
{
    let start = initial_session(names, numbering, RetryPolicy::Forever);
    let ids = files_behind(names, dirs[0]);
    lemma_initial_session(names, numbering, RetryPolicy::Forever);
    if events.len() == 0 {
        assert forall|i: int, j: int| 0 <= i < j < ids.len() implies ids[i] != ids[j] by {
            assert(dirs[0].contains_key(names[i]) && dirs[0].contains_key(names[j]));
        }
    } else {
        let fewer = events.drop_last();
        let shorter = dirs.drop_last();
        let n = fewer.len() as int;
        assert forall|i: int| 0 <= i < fewer.len() implies answers(
            state_after(start, fewer.take(i)),
            #[trigger] fewer[i],
            shorter[i],
            shorter[i + 1],
        ) by {
            assert(fewer.take(i) == events.take(i));
            assert(fewer[i] == events[i]);
        }
        lemma_truthful_run_keeps_track(names, numbering, fewer, shorter);
        let middle = state_after(start, fewer);
        assert(events.take(n) == fewer);
        assert(answers(middle, events[n], dirs[n], dirs[n + 1]));
        lemma_step_keeps_track(middle, events.last(), dirs[n], dirs[n + 1], ids);
        middle.lemma_next_wf(events.last());
        middle.lemma_forever_gives_nothing_up(events.last());
        lemma_others_kept_on(dirs[0], dirs[n], dirs[n + 1], ids);
        assert(shorter.last() == dirs[n]);
    }
}

/// Whoever drives the engine, if the reports are truthful and the engine
/// ends finished, the directory is the renumbered one: behind each
/// destination is the file that was to get it, with its extension, and
/// every other file is where it was. The engine here tries failed renames
/// again forever; `dirs` holds the directory before the first report and
/// after each one.
pub proof fn lemma_finished_run_renumbers(
    names: Seq<Seq<char>>,
    numbering: Numbering,
    events: Seq<EventView>,
    dirs: Seq<Files>,
)
    requires
        trackable(names, dirs[0]),
        injective(dirs[0]),
        truthful(initial_session(names, numbering, RetryPolicy::Forever), events, dirs),
        state_after(initial_session(names, numbering, RetryPolicy::Forever), events).phase
            == Phase::Finished,
    ensures
        dirs.last() == renumbered(dirs[0], names, numbering),
        state_after(initial_session(names, numbering, RetryPolicy::Forever), events).files
            == destinations(names, numbering),
        forall|k: int|
            0 <= k < names.len() ==> extension_or_empty(
                #[trigger] destinations(names, numbering)[k],
            ) == extension_or_empty(names[k]),
{
    lemma_truthful_run_keeps_track(names, numbering, events, dirs);
    let end = state_after(initial_session(names, numbering, RetryPolicy::Forever), events);
    lemma_finished_directory(end, names, dirs[0], dirs.last());
    assert forall|k: int| 0 <= k < names.len() implies extension_or_empty(
        #[trigger] destinations(names, numbering)[k],
    ) == extension_or_empty(names[k]) by {
        numbering.lemma_destination_is_placed(k as nat, names[k]);
    }
}

/// The names that a run gives are the names that the same run would give
/// again: each of them is in place.
pub proof fn lemma_destinations_are_in_place(names: Seq<Seq<char>>, numbering: Numbering)
    ensures
        forall|k: int|
            0 <= k < names.len() ==> numbering.placed(
                k as nat,
                #[trigger] destinations(names, numbering)[k],
            ),
        destinations(destinations(names, numbering), numbering) == destinations(names, numbering),
{
    let targets = destinations(names, numbering);
    assert forall|k: int| 0 <= k < names.len() implies numbering.placed(
        k as nat,
        #[trigger] targets[k],
    ) by {
        numbering.lemma_destination_is_placed(k as nat, names[k]);
    }
    assert(destinations(targets, numbering) =~= targets);
}

/// Renumbering files that are in place already leaves the directory as it
/// is.
pub proof fn lemma_renumbered_in_place(dir: Files, names: Seq<Seq<char>>, numbering: Numbering)
    requires
        forall|k: int| 0 <= k < names.len() ==> dir.contains_key(#[trigger] names[k]),
        destinations(names, numbering) == names,
    ensures
        renumbered(dir, names, numbering) == dir,
{
    let after = renumbered(dir, names, numbering);
    assert forall|name: Seq<char>| after.contains_key(name) <==> dir.contains_key(name) by {
        if names.contains(name) {
            let k = names.index_of(name);
            assert(names[k] == name);
        }
    }
    assert forall|name: Seq<char>| after.contains_key(name) implies after[name] == dir[name] by {
        if names.contains(name) {
            let k = names.index_of(name);
            assert(names[k] == name);
        }
    }
    assert(after =~= dir);
}

/// A second run finds nothing to do. Let a run have given the files
/// `names` their destinations, and let `listed` be those destinations in
/// whatever order the directory lists them. With a step of at least one and
/// numbers that fit a machine word, natural order puts them back in the
/// order of their numbers, each file is in place, and the engine is
/// finished as it starts, every file skipped.
pub proof fn lemma_second_run_skips_every_file(
    listed: Seq<Seq<char>>,
    names: Seq<Seq<char>>,
    numbering: Numbering,
    policy: RetryPolicy,
)
    requires
        numbering.step >= 1,
        numbering.number(names.len() as nat) <= usize::MAX,
        listed.to_multiset() == destinations(names, numbering).to_multiset(),
    ensures
        natural_sorted(listed) == destinations(names, numbering),
        initial_session(natural_sorted(listed), numbering, policy).phase == Phase::Finished,
        initial_session(natural_sorted(listed), numbering, policy).files == destinations(
            names,
            numbering,
        ),
        initial_session(natural_sorted(listed), numbering, policy).outcomes.len() == names.len(),
        forall|k: int|
            0 <= k < names.len() ==> initial_session(
                natural_sorted(listed),
                numbering,
                policy,
            ).outcomes[k] == FileOutcome::Skipped,
{
    let targets = destinations(names, numbering);
    assert forall|i: int, j: int| 0 <= i < targets.len() && 0 <= j < targets.len() implies (
    precedes(#[trigger] targets[i], #[trigger] targets[j]) <==> i
        < j) by {
        let a = numbering.number(i as nat);
        let b = numbering.number(j as nat);
        let step = numbering.step as nat;
        assert(i < j ==> a < b) by (nonlinear_arith)
            requires
                a == numbering.initial as nat + (i as nat) * step,
                b == numbering.initial as nat + (j as nat) * step,
                step >= 1,
                0 <= i,
                0 <= j,
        ;
        assert(j < i ==> b < a) by (nonlinear_arith)
            requires
                a == numbering.initial as nat + (i as nat) * step,
                b == numbering.initial as nat + (j as nat) * step,
                step >= 1,
                0 <= i,
                0 <= j,
        ;
        assert(a <= numbering.number(names.len() as nat) && b <= numbering.number(
            names.len() as nat,
        )) by (nonlinear_arith)
            requires
                a == numbering.initial as nat + (i as nat) * step,
                b == numbering.initial as nat + (j as nat) * step,
                numbering.number(names.len() as nat) == numbering.initial as nat + (
                names.len() as nat) * step,
                0 <= i < names.len(),
                0 <= j < names.len(),
        ;
        if i < j {
            lemma_numbered_names_in_order(
                a,
                b,
                numbering.digit as nat,
                extension_or_empty(names[i]),
                extension_or_empty(names[j]),
            );
        } else if j < i {
            lemma_numbered_names_in_order(
                b,
                a,
                numbering.digit as nat,
                extension_or_empty(names[j]),
                extension_or_empty(names[i]),
            );
            lemma_natural_order_reverses(targets[j], targets[i]);
        } else {
            lemma_natural_order_reverses(targets[i], targets[i]);
        }
    }
    lemma_natural_sorted_restores(listed, targets);
    lemma_destinations_are_in_place(names, numbering);
    lemma_initial_session(targets, numbering, policy);
    let start = SessionView {
        files: targets,
        outcomes: Seq::empty(),
        numbering,
        policy,
        failures: 0,
        phase: Phase::Probing,
        occupant: 0,
        temporary: Seq::empty(),
    };
    start.lemma_settle_in_place();
}

} // verus!
