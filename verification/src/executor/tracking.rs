//! What the renaming engine does to a directory, stated over a directory as
//! a map from names to the files behind them: every rename it asks for is
//! safe, it never loses track of a file, and when it is finished every file
//! has the name it was to have.

use crate::executor::rename::{ActionView, EventView, FileOutcome, Phase, SessionView};
use vstd::prelude::*;

verus! {

/// A directory: which file is behind each name.
pub type Files = Map<Seq<char>, u64>;

/// No file is behind two names.
pub open spec fn injective(dir: Files) -> bool {
    forall|a: Seq<char>, b: Seq<char>|
        dir.contains_key(a) && dir.contains_key(b) && dir[a] == dir[b] ==> a == b
}

/// The directory after `from` was renamed to `to`. A file that was behind
/// `to` is gone, as it is on disk.
pub open spec fn renamed(dir: Files, from: Seq<char>, to: Seq<char>) -> Files {
    dir.remove(from).insert(to, dir[from])
}

/// The engine keeps track of the files `ids`: the k-th of them is behind the
/// k-th name it holds, and a name that it is about to rename something to
/// is free.
pub open spec fn tracks(s: SessionView, dir: Files, ids: Seq<u64>) -> bool {
    &&& ids.len() == s.files.len()
    &&& forall|i: int, j: int| 0 <= i < j < ids.len() ==> ids[i] != ids[j]
    &&& forall|k: int|
        0 <= k < s.files.len() ==> dir.contains_key(#[trigger] s.files[k]) && dir[s.files[k]]
            == ids[k]
    &&& injective(dir)
    &&& s.phase == Phase::Moving ==> !dir.contains_key(s.target())
    &&& s.phase == Phase::Displacing ==> !dir.contains_key(s.temporary)
}

/// The driver did what it was asked and reports what is true: `after` is
/// the directory once `event` has been reported in answer to what `s` asks,
/// `dir` the directory before. Of a temporary name nothing is asked but
/// that drawing it left the directory alone.
pub open spec fn answers(s: SessionView, event: EventView, dir: Files, after: Files) -> bool {
    match (s.pending(), event) {
        (ActionView::Probe { name }, EventView::Probed { exists }) => exists == dir.contains_key(
            name,
        ) && after == dir,
        (ActionView::Rename { from, to }, EventView::Renamed) => after == renamed(dir, from, to),
        _ => after == dir,
    }
}

/// The files that the engine does not keep track of are behind the same
/// names in `after` as in `before`, and there are no others.
pub open spec fn others_kept(before: Files, after: Files, ids: Seq<u64>) -> bool {
    &&& forall|name: Seq<char>|
        before.contains_key(name) && !ids.contains(#[trigger] before[name]) ==> after.contains_key(
            name,
        ) && after[name] == before[name]
    &&& forall|name: Seq<char>|
        after.contains_key(name) && !ids.contains(#[trigger] after[name]) ==> before.contains_key(
            name,
        ) && before[name] == after[name]
}

/// No rename that the engine asks for overwrites a file or misses its
/// source: the source is a file it keeps track of, and the target is free.
pub proof fn lemma_rename_is_safe(s: SessionView, dir: Files, ids: Seq<u64>)
    requires
        s.wf(),
        tracks(s, dir, ids),
        s.pending() is Rename,
    ensures
        dir.contains_key(s.pending()->from),
        ids.contains(dir[s.pending()->from]),
        !dir.contains_key(s.pending()->to),
{
    if s.phase == Phase::Displacing {
        assert(dir.contains_key(s.files[s.occupant]));
        assert(ids[s.occupant] == dir[s.target()]);
    } else {
        assert(dir.contains_key(s.files[s.cursor()]));
        assert(ids[s.cursor()] == dir[s.current()]);
    }
}

proof fn lemma_rename_tracked(
    files: Seq<Seq<char>>,
    dir: Files,
    ids: Seq<u64>,
    place: int,
    to: Seq<char>,
)
    requires
        ids.len() == files.len(),
        forall|i: int, j: int| 0 <= i < j < ids.len() ==> ids[i] != ids[j],
        forall|k: int|
            0 <= k < files.len() ==> dir.contains_key(#[trigger] files[k]) && dir[files[k]]
                == ids[k],
        injective(dir),
        0 <= place < files.len(),
        !dir.contains_key(to),
    ensures
        ({
            let after = renamed(dir, files[place], to);
            let moved = files.update(place, to);
            &&& forall|k: int|
                0 <= k < moved.len() ==> after.contains_key(#[trigger] moved[k]) && after[moved[k]]
                    == ids[k]
            &&& injective(after)
            &&& others_kept(dir, after, ids)
            &&& !after.contains_key(files[place])
        }),
{
    let from = files[place];
    let after = renamed(dir, from, to);
    let moved = files.update(place, to);
    assert(dir.contains_key(files[place]));
    assert forall|k: int| 0 <= k < moved.len() implies after.contains_key(#[trigger] moved[k])
        && after[moved[k]] == ids[k] by {
        if k != place {
            assert(dir.contains_key(files[k]));
            if k < place {
                assert(ids[k] != ids[place]);
            } else {
                assert(ids[place] != ids[k]);
            }
            assert(files[k] != from);
        }
    }
    assert forall|a: Seq<char>, b: Seq<char>|
        after.contains_key(a) && after.contains_key(b) && after[a] == after[b] implies a == b by {
        if a == to && b != to {
            assert(dir.contains_key(b) && dir[b] == dir[from]);
        }
        if b == to && a != to {
            assert(dir.contains_key(a) && dir[a] == dir[from]);
        }
    }
    assert(ids[place] == dir[from]);
    assert(ids.contains(dir[from]));
}

/// Whatever the driver truthfully reports, the engine keeps track of its
/// files, and the files that are none of its business stay as they are.
pub proof fn lemma_step_keeps_track(
    s: SessionView,
    event: EventView,
    dir: Files,
    after: Files,
    ids: Seq<u64>,
)
    requires
        s.wf(),
        tracks(s, dir, ids),
        answers(s, event, dir, after),
    ensures
        s.next(event).wf(),
        tracks(s.next(event), after, ids),
        others_kept(dir, after, ids),
{
    s.lemma_next_wf(event);
    let next = s.next(event);
    match (s.phase, event) {
        (Phase::Probing, EventView::Probed { exists }) => {
            assert(tracks(next, after, ids));
        },
        (Phase::NeedTemporary, EventView::Temporary { name }) => {
            assert(tracks(next, after, ids));
        },
        (Phase::CheckingTemporary, EventView::Probed { exists }) => {
            assert(tracks(next, after, ids));
        },
        (Phase::Displacing, EventView::Renamed) => {
            lemma_rename_tracked(s.files, dir, ids, s.occupant, s.temporary);
            assert(dir.contains_key(s.files[s.occupant]));
            assert(tracks(next, after, ids));
        },
        (Phase::Displacing, EventView::RenameFailed) => {
            s.lemma_failed();
            assert(tracks(next, after, ids));
        },
        (Phase::Moving, EventView::Renamed) => {
            s.lemma_moved();
            lemma_rename_tracked(s.files, dir, ids, s.cursor(), s.target());
            assert(tracks(next, after, ids));
        },
        (Phase::Moving, EventView::RenameFailed) => {
            s.lemma_failed();
            assert(tracks(next, after, ids));
        },
        _ => {
            assert(next == s);
            assert(tracks(next, after, ids));
        },
    }
}

/// When the engine is finished and has given up no file, every file has the
/// name it was to have.
pub proof fn lemma_finished_is_renumbered(s: SessionView)
    requires
        s.wf(),
        s.phase == Phase::Finished,
        forall|k: int| 0 <= k < s.outcomes.len() ==> s.outcomes[k] != FileOutcome::Error,
    ensures
        forall|k: int|
            0 <= k < s.files.len() ==> s.numbering.placed(k as nat, #[trigger] s.files[k]),
{
    assert forall|k: int| 0 <= k < s.files.len() implies s.numbering.placed(
        k as nat,
        #[trigger] s.files[k],
    ) by {
        assert(s.outcomes[k] != FileOutcome::Error);
    }
}

} // verus!
