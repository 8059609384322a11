use rimg::executor::directory::Directory;
use rimg::executor::numbering::Numbering;
use rimg::executor::rename::{
    Action, Event, FileOutcome, Phase, RenameReport, RenameSession, RetryPolicy,
};
use rimg::executor::simulation::{rename_in_memory, Order, RunError};

fn names(list: &[&str]) -> Vec<String> {
    list.iter().map(|name| String::from(*name)).collect()
}

fn directory(list: &[(&str, u64)]) -> Directory {
    let mut dir = Directory::new();
    for (name, id) in list {
        assert!(dir.insert(name, *id));
    }
    dir
}

fn scheme(digit: u8, initial: u32, step: u8) -> Numbering {
    Numbering { digit, initial, step }
}

fn sorted_names(dir: &Directory) -> Vec<String> {
    let mut all = dir.names();
    all.sort();
    all
}

#[test]
fn smallest_number_goes_to_the_naturally_first_file() {
    let mut dir = directory(&[("img2.jpg", 2), ("img10.jpg", 10), ("img1.jpg", 1)]);
    let session = rename_in_memory(
        &mut dir,
        names(&["img2.jpg", "img10.jpg", "img1.jpg"]),
        scheme(4, 1, 1),
        Order::Natural,
        &names(&[]),
    )
    .unwrap();
    assert_eq!(dir.lookup("0001.jpg"), Some(1));
    assert_eq!(dir.lookup("0002.jpg"), Some(2));
    assert_eq!(dir.lookup("0003.jpg"), Some(10));
    assert_eq!(dir.len(), 3);
    assert_eq!(
        session.report(),
        RenameReport { total: 3, renamed: 3, skipped: 0, errors: 0 }
    );
    assert_eq!(session.files(), &names(&["0001.jpg", "0002.jpg", "0003.jpg"]));
}

#[test]
fn occupant_is_moved_aside_and_renamed_on_its_turn() {
    let mut dir = directory(&[("0001.jpg", 10), ("a.jpg", 20)]);
    let session = rename_in_memory(
        &mut dir,
        names(&["a.jpg", "0001.jpg"]),
        scheme(4, 1, 1),
        Order::AsGiven,
        &names(&["aside"]),
    )
    .unwrap();
    assert_eq!(dir.lookup("0001.jpg"), Some(20));
    assert_eq!(dir.lookup("0002.jpg"), Some(10));
    assert_eq!(sorted_names(&dir), names(&["0001.jpg", "0002.jpg"]));
    assert_eq!(
        session.outcomes(),
        &vec![FileOutcome::Renamed, FileOutcome::Renamed]
    );
}

#[test]
fn collision_is_resolved_step_by_step() {
    let mut session = RenameSession::ordered(
        names(&["a.jpg", "0001.jpg"]),
        scheme(4, 1, 1),
        RetryPolicy::Forever,
    );
    assert_eq!(session.action(), Action::Probe { name: String::from("0001.jpg") });
    assert_eq!(
        session.handle(Event::Probed { exists: true }),
        Action::ChooseTemporary { extension: String::from("jpg") }
    );
    assert_eq!(
        session.handle(Event::Temporary { name: String::from("taken.jpg") }),
        Action::Probe { name: String::from("taken.jpg") }
    );
    assert_eq!(session.phase(), Phase::CheckingTemporary);
    assert_eq!(
        session.handle(Event::Probed { exists: true }),
        Action::ChooseTemporary { extension: String::from("jpg") }
    );
    assert_eq!(
        session.handle(Event::Temporary { name: String::from("x-y.jpg") }),
        Action::Probe { name: String::from("x-y.jpg") }
    );
    assert_eq!(
        session.handle(Event::Probed { exists: false }),
        Action::Rename { from: String::from("0001.jpg"), to: String::from("x-y.jpg") }
    );
    assert_eq!(
        session.handle(Event::Renamed),
        Action::Rename { from: String::from("a.jpg"), to: String::from("0001.jpg") }
    );
    assert_eq!(session.files(), &names(&["a.jpg", "x-y.jpg"]));
    assert_eq!(
        session.handle(Event::Renamed),
        Action::Probe { name: String::from("0002.jpg") }
    );
    assert_eq!(
        session.handle(Event::Probed { exists: false }),
        Action::Rename { from: String::from("x-y.jpg"), to: String::from("0002.jpg") }
    );
    assert_eq!(session.handle(Event::Renamed), Action::Finish);
    assert_eq!(session.phase(), Phase::Finished);
    assert_eq!(session.files(), &names(&["0001.jpg", "0002.jpg"]));
    assert_eq!(
        session.report(),
        RenameReport { total: 2, renamed: 2, skipped: 0, errors: 0 }
    );
}

#[test]
fn collision_arises_in_natural_order_when_numbers_move_up() {
    let mut dir = directory(&[("0001.jpg", 1), ("0005.jpg", 5), ("notes.txt", 9)]);
    let session = rename_in_memory(
        &mut dir,
        names(&["0005.jpg", "0001.jpg"]),
        scheme(4, 5, 1),
        Order::Natural,
        &names(&["t"]),
    )
    .unwrap();
    assert_eq!(dir.lookup("0005.jpg"), Some(1));
    assert_eq!(dir.lookup("0006.jpg"), Some(5));
    assert_eq!(dir.lookup("notes.txt"), Some(9));
    assert_eq!(dir.len(), 3);
    assert_eq!(session.report().renamed, 2);
}

#[test]
fn second_run_changes_nothing() {
    let mut dir = directory(&[("b.png", 1), ("a.jpg", 2), ("c10.jpg", 3), ("c9.jpg", 4)]);
    let listed = names(&["b.png", "a.jpg", "c10.jpg", "c9.jpg"]);
    let first =
        rename_in_memory(&mut dir, listed, scheme(3, 7, 2), Order::Natural, &names(&[])).unwrap();
    assert_eq!(first.report().renamed, 4);
    assert_eq!(dir.lookup("007.jpg"), Some(2));
    assert_eq!(dir.lookup("009.png"), Some(1));
    assert_eq!(dir.lookup("011.jpg"), Some(4));
    assert_eq!(dir.lookup("013.jpg"), Some(3));
    let again = dir.names();
    let second =
        rename_in_memory(&mut dir, again, scheme(3, 7, 2), Order::Natural, &names(&[])).unwrap();
    assert_eq!(
        second.report(),
        RenameReport { total: 4, renamed: 0, skipped: 4, errors: 0 }
    );
    assert_eq!(dir.lookup("007.jpg"), Some(2));
    assert_eq!(dir.lookup("009.png"), Some(1));
    assert_eq!(dir.lookup("011.jpg"), Some(4));
    assert_eq!(dir.lookup("013.jpg"), Some(3));
    assert_eq!(dir.len(), 4);
}

#[test]
fn a_file_in_place_is_skipped() {
    let mut session = RenameSession::new(
        names(&["0002.jpg", "0001.jpg"]),
        scheme(4, 1, 1),
        RetryPolicy::Forever,
    );
    assert_eq!(session.action(), Action::Finish);
    assert_eq!(
        session.outcomes(),
        &vec![FileOutcome::Skipped, FileOutcome::Skipped]
    );
    assert_eq!(session.handle(Event::Renamed), Action::Finish);
}

#[test]
fn number_wider_than_the_width_is_written_in_full() {
    let numbering = scheme(2, 99, 1);
    assert_eq!(numbering.sequence_number(0), 99);
    assert_eq!(numbering.sequence_number(1), 100);
    assert_eq!(numbering.destination_name(0, "a.jpg"), "99.jpg");
    assert_eq!(numbering.destination_name(1, "b.JPG"), "100.JPG");
    assert_eq!(scheme(6, 0, 1).destination_name(0, "x.tar.gz"), "000000.gz");
    assert_eq!(scheme(1, 0, 5).destination_name(3, "noext"), "15.");
    assert_eq!(
        scheme(4, u32::MAX, 255).sequence_number(usize::MAX),
        u32::MAX as u128 + usize::MAX as u128 * 255
    );
    assert!(scheme(4, 1, 1).is_placed(2, "0003.jpg"));
    assert!(!scheme(4, 1, 1).is_placed(2, "003.jpg"));
}

#[test]
fn untracked_occupant_aborts_the_run() {
    let mut session =
        RenameSession::ordered(names(&["a.jpg"]), scheme(4, 1, 1), RetryPolicy::Forever);
    assert_eq!(session.handle(Event::Probed { exists: true }), Action::Abort);
    assert_eq!(session.phase(), Phase::Aborted);
    assert_eq!(session.handle(Event::Probed { exists: false }), Action::Abort);

    let mut dir = directory(&[("a.jpg", 1), ("0001.jpg", 2)]);
    let result =
        rename_in_memory(&mut dir, names(&["a.jpg"]), scheme(4, 1, 1), Order::Natural, &names(&[]));
    assert_eq!(result.err(), Some(RunError::ForeignOccupant));
    assert_eq!(dir.lookup("a.jpg"), Some(1));
    assert_eq!(dir.lookup("0001.jpg"), Some(2));
}

#[test]
fn missing_or_repeated_file_is_refused() {
    let mut dir = directory(&[("a.jpg", 1)]);
    let result = rename_in_memory(
        &mut dir,
        names(&["a.jpg", "b.jpg"]),
        scheme(4, 1, 1),
        Order::Natural,
        &names(&[]),
    );
    assert_eq!(result.err(), Some(RunError::Untracked));
    let result = rename_in_memory(
        &mut dir,
        names(&["a.jpg", "a.jpg"]),
        scheme(4, 1, 1),
        Order::Natural,
        &names(&[]),
    );
    assert_eq!(result.err(), Some(RunError::Untracked));
    assert_eq!(dir.lookup("a.jpg"), Some(1));
}

#[test]
fn taken_temporary_names_are_passed_over() {
    let mut dir = directory(&[("0001.jpg", 10), ("a.jpg", 20), ("t1.jpg", 30)]);
    let result = rename_in_memory(
        &mut dir,
        names(&["a.jpg", "0001.jpg"]),
        scheme(4, 1, 1),
        Order::AsGiven,
        &names(&["t1"]),
    );
    assert_eq!(result.err(), Some(RunError::OutOfTemporaryNames));
    assert_eq!(dir.len(), 3);
    let session = rename_in_memory(
        &mut dir,
        names(&["a.jpg", "0001.jpg"]),
        scheme(4, 1, 1),
        Order::AsGiven,
        &names(&["t1", "t2"]),
    )
    .unwrap();
    assert_eq!(session.report().renamed, 2);
    assert_eq!(dir.lookup("0001.jpg"), Some(20));
    assert_eq!(dir.lookup("0002.jpg"), Some(10));
    assert_eq!(dir.lookup("t1.jpg"), Some(30));
    assert_eq!(dir.len(), 3);
}

#[test]
fn temporary_name_with_another_extension_is_not_taken() {
    let mut session = RenameSession::ordered(
        names(&["a.jpg", "0001.jpg"]),
        scheme(4, 1, 1),
        RetryPolicy::Forever,
    );
    session.handle(Event::Probed { exists: true });
    assert_eq!(
        session.handle(Event::Temporary { name: String::from("t.png") }),
        Action::ChooseTemporary { extension: String::from("jpg") }
    );
    assert_eq!(session.phase(), Phase::NeedTemporary);
}

#[test]
fn failed_rename_is_tried_again_forever() {
    let mut session =
        RenameSession::ordered(names(&["a.jpg"]), scheme(4, 1, 1), RetryPolicy::Forever);
    let rename = Action::Rename { from: String::from("a.jpg"), to: String::from("0001.jpg") };
    assert_eq!(session.handle(Event::Probed { exists: false }), rename);
    for _ in 0..1000 {
        assert_eq!(session.handle(Event::RenameFailed), rename);
    }
    assert_eq!(session.handle(Event::Renamed), Action::Finish);
    assert_eq!(
        session.report(),
        RenameReport { total: 1, renamed: 1, skipped: 0, errors: 0 }
    );
}

#[test]
fn limited_policy_gives_the_file_up() {
    let mut session = RenameSession::ordered(
        names(&["a.jpg", "b.jpg"]),
        scheme(4, 1, 1),
        RetryPolicy::Limited(2),
    );
    let rename = Action::Rename { from: String::from("a.jpg"), to: String::from("0001.jpg") };
    assert_eq!(session.handle(Event::Probed { exists: false }), rename);
    assert_eq!(session.handle(Event::RenameFailed), rename);
    assert_eq!(session.handle(Event::RenameFailed), rename);
    assert_eq!(
        session.handle(Event::RenameFailed),
        Action::Probe { name: String::from("0002.jpg") }
    );
    assert_eq!(session.outcomes(), &vec![FileOutcome::Error]);
    assert_eq!(
        session.handle(Event::Probed { exists: false }),
        Action::Rename { from: String::from("b.jpg"), to: String::from("0002.jpg") }
    );
    assert_eq!(session.handle(Event::Renamed), Action::Finish);
    assert_eq!(
        session.report(),
        RenameReport { total: 2, renamed: 1, skipped: 0, errors: 1 }
    );
    assert_eq!(session.files(), &names(&["a.jpg", "0002.jpg"]));
    assert!(RetryPolicy::Limited(0).retry_allowed(0));
    assert!(!RetryPolicy::Limited(0).retry_allowed(1));
    assert!(RetryPolicy::Forever.retry_allowed(u32::MAX));
}

#[test]
fn report_that_answers_nothing_is_passed_over() {
    let mut session =
        RenameSession::ordered(names(&["a.jpg"]), scheme(4, 1, 1), RetryPolicy::Forever);
    let probe = Action::Probe { name: String::from("0001.jpg") };
    assert_eq!(session.handle(Event::Renamed), probe);
    assert_eq!(session.handle(Event::RenameFailed), probe);
    assert_eq!(session.handle(Event::Temporary { name: String::from("t.jpg") }), probe);
    assert_eq!(session.phase(), Phase::Probing);
}

#[test]
fn empty_work_unit_is_finished_at_once() {
    let mut dir = directory(&[("note.txt", 1)]);
    let session =
        rename_in_memory(&mut dir, names(&[]), scheme(4, 1, 1), Order::Natural, &names(&[]))
            .unwrap();
    assert_eq!(
        session.report(),
        RenameReport { total: 0, renamed: 0, skipped: 0, errors: 0 }
    );
    assert_eq!(dir.lookup("note.txt"), Some(1));
}

#[test]
fn directory_rename_replaces_like_a_file_system() {
    let mut dir = directory(&[("a", 1), ("b", 2)]);
    assert!(!dir.insert("a", 3));
    assert!(!dir.insert("c", 1));
    assert!(!dir.rename("missing", "c"));
    assert!(dir.rename("a", "a"));
    assert!(dir.rename("a", "b"));
    assert_eq!(dir.lookup("b"), Some(1));
    assert_eq!(dir.lookup("a"), None);
    assert!(!dir.contains("a"));
    assert!(dir.contains("b"));
    assert_eq!(dir.len(), 1);
    assert_eq!(dir.names(), names(&["b"]));
}

#[test]
fn one_identifier_for_each_collision_is_enough() {
    let mut dir = directory(&[("c.jpg", 1), ("b.jpg", 2), ("a.jpg", 3)]);
    let session = rename_in_memory(
        &mut dir,
        names(&["c.jpg", "b.jpg", "a.jpg"]),
        scheme(4, 1, 1),
        Order::Natural,
        &names(&[]),
    )
    .unwrap();
    assert_eq!(session.report().renamed, 3);
    assert_eq!(dir.lookup("0001.jpg"), Some(3));
    assert_eq!(dir.lookup("0003.jpg"), Some(1));

    let mut dir = directory(&[("0002.jpg", 1), ("0003.jpg", 2), ("0004.jpg", 3)]);
    let result = rename_in_memory(
        &mut dir,
        names(&["0002.jpg", "0003.jpg", "0004.jpg"]),
        scheme(4, 3, 1),
        Order::Natural,
        &names(&["t"]),
    );
    assert_eq!(result.err(), Some(RunError::OutOfTemporaryNames));
    let mut dir = directory(&[("0002.jpg", 1), ("0003.jpg", 2), ("0004.jpg", 3)]);
    let session = rename_in_memory(
        &mut dir,
        names(&["0002.jpg", "0003.jpg", "0004.jpg"]),
        scheme(4, 3, 1),
        Order::Natural,
        &names(&["t", "u"]),
    )
    .unwrap();
    assert_eq!(session.report().renamed, 3);
    assert_eq!(dir.lookup("0003.jpg"), Some(1));
    assert_eq!(dir.lookup("0004.jpg"), Some(2));
    assert_eq!(dir.lookup("0005.jpg"), Some(3));
    assert_eq!(dir.len(), 3);
}
