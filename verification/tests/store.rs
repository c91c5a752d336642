use mochios_files::sidebar::SidebarBookmarks;
use mochios_files::store::{
    backup_path, is_reported, loaded, next_step, recovery, temporary_path, Outcome, Recovery,
    SaveStep,
};
use mochios_files::store::Outcome::{Failed, NotFound, Succeeded};

fn run(outcomes: &[Outcome]) -> Vec<SaveStep> {
    let mut step = SaveStep::CreateDirectory;
    let mut steps = vec![step];
    for outcome in outcomes {
        step = next_step(step, *outcome);
        steps.push(step);
    }
    steps
}

#[test]
fn a_clean_save_replaces_the_store() {
    assert_eq!(
        run(&[Succeeded; 7]),
        vec![
            SaveStep::CreateDirectory,
            SaveStep::RemoveTemporary,
            SaveStep::RemoveBackup,
            SaveStep::WriteTemporary,
            SaveStep::MoveStoreAside,
            SaveStep::MoveTemporaryIn { had_store: true },
            SaveStep::DiscardBackup,
            SaveStep::Finished { saved: true },
        ]
    );
}

#[test]
fn a_first_save_has_nothing_to_move_aside() {
    let steps = run(&[Succeeded, NotFound, NotFound, Succeeded, NotFound, Succeeded]);
    assert_eq!(steps[5], SaveStep::MoveTemporaryIn { had_store: false });
    assert_eq!(steps[6], SaveStep::Finished { saved: true });
}

#[test]
fn a_failed_move_puts_the_backup_back() {
    let steps = run(&[Succeeded, Succeeded, Succeeded, Succeeded, Succeeded, Failed, Failed, Succeeded]);
    assert_eq!(steps[6], SaveStep::RestoreStore);
    assert_eq!(steps[7], SaveStep::DiscardTemporary);
    assert_eq!(steps[8], SaveStep::Finished { saved: false });
    assert!(is_reported(SaveStep::MoveTemporaryIn { had_store: true }, Failed));
    assert!(!is_reported(SaveStep::RestoreStore, Failed));
    assert!(!is_reported(SaveStep::RemoveBackup, NotFound));
}

#[test]
fn early_failures_end_the_save_at_once() {
    assert_eq!(next_step(SaveStep::CreateDirectory, Failed), SaveStep::Finished { saved: false });
    assert_eq!(next_step(SaveStep::RemoveBackup, Failed), SaveStep::Finished { saved: false });
    assert_eq!(next_step(SaveStep::WriteTemporary, Failed), SaveStep::DiscardTemporary);
}

#[test]
fn left_over_backups_are_recovered() {
    assert_eq!(recovery(false, true), Recovery::Nothing);
    assert_eq!(recovery(true, true), Recovery::DiscardBackup);
    assert_eq!(recovery(true, false), Recovery::RestoreBackup);
}

#[test]
fn save_files_sit_beside_the_store() {
    assert_eq!(backup_path(b"/data/u"), b"/data/u/.sidebar-v1.backup".to_vec());
    assert_eq!(temporary_path(b"/data/u", 4_321), b"/data/u/.sidebar-v1-4321.new".to_vec());
}

#[test]
fn unreadable_stores_load_empty() {
    let mut bookmarks = SidebarBookmarks::default();
    assert!(bookmarks.add(b"/srv".to_vec()));
    let bytes = bookmarks.encode().unwrap();
    assert_eq!(loaded(Some(&bytes)), bookmarks);
    assert_eq!(loaded(Some(b"garbage")), SidebarBookmarks::default());
    assert_eq!(loaded(None), SidebarBookmarks::default());
}
