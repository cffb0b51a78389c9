use timeflip::calendar::{shift_to_local, CalendarDate};
use timeflip::entry::{Facet, LogEntry};
use timeflip::history::{
    conclude, contains_id, entries_since, merge, open_cache, persist_warning, reconcile,
    resume_point, select_entries, sort_by_id, supersede, CacheRead, HistoryError, HistoryReport,
};

fn entry(id: u32) -> LogEntry {
    LogEntry { id, facet: Facet::new(1).unwrap(), pause: false, time: 1_000 + id as i64, duration: 60 }
}

fn fresh(id: u32) -> LogEntry {
    LogEntry { id, facet: Facet::new(7).unwrap(), pause: true, time: 9_000 + id as i64, duration: 5 }
}

fn at(id: u32, time: i64) -> LogEntry {
    LogEntry { id, facet: Facet::new(2).unwrap(), pause: false, time, duration: 1 }
}

fn ids(entries: &[LogEntry]) -> Vec<u32> {
    entries.iter().map(|e| e.id).collect()
}

#[test]
fn resume_is_largest_cached_id_without_override() {
    assert_eq!(resume_point(&vec![entry(1), entry(2)], None), 2);
    assert_eq!(resume_point(&vec![entry(4), entry(9), entry(3)], None), 9);
}

#[test]
fn resume_is_zero_for_empty_cache() {
    assert_eq!(resume_point(&vec![], None), 0);
}

#[test]
fn resume_is_override_whatever_the_cache_holds() {
    assert_eq!(resume_point(&vec![entry(1), entry(2)], Some(10)), 10);
    assert_eq!(resume_point(&vec![entry(50)], Some(0)), 0);
    assert_eq!(resume_point(&vec![], Some(7)), 7);
}

#[test]
fn fetch_after_cache_appends_new_entries() {
    let mut asked = None;
    let result = reconcile(vec![entry(1), entry(2)], None, |from| {
        asked = Some(from);
        Ok::<Vec<LogEntry>, String>(vec![entry(3), entry(4)])
    });
    assert_eq!(asked, Some(2));
    assert_eq!(result, Ok(vec![entry(1), entry(2), entry(3), entry(4)]));
}

#[test]
fn resent_entry_supersedes_cached_one() {
    let result = merge(vec![entry(1), entry(2)], vec![fresh(2), fresh(3)]);
    assert_eq!(result.len(), 3);
    assert_eq!(result, vec![entry(1), fresh(2), fresh(3)]);
}

#[test]
fn absent_cache_with_override_yields_the_batch() {
    let cache = open_cache::<String>(CacheRead::Missing).unwrap();
    let mut asked = None;
    let result = reconcile(cache, Some(10), |from| {
        asked = Some(from);
        Ok::<Vec<LogEntry>, String>(vec![entry(11), entry(12)])
    });
    assert_eq!(asked, Some(10));
    assert_eq!(result, Ok(vec![entry(11), entry(12)]));
}

#[test]
fn missing_cache_file_is_an_empty_cache() {
    let missing = open_cache::<String>(CacheRead::Missing);
    let empty = open_cache::<String>(CacheRead::Loaded(vec![]));
    let unasked = open_cache::<String>(CacheRead::NotRequested);
    assert_eq!(missing, Ok(vec![]));
    assert_eq!(missing, empty);
    assert_eq!(missing, unasked);
    assert_eq!(resume_point(&missing.unwrap(), None), 0);
}

#[test]
fn corrupt_cache_is_fatal() {
    let opened = open_cache(CacheRead::Corrupt("expected value at line 1".to_string()));
    assert_eq!(opened, Err(HistoryError::CacheCorrupt("expected value at line 1".to_string())));
}

#[test]
fn unreadable_cache_is_fatal() {
    let opened = open_cache(CacheRead::Unreadable("permission denied".to_string()));
    assert_eq!(opened, Err(HistoryError::CacheUnreadable("permission denied".to_string())));
}

#[test]
fn loaded_cache_is_sorted_by_id() {
    let opened = open_cache::<String>(CacheRead::Loaded(vec![entry(3), entry(1), entry(2)]));
    assert_eq!(opened, Ok(vec![entry(1), entry(2), entry(3)]));
}

#[test]
fn sort_keeps_order_of_equal_ids() {
    let sorted = sort_by_id(vec![fresh(2), entry(5), entry(2), entry(1), fresh(5)]);
    assert_eq!(sorted, vec![entry(1), fresh(2), entry(2), entry(5), fresh(5)]);
}

#[test]
fn sort_leaves_sorted_entries_alone() {
    let sorted = sort_by_id(vec![entry(1), entry(2), entry(3)]);
    assert_eq!(sorted, vec![entry(1), entry(2), entry(3)]);
    assert_eq!(sort_by_id(vec![]), vec![]);
}

#[test]
fn empty_cache_and_empty_fetch_give_empty_result() {
    assert_eq!(merge(vec![], vec![]), vec![]);
    let result = reconcile(vec![], None, |_| Ok::<Vec<LogEntry>, String>(vec![]));
    assert_eq!(result, Ok(vec![]));
}

#[test]
fn reconcile_is_idempotent() {
    let once = merge(vec![entry(1), entry(2)], vec![fresh(2), fresh(3)]);
    let mut asked = None;
    let twice = reconcile(once.clone(), None, |from| {
        asked = Some(from);
        Ok::<Vec<LogEntry>, String>(vec![])
    });
    assert_eq!(asked, Some(3));
    assert_eq!(twice, Ok(once));
}

#[test]
fn reconciled_cache_is_ascending_and_unique() {
    let result = merge(
        vec![entry(1), entry(2), entry(5)],
        vec![fresh(3), fresh(4), fresh(5), fresh(6)],
    );
    assert_eq!(ids(&result), vec![1, 2, 3, 4, 5, 6]);
    assert!(result.windows(2).all(|pair| pair[0].id < pair[1].id));
}

#[test]
fn cached_entry_beyond_the_batch_stays_in_front() {
    let result = merge(vec![entry(5)], vec![fresh(3)]);
    assert_eq!(result, vec![entry(5), fresh(3)]);
}

#[test]
fn superseded_id_occurs_once_with_fresh_data() {
    let result = merge(vec![entry(4), entry(5), entry(6)], vec![fresh(5)]);
    let fives: Vec<&LogEntry> = result.iter().filter(|e| e.id == 5).collect();
    assert_eq!(fives, vec![&fresh(5)]);
    assert_eq!(result, vec![entry(4), entry(6), fresh(5)]);
}

#[test]
fn supersede_drops_only_ids_of_the_batch() {
    let stay = supersede(vec![entry(1), entry(2), entry(3)], &vec![fresh(2), fresh(9)]);
    assert_eq!(stay, vec![entry(1), entry(3)]);
    assert!(contains_id(&vec![fresh(2), fresh(9)], 9));
    assert!(!contains_id(&vec![fresh(2), fresh(9)], 3));
    assert!(!contains_id(&vec![], 0));
}

#[test]
fn failed_fetch_is_handed_on_unchanged() {
    let mut asked = None;
    let result = reconcile(vec![entry(1)], None, |from| {
        asked = Some(from);
        Err::<Vec<LogEntry>, String>("device went away".to_string())
    });
    assert_eq!(asked, Some(1));
    assert_eq!(result, Err("device went away".to_string()));
}

#[test]
fn failed_write_becomes_a_warning() {
    let report = conclude(vec![entry(1)], Some(Err("disk full".to_string())));
    assert_eq!(
        report,
        HistoryReport { entries: vec![entry(1)], warning: Some("disk full".to_string()) }
    );
}

#[test]
fn successful_or_absent_write_gives_no_warning() {
    let written = conclude::<String>(vec![entry(1)], Some(Ok(())));
    assert_eq!(written, HistoryReport { entries: vec![entry(1)], warning: None });
    let unasked = conclude::<String>(vec![], None);
    assert_eq!(unasked, HistoryReport { entries: vec![], warning: None });
}

#[test]
fn persist_warning_names_file_and_reason() {
    assert_eq!(
        persist_warning("entries.json", "disk full"),
        "cannot update entries file entries.json: disk full"
    );
}

#[test]
fn entries_since_keeps_the_bound_itself() {
    let shown = entries_since(vec![at(1, 99), at(2, 100), at(3, 101), at(4, 50)], 100);
    assert_eq!(shown, vec![at(2, 100), at(3, 101)]);
    assert_eq!(entries_since(vec![at(1, -5)], i64::MIN), vec![at(1, -5)]);
    assert_eq!(entries_since(vec![], 0), vec![]);
}

#[test]
fn select_without_day_shows_everything() {
    let shown = select_entries(vec![at(1, -7), at(2, 12)], None, 3600);
    assert_eq!(shown, Some(vec![at(1, -7), at(2, 12)]));
}

#[test]
fn select_starts_at_local_midnight() {
    let day = CalendarDate { year: 2023, month: 6, day: 3 };
    let midnight_utc = 1_685_750_400;
    let entries = vec![
        at(1, midnight_utc - 7_201),
        at(2, midnight_utc - 7_200),
        at(3, midnight_utc),
    ];
    let east = select_entries(entries.clone(), Some(day), 7_200);
    assert_eq!(east, Some(vec![at(2, midnight_utc - 7_200), at(3, midnight_utc)]));
    let utc = select_entries(entries.clone(), Some(day), 0);
    assert_eq!(utc, Some(vec![at(3, midnight_utc)]));
    let west = select_entries(entries, Some(day), -3_600);
    assert_eq!(west, Some(vec![]));
}

#[test]
fn select_has_no_answer_for_a_day_that_does_not_exist() {
    let day = CalendarDate { year: 2023, month: 2, day: 30 };
    assert_eq!(select_entries(vec![at(1, 0)], Some(day), 0), None);
    let month = CalendarDate { year: 2023, month: 0, day: 1 };
    assert_eq!(select_entries(vec![at(1, 0)], Some(month), 0), None);
}

#[test]
fn clock_ahead_of_utc_reaches_the_hour_earlier() {
    assert_eq!(shift_to_local(1_000, 100), Some(900));
    assert_eq!(shift_to_local(1_000, -100), Some(1_100));
    assert_eq!(shift_to_local(0, 0), Some(0));
    assert_eq!(shift_to_local(i64::MIN, 1), None);
    assert_eq!(shift_to_local(i64::MAX, -1), None);
    assert_eq!(shift_to_local(i64::MAX, i32::MAX), Some(i64::MAX - i32::MAX as i64));
    assert_eq!(shift_to_local(i64::MIN, i32::MIN), Some(i64::MIN + 2_147_483_648));
}

#[test]
fn day_begins_at_its_local_midnight() {
    assert_eq!(CalendarDate { year: 1970, month: 1, day: 1 }.begins_at(0), Some(0));
    assert_eq!(CalendarDate { year: 1970, month: 1, day: 1 }.begins_at(3_600), Some(-3_600));
    assert_eq!(CalendarDate { year: 2024, month: 2, day: 29 }.begins_at(0), Some(1_709_164_800));
    assert_eq!(CalendarDate { year: 2023, month: 2, day: 29 }.begins_at(0), None);
    assert_eq!(CalendarDate { year: 2023, month: 13, day: 1 }.begins_at(0), None);
    assert_eq!(CalendarDate { year: 2023, month: 6, day: 3 }.begins_at(7_200), Some(1_685_743_200));
    assert_eq!(CalendarDate { year: 2023, month: 6, day: 3 }.begins_at(-86_400), Some(1_685_836_800));
}
