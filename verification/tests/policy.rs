use thumbcache::outcome::{goes_on, policy, Failure, Outcome, Policy};

#[test]
fn undecodable_input_costs_only_the_file() {
    assert_eq!(policy(Failure::Undecodable), Policy::SkipFile);
}

#[test]
fn unreadable_source_is_treated_as_undecodable() {
    assert_eq!(policy(Failure::SourceUnreadable), Policy::SkipFile);
}

#[test]
fn write_failure_is_fatal() {
    assert_eq!(policy(Failure::CacheUnwritable), Policy::Abort);
}

#[test]
fn missing_watch_is_fatal() {
    assert_eq!(policy(Failure::WatchUnavailable), Policy::Abort);
}

#[test]
fn closed_channel_stops_the_watching() {
    assert_eq!(policy(Failure::ChannelClosed), Policy::StopWatching);
}

#[test]
fn work_goes_on_after_success_and_soft_failures_only() {
    assert!(goes_on(Outcome::Written));
    assert!(goes_on(Outcome::Failed(Failure::Undecodable)));
    assert!(goes_on(Outcome::Failed(Failure::SourceUnreadable)));
    assert!(!goes_on(Outcome::Failed(Failure::CacheUnwritable)));
    assert!(!goes_on(Outcome::Failed(Failure::WatchUnavailable)));
    assert!(!goes_on(Outcome::Failed(Failure::ChannelClosed)));
}
