use timeflip::calendar::CalendarDate;
use timeflip::command::{
    battery_line, facet_line, Command, CommandError, DeviceCall, HistoryStyle, Plan,
};
use timeflip::config::{facet_name, Config, Side};
use timeflip::entry::{Facet, FACET_COUNT};
use timeflip::notify::SubscriptionSet;
use timeflip::text::{decimal, joined};

fn history() -> Command {
    Command::History {
        update: Some("entries.json".to_string()),
        start_with: None,
        since: Some(CalendarDate { year: 2023, month: 6, day: 3 }),
        style: HistoryStyle::Tabular,
    }
}

fn sides(names: &[(usize, &str)]) -> Vec<Side> {
    let mut sides = Vec::new();
    for i in 0..12 {
        let name = names.iter().find(|(at, _)| *at == i).map(|(_, name)| name.to_string());
        sides.push(Side { name });
    }
    sides
}

#[test]
fn commands_that_need_a_configuration() {
    assert!(history().requires_config());
    assert!(Command::Sync.requires_config());
    assert!(Command::WriteConfig.requires_config());
    assert!(!Command::Battery.requires_config());
    assert!(!Command::Facet.requires_config());
    assert!(!Command::Lock.requires_config());
    assert!(!Command::Unlock.requires_config());
    assert!(!Command::Pause.requires_config());
    assert!(!Command::Unpause.requires_config());
    assert!(!Command::Status.requires_config());
    assert!(!Command::SyncState.requires_config());
    assert!(!Command::Time { set: true }.requires_config());
    let notify = Command::Notify { battery: true, facet: false, double_tap: false, log_event: false };
    assert!(!notify.requires_config());
}

#[test]
fn missing_configuration_refuses_the_command() {
    assert_eq!(history().plan(false), Err(CommandError::ConfigMissing));
    assert_eq!(Command::Sync.plan(false), Err(CommandError::ConfigMissing));
    assert_eq!(Command::WriteConfig.plan(false), Err(CommandError::ConfigMissing));
}

#[test]
fn configuration_admits_the_command() {
    assert_eq!(history().plan(true), Ok(Plan::History));
    assert_eq!(Command::Sync.plan(true), Ok(Plan::Single(DeviceCall::Sync)));
    assert_eq!(Command::WriteConfig.plan(true), Ok(Plan::Single(DeviceCall::WriteConfig)));
}

#[test]
fn plain_commands_make_one_call_with_or_without_configuration() {
    for has_config in [false, true] {
        assert_eq!(Command::Battery.plan(has_config), Ok(Plan::Single(DeviceCall::BatteryLevel)));
        assert_eq!(Command::Facet.plan(has_config), Ok(Plan::Single(DeviceCall::Facet)));
        assert_eq!(Command::Lock.plan(has_config), Ok(Plan::Single(DeviceCall::Lock)));
        assert_eq!(Command::Unlock.plan(has_config), Ok(Plan::Single(DeviceCall::Unlock)));
        assert_eq!(Command::Pause.plan(has_config), Ok(Plan::Single(DeviceCall::Pause)));
        assert_eq!(Command::Unpause.plan(has_config), Ok(Plan::Single(DeviceCall::Unpause)));
        assert_eq!(Command::Status.plan(has_config), Ok(Plan::Single(DeviceCall::SystemStatus)));
        assert_eq!(Command::SyncState.plan(has_config), Ok(Plan::Single(DeviceCall::SyncState)));
    }
}

#[test]
fn time_command_reads_or_sets() {
    assert_eq!(Command::Time { set: false }.plan(false), Ok(Plan::Single(DeviceCall::Time)));
    assert_eq!(Command::Time { set: true }.plan(false), Ok(Plan::Single(DeviceCall::SetTime)));
}

#[test]
fn notify_command_carries_its_flags() {
    let notify = Command::Notify { battery: true, facet: false, double_tap: true, log_event: false };
    assert_eq!(
        notify.plan(false),
        Ok(Plan::Notify(SubscriptionSet {
            battery: true,
            facet: false,
            double_tap: true,
            log_event: false,
        }))
    );
}

#[test]
fn config_missing_message() {
    assert_eq!(CommandError::ConfigMissing.message(), "config is mandatory for this command");
}

#[test]
fn battery_line_prints_the_level() {
    assert_eq!(battery_line(0), "Battery level: 0");
    assert_eq!(battery_line(42), "Battery level: 42");
    assert_eq!(battery_line(100), "Battery level: 100");
}

#[test]
fn facet_line_prints_name_or_number() {
    let config = Config::new(sides(&[(0, "Mail")])).unwrap();
    assert_eq!(facet_line(&Facet::new(1).unwrap(), Some(&config)), "Currently up: Mail");
    assert_eq!(facet_line(&Facet::new(2).unwrap(), Some(&config)), "Currently up: 2");
    assert_eq!(facet_line(&Facet::new(1).unwrap(), None), "Currently up: 1");
}

#[test]
fn facet_numbers_run_from_one_to_twelve() {
    assert_eq!(FACET_COUNT, 12);
    assert_eq!(Facet::new(0), None);
    assert_eq!(Facet::new(13), None);
    assert_eq!(Facet::new(255), None);
    for number in 1..=12u8 {
        let facet = Facet::new(number).unwrap();
        assert_eq!(facet.number(), number);
        assert_eq!(facet.index_zero(), number as usize - 1);
    }
}

#[test]
fn configuration_has_one_side_per_facet() {
    assert!(Config::new(sides(&[])).is_some());
    assert!(Config::new(vec![]).is_none());
    let mut thirteen = sides(&[]);
    thirteen.push(Side { name: None });
    assert!(Config::new(thirteen).is_none());
}

#[test]
fn side_name_is_found_by_facet() {
    let config = Config::new(sides(&[(4, "Lunch"), (11, "Sleep")])).unwrap();
    assert_eq!(config.side_name(&Facet::new(5).unwrap()), Some(&"Lunch".to_string()));
    assert_eq!(config.side_name(&Facet::new(12).unwrap()), Some(&"Sleep".to_string()));
    assert_eq!(config.side_name(&Facet::new(1).unwrap()), None);
}

#[test]
fn facet_name_prefers_the_configured_name() {
    let config = Config::new(sides(&[(4, "Lunch")])).unwrap();
    assert_eq!(facet_name(&Facet::new(5).unwrap(), Some(&config)), "Lunch");
    assert_eq!(facet_name(&Facet::new(6).unwrap(), Some(&config)), "6");
    assert_eq!(facet_name(&Facet::new(5).unwrap(), None), "5");
    assert_eq!(facet_name(&Facet::new(10).unwrap(), None), "10");
}

#[test]
fn decimal_matches_display() {
    for n in 0..=255u8 {
        assert_eq!(decimal(n), format!("{}", n));
    }
}

#[test]
fn joined_concatenates() {
    assert_eq!(joined("ab", "cd"), "abcd");
    assert_eq!(joined("", ""), "");
}
