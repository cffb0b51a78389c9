//! The commands of the tool, and what each needs before it may run.

use crate::calendar::CalendarDate;
use crate::config::{facet_name, facet_name_text, supplied, Config};
use crate::entry::Facet;
use crate::notify::SubscriptionSet;
use crate::text::{decimal, decimal_text, joined};
use vstd::prelude::*;
use vstd::string::*;

verus! {

/// How the history command lays out the entries.
#[derive(Clone, Copy, Debug, PartialEq, Eq)]
pub enum HistoryStyle {
    Lines,
    Tabular,
    Summarized,
}

/// What the operator asks of the cube.
#[derive(Debug, PartialEq, Eq)]
pub enum Command {
    /// Print the current battery level.
    Battery,
    /// Print the logged entries.
    History {
        /// File that holds the cache of entries, read first and written last.
        update: Option<String>,
        /// Identifier after which to read, in place of the cache's last one.
        start_with: Option<u32>,
        /// Show only what is not older than the start of this day.
        since: Option<CalendarDate>,
        style: HistoryStyle,
    },
    /// Print the facet that is up.
    Facet,
    /// Lock the cube.
    Lock,
    /// Release the cube from lock mode.
    Unlock,
    /// Listen for notifications of the chosen classes.
    Notify { battery: bool, facet: bool, double_tap: bool, log_event: bool },
    /// Pause the cube.
    Pause,
    /// Release the cube from pause mode.
    Unpause,
    /// Print the system status.
    Status,
    /// Print the synchronisation state.
    SyncState,
    /// Synchronise the cube with the configuration.
    Sync,
    /// Print the cube's time, or set it to the present time.
    Time { set: bool },
    /// Write the configuration to the cube's memory.
    WriteConfig,
}

/// A request to the device session.
#[derive(Clone, Copy, Debug, PartialEq, Eq)]
pub enum DeviceCall {
    BatteryLevel,
    Facet,
    Lock,
    Unlock,
    Pause,
    Unpause,
    SystemStatus,
    SyncState,
    Sync,
    Time,
    SetTime,
    WriteConfig,
}

/// The way in which a command is carried out.
#[derive(Clone, Copy, Debug, PartialEq, Eq)]
pub enum Plan {
    /// One request to the device, whose answer is printed where it has one.
    Single(DeviceCall),
    /// The reconciliation of the cached log, then its display.
    History,
    /// Subscriptions for the chosen classes, then the live sequence.
    Notify(SubscriptionSet),
}

/// Why a command was refused before it touched the device.
#[derive(Clone, Copy, Debug, PartialEq, Eq)]
pub enum CommandError {
    /// The command needs a configuration and none was supplied.
    ConfigMissing,
}

impl CommandError {
    /// The words in which the error is told to the operator.
    pub fn message(&self) -> (text: String)
        ensures
            text@ == "config is mandatory for this command"@,
    {
        String::from_str("config is mandatory for this command")
    }
}

impl Command {
    /// The commands that cannot run without a configuration.
    pub open spec fn needs_config(self) -> bool {
        self is History || self is Sync || self is WriteConfig
    }

    /// How the command is carried out once it is admitted.
    pub open spec fn planned(self) -> Plan {
        match self {
            Command::Battery => Plan::Single(DeviceCall::BatteryLevel),
            Command::History { .. } => Plan::History,
            Command::Facet => Plan::Single(DeviceCall::Facet),
            Command::Lock => Plan::Single(DeviceCall::Lock),
            Command::Unlock => Plan::Single(DeviceCall::Unlock),
            Command::Notify { battery, facet, double_tap, log_event } => Plan::Notify(
                SubscriptionSet { battery, facet, double_tap, log_event },
            ),
            Command::Pause => Plan::Single(DeviceCall::Pause),
            Command::Unpause => Plan::Single(DeviceCall::Unpause),
            Command::Status => Plan::Single(DeviceCall::SystemStatus),
            Command::SyncState => Plan::Single(DeviceCall::SyncState),
            Command::Sync => Plan::Single(DeviceCall::Sync),
            Command::Time { set } => if set {
                Plan::Single(DeviceCall::SetTime)
            } else {
                Plan::Single(DeviceCall::Time)
            },
            Command::WriteConfig => Plan::Single(DeviceCall::WriteConfig),
        }
    }

    /// Whether the command cannot run without a configuration.
    pub fn requires_config(&self) -> (needed: bool)
        ensures
            needed == self.needs_config(),
    {
        match self {
            Command::History { .. } => true,
            Command::Sync => true,
            Command::WriteConfig => true,
            _ => false,
        }
    }

    /// Decides, before any request goes to the device, whether the command
    /// may run and how. A command that needs a configuration is refused
    /// where none is at hand; every other command is admitted.
    pub fn plan(&self, has_config: bool) -> (plan: Result<Plan, CommandError>)
        ensures
            plan == if self.needs_config() && !has_config {
                Err::<Plan, CommandError>(CommandError::ConfigMissing)
            } else {
                Ok::<Plan, CommandError>(self.planned())
            },
    {
        if self.requires_config() && !has_config {
            return Err(CommandError::ConfigMissing);
        }
        Ok(
            match self {
                Command::Battery => Plan::Single(DeviceCall::BatteryLevel),
                Command::History { .. } => Plan::History,
                Command::Facet => Plan::Single(DeviceCall::Facet),
                Command::Lock => Plan::Single(DeviceCall::Lock),
                Command::Unlock => Plan::Single(DeviceCall::Unlock),
                Command::Notify { battery, facet, double_tap, log_event } => Plan::Notify(
                    SubscriptionSet {
                        battery: *battery,
                        facet: *facet,
                        double_tap: *double_tap,
                        log_event: *log_event,
                    },
                ),
                Command::Pause => Plan::Single(DeviceCall::Pause),
                Command::Unpause => Plan::Single(DeviceCall::Unpause),
                Command::Status => Plan::Single(DeviceCall::SystemStatus),
                Command::SyncState => Plan::Single(DeviceCall::SyncState),
                Command::Sync => Plan::Single(DeviceCall::Sync),
                Command::Time { set } => if *set {
                    Plan::Single(DeviceCall::SetTime)
                } else {
                    Plan::Single(DeviceCall::Time)
                },
                Command::WriteConfig => Plan::Single(DeviceCall::WriteConfig),
            },
        )
    }
}

/// The line that answers the battery command.
pub fn battery_line(percent: u8) -> (line: String)
    ensures
        line@ == "Battery level: "@ + decimal_text(percent),
{
    let number = decimal(percent);
    joined("Battery level: ", number.as_str())
}

/// The line that answers the facet command.
pub fn facet_line(facet: &Facet, config: Option<&Config>) -> (line: String)
    ensures
        line@ == "Currently up: "@ + facet_name_text(*facet, supplied(config)),
{
    let name = facet_name(facet, config);
    joined("Currently up: ", name.as_str())
}

} // verus!
