//! The records that flow through the analysis: log entries, system events,
//! CAN and Ethernet frames, and the summaries built from them.

use vstd::prelude::*;

verus! {

/// Which system a log entry came from.
#[derive(Debug, Clone, Copy, PartialEq, Eq, Hash, Structural)]
pub enum Domain {
    Qnx,
    Android,
}

pub open spec fn domain_text(d: Domain) -> Seq<char> {
    match d {
        Domain::Qnx => "QNX"@,
        Domain::Android => "Android"@,
    }
}

impl Domain {
    /// The display name of the domain: `QNX` or `Android`.
    pub fn name(&self) -> (r: &'static str)
        ensures
            r@ == domain_text(*self),
    {
        match self {
            Domain::Qnx => "QNX",
            Domain::Android => "Android",
        }
    }
}

/// Unified log entry used across parsers.
#[derive(Debug)]
pub struct LogEntry {
    /// Milliseconds since the epoch.
    pub timestamp: i64,
    pub domain: Domain,
    pub process: String,
    pub message: String,
}

pub struct LogEntryView {
    pub timestamp: i64,
    pub domain: Domain,
    pub process: Seq<char>,
    pub message: Seq<char>,
}

impl View for LogEntry {
    type V = LogEntryView;

    open spec fn view(&self) -> LogEntryView {
        LogEntryView {
            timestamp: self.timestamp,
            domain: self.domain,
            process: self.process@,
            message: self.message@,
        }
    }
}

impl DeepView for LogEntry {
    type V = LogEntryView;

    open spec fn deep_view(&self) -> LogEntryView {
        self@
    }
}

/// The kinds of system events, in the order the classifier tries them.
#[derive(Debug, Clone, Copy, PartialEq, Eq, Structural)]
pub enum EventKind {
    ServiceStart,
    ServiceCrash,
    SystemCrash,
    Timeout,
    Watchdog,
    Reset,
    Discrepancy,
    Deviation,
}

/// High level system events detected from logs.
#[derive(Debug)]
pub enum SystemEvent {
    ServiceStart { domain: Domain, name: String, timestamp: i64, raw_log: String },
    ServiceCrash { domain: Domain, process: String, timestamp: i64, raw_log: String },
    SystemCrash { domain: Domain, reason: String, timestamp: i64, raw_log: String },
    Timeout { domain: Domain, service: String, timestamp: i64, raw_log: String },
    Watchdog { domain: Domain, timestamp: i64, raw_log: String },
    Reset { domain: Domain, reason: String, timestamp: i64, raw_log: String },
    Discrepancy { domain: Domain, details: String, timestamp: i64, raw_log: String },
    Deviation { domain: Domain, details: String, timestamp: i64, raw_log: String },
}

/// An event as a value: its kind, domain, the text it carries (service name,
/// process, reason or details; empty for a watchdog), timestamp and raw line.
pub struct SystemEventView {
    pub kind: EventKind,
    pub domain: Domain,
    pub detail: Seq<char>,
    pub timestamp: i64,
    pub raw_log: Seq<char>,
}

impl View for SystemEvent {
    type V = SystemEventView;

    open spec fn view(&self) -> SystemEventView {
        match self {
            SystemEvent::ServiceStart { domain, name, timestamp, raw_log } => SystemEventView {
                kind: EventKind::ServiceStart,
                domain: *domain,
                detail: name@,
                timestamp: *timestamp,
                raw_log: raw_log@,
            },
            SystemEvent::ServiceCrash { domain, process, timestamp, raw_log } => SystemEventView {
                kind: EventKind::ServiceCrash,
                domain: *domain,
                detail: process@,
                timestamp: *timestamp,
                raw_log: raw_log@,
            },
            SystemEvent::SystemCrash { domain, reason, timestamp, raw_log } => SystemEventView {
                kind: EventKind::SystemCrash,
                domain: *domain,
                detail: reason@,
                timestamp: *timestamp,
                raw_log: raw_log@,
            },
            SystemEvent::Timeout { domain, service, timestamp, raw_log } => SystemEventView {
                kind: EventKind::Timeout,
                domain: *domain,
                detail: service@,
                timestamp: *timestamp,
                raw_log: raw_log@,
            },
            SystemEvent::Watchdog { domain, timestamp, raw_log } => SystemEventView {
                kind: EventKind::Watchdog,
                domain: *domain,
                detail: Seq::empty(),
                timestamp: *timestamp,
                raw_log: raw_log@,
            },
            SystemEvent::Reset { domain, reason, timestamp, raw_log } => SystemEventView {
                kind: EventKind::Reset,
                domain: *domain,
                detail: reason@,
                timestamp: *timestamp,
                raw_log: raw_log@,
            },
            SystemEvent::Discrepancy { domain, details, timestamp, raw_log } => SystemEventView {
                kind: EventKind::Discrepancy,
                domain: *domain,
                detail: details@,
                timestamp: *timestamp,
                raw_log: raw_log@,
            },
            SystemEvent::Deviation { domain, details, timestamp, raw_log } => SystemEventView {
                kind: EventKind::Deviation,
                domain: *domain,
                detail: details@,
                timestamp: *timestamp,
                raw_log: raw_log@,
            },
        }
    }
}

impl DeepView for SystemEvent {
    type V = SystemEventView;

    open spec fn deep_view(&self) -> SystemEventView {
        self@
    }
}

pub open spec fn event_type_text(k: EventKind) -> Seq<char> {
    match k {
        EventKind::ServiceStart => "Service Start"@,
        EventKind::ServiceCrash => "Service Crash"@,
        EventKind::SystemCrash => "System Crash"@,
        EventKind::Timeout => "Timeout"@,
        EventKind::Watchdog => "Watchdog Trigger"@,
        EventKind::Reset => "Reset/Reboot"@,
        EventKind::Discrepancy => "Discrepancy"@,
        EventKind::Deviation => "Deviation"@,
    }
}

pub open spec fn severity_text(k: EventKind) -> Seq<char> {
    match k {
        EventKind::ServiceStart => "INFO"@,
        EventKind::Timeout => "WARNING"@,
        EventKind::Watchdog => "WARNING"@,
        _ => "CRITICAL"@,
    }
}

impl SystemEvent {
    pub fn timestamp(&self) -> (r: i64)
        ensures
            r == self@.timestamp,
    {
        match self {
            SystemEvent::ServiceStart { timestamp, .. } => *timestamp,
            SystemEvent::ServiceCrash { timestamp, .. } => *timestamp,
            SystemEvent::SystemCrash { timestamp, .. } => *timestamp,
            SystemEvent::Timeout { timestamp, .. } => *timestamp,
            SystemEvent::Watchdog { timestamp, .. } => *timestamp,
            SystemEvent::Reset { timestamp, .. } => *timestamp,
            SystemEvent::Discrepancy { timestamp, .. } => *timestamp,
            SystemEvent::Deviation { timestamp, .. } => *timestamp,
        }
    }

    pub fn domain(&self) -> (r: &Domain)
        ensures
            *r == self@.domain,
    {
        match self {
            SystemEvent::ServiceStart { domain, .. } => domain,
            SystemEvent::ServiceCrash { domain, .. } => domain,
            SystemEvent::SystemCrash { domain, .. } => domain,
            SystemEvent::Timeout { domain, .. } => domain,
            SystemEvent::Watchdog { domain, .. } => domain,
            SystemEvent::Reset { domain, .. } => domain,
            SystemEvent::Discrepancy { domain, .. } => domain,
            SystemEvent::Deviation { domain, .. } => domain,
        }
    }

    pub fn event_type(&self) -> (r: &str)
        ensures
            r@ == event_type_text(self@.kind),
    {
        match self {
            SystemEvent::ServiceStart { .. } => "Service Start",
            SystemEvent::ServiceCrash { .. } => "Service Crash",
            SystemEvent::SystemCrash { .. } => "System Crash",
            SystemEvent::Timeout { .. } => "Timeout",
            SystemEvent::Watchdog { .. } => "Watchdog Trigger",
            SystemEvent::Reset { .. } => "Reset/Reboot",
            SystemEvent::Discrepancy { .. } => "Discrepancy",
            SystemEvent::Deviation { .. } => "Deviation",
        }
    }

    pub fn severity(&self) -> (r: &str)
        ensures
            r@ == severity_text(self@.kind),
    {
        match self {
            SystemEvent::ServiceStart { .. } => "INFO",
            SystemEvent::ServiceCrash { .. } => "CRITICAL",
            SystemEvent::SystemCrash { .. } => "CRITICAL",
            SystemEvent::Timeout { .. } => "WARNING",
            SystemEvent::Watchdog { .. } => "WARNING",
            SystemEvent::Reset { .. } => "CRITICAL",
            SystemEvent::Discrepancy { .. } => "CRITICAL",
            SystemEvent::Deviation { .. } => "CRITICAL",
        }
    }

    pub fn raw_log(&self) -> (r: &str)
        ensures
            r@ == self@.raw_log,
    {
        match self {
            SystemEvent::ServiceStart { raw_log, .. } => raw_log.as_str(),
            SystemEvent::ServiceCrash { raw_log, .. } => raw_log.as_str(),
            SystemEvent::SystemCrash { raw_log, .. } => raw_log.as_str(),
            SystemEvent::Timeout { raw_log, .. } => raw_log.as_str(),
            SystemEvent::Watchdog { raw_log, .. } => raw_log.as_str(),
            SystemEvent::Reset { raw_log, .. } => raw_log.as_str(),
            SystemEvent::Discrepancy { raw_log, .. } => raw_log.as_str(),
            SystemEvent::Deviation { raw_log, .. } => raw_log.as_str(),
        }
    }
}

/// Per-domain event counts.
#[derive(Debug)]
pub struct DomainMetrics {
    pub service_starts: usize,
    pub service_crashes: usize,
    pub system_crashes: usize,
    pub timeouts: usize,
    pub watchdog_triggers: usize,
    pub resets: usize,
    pub discrepancies: usize,
    pub deviations: usize,
}

/// CAN frame representation.
#[derive(Debug)]
pub struct CanFrame {
    /// Milliseconds.
    pub timestamp: i64,
    pub channel: String,
    pub id: String,
    pub data: String,
    /// `RX`, `TX` or `-`.
    pub direction: String,
    pub raw: String,
}

pub struct CanFrameView {
    pub timestamp: i64,
    pub channel: Seq<char>,
    pub id: Seq<char>,
    pub data: Seq<char>,
    pub direction: Seq<char>,
    pub raw: Seq<char>,
}

impl View for CanFrame {
    type V = CanFrameView;

    open spec fn view(&self) -> CanFrameView {
        CanFrameView {
            timestamp: self.timestamp,
            channel: self.channel@,
            id: self.id@,
            data: self.data@,
            direction: self.direction@,
            raw: self.raw@,
        }
    }
}

impl DeepView for CanFrame {
    type V = CanFrameView;

    open spec fn deep_view(&self) -> CanFrameView {
        self@
    }
}

/// Ethernet frame (simple representation).
#[derive(Debug)]
pub struct EthFrame {
    pub timestamp: i64,
    pub iface: String,
    pub direction: String,
    pub summary: String,
    pub raw: String,
}

pub struct EthFrameView {
    pub timestamp: i64,
    pub iface: Seq<char>,
    pub direction: Seq<char>,
    pub summary: Seq<char>,
    pub raw: Seq<char>,
}

impl View for EthFrame {
    type V = EthFrameView;

    open spec fn view(&self) -> EthFrameView {
        EthFrameView {
            timestamp: self.timestamp,
            iface: self.iface@,
            direction: self.direction@,
            summary: self.summary@,
            raw: self.raw@,
        }
    }
}

impl DeepView for EthFrame {
    type V = EthFrameView;

    open spec fn deep_view(&self) -> EthFrameView {
        self@
    }
}

/// Failure sequence pattern.
#[derive(Debug)]
pub struct FailureSequence {
    pub description: String,
    pub events: Vec<String>,
    pub count: usize,
    pub severity: String,
}

/// A crash, timeout or reset that recurred.
#[derive(Debug)]
pub struct RepetitiveError {
    /// `Crash`, `Timeout` or `Reset`.
    pub error_type: String,
    pub service_or_reason: String,
    pub domain: Domain,
    pub occurrence_count: usize,
    pub occurrences_at_ms: Vec<i64>,
    pub time_between_failures_avg_ms: i64,
}

} // verus!
