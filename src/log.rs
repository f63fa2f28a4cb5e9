//! Log lines: a coloured label, then the message.
use vstd::prelude::*;

verus! {

/// What a log line is about.
#[derive(Clone, Copy, Debug, PartialEq, Eq, Structural)]
pub enum LogLevel {
    Error,
    Info,
    Connection,
    OrderRejected,
    OrderAproved,
    LeaderInfo,
    Work,
    GatewayPayment,
    StatusOrder,
    ProcessingOrder,
    AckInfo,
}

impl LogLevel {
    pub open spec fn label_spec(self) -> Seq<char> {
        match self {
            LogLevel::Error => "Error"@,
            LogLevel::Info => "Info"@,
            LogLevel::Connection => "Connection"@,
            LogLevel::OrderRejected => "Order Rejected"@,
            LogLevel::OrderAproved => "Order Aproved"@,
            LogLevel::LeaderInfo => "Leader Info"@,
            LogLevel::Work => "Work"@,
            LogLevel::GatewayPayment => "Payment"@,
            LogLevel::StatusOrder => "Status Order"@,
            LogLevel::ProcessingOrder => "Processing Order"@,
            LogLevel::AckInfo => "Ack Info"@,
        }
    }

    /// The level's name, as a log line shows it.
    pub fn label(&self) -> (r: &'static str)
        ensures
            r@ == self.label_spec(),
    {
        match self {
            LogLevel::Error => "Error",
            LogLevel::Info => "Info",
            LogLevel::Connection => "Connection",
            LogLevel::OrderRejected => "Order Rejected",
            LogLevel::OrderAproved => "Order Aproved",
            LogLevel::LeaderInfo => "Leader Info",
            LogLevel::Work => "Work",
            LogLevel::GatewayPayment => "Payment",
            LogLevel::StatusOrder => "Status Order",
            LogLevel::ProcessingOrder => "Processing Order",
            LogLevel::AckInfo => "Ack Info",
        }
    }

    pub open spec fn color_spec(self) -> Seq<char> {
        match self {
            LogLevel::Error | LogLevel::OrderRejected => "0;31"@,
            LogLevel::Info | LogLevel::OrderAproved => "0;32"@,
            LogLevel::Connection => "0;34"@,
            LogLevel::LeaderInfo => "0;35"@,
            LogLevel::Work => "0;33"@,
            LogLevel::GatewayPayment => "0;36"@,
            LogLevel::StatusOrder | LogLevel::ProcessingOrder | LogLevel::AckInfo => "0;94"@,
        }
    }

    /// The terminal colour code of the label.
    pub fn color(&self) -> (r: &'static str)
        ensures
            r@ == self.color_spec(),
    {
        match self {
            LogLevel::Error | LogLevel::OrderRejected => "0;31",
            LogLevel::Info | LogLevel::OrderAproved => "0;32",
            LogLevel::Connection => "0;34",
            LogLevel::LeaderInfo => "0;35",
            LogLevel::Work => "0;33",
            LogLevel::GatewayPayment => "0;36",
            LogLevel::StatusOrder | LogLevel::ProcessingOrder | LogLevel::AckInfo => "0;94",
        }
    }
}

/// Formats log lines; printing them is the caller's.
pub struct Logger;

impl Logger {
    pub open spec fn line_spec(level: LogLevel, message: Seq<char>) -> Seq<char> {
        "\x1b["@ + level.color_spec() + "m["@ + level.label_spec() + "]\x1b[0m "@ + message
    }

    /// The line for `message` at `level`: the label in brackets, coloured,
    /// then the message.
    pub fn line(&self, level: LogLevel, message: &str) -> (r: String)
        ensures
            r@ == Logger::line_spec(level, message@),
    {
        let mut s = String::from_str("\x1b[");
        s.append(level.color());
        s.append("m[");
        s.append(level.label());
        s.append("]\x1b[0m ");
        s.append(message);
        s
    }
}

} // verus!
