use vstd::prelude::*;
use vstd::string::StringExecFns;

verus! {

/// Commands understood by the drone, each with its wire encoding (see
/// `wire`).
#[derive(Debug, Clone, PartialEq, Eq)]
pub enum Command {
    SDKInit,
    Takeoff,
    Land,
    EnableStream,
    GoHigher,
    GoLower,
    TrimFwd,
    TrimBwd,
    TrimLeft,
    TrimRight,
    RotateCw,
    RotateCcw,
    SetSsidPass { ssid: String, pass: String },
    Stop,
    QueryWifi,
    QueryBattery,
    QueryFlightTime,
}

/// The exact byte string sent over the wire for each command.
pub open spec fn wire_spec(c: Command) -> Seq<char> {
    match c {
        Command::SDKInit => "command"@,
        Command::Takeoff => "takeoff"@,
        Command::Land => "land"@,
        Command::EnableStream => "streamon"@,
        Command::GoHigher => "up 20"@,
        Command::GoLower => "down 20"@,
        Command::TrimFwd => "forward 20"@,
        Command::TrimBwd => "back 20"@,
        Command::TrimLeft => "left 20"@,
        Command::TrimRight => "right 20"@,
        Command::RotateCw => "cw 10"@,
        Command::RotateCcw => "ccw 10"@,
        Command::SetSsidPass { ssid, pass } => "wifi "@ + ssid@ + " "@ + pass@,
        Command::Stop => "stop"@,
        Command::QueryWifi => "wifi?"@,
        Command::QueryBattery => "battery?"@,
        Command::QueryFlightTime => "time?"@,
    }
}

impl Command {
    /// Encodes the command as the string the drone expects.
    pub fn wire(&self) -> (r: String)
        ensures
            r@ == wire_spec(*self),
    {
        match self {
            Command::SDKInit => String::from_str("command"),
            Command::Takeoff => String::from_str("takeoff"),
            Command::Land => String::from_str("land"),
            Command::EnableStream => String::from_str("streamon"),
            Command::GoHigher => String::from_str("up 20"),
            Command::GoLower => String::from_str("down 20"),
            Command::TrimFwd => String::from_str("forward 20"),
            Command::TrimBwd => String::from_str("back 20"),
            Command::TrimLeft => String::from_str("left 20"),
            Command::TrimRight => String::from_str("right 20"),
            Command::RotateCw => String::from_str("cw 10"),
            Command::RotateCcw => String::from_str("ccw 10"),
            Command::SetSsidPass { ssid, pass } => {
                let mut s = String::from_str("wifi ");
                s.append(ssid.as_str());
                s.append(" ");
                s.append(pass.as_str());
                s
            },
            Command::Stop => String::from_str("stop"),
            Command::QueryWifi => String::from_str("wifi?"),
            Command::QueryBattery => String::from_str("battery?"),
            Command::QueryFlightTime => String::from_str("time?"),
        }
    }
}

} // verus!
