use hs_hackathon::command::Command;

#[test]
fn test_wire_serde() {
    assert_eq!("command", Command::SDKInit.wire());
    assert_eq!("takeoff", Command::Takeoff.wire());
    assert_eq!("land", Command::Land.wire());
}

#[test]
fn wire_encodes_every_fixed_command() {
    assert_eq!("streamon", Command::EnableStream.wire());
    assert_eq!("up 20", Command::GoHigher.wire());
    assert_eq!("down 20", Command::GoLower.wire());
    assert_eq!("forward 20", Command::TrimFwd.wire());
    assert_eq!("back 20", Command::TrimBwd.wire());
    assert_eq!("left 20", Command::TrimLeft.wire());
    assert_eq!("right 20", Command::TrimRight.wire());
    assert_eq!("cw 10", Command::RotateCw.wire());
    assert_eq!("ccw 10", Command::RotateCcw.wire());
    assert_eq!("stop", Command::Stop.wire());
    assert_eq!("wifi?", Command::QueryWifi.wire());
    assert_eq!("battery?", Command::QueryBattery.wire());
    assert_eq!("time?", Command::QueryFlightTime.wire());
}

#[test]
fn wire_formats_wifi_credentials() {
    let cmd = Command::SetSsidPass { ssid: String::from("team"), pass: String::from("secret") };
    assert_eq!("wifi team secret", cmd.wire());
}
