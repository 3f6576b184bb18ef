use verge_proxy::{format_status, Delay, Mode, StatusInfo};

fn info(delay: Delay) -> StatusInfo {
    StatusInfo {
        mode: Mode::Rule,
        group: "G".to_string(),
        node: "N".to_string(),
        delay,
        port: 7897,
    }
}

#[test]
fn status_has_a_line_for_each_field() {
    assert_eq!(
        format_status(&info(Delay::Value(108))),
        "mode: 规则\ngroup: G\nnode: N\ndelay: 108ms\nport: 7897"
    );
    assert_eq!(
        format_status(&info(Delay::Timeout)),
        "mode: 规则\ngroup: G\nnode: N\ndelay: timeout\nport: 7897"
    );
    assert_eq!(
        format_status(&info(Delay::Hidden)),
        "mode: 规则\ngroup: G\nnode: N\nport: 7897"
    );
}
