use verge_proxy::controller::{
    accept_empty, blank, choose_port, clean_setting, controller_socket, delay_from_json,
    mode_from_configs, normalize_base, port_from_number, read_json, request_failure, Request,
};
use verge_proxy::{
    parse_controller_json_response, port_from_configs_json, port_from_yaml_str, Controller,
    ControllerError, Json, Mode,
};

fn json(text: &str) -> Json {
    read_json(text.as_bytes()).unwrap()
}

#[test]
fn reads_port_from_controller_configs_without_hardcoding() {
    let configs = Json::Object(vec![
        ("mixed-port".to_string(), Json::Number(Some(7899))),
        ("mode".to_string(), Json::Text("rule".to_string())),
    ]);
    assert_eq!(port_from_configs_json(&configs), Some(7899));
}

#[test]
fn reads_port_from_yaml_fallback() {
    assert_eq!(
        port_from_yaml_str("mode: direct\nmixed-port: 7898\n"),
        Some(7898)
    );
}

#[test]
fn empty_controller_success_body_is_not_json_error() {
    assert!(parse_controller_json_response(b"").unwrap().is_none());
    assert_eq!(
        parse_controller_json_response(br#"{"delay": 10}"#)
            .unwrap()
            .unwrap()
            .get("delay")
            .and_then(|delay| delay.as_u64()),
        Some(10)
    );
}

#[test]
fn answers_that_are_no_json_are_refused() {
    assert!(matches!(
        parse_controller_json_response(b"{"),
        Err(ControllerError::InvalidJson(_))
    ));
    assert!(matches!(
        read_json(b"nope"),
        Err(ControllerError::InvalidJson(_))
    ));
    assert!(matches!(
        accept_empty(b"nope"),
        Err(ControllerError::InvalidJson(_))
    ));
    let problem = serde_json::from_slice::<serde_json::Value>(b"nope")
        .unwrap_err()
        .to_string();
    assert_eq!(
        read_json(b"nope").unwrap_err().message(),
        format!("无法解析 controller JSON: {problem}")
    );
    assert_eq!(
        parse_controller_json_response(b"nope").unwrap_err(),
        ControllerError::InvalidJson(problem)
    );
}

#[test]
fn blank_answers_are_accepted_where_nothing_is_needed() {
    assert!(blank(b" \t\n\x0c\r"));
    assert!(!blank(b"\x0b"));
    assert!(accept_empty(b"\n").is_ok());
    assert!(accept_empty(b"{}").is_ok());
    let error = read_json(b" ").unwrap_err();
    assert!(matches!(error, ControllerError::EmptyJson));
    assert_eq!(error.message(), "controller 返回空 JSON");
}

#[test]
fn json_keeps_what_was_sent() {
    let value = json(r#"{"a": [null, true, "x", 1, -1, 1.5, {"b": "c"}], "a2": 18446744073709551615}"#);
    assert_eq!(value.number_at("a2"), Some(u64::MAX));
    match value.get("a") {
        Some(Json::Array(items)) => {
            assert!(matches!(items[0], Json::Null));
            assert!(matches!(items[1], Json::Bool(true)));
            assert_eq!(items[2].as_str(), Some("x"));
            assert!(matches!(items[3], Json::Number(Some(1))));
            assert!(matches!(items[4], Json::Number(None)));
            assert!(matches!(items[5], Json::Number(None)));
            assert_eq!(items[6].text_at("b"), Some("c"));
        }
        other => panic!("{other:?}"),
    }
    assert!(value.get("b").is_none());
    assert!(json("[1]").get("a").is_none());
    assert_eq!(json(r#"{"k": 1, "k": 2}"#).number_at("k"), Some(2));
}

#[test]
fn later_members_count() {
    let value = Json::Object(vec![
        ("k".to_string(), Json::Number(Some(1))),
        ("k".to_string(), Json::Number(Some(2))),
    ]);
    assert_eq!(value.number_at("k"), Some(2));
}

#[test]
fn ports_have_sixteen_bits() {
    assert_eq!(port_from_number(Some(65535)), Some(65535));
    assert_eq!(port_from_number(Some(65536)), None);
    assert_eq!(port_from_number(None), None);
    assert_eq!(port_from_yaml_str("mixed-port: 70000"), None);
    assert_eq!(port_from_yaml_str("mixed-port: -1"), None);
    assert_eq!(port_from_yaml_str("mixed-port: \"7898\""), None);
    assert_eq!(port_from_yaml_str("- 7898"), None);
    assert_eq!(port_from_yaml_str("a: [unclosed"), None);
    assert_eq!(port_from_configs_json(&json(r#"{"mixed-port": "1"}"#)), None);
}

#[test]
fn port_comes_from_the_controller_first() {
    let configs = json(r#"{"mixed-port": 1}"#);
    let empty = json("{}");
    let runtime = Some("mixed-port: 2");
    let config = Some("mixed-port: 3");
    assert_eq!(choose_port(Some(&configs), runtime, config).unwrap(), 1);
    assert_eq!(choose_port(Some(&empty), runtime, config).unwrap(), 2);
    assert_eq!(choose_port(None, Some("mode: rule"), config).unwrap(), 3);
    assert_eq!(choose_port(None, None, config).unwrap(), 3);
    let error = choose_port(None, None, None).unwrap_err();
    assert!(matches!(error, ControllerError::MissingPort));
    assert_eq!(
        error.message(),
        "无法从 Clash Verge controller 或配置文件读取 mixed-port"
    );
}

#[test]
fn mode_is_read_from_the_configuration() {
    assert_eq!(
        mode_from_configs(&json(r#"{"mode": "global"}"#)).unwrap(),
        Mode::Global
    );
    assert_eq!(
        mode_from_configs(&json(r#"{"mode": "script"}"#)).unwrap(),
        Mode::Unknown("script".to_string())
    );
    let error = mode_from_configs(&json(r#"{"mode": 1}"#)).unwrap_err();
    assert!(matches!(error, ControllerError::MissingMode));
    assert_eq!(error.message(), "controller /configs 缺少 mode");
}

#[test]
fn delay_is_read_from_the_answer() {
    assert_eq!(delay_from_json(&json(r#"{"delay": 108}"#)).unwrap(), 108);
    let error = delay_from_json(&json(r#"{"message": "Timeout"}"#)).unwrap_err();
    assert!(matches!(error, ControllerError::DelayTimeout));
    assert_eq!(error.message(), "delay timeout");
}

#[test]
fn settings_are_cleaned() {
    assert_eq!(clean_setting(Some("  \"'x y'\" ")).as_deref(), Some("x y"));
    assert_eq!(clean_setting(Some("\"\"")).as_deref(), Some(""));
    assert_eq!(clean_setting(Some(" \n")), None);
    assert_eq!(clean_setting(None), None);
}

#[test]
fn base_is_a_local_url_without_slashes() {
    assert_eq!(normalize_base("127.0.0.1:9097"), "http://127.0.0.1:9097");
    assert_eq!(normalize_base("0.0.0.0:9097//"), "http://127.0.0.1:9097");
    assert_eq!(normalize_base("https://host/"), "https://host");
    assert_eq!(normalize_base("http://host:1/api/"), "http://host:1/api");
}

#[test]
fn socket_comes_before_the_address() {
    let runtime = Some("external-controller-unix: /tmp/verge.sock\nsecret: ' s3 '\n");
    let config = Some("external-controller: 0.0.0.0:9097\nsecret: other\n");
    assert_eq!(
        controller_socket(runtime, config).as_deref(),
        Some("/tmp/verge.sock")
    );
    let controller = Controller::discover(runtime, config, true).unwrap();
    assert_eq!(controller.socket.as_deref(), Some("/tmp/verge.sock"));
    assert_eq!(controller.base, "http://localhost");
    assert_eq!(controller.secret.as_deref(), Some("s3"));
    let controller = Controller::discover(runtime, config, false).unwrap();
    assert_eq!(controller.socket, None);
    assert_eq!(controller.base, "http://127.0.0.1:9097");
    assert_eq!(controller.secret.as_deref(), Some("s3"));
}

#[test]
fn controller_must_be_named() {
    for config in [
        None,
        Some("mode: rule"),
        Some("external-controller: \"''\""),
        Some("external-controller: ''"),
        Some("external-controller: 9097"),
        Some("external-controller: [unclosed"),
    ] {
        let error = Controller::discover(None, config, true).unwrap_err();
        assert!(matches!(error, ControllerError::NotFound));
        assert_eq!(error.message(), "找不到 Clash controller");
    }
}

#[test]
fn requests_have_their_exact_form() {
    let request = Request::configs();
    assert_eq!((request.method, request.path.as_str()), ("GET", "/configs"));
    assert_eq!((request.body, request.timeout_ms), (None, 5000));
    let request = Request::proxies();
    assert_eq!((request.method, request.path.as_str()), ("GET", "/proxies"));
    assert_eq!((request.body, request.timeout_ms), (None, 10000));
    let request = Request::set_mode(&Mode::Direct);
    assert_eq!((request.method, request.path.as_str()), ("PATCH", "/configs"));
    assert_eq!(request.body.as_deref(), Some(r#"{"mode":"direct"}"#));
    assert_eq!(request.timeout_ms, 5000);
    let request = Request::select_proxy("🔰 a/b", "say \"hi\"\\\n\u{1}\u{1f}\u{7f}");
    assert_eq!(request.method, "PUT");
    assert_eq!(request.path, "/proxies/%F0%9F%94%B0%20a%2Fb");
    assert_eq!(
        request.body.as_deref(),
        Some("{\"name\":\"say \\\"hi\\\"\\\\\\n\\u0001\\u001f\u{7f}\"}")
    );
    assert_eq!(request.timeout_ms, 10000);
    let request = Request::delay("日本 A", 2000);
    assert_eq!(request.method, "GET");
    assert_eq!(
        request.path,
        "/proxies/%E6%97%A5%E6%9C%AC%20A/delay?url=https%3A%2F%2Fwww%2Egstatic%2Ecom%2Fgenerate%5F204&timeout=2000"
    );
    assert_eq!((request.body, request.timeout_ms), (None, 5000));
}

#[test]
fn request_bodies_read_back() {
    let name = "\u{8}\t\n\u{c}\r\"\\/é🔰\u{0}";
    let body = Request::select_proxy("g", name).body.unwrap();
    assert_eq!(json(&body).text_at("name"), Some(name));
    let mode = Mode::Unknown(name.to_string());
    let body = Request::set_mode(&mode).body.unwrap();
    assert_eq!(json(&body).text_at("mode"), Some(name));
}

#[test]
fn arguments_name_socket_secret_method_and_body() {
    let controller = Controller {
        socket: Some("/s".to_string()),
        base: "http://localhost".to_string(),
        secret: Some("key".to_string()),
    };
    assert_eq!(
        controller.arguments(&Request::set_mode(&Mode::Rule), "5"),
        [
            "-sS",
            "--fail",
            "--max-time",
            "5",
            "--unix-socket",
            "/s",
            "-H",
            "Authorization: Bearer key",
            "-X",
            "PATCH",
            "-H",
            "Content-Type: application/json",
            "-d",
            "{\"mode\":\"rule\"}",
            "http://localhost/configs",
        ]
    );
    let controller = Controller {
        socket: None,
        base: "http://host".to_string(),
        secret: Some(String::new()),
    };
    assert_eq!(
        controller.arguments(&Request::proxies(), "10"),
        ["-sS", "--fail", "--max-time", "10", "http://host/proxies"]
    );
}

#[test]
fn failed_requests_say_why() {
    assert_eq!(
        request_failure(" curl: (7) refused\n"),
        "controller 请求失败: curl: (7) refused"
    );
}
