//! Finding the controller, asking it and understanding what it answers.

use percent_encoding::{utf8_percent_encode, NON_ALPHANUMERIC};
use vstd::prelude::*;
use vstd::utf8::encode_utf8;
use crate::error::ControllerError;
use crate::json::{
    fails_with, object_text, object_written, optional_json, parse_json, parsed_json, reads_as, Json,
    JsonView,
};
use crate::mode::{Mode, ModeView};
use crate::numbers::{decimal, decimal_text};
use crate::text::{
    contains_text, drop_trailing, is_middle, optional, optional_str, replace, replaced,
    replacing_goes_from_left_to_right, starts_with, text_starts_with, texts, trim,
    trim_end_matches, trim_quotes, trimmed, unquoted, unquoting_takes_away_quotation_marks,
};
use crate::yaml::{top_value, value_at, ScalarView};

verus! {

/// The page that is fetched through a node to see how long it takes.
pub const DELAY_TEST_URL: &'static str = "https://www.gstatic.com/generate_204";

/// How long a node may take for the status, in milliseconds.
pub const STATUS_TIMEOUT_MS: u64 = 2000;

/// `byte` is an ASCII letter or digit.
pub open spec fn is_alphanumeric(byte: u8) -> bool {
    ||| 48 <= byte <= 57
    ||| 65 <= byte <= 90
    ||| 97 <= byte <= 122
}

/// The hexadecimal digit with the value `digit`, in upper case.
pub open spec fn upper_hex_char(digit: nat) -> char {
    if digit < 10 {
        (48 + digit) as char
    } else {
        (55 + digit) as char
    }
}

/// `byte` in a URL: itself where it is an ASCII letter or digit, else a percent sign and two
/// hexadecimal digits.
pub open spec fn percent_byte(byte: u8) -> Seq<char> {
    if is_alphanumeric(byte) {
        seq![byte as char]
    } else {
        seq!['%', upper_hex_char(byte as nat / 16), upper_hex_char(byte as nat % 16)]
    }
}

/// `bytes` in a URL.
pub open spec fn percent_encoded(bytes: Seq<u8>) -> Seq<char>
    decreases bytes.len(),
{
    if bytes.len() == 0 {
        Seq::empty()
    } else {
        percent_encoded(bytes.drop_last()) + percent_byte(bytes.last())
    }
}

/// `text` in a URL.
pub open spec fn encoded(text: Seq<char>) -> Seq<char> {
    percent_encoded(encode_utf8(text))
}

/// `percent_encoding::utf8_percent_encode` with the set `NON_ALPHANUMERIC`: of the bytes of the
/// text in UTF-8, ASCII letters and digits stay, and each other becomes a percent sign and two
/// hexadecimal digits in upper case.
#[verifier::external_body]
fn encode(input: &str) -> (output: String)
    ensures
        output@ == encoded(input@),
{
    utf8_percent_encode(input, NON_ALPHANUMERIC).to_string()
}

/// What is encoded holds ASCII letters, digits and percent signs alone, so that it cannot be
/// taken for another part of the URL.
pub proof fn encoded_is_plain(bytes: Seq<u8>, i: int)
    requires
        0 <= i < percent_encoded(bytes).len(),
    ensures
        ({
            let ch = percent_encoded(bytes)[i];
            '0' <= ch <= '9' || 'A' <= ch <= 'Z' || 'a' <= ch <= 'z' || ch == '%'
        }),
    decreases bytes.len(),
{
    let front = percent_encoded(bytes.drop_last());
    if i < front.len() {
        encoded_is_plain(bytes.drop_last(), i);
    }
}

/// `byte` is ASCII whitespace: a space, a tab, a line feed, a form feed or a carriage
/// return.
pub open spec fn is_blank_byte(byte: u8) -> bool {
    byte == 32 || byte == 9 || byte == 10 || byte == 12 || byte == 13
}

/// `bytes` hold nothing but whitespace.
pub open spec fn is_blank(bytes: Seq<u8>) -> bool {
    forall|i: int| 0 <= i < bytes.len() ==> is_blank_byte(#[trigger] bytes[i])
}

/// Whether an answer holds nothing but whitespace.
pub fn blank(bytes: &[u8]) -> (yes: bool)
    ensures
        yes == is_blank(bytes@),
{
    let mut i: usize = 0;
    while i < bytes.len()
        invariant
            i <= bytes@.len(),
            forall|k: int| 0 <= k < i ==> is_blank_byte(#[trigger] bytes@[k]),
        decreases bytes@.len() - i,
    {
        let byte = bytes[i];
        if !(byte == 32 || byte == 9 || byte == 10 || byte == 12 || byte == 13) {
            assert(!is_blank_byte(bytes@[i as int]));
            return false;
        }
        i += 1;
    }
    true
}

/// `error` says what is wrong with `bytes`, which are not JSON.
pub open spec fn is_json_problem(error: ControllerError, bytes: Seq<u8>) -> bool {
    error matches ControllerError::InvalidJson(problem) && fails_with(bytes, problem@)
}

/// What an answer says: nothing where it is blank.
pub fn parse_controller_json_response(output: &[u8]) -> (result: Result<
    Option<Json>,
    ControllerError,
>)
    ensures
        match result {
            Ok(None) => is_blank(output@),
            Ok(Some(json)) => !is_blank(output@) && reads_as(output@, json@),
            Err(error) => !is_blank(output@) && is_json_problem(error, output@),
        },
{
    if blank(output) {
        return Ok(None);
    }
    match parse_json(output) {
        Ok(json) => Ok(Some(json)),
        Err(problem) => Err(ControllerError::InvalidJson(problem)),
    }
}

/// What an answer says that may not be blank.
pub fn read_json(output: &[u8]) -> (result: Result<Json, ControllerError>)
    ensures
        match result {
            Ok(json) => !is_blank(output@) && reads_as(output@, json@),
            Err(ControllerError::EmptyJson) => is_blank(output@),
            Err(error) => !is_blank(output@) && is_json_problem(error, output@),
        },
{
    match parse_controller_json_response(output) {
        Ok(Some(json)) => Ok(json),
        Ok(None) => Err(ControllerError::EmptyJson),
        Err(error) => Err(error),
    }
}

/// Accepts an answer of which only its form matters: it is blank or JSON.
pub fn accept_empty(output: &[u8]) -> (result: Result<(), ControllerError>)
    ensures
        match result {
            Ok(_) => is_blank(output@) || parsed_json(output@) is Ok,
            Err(error) => !is_blank(output@) && is_json_problem(error, output@),
        },
{
    match parse_controller_json_response(output) {
        Ok(_) => Ok(()),
        Err(error) => Err(error),
    }
}

/// The port that a number is, where it is one.
pub open spec fn port_number(number: Option<u64>) -> Option<u16> {
    match number {
        Some(value) if value <= 65535 => Some(value as u16),
        _ => None,
    }
}

/// The port that a number is.
pub fn port_from_number(number: Option<u64>) -> (port: Option<u16>)
    ensures
        port == port_number(number),
{
    match number {
        Some(value) if value <= 65535 => Some(value as u16),
        _ => None,
    }
}

/// The port in the controller's configuration.
pub fn port_from_configs_json(configs: &Json) -> (port: Option<u16>)
    ensures
        port == port_number(configs@.number_at("mixed-port"@)),
{
    port_from_number(configs.number_at("mixed-port"))
}

/// The number in a value of a document.
pub open spec fn scalar_number(value: Option<ScalarView>) -> Option<u64> {
    match value {
        Some(value) => value.number,
        None => None,
    }
}

/// The port in a configuration file.
pub open spec fn yaml_port(document: Seq<char>) -> Option<u16> {
    port_number(scalar_number(top_value(document, "mixed-port"@)))
}

/// The port in a configuration file.
pub fn port_from_yaml_str(input: &str) -> (port: Option<u16>)
    ensures
        port == yaml_port(input@),
{
    match value_at(input, "mixed-port") {
        Some(value) => port_from_number(value.number),
        None => None,
    }
}

/// The port in a configuration file that may be missing.
pub open spec fn file_port(document: Option<Seq<char>>) -> Option<u16> {
    match document {
        Some(document) => yaml_port(document),
        None => None,
    }
}

/// The first of three ports that is there.
pub open spec fn first_port(
    controller: Option<u16>,
    runtime: Option<u16>,
    config: Option<u16>,
) -> Option<u16> {
    match controller {
        Some(port) => Some(port),
        None => match runtime {
            Some(port) => Some(port),
            None => config,
        },
    }
}

/// The port to use: the controller's, else the one of the running configuration, else the one
/// of the configuration file.
pub fn choose_port(configs: Option<&Json>, runtime: Option<&str>, config: Option<&str>) -> (result:
    Result<u16, ControllerError>)
    ensures
        ({
            let controller = match optional_json(configs) {
                Some(configs) => port_number(configs.number_at("mixed-port"@)),
                None => None,
            };
            let port = first_port(
                controller,
                file_port(optional_str(runtime)),
                file_port(optional_str(config)),
            );
            match result {
                Ok(chosen) => port == Some(chosen),
                Err(error) => error is MissingPort && port is None,
            }
        }),
{
    if let Some(configs) = configs {
        if let Some(port) = port_from_configs_json(configs) {
            return Ok(port);
        }
    }
    if let Some(runtime) = runtime {
        if let Some(port) = port_from_yaml_str(runtime) {
            return Ok(port);
        }
    }
    if let Some(config) = config {
        if let Some(port) = port_from_yaml_str(config) {
            return Ok(port);
        }
    }
    Err(ControllerError::MissingPort)
}

/// The mode in the controller's configuration.
pub fn mode_from_configs(configs: &Json) -> (result: Result<Mode, ControllerError>)
    ensures
        match result {
            Ok(mode) => match configs@.text_at("mode"@) {
                Some(text) => mode@ == ModeView::parsed(text),
                None => false,
            },
            Err(error) => error is MissingMode && configs@.text_at("mode"@) is None,
        },
{
    match configs.text_at("mode") {
        Some(text) => Ok(Mode::parse(text)),
        None => Err(ControllerError::MissingMode),
    }
}

/// The delay in an answer about a node.
pub fn delay_from_json(answer: &Json) -> (result: Result<u64, ControllerError>)
    ensures
        match result {
            Ok(delay) => answer@.number_at("delay"@) == Some(delay),
            Err(error) => error is DelayTimeout && answer@.number_at("delay"@) is None,
        },
{
    match answer.number_at("delay") {
        Some(delay) => Ok(delay),
        None => Err(ControllerError::DelayTimeout),
    }
}

/// What a setting says: its text without whitespace and then without quotation marks around it.
/// It says nothing where it is blank or no text.
pub open spec fn setting_text(value: Option<ScalarView>) -> Option<Seq<char>> {
    match value {
        Some(value) => match value.text {
            Some(text) if trimmed(text).len() > 0 => Some(unquoted(trimmed(text))),
            _ => None,
        },
        None => None,
    }
}

/// What a setting says, of which the text is known.
pub fn clean_setting(text: Option<&str>) -> (setting: Option<String>)
    ensures
        optional(setting) == setting_text(
            Some(ScalarView { text: optional_str(text), number: None }),
        ),
{
    match text {
        Some(text) => {
            let text = trim(text);
            if text.as_str().is_empty() {
                None
            } else {
                Some(trim_quotes(text.as_str()))
            }
        },
        None => None,
    }
}

/// What a setting of a configuration file says.
pub open spec fn yaml_setting(document: Option<Seq<char>>, key: Seq<char>) -> Option<Seq<char>> {
    match document {
        Some(document) => setting_text(top_value(document, key)),
        None => None,
    }
}

/// What a setting of a configuration file says.
pub fn yaml_string(document: Option<&str>, key: &str) -> (setting: Option<String>)
    ensures
        optional(setting) == yaml_setting(optional_str(document), key@),
{
    match document {
        Some(document) => match value_at(document, key) {
            Some(value) => match &value.text {
                Some(text) => clean_setting(Some(text.as_str())),
                None => None,
            },
            None => None,
        },
        None => None,
    }
}

/// What a setting of the running configuration says, or else of the configuration file.
pub open spec fn either_setting(
    runtime: Option<Seq<char>>,
    config: Option<Seq<char>>,
    key: Seq<char>,
) -> Option<Seq<char>> {
    match yaml_setting(runtime, key) {
        Some(setting) => Some(setting),
        None => yaml_setting(config, key),
    }
}

/// What a setting of the running configuration says, or else of the configuration file.
pub fn setting_of_either(runtime: Option<&str>, config: Option<&str>, key: &str) -> (setting:
    Option<String>)
    ensures
        optional(setting) == either_setting(optional_str(runtime), optional_str(config), key@),
{
    match yaml_string(runtime, key) {
        Some(setting) => Some(setting),
        None => yaml_string(config, key),
    }
}

/// The start of every URL for a controller at `address`: over HTTP unless it says otherwise,
/// without slashes at its end, and on this machine where the controller listens on all
/// addresses.
pub open spec fn base_url(address: Seq<char>) -> Seq<char> {
    let full = if starts_with(address, "http://"@) || starts_with(address, "https://"@) {
        address
    } else {
        "http://"@ + address
    };
    replaced(
        drop_trailing(full, |ch: char| ch == '/'),
        "http://0.0.0.0:"@,
        "http://127.0.0.1:"@,
    )
}

/// The start of every URL for a controller at an address.
pub fn normalize_base(address: &str) -> (base: String)
    ensures
        base@ == base_url(address@),
{
    let mut full = String::new();
    if !text_starts_with(address, "http://") && !text_starts_with(address, "https://") {
        full.append("http://");
    }
    full.append(address);
    proof {
        reveal_strlit("http://0.0.0.0:");
        assert(Seq::<char>::empty() + address@ =~= address@);
        assert(Seq::<char>::empty() + "http://"@ =~= "http://"@);
    }
    replace(trim_end_matches(full.as_str(), '/').as_str(), "http://0.0.0.0:", "http://127.0.0.1:")
}

/// Where the controller is and how to speak to it.
#[derive(Debug, Clone)]
pub struct Controller {
    /// The socket that it listens on, where it is reached through one.
    pub socket: Option<String>,
    /// The start of every URL.
    pub base: String,
    /// What it wants to be told with each request.
    pub secret: Option<String>,
}

/// A controller as contracts see it.
#[verifier::ext_equal]
pub struct ControllerView {
    pub socket: Option<Seq<char>>,
    pub base: Seq<char>,
    pub secret: Option<Seq<char>>,
}

impl View for Controller {
    type V = ControllerView;

    open spec fn view(&self) -> ControllerView {
        ControllerView {
            socket: optional(self.socket),
            base: self.base@,
            secret: optional(self.secret),
        }
    }
}

/// The controller with some settings. A socket that exists comes before the address.
pub open spec fn controller_at(
    socket: Option<Seq<char>>,
    socket_exists: bool,
    address: Option<Seq<char>>,
    secret: Option<Seq<char>>,
) -> Option<ControllerView> {
    if socket is Some && socket_exists {
        Some(ControllerView { socket, base: "http://localhost"@, secret })
    } else {
        match address {
            Some(address) if address.len() > 0 => Some(
                ControllerView { socket: None, base: base_url(address), secret },
            ),
            _ => None,
        }
    }
}

/// The controller that the configuration files name.
pub open spec fn discovered(
    runtime: Option<Seq<char>>,
    config: Option<Seq<char>>,
    socket_exists: bool,
) -> Option<ControllerView> {
    controller_at(
        either_setting(runtime, config, "external-controller-unix"@),
        socket_exists,
        either_setting(runtime, config, "external-controller"@),
        either_setting(runtime, config, "secret"@),
    )
}

/// The socket that the configuration files name.
pub fn controller_socket(runtime: Option<&str>, config: Option<&str>) -> (socket: Option<String>)
    ensures
        optional(socket) == either_setting(
            optional_str(runtime),
            optional_str(config),
            "external-controller-unix"@,
        ),
{
    setting_of_either(runtime, config, "external-controller-unix")
}

impl Controller {
    /// The controller with some settings.
    pub fn from_settings(
        socket: Option<String>,
        socket_exists: bool,
        address: Option<String>,
        secret: Option<String>,
    ) -> (result: Result<Controller, ControllerError>)
        ensures
            match result {
                Ok(controller) => controller_at(
                    optional(socket),
                    socket_exists,
                    optional(address),
                    optional(secret),
                ) == Some(controller@),
                Err(error) => error is NotFound && controller_at(
                    optional(socket),
                    socket_exists,
                    optional(address),
                    optional(secret),
                ) is None,
            },
    {
        if socket_exists {
            if let Some(socket) = socket {
                return Ok(
                    Controller {
                        socket: Some(socket),
                        base: "http://localhost".to_owned(),
                        secret,
                    },
                );
            }
        }
        match address {
            Some(address) => {
                if address.as_str().is_empty() {
                    return Err(ControllerError::NotFound);
                }
                Ok(Controller { socket: None, base: normalize_base(address.as_str()), secret })
            },
            None => Err(ControllerError::NotFound),
        }
    }

    /// The controller that the configuration files name. `socket_exists` is whether the socket
    /// of [`controller_socket`] is there.
    pub fn discover(runtime: Option<&str>, config: Option<&str>, socket_exists: bool) -> (result:
        Result<Controller, ControllerError>)
        ensures
            match result {
                Ok(controller) => discovered(
                    optional_str(runtime),
                    optional_str(config),
                    socket_exists,
                ) == Some(controller@),
                Err(error) => error is NotFound && discovered(
                    optional_str(runtime),
                    optional_str(config),
                    socket_exists,
                ) is None,
            },
    {
        Controller::from_settings(
            controller_socket(runtime, config),
            socket_exists,
            setting_of_either(runtime, config, "external-controller"),
            setting_of_either(runtime, config, "secret"),
        )
    }
}

/// What the controller is asked.
#[derive(Debug, Clone)]
pub struct Request {
    pub method: &'static str,
    pub path: String,
    pub body: Option<String>,
    /// How long the answer may take, in milliseconds.
    pub timeout_ms: u64,
}

/// A request as contracts see it.
#[verifier::ext_equal]
pub struct RequestView {
    pub method: Seq<char>,
    pub path: Seq<char>,
    pub body: Option<Seq<char>>,
    pub timeout_ms: u64,
}

impl View for Request {
    type V = RequestView;

    open spec fn view(&self) -> RequestView {
        RequestView {
            method: self.method@,
            path: self.path@,
            body: optional(self.body),
            timeout_ms: self.timeout_ms,
        }
    }
}

/// The path at which the delay of a node is measured.
pub open spec fn delay_path(node: Seq<char>, timeout_ms: u64) -> Seq<char> {
    "/proxies/"@ + encoded(node) + "/delay?url="@ + encoded(DELAY_TEST_URL@) + "&timeout="@
        + decimal(timeout_ms as nat)
}

impl Request {
    /// Asks for the configuration.
    pub fn configs() -> (request: Request)
        ensures
            request@ == (RequestView {
                method: "GET"@,
                path: "/configs"@,
                body: None,
                timeout_ms: 5000,
            }),
    {
        Request { method: "GET", path: "/configs".to_owned(), body: None, timeout_ms: 5000 }
    }

    /// Asks for the proxies.
    pub fn proxies() -> (request: Request)
        ensures
            request@ == (RequestView {
                method: "GET"@,
                path: "/proxies"@,
                body: None,
                timeout_ms: 10000,
            }),
    {
        Request { method: "GET", path: "/proxies".to_owned(), body: None, timeout_ms: 10000 }
    }

    /// Sets the mode. The body reads back as an object that names it.
    pub fn set_mode(mode: &Mode) -> (request: Request)
        ensures
            request@ == (RequestView {
                method: "PATCH"@,
                path: "/configs"@,
                body: Some(object_written("mode"@, mode@.api_name())),
                timeout_ms: 5000,
            }),
            reads_as(
                encode_utf8(object_written("mode"@, mode@.api_name())),
                JsonView::Object(seq![("mode"@, JsonView::Text(mode@.api_name()))]),
            ),
    {
        Request {
            method: "PATCH",
            path: "/configs".to_owned(),
            body: Some(object_text("mode", mode.api_value())),
            timeout_ms: 5000,
        }
    }

    /// Selects a node of a group. The body reads back as an object that names it.
    pub fn select_proxy(group: &str, node: &str) -> (request: Request)
        ensures
            request@ == (RequestView {
                method: "PUT"@,
                path: "/proxies/"@ + encoded(group@),
                body: Some(object_written("name"@, node@)),
                timeout_ms: 10000,
            }),
            reads_as(
                encode_utf8(object_written("name"@, node@)),
                JsonView::Object(seq![("name"@, JsonView::Text(node@))]),
            ),
    {
        let mut path = "/proxies/".to_owned();
        path.append(encode(group).as_str());
        Request { method: "PUT", path, body: Some(object_text("name", node)), timeout_ms: 10000 }
    }

    /// Measures the delay of a node, which may take three seconds longer to be told than to be
    /// measured.
    pub fn delay(node: &str, timeout_ms: u64) -> (request: Request)
        requires
            timeout_ms + 3000 <= u64::MAX,
        ensures
            request@ == (RequestView {
                method: "GET"@,
                path: delay_path(node@, timeout_ms),
                body: None,
                timeout_ms: (timeout_ms + 3000) as u64,
            }),
    {
        let mut path = "/proxies/".to_owned();
        path.append(encode(node).as_str());
        path.append("/delay?url=");
        path.append(encode(DELAY_TEST_URL).as_str());
        path.append("&timeout=");
        path.append(decimal_text(timeout_ms).as_str());
        Request { method: "GET", path, body: None, timeout_ms: timeout_ms + 3000 }
    }
}

/// The arguments that name the socket.
pub open spec fn socket_arguments(controller: ControllerView) -> Seq<Seq<char>> {
    match controller.socket {
        Some(socket) => seq!["--unix-socket"@, socket],
        None => Seq::empty(),
    }
}

/// The arguments that tell the secret.
pub open spec fn secret_arguments(controller: ControllerView) -> Seq<Seq<char>> {
    match controller.secret {
        Some(secret) if secret.len() > 0 => seq!["-H"@, "Authorization: Bearer "@ + secret],
        _ => Seq::empty(),
    }
}

/// The arguments that name the method.
pub open spec fn method_arguments(request: RequestView) -> Seq<Seq<char>> {
    if request.method == "GET"@ {
        Seq::empty()
    } else {
        seq!["-X"@, request.method]
    }
}

/// The arguments that hold the body.
pub open spec fn body_arguments(request: RequestView) -> Seq<Seq<char>> {
    match request.body {
        Some(body) => seq!["-H"@, "Content-Type: application/json"@, "-d"@, body],
        None => Seq::empty(),
    }
}

/// The arguments of `curl` for a request that may take `max_time` seconds.
pub open spec fn curl_arguments(
    controller: ControllerView,
    request: RequestView,
    max_time: Seq<char>,
) -> Seq<Seq<char>> {
    seq!["-sS"@, "--fail"@, "--max-time"@, max_time] + socket_arguments(controller)
        + secret_arguments(controller) + method_arguments(request) + body_arguments(request)
        + seq![controller.base + request.path]
}

/// Adds a text to a list.
fn add_text(list: &mut Vec<String>, text: &str)
    ensures
        texts(final(list)@) == texts(old(list)@).push(text@),
{
    let ghost before = texts(list@);
    list.push(text.to_owned());
    assert(texts(list@) =~= before.push(text@));
}

impl Controller {
    /// The arguments of `curl` for a request.
    pub fn arguments(&self, request: &Request, max_time: &str) -> (list: Vec<String>)
        ensures
            texts(list@) == curl_arguments(self@, request@, max_time@),
    {
        let mut list: Vec<String> = Vec::new();
        add_text(&mut list, "-sS");
        add_text(&mut list, "--fail");
        add_text(&mut list, "--max-time");
        add_text(&mut list, max_time);
        let ghost first = seq!["-sS"@, "--fail"@, "--max-time"@, max_time@];
        assert(texts(list@) =~= first);
        if let Some(socket) = &self.socket {
            add_text(&mut list, "--unix-socket");
            add_text(&mut list, socket.as_str());
        }
        let ghost second = first + socket_arguments(self@);
        assert(texts(list@) =~= second);
        if let Some(secret) = &self.secret {
            if !secret.as_str().is_empty() {
                let mut header = "Authorization: Bearer ".to_owned();
                header.append(secret.as_str());
                add_text(&mut list, "-H");
                add_text(&mut list, header.as_str());
            }
        }
        let ghost third = second + secret_arguments(self@);
        assert(texts(list@) =~= third);
        if *request.method != *"GET" {
            add_text(&mut list, "-X");
            add_text(&mut list, request.method);
        }
        let ghost fourth = third + method_arguments(request@);
        assert(texts(list@) =~= fourth);
        if let Some(body) = &request.body {
            add_text(&mut list, "-H");
            add_text(&mut list, "Content-Type: application/json");
            add_text(&mut list, "-d");
            add_text(&mut list, body.as_str());
        }
        let ghost fifth = fourth + body_arguments(request@);
        assert(texts(list@) =~= fifth);
        let mut url = self.base.clone();
        url.append(request.path.as_str());
        add_text(&mut list, url.as_str());
        assert(texts(list@) =~= fifth + seq![self@.base + request@.path]);
        list
    }
}

/// What a message says of a request that `curl` could not make, with what it wrote about it.
pub fn request_failure(diagnostics: &str) -> (message: String)
    ensures
        message@ == "controller 请求失败: "@ + trimmed(diagnostics@),
{
    let mut message = "controller 请求失败: ".to_owned();
    message.append(trim(diagnostics).as_str());
    message
}

/// An answer is blank if and only if each of its bytes is a space, a tab, a line feed, a form
/// feed or a carriage return.
pub proof fn blank_answers_are_whitespace(bytes: Seq<u8>)
    ensures
        is_blank(bytes) <==> forall|i: int|
            0 <= i < bytes.len() ==> seq![0x20u8, 0x9, 0xa, 0xc, 0xd].contains(
                #[trigger] bytes[i],
            ),
{
    let blanks = seq![0x20u8, 0x9, 0xa, 0xc, 0xd];
    assert(blanks[0] == 0x20 && blanks[1] == 0x9 && blanks[2] == 0xa && blanks[3] == 0xc
        && blanks[4] == 0xd);
    assert forall|byte: u8| #[trigger] blanks.contains(byte) == is_blank_byte(byte) by {
        if is_blank_byte(byte) {
            let at: int = if byte == 0x20 {
                0
            } else if byte == 0x9 {
                1
            } else if byte == 0xa {
                2
            } else if byte == 0xc {
                3
            } else {
                4
            };
            assert(blanks[at] == byte);
        }
    }
    if is_blank(bytes) {
        assert forall|i: int| 0 <= i < bytes.len() implies blanks.contains(
            #[trigger] bytes[i],
        ) by {
            assert(is_blank_byte(bytes[i]));
        }
    }
    if forall|i: int| 0 <= i < bytes.len() ==> blanks.contains(#[trigger] bytes[i]) {
        assert forall|i: int| 0 <= i < bytes.len() implies is_blank_byte(#[trigger] bytes[i]) by {
            assert(blanks.contains(bytes[i]));
        }
    }
}

/// A number is a port where it is one of sixteen bits, and then it is that port.
pub proof fn ports_are_numbers_of_sixteen_bits(number: u64, port: u16)
    ensures
        port_number(Some(number)) == Some(port) <==> number == port,
        port_number(Some(number)) is None <==> number > u16::MAX,
        port_number(None) is None,
{
}

/// The first of three ports that is there counts, and there is none where none is there.
pub proof fn first_port_counts(
    controller: Option<u16>,
    runtime: Option<u16>,
    config: Option<u16>,
)
    ensures
        controller is Some ==> first_port(controller, runtime, config) == controller,
        controller is None && runtime is Some ==> first_port(controller, runtime, config)
            == runtime,
        controller is None && runtime is None ==> first_port(controller, runtime, config)
            == config,
{
}

/// The port of a configuration file is the number under its key, where that is a port.
pub proof fn file_gives_its_port(document: Seq<char>, port: u16)
    ensures
        file_port(None) is None,
        file_port(Some(document)) == Some(port) <==> (top_value(
            document,
            "mixed-port"@,
        ) matches Some(value) && value.number == Some(port as u64)),
{
}

/// A setting says something if and only if its text is not blank: the text without the whitespace
/// around it, and without quotation marks at either end of that.
pub proof fn settings_are_read_without_quotation_marks(text: Seq<char>, number: Option<u64>)
    ensures
        setting_text(Some(ScalarView { text: Some(text), number })) is None <==> trimmed(text).len()
            == 0,
        setting_text(Some(ScalarView { text: Some(text), number })) matches Some(setting)
            ==> is_middle(trimmed(text), setting, |ch: char| ch == '"' || ch == '\''),
        setting_text(Some(ScalarView { text: None, number })) is None,
        setting_text(None) is None,
{
    unquoting_takes_away_quotation_marks(trimmed(text));
}

/// A setting of the running configuration counts, and that of the configuration file where the
/// running one says nothing. A file that is missing says nothing.
pub proof fn running_configuration_counts_first(
    runtime: Option<Seq<char>>,
    config: Option<Seq<char>>,
    key: Seq<char>,
)
    ensures
        either_setting(runtime, config, key) == (match (runtime, config) {
            (Some(document), _) if setting_text(top_value(document, key)) is Some => setting_text(
                top_value(document, key),
            ),
            (_, Some(document)) => setting_text(top_value(document, key)),
            _ => None,
        }),
{
}

/// The controller is reached through its socket wherever that is there, else at its address, and
/// is not found without either. Its secret is the one that the files name, however it is reached.
pub proof fn controller_is_found_by_its_settings(
    runtime: Option<Seq<char>>,
    config: Option<Seq<char>>,
    socket_exists: bool,
)
    ensures
        ({
            let socket = either_setting(runtime, config, "external-controller-unix"@);
            let address = either_setting(runtime, config, "external-controller"@);
            let secret = either_setting(runtime, config, "secret"@);
            let found = discovered(runtime, config, socket_exists);
            &&& found matches Some(controller) ==> controller.secret == secret
            &&& socket is Some && socket_exists ==> found is Some && found->0.socket == socket
                && found->0.base == "http://localhost"@
            &&& !(socket is Some && socket_exists) ==> match address {
                Some(place) => if place.len() > 0 {
                    found is Some && found->0.socket is None && found->0.base == base_url(place)
                } else {
                    found is None
                },
                None => found is None,
            }
        }),
{
}

proof fn lemma_no_slash_at_the_end(address: Seq<char>)
    requires
        address.len() > 0 ==> address.last() != '/',
    ensures
        drop_trailing(address, |ch: char| ch == '/') == address,
{
}

/// An address without a scheme is one of HTTP. A slash at the end of an address makes no
/// difference.
pub proof fn base_has_a_scheme_and_no_slash(address: Seq<char>)
    ensures
        !starts_with(address, "http://"@) && !starts_with(address, "https://"@) ==> base_url(
            address,
        ) == base_url("http://"@ + address),
        starts_with(address, "http://"@) || starts_with(address, "https://"@) ==> base_url(
            address.push('/'),
        ) == base_url(address),
{
    let full = "http://"@ + address;
    reveal_strlit("http://");
    reveal_strlit("https://");
    assert(full.subrange(0, 7) =~= "http://"@);
    let longer = address.push('/');
    assert(longer.drop_last() =~= address);
    if starts_with(address, "http://"@) {
        assert(longer.subrange(0, 7) =~= address.subrange(0, 7));
    }
    if starts_with(address, "https://"@) {
        assert(longer.subrange(0, 8) =~= address.subrange(0, 8));
    }
}

/// An address with a scheme and without a slash at its end is the base itself, but for a
/// controller that listens on all addresses over HTTP: that is reached on this machine.
pub proof fn base_is_the_address(address: Seq<char>, rest: Seq<char>)
    requires
        !contains_text(rest, "http://0.0.0.0:"@),
        rest.len() > 0 ==> rest.last() != '/',
    ensures
        (starts_with(address, "http://"@) || starts_with(address, "https://"@)) && address.last()
            != '/' && !contains_text(address, "http://0.0.0.0:"@) ==> base_url(address) == address,
        base_url("http://0.0.0.0:"@ + rest) == "http://127.0.0.1:"@ + rest,
{
    let all = "http://0.0.0.0:"@;
    let here = "http://127.0.0.1:"@;
    let none = Seq::<char>::empty();
    reveal_strlit("http://");
    reveal_strlit("https://");
    reveal_strlit("http://0.0.0.0:");
    if address.last() != '/' {
        lemma_no_slash_at_the_end(address);
    }
    lemma_no_slash_at_the_end(all + rest);
    assert((all + rest).subrange(0, 7) =~= "http://"@);
    assert((all + rest).last() != '/');
    assert(none + all + rest =~= all + rest);
    replacing_goes_from_left_to_right(none, all, rest, here);
    assert(none + here + rest =~= here + rest);
    if !contains_text(address, all) {
        replacing_goes_from_left_to_right(none, all, address, here);
    }
}

/// The path at which a delay is measured names the node first, and then the page that is fetched
/// and the time that it may take.
pub proof fn delay_path_names_the_node(node: Seq<char>, timeout_ms: u64)
    ensures
        delay_path(node, timeout_ms) == "/proxies/"@ + percent_encoded(encode_utf8(node)) + (
        "/delay?url="@ + percent_encoded(encode_utf8("https://www.gstatic.com/generate_204"@))
            + ("&timeout="@ + decimal(timeout_ms as nat))),
{
    assert(delay_path(node, timeout_ms) =~= "/proxies/"@ + percent_encoded(encode_utf8(node)) + (
    "/delay?url="@ + percent_encoded(encode_utf8("https://www.gstatic.com/generate_204"@)) + (
    "&timeout="@ + decimal(timeout_ms as nat))));
}

/// Arguments with others put in at a place.
pub open spec fn put_in(list: Seq<Seq<char>>, at: int, more: Seq<Seq<char>>) -> Seq<Seq<char>> {
    list.take(at) + more + list.skip(at)
}

/// A request without a body that gets something from a controller without a secret at an address
/// has no more arguments than those that keep `curl` quiet, let it fail, limit its time and name
/// the URL.
pub proof fn plain_request_names_its_url(base: Seq<char>, request: RequestView, max_time: Seq<char>)
    requires
        request.method == "GET"@,
        request.body is None,
    ensures
        curl_arguments(ControllerView { socket: None, base, secret: None }, request, max_time)
            == seq!["-sS"@, "--fail"@, "--max-time"@, max_time, base + request.path],
{
    assert(curl_arguments(ControllerView { socket: None, base, secret: None }, request, max_time)
        =~= seq!["-sS"@, "--fail"@, "--max-time"@, max_time, base + request.path]);
}

/// A secret is told with every request, whether or not there is a socket, in a header of its own.
/// Without a secret, and with an empty one, there is no such header.
pub proof fn secret_is_told_with_every_request(
    controller: ControllerView,
    request: RequestView,
    max_time: Seq<char>,
)
    ensures
        ({
            let told = curl_arguments(controller, request, max_time);
            let untold = curl_arguments(
                ControllerView { secret: None, ..controller },
                request,
                max_time,
            );
            let at = if controller.socket is Some {
                6int
            } else {
                4int
            };
            match controller.secret {
                Some(secret) => if secret.len() > 0 {
                    &&& told == put_in(untold, at, seq!["-H"@, "Authorization: Bearer "@ + secret])
                    &&& told[at] == "-H"@
                    &&& told[at + 1] == "Authorization: Bearer "@ + secret
                } else {
                    told == untold
                },
                None => told == untold,
            }
        }),
{
    let bare = ControllerView { secret: None, ..controller };
    let told = curl_arguments(controller, request, max_time);
    let untold = curl_arguments(bare, request, max_time);
    let first = seq!["-sS"@, "--fail"@, "--max-time"@, max_time] + socket_arguments(controller);
    let none = Seq::<Seq<char>>::empty();
    assert(first + none =~= first);
    assert(secret_arguments(bare) =~= none);
    if let Some(secret) = controller.secret {
        if secret.len() > 0 {
            let header = seq!["-H"@, "Authorization: Bearer "@ + secret];
            assert(told =~= put_in(untold, first.len() as int, header));
        }
    }
}

/// A socket is named with every request to a controller that is reached through one, before
/// anything that is told to the controller.
pub proof fn socket_is_named_with_every_request(
    controller: ControllerView,
    request: RequestView,
    max_time: Seq<char>,
)
    ensures
        ({
            let through = curl_arguments(controller, request, max_time);
            let plain = curl_arguments(
                ControllerView { socket: None, ..controller },
                request,
                max_time,
            );
            match controller.socket {
                Some(socket) => through == put_in(plain, 4, seq!["--unix-socket"@, socket]),
                None => through == plain,
            }
        }),
{
    let bare = ControllerView { socket: None, ..controller };
    let through = curl_arguments(controller, request, max_time);
    let plain = curl_arguments(bare, request, max_time);
    let none = Seq::<Seq<char>>::empty();
    assert(socket_arguments(bare) =~= none);
    if let Some(socket) = controller.socket {
        assert(through =~= put_in(plain, 4, seq!["--unix-socket"@, socket]));
    }
}

/// The body of a request is sent as JSON, and the method is named unless it is the usual one.
/// Both come before the URL, which is last.
pub proof fn body_and_method_come_before_the_url(
    controller: ControllerView,
    request: RequestView,
    max_time: Seq<char>,
)
    ensures
        ({
            let sent = curl_arguments(controller, request, max_time);
            let empty = curl_arguments(
                controller,
                RequestView { body: None, ..request },
                max_time,
            );
            let usual = curl_arguments(
                controller,
                RequestView { body: None, method: "GET"@, ..request },
                max_time,
            );
            &&& sent.last() == controller.base + request.path
            &&& match request.body {
                Some(body) => sent == put_in(
                    empty,
                    empty.len() - 1,
                    seq!["-H"@, "Content-Type: application/json"@, "-d"@, body],
                ),
                None => sent == empty,
            }
            &&& if request.method == "GET"@ {
                empty == usual
            } else {
                empty == put_in(usual, usual.len() - 1, seq!["-X"@, request.method])
            }
        }),
{
    let bare = RequestView { body: None, ..request };
    let get = RequestView { body: None, method: "GET"@, ..request };
    let sent = curl_arguments(controller, request, max_time);
    let empty = curl_arguments(controller, bare, max_time);
    let usual = curl_arguments(controller, get, max_time);
    let none = Seq::<Seq<char>>::empty();
    assert(body_arguments(bare) =~= none);
    assert(body_arguments(get) =~= none);
    assert(method_arguments(get) =~= none);
    if let Some(body) = request.body {
        assert(sent =~= put_in(
            empty,
            empty.len() - 1,
            seq!["-H"@, "Content-Type: application/json"@, "-d"@, body],
        ));
    }
    if request.method != "GET"@ {
        assert(empty =~= put_in(usual, usual.len() - 1, seq!["-X"@, request.method]));
    } else {
        assert(empty =~= usual);
    }
}

/// A controller and a request are seen with all that they hold.
pub proof fn requests_are_seen_as_they_are(controller: Controller, request: Request)
    ensures
        controller@.socket == optional(controller.socket),
        controller@.base == controller.base@,
        controller@.secret == optional(controller.secret),
        request@.method == request.method@,
        request@.path == request.path@,
        request@.body == optional(request.body),
        request@.timeout_ms == request.timeout_ms,
{
}

} // verus!
