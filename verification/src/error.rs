//! What can go wrong between this program and the controller.

use vstd::prelude::*;

verus! {

/// Why the controller could not be found or understood.
#[derive(Debug, Clone, PartialEq, Eq)]
pub enum ControllerError {
    /// No configuration file names a controller.
    NotFound,
    /// The answer is not JSON: what is wrong with it.
    InvalidJson(String),
    /// The answer is empty where JSON is needed.
    EmptyJson,
    /// The answer does not say which mode is on.
    MissingMode,
    /// The answer does not list the proxies.
    MissingProxies,
    /// The node did not answer in time.
    DelayTimeout,
    /// Neither the controller nor a configuration file gives the port.
    MissingPort,
}

/// What a message says of an error.
pub open spec fn error_shown(error: ControllerError) -> Seq<char> {
    match error {
        ControllerError::NotFound => "找不到 Clash controller"@,
        ControllerError::InvalidJson(problem) => "无法解析 controller JSON: "@ + problem@,
        ControllerError::EmptyJson => "controller 返回空 JSON"@,
        ControllerError::MissingMode => "controller /configs 缺少 mode"@,
        ControllerError::MissingProxies => "controller response missing proxies object"@,
        ControllerError::DelayTimeout => "delay timeout"@,
        ControllerError::MissingPort => "无法从 Clash Verge controller 或配置文件读取 mixed-port"@,
    }
}

impl ControllerError {
    /// What a message says of the error.
    pub fn message(&self) -> (message: String)
        ensures
            message@ == error_shown(*self),
    {
        let text = match self {
            ControllerError::NotFound => "找不到 Clash controller",
            ControllerError::InvalidJson(problem) => {
                let mut message = "无法解析 controller JSON: ".to_owned();
                message.append(problem.as_str());
                return message;
            },
            ControllerError::EmptyJson => "controller 返回空 JSON",
            ControllerError::MissingMode => "controller /configs 缺少 mode",
            ControllerError::MissingProxies => "controller response missing proxies object",
            ControllerError::DelayTimeout => "delay timeout",
            ControllerError::MissingPort => "无法从 Clash Verge controller 或配置文件读取 mixed-port",
        };
        text.to_owned()
    }
}

/// Each error has a message of its own, and that of an answer which is not JSON says what is wrong
/// with it.
pub proof fn messages_tell_errors_apart(error: ControllerError)
    ensures
        error == ControllerError::NotFound ==> error_shown(error) == "找不到 Clash controller"@,
        error matches ControllerError::InvalidJson(problem) ==> error_shown(error)
            == "无法解析 controller JSON: "@ + problem@,
        error == ControllerError::EmptyJson ==> error_shown(error) == "controller 返回空 JSON"@,
        error == ControllerError::MissingMode ==> error_shown(error)
            == "controller /configs 缺少 mode"@,
        error == ControllerError::MissingProxies ==> error_shown(error)
            == "controller response missing proxies object"@,
        error == ControllerError::DelayTimeout ==> error_shown(error) == "delay timeout"@,
        error == ControllerError::MissingPort ==> error_shown(error)
            == "无法从 Clash Verge controller 或配置文件读取 mixed-port"@,
{
}

} // verus!
