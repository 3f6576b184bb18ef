//! Proxy modes of the controller.

use vstd::prelude::*;

verus! {

/// How the controller routes traffic.
#[derive(Debug, Clone, PartialEq, Eq)]
pub enum Mode {
    /// By the rules of the profile.
    Rule,
    /// Everything through the global group.
    Global,
    /// Everything without a proxy.
    Direct,
    /// A mode under a name that is not known here.
    Unknown(String),
}

/// A mode as contracts see it.
#[verifier::ext_equal]
pub enum ModeView {
    Rule,
    Global,
    Direct,
    Unknown(Seq<char>),
}

impl View for Mode {
    type V = ModeView;

    open spec fn view(&self) -> ModeView {
        match self {
            Mode::Rule => ModeView::Rule,
            Mode::Global => ModeView::Global,
            Mode::Direct => ModeView::Direct,
            Mode::Unknown(name) => ModeView::Unknown(name@),
        }
    }
}

impl ModeView {
    /// The mode that the controller calls `value`.
    pub open spec fn parsed(value: Seq<char>) -> ModeView {
        if value == "rule"@ {
            ModeView::Rule
        } else if value == "global"@ {
            ModeView::Global
        } else if value == "direct"@ {
            ModeView::Direct
        } else {
            ModeView::Unknown(value)
        }
    }

    /// What the controller calls the mode.
    pub open spec fn api_name(self) -> Seq<char> {
        match self {
            ModeView::Rule => "rule"@,
            ModeView::Global => "global"@,
            ModeView::Direct => "direct"@,
            ModeView::Unknown(name) => name,
        }
    }

    /// What the user reads.
    pub open spec fn shown(self) -> Seq<char> {
        match self {
            ModeView::Rule => "规则"@,
            ModeView::Global => "全局"@,
            ModeView::Direct => "直连"@,
            ModeView::Unknown(name) => name,
        }
    }
}

impl Mode {
    /// The mode that the controller calls `value`.
    pub fn parse(value: &str) -> (mode: Self)
        ensures
            mode@ == ModeView::parsed(value@),
    {
        if *value == *"rule" {
            Mode::Rule
        } else if *value == *"global" {
            Mode::Global
        } else if *value == *"direct" {
            Mode::Direct
        } else {
            Mode::Unknown(value.to_owned())
        }
    }

    /// What the controller calls the mode.
    pub fn api_value(&self) -> (value: &str)
        ensures
            value@ == self@.api_name(),
    {
        match self {
            Mode::Rule => "rule",
            Mode::Global => "global",
            Mode::Direct => "direct",
            Mode::Unknown(value) => value.as_str(),
        }
    }

    /// What the user reads.
    pub fn label(&self) -> (label: &str)
        ensures
            label@ == self@.shown(),
    {
        match self {
            Mode::Rule => "规则",
            Mode::Global => "全局",
            Mode::Direct => "直连",
            Mode::Unknown(value) => value.as_str(),
        }
    }

    /// Whether no proxy is used.
    pub fn is_direct(&self) -> (yes: bool)
        ensures
            yes == (self@ == ModeView::Direct),
    {
        match self {
            Mode::Direct => true,
            _ => false,
        }
    }
}

/// Every name is the name of the mode that it is read as.
pub proof fn mode_keeps_its_name(value: Seq<char>)
    ensures
        ModeView::parsed(value).api_name() == value,
{
}

/// A mode is read back from its name, unless it is an unknown mode under a known name.
pub proof fn mode_reads_back(mode: ModeView)
    requires
        mode matches ModeView::Unknown(name) ==> name != "rule"@ && name != "global"@ && name
            != "direct"@,
    ensures
        ModeView::parsed(mode.api_name()) == mode,
{
    reveal_strlit("rule");
    reveal_strlit("global");
    reveal_strlit("direct");
    assert("rule"@[0] == 'r');
    assert("global"@[0] == 'g');
    assert("direct"@[0] == 'd');
}

/// The three known modes go by their own names and are shown in Chinese. Any other mode goes by
/// the name that it came with, and is shown by it too.
pub proof fn modes_go_by_their_names(mode: ModeView, name: Seq<char>)
    requires
        name != "rule"@,
        name != "global"@,
        name != "direct"@,
    ensures
        ModeView::parsed("rule"@) == ModeView::Rule,
        ModeView::parsed("global"@) == ModeView::Global,
        ModeView::parsed("direct"@) == ModeView::Direct,
        ModeView::parsed(name) == ModeView::Unknown(name),
        ModeView::Rule.shown() == "规则"@,
        ModeView::Global.shown() == "全局"@,
        ModeView::Direct.shown() == "直连"@,
        mode matches ModeView::Unknown(own) ==> mode.shown() == own && mode.api_name() == own,
{
    mode_reads_back(ModeView::Rule);
    mode_reads_back(ModeView::Global);
    mode_reads_back(ModeView::Direct);
}

} // verus!
