//! The logic of a command line for Clash Verge: reading what the controller says, deciding what
//! it is asked, laying out what the terminal shows and writing what the shell evaluates.

use vstd::prelude::*;

pub mod ansi;
pub mod commands;
pub mod config;
pub mod controller;
pub mod error;
pub mod filter;
pub mod json;
pub mod layout;
pub mod mode;
pub mod numbers;
pub mod probe;
pub mod prompt;
pub mod proxy;
pub mod session;
pub mod shell;
pub mod status;
pub mod text;
pub mod width;
pub mod yaml;

pub use crate::config::{ensure_config_defaults, remove_active_group_config, AppConfig};
pub use crate::controller::{
    parse_controller_json_response, port_from_configs_json, port_from_yaml_str, Controller,
};
pub use crate::error::ControllerError;
pub use crate::filter::{
    candidate_batches, filter_nodes_by_keyword, fuzzy_filter_nodes, parse_filter_ranges,
};
pub use crate::json::Json;
pub use crate::mode::Mode;
pub use crate::prompt::{error_line, format_status_prompt, success_line, PromptConfig, TagDefaults};
pub use crate::proxy::{
    choose_default_group, leaf_nodes_for_group, parse_proxies, proxies_from_pairs,
    resolve_active_group_and_node, selector_groups, Proxy, ProxyMap,
};
pub use crate::shell::{install_line, replace_managed_block, zsh_wrapper_block, InstallAction};
pub use crate::status::{format_status, Delay, StatusInfo};

verus! {

} // verus!
