use vstd::prelude::*;

verus! {

/// A setting given either as text (`"10m"`) or as a plain number.
#[derive(Clone, Debug)]
pub enum StringOrNum {
    String(String),
    Num(u64),
}

impl From<String> for StringOrNum {
    fn from(value: String) -> (r: StringOrNum) {
        StringOrNum::String(value)
    }
}

impl vstd::std_specs::convert::FromSpecImpl<String> for StringOrNum {
    open spec fn obeys_from_spec() -> bool {
        true
    }

    open spec fn from_spec(v: String) -> StringOrNum {
        StringOrNum::String(v)
    }
}

impl From<u64> for StringOrNum {
    fn from(value: u64) -> (r: StringOrNum) {
        StringOrNum::Num(value)
    }
}

impl vstd::std_specs::convert::FromSpecImpl<u64> for StringOrNum {
    open spec fn obeys_from_spec() -> bool {
        true
    }

    open spec fn from_spec(v: u64) -> StringOrNum {
        StringOrNum::Num(v)
    }
}

/// General flags of the configuration file.
#[derive(Clone, Debug, Default)]
pub struct FlagConfig {
    pub hide_avg_cpu: Option<bool>,
    pub dot_marker: Option<bool>,
    pub temperature_type: Option<String>,
    pub rate: Option<StringOrNum>,
    pub cpu_left_legend: Option<bool>,
    pub current_usage: Option<bool>,
    pub unnormalized_cpu: Option<bool>,
    pub group_processes: Option<bool>,
    pub case_sensitive: Option<bool>,
    pub whole_word: Option<bool>,
    pub regex: Option<bool>,
    pub basic: Option<bool>,
    pub default_time_value: Option<StringOrNum>,
    pub time_delta: Option<StringOrNum>,
    pub autohide_time: Option<bool>,
    pub hide_time: Option<bool>,
    pub default_widget_type: Option<String>,
    pub default_widget_count: Option<u64>,
    pub expanded: Option<bool>,
    pub use_old_network_legend: Option<bool>,
    pub hide_table_gap: Option<bool>,
    pub battery: Option<bool>,
    pub disable_click: Option<bool>,
    pub no_write: Option<bool>,
    pub network_legend: Option<String>,
    pub memory_legend: Option<String>,
    /// For built-in colour palettes.
    pub color: Option<String>,
    pub process_memory_as_value: Option<bool>,
    pub tree: Option<bool>,
    pub show_table_scroll_position: Option<bool>,
    pub process_command: Option<bool>,
    pub disable_advanced_kill: Option<bool>,
    pub network_use_bytes: Option<bool>,
    pub network_use_log: Option<bool>,
    pub network_use_binary_prefix: Option<bool>,
    pub enable_gpu: Option<bool>,
    pub enable_cache_memory: Option<bool>,
    pub retention: Option<StringOrNum>,
}

/// The configuration file's contents: the flags and the layout tree, kept as
/// the arena that the layout compiler reads.
#[derive(Clone, Debug, Default)]
pub struct ConfigV1 {
    pub flags: Option<FlagConfig>,
    pub row: Option<Vec<crate::layout::LayoutNode>>,
}

} // verus!
