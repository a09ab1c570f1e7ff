//! Sigma detection-rule toolchain.

pub mod ast;
pub mod clause_laws;
pub mod condition;
pub mod condition_laws;
pub mod config;
pub mod cross_rule_ac;
pub mod deprecation;
pub mod detection;
pub mod detection_laws;
pub mod fibratus;
pub mod fibratus_laws;
pub mod grouping;
pub mod health;
pub mod json;
pub mod macro_shapes;
pub mod matcher;
pub mod matcher_laws;
pub mod mcp;
pub mod migrate;
pub mod migrate_laws;
pub mod modifier_laws;
pub mod needle_laws;
pub mod needles;
pub mod order;
pub mod outcome;
pub mod pruning;
pub mod registry;
pub mod registry_laws;
pub mod report_laws;
pub mod rule;
pub mod rule_laws;
pub mod selector;
pub mod source_laws;
pub mod stix;
pub mod substring;
pub mod table;
pub mod text;
pub mod text_laws;
pub mod view_laws;
pub mod yaml;
