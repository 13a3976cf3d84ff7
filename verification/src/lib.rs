use vstd::prelude::*;

pub mod camctl;
pub mod text;
pub mod xml_model;
pub mod wire;
pub mod builders;
pub mod url;
pub mod genapi;
pub mod expr;
pub mod fake_gige;
pub mod gvsp;
pub mod fake_u3v;
pub mod gvcp;
pub mod xml_events;
pub mod xml_nodes;
pub mod xml_parse;
pub mod xml_struct;
pub mod nodemap;
pub mod bitops;
pub mod fake_gvcp;
pub mod service;

verus! {
}
