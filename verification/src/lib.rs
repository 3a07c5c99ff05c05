//! Flow-matrix, label and capture-accounting logic of the Sonar network
//! survey tool, with the properties of each operation proved by Verus.

pub mod balance;
pub mod batch;
pub mod decode;
pub mod dto;
pub mod endpoints;
pub mod error;
pub mod flow_matrix;
pub mod graphviz;
pub mod import;
pub mod labels;
pub mod link;
pub mod matrix;
pub mod matrix_graph;
pub mod order;
pub mod packet_graph;
pub mod packet_key;
pub mod packets;
pub mod project;
pub mod report;
pub mod roundtrip;
pub mod rows;
pub mod sfms;
pub mod state_errors;
pub mod survey;
pub mod text;
