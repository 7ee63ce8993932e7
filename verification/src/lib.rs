//! Single-pass neural answer probabilities: typed decisions read off one
//! logits row per question.
pub mod again;
pub mod agree;
pub mod answer;
pub mod api;
pub mod batch;
pub mod bench;
pub mod benched;
pub mod caching;
pub mod calibrate;
pub mod calibrated;
pub mod calls;
pub mod cases;
pub mod commands;
pub mod compact;
pub mod decide;
pub mod decisions;
pub mod engine;
pub mod evaluate;
pub mod expand;
pub mod fold;
pub mod frame;
pub mod framed;
pub mod group;
pub mod instances;
pub mod kv;
pub mod leaves;
pub mod ledger;
pub mod lines;
pub mod listing;
pub mod memory;
pub mod messages;
pub mod models;
pub mod num;
pub mod plan;
pub mod prefix;
pub mod prompts;
pub mod rendered;
pub mod repeat;
pub mod report;
pub mod reported;
pub mod run;
pub mod schema;
pub mod served;
pub mod server;
pub mod text;
pub mod trie;
pub mod value;
pub mod version;
pub mod warm;
pub mod wave;
pub mod weave;
pub mod weight;
