pub mod node;
pub mod slots;
pub mod state;
pub mod ui_tree;
pub mod scene;
pub mod batch;
pub mod cache;
pub mod history;
pub mod window;
pub mod tools;
pub mod event;
pub mod style;
pub mod reactive;
pub mod control_flow;
pub mod region;
pub mod board;
pub mod paint_plan;
