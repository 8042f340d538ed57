//! Task declarations: the task schema and the demo task instances.
pub mod demo_tasks;
pub mod task_schema;
