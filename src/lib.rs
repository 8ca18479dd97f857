pub mod fixed_point;
pub mod il;
pub mod reaching_definitions;
