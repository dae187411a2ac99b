pub mod control_point;
pub mod hit_object;
pub mod mode;
