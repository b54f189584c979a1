mod base;
mod shadowcast;

pub use base::Matrix;
pub use base::Point;
pub use base::abs1;
pub use base::abs_max;
pub use base::abs_min;
pub use base::cheb_dist;
pub use base::dist_sq;
pub use base::l2_sq;
pub use base::nethack_len;
pub use shadowcast::INITIAL_VISIBILITY;
pub use shadowcast::MAX_RADIUS;
pub use shadowcast::MatrixOracle;
pub use shadowcast::OpacityOracle;
pub use shadowcast::VISIBILITY_LOSSES;
pub use shadowcast::Vision;
pub use shadowcast::VisionArgs;
pub use shadowcast::ceil_div;
pub use shadowcast::cell_light;
pub use shadowcast::dir_ok;
pub use shadowcast::div_ceil;
pub use shadowcast::div_floor;
pub use shadowcast::eye_ok;
pub use shadowcast::fov_model;
pub use shadowcast::light_at;
pub use shadowcast::floor_div;
