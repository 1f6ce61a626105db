pub mod dice_tray;
pub mod die;

pub use dice_tray::DiceTray;
pub use die::Die;
