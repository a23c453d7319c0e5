//! Finding the cores of FuriosaAI NPUs and telling which of them are free.
//!
//! The library takes what was read from the device and sysfs directories
//! (names and paths of device files, texts of sysfs files, whether a device
//! file could be opened) and decides from it which cores exist, what they
//! are made of and what state they are in.

pub mod device_map;
pub mod listing;
pub mod masking;
pub mod names;
pub mod npu_core;
pub mod order;
pub mod permutation;
pub mod text;

pub use device_map::{
    build_device_map, file_name_matches_path, DeviceFile, DeviceFiles, DeviceMapError,
};
pub use listing::{
    collect_cores, core_status_of_open, device_type_path, device_type_to_list, get_core,
    identify_device_type, is_furiosa_device, list_cores, list_devices, platform_type_path,
    DeviceProbe,
};
pub use masking::core_status_masking;
pub use npu_core::{Core, CoreStatus, CoreType, DeviceType};
pub use order::sort_cores;
