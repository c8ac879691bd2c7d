//! Verified core of a packer/unpacker for RockChip firmware containers
//! (RKFW firmware images and the RKAF update images embedded in them).

pub mod bytes;
pub mod chip;
pub mod crc;
pub mod error;
pub mod header;
pub mod layout;
pub mod member_paths;
pub mod rkaf;
pub mod rkfw;
pub mod roundtrip;
pub mod text;

pub use chip::{chip_name_to_code, decode_chip_field, encode_chip_field};
pub use error::Error;
pub use header::{
    UpdateHeader, UpdatePart, MAX_NAME_LEN, MAX_PARTS, PARM_MAGIC, RKAFP_MAGIC, RKAF_SIGNATURE,
    RKFP_SIGNATURE, RKFW_SIGNATURE, UPDATE_HEADER_SIZE,
};
pub use layout::{recover_partition_layout, recover_true_size};
