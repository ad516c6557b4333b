//! Fast decimal formatting of unsigned integers into caller-supplied byte
//! buffers, with machine-checked proofs that every writer emits exactly the
//! canonical digit string of its input: same length as the true digit
//! count, no leading zeros, and parsing the bytes back yields the value.

pub mod alexandrescu;
pub mod api;
pub mod arith;
pub mod digits;
pub mod fixedpoint;
pub mod jeaiii;
pub mod naive;
pub mod shared;

pub use alexandrescu::alexandrescu128;
pub use alexandrescu::alexandrescu16;
pub use alexandrescu::alexandrescu32;
pub use alexandrescu::alexandrescu64;
pub use alexandrescu::alexandrescu8;
pub use api::write_decimal_u128;
pub use api::write_decimal_u16;
pub use api::write_decimal_u32;
pub use api::write_decimal_u64;
pub use api::write_decimal_u8;
pub use api::BufferTooSmall;
pub use jeaiii::jeaiii16_better;
pub use jeaiii::jeaiii16as32_better;
pub use jeaiii::jeaiii32_10;
pub use jeaiii::jeaiii32_10_start;
pub use jeaiii::jeaiii32_better;
pub use jeaiii::jeaiii32_digits;
pub use jeaiii::jeaiii32_original;
pub use jeaiii::jeaiii64_better;
pub use jeaiii::jeaiii64_better_v2;
pub use jeaiii::jeaiii64_better_v3;
pub use jeaiii::jeaiii64_better_v4;
pub use jeaiii::jeaiii64_better_v5;
pub use jeaiii::jeaiii64_better_v6;
pub use jeaiii::jeaiii8_better;
pub use jeaiii::jeaiii8as32_better;
pub use naive::naive_exact128;
pub use naive::naive_exact16;
pub use naive::naive_exact32;
pub use naive::naive_exact64;
pub use naive::naive_exact8;
pub use naive::naive_temp16;
pub use naive::naive_temp32;
pub use naive::naive_temp64;
pub use naive::naive_temp8;
pub use shared::byte_buffer;
pub use shared::copy_to_dst;
pub use shared::digit_to_char_const;
pub use shared::fallback_digit_count_u128;
pub use shared::fallback_digit_count_u64;
pub use shared::fast_digit_count;
pub use shared::fast_log10;
pub use shared::fast_log10_u128;
pub use shared::fast_log10_u64;
pub use shared::fast_log2;
pub use shared::fast_log2_u128;
pub use shared::fast_log2_u64;
pub use shared::DigitCount;
pub use shared::DIGIT_TO_BASE10_SQUARED;
