pub mod avx512_bw;
pub mod dispatch;
