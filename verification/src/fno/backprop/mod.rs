pub mod fft_traced;
pub mod graph;
pub mod fft_laws;
