pub mod wavelet;
