pub mod juice_stream;
