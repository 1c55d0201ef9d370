pub mod text;
pub mod markdown;
pub mod typst;
pub mod remarkable;
pub mod numbers;
pub mod pdf_info;
pub mod push;
pub mod rmdoc;
pub mod pull;
pub mod svg;
pub mod path_data;
