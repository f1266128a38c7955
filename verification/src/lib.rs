//! Reading spreadsheets: a DEFLATE decoder, a ZIP archive reader, an XML parser,
//! and the projection of XLSX worksheets and CSV files to a sparse cell map.

pub mod bitstream;
pub mod buffer;
pub mod cells;
pub mod csv;
pub mod huffman;
pub mod inflate;
pub mod text;
pub mod xlsx;
pub mod xml;
pub mod zip;
