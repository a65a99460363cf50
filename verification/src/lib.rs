//! A file-name search engine: in-memory indexes of the files of a volume,
//! case-insensitive name search, path reconstruction from parent
//! references, parsing of NTFS change-journal record buffers, and the
//! length-prefixed framing of the daemon's pipe protocol.
pub mod text;
pub mod drive;
pub mod searchd;
pub mod desktop;
pub mod usn;
pub mod protocol;
pub mod session;
pub mod daemon;
