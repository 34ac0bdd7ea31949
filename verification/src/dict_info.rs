//! Dictionary information and the opaque MeCab handle types.
use vstd::prelude::*;

verus! {

/// Information on one dictionary loaded by MeCab.
pub struct DictionaryInfo {
    pub filename: String,
    pub charset: String,
    pub size: u32,
    /// 0 = SYS_DIC, 1 = USR_DIC, 2 = UNK_DIC
    pub dict_type: i32,
    pub lsize: u32,
    pub rsize: u32,
    pub version: u32,
}

/// A MeCab tagger, as the C library hands it out (only ever used behind a pointer).
#[allow(non_camel_case_types)]
pub struct mecab_t {
    _opaque: [u8; 0],
}

/// A MeCab model, as the C library hands it out (only ever used behind a pointer).
#[allow(non_camel_case_types)]
pub struct mecab_model_t {
    _opaque: [u8; 0],
}

/// A MeCab lattice, as the C library hands it out (only ever used behind a pointer).
#[allow(non_camel_case_types)]
pub struct mecab_lattice_t {
    _opaque: [u8; 0],
}

} // verus!
