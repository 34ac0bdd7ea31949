//! The MCBD format: the files of a MeCab dictionary packed into one gzip-compressed buffer.
//!
//! Payload layout (before compression), all integers little-endian `u32`:
//!   "MCBD" | version | number of files | (name length | name | data length | data)*
use std::io::{Read, Write};
use vstd::prelude::*;
use vstd::utf8::{decode_utf8, encode_utf8, valid_utf8};
use crate::msg::{dec_text, push_dec};

verus! {

/// MCBD format version.
pub const MCBD_VERSION: u32 = 1;

/// A file entry of an MCBD buffer.
pub struct McbdFile {
    pub name: String,
    pub data: Vec<u8>,
}

// ── Outside calls (flate2, std) ────────────────────────────────────────────

/// What gzip compression (flate2's `GzEncoder` at the default level) makes of `data`.
pub uninterp spec fn gzip_of(data: Seq<u8>) -> Seq<u8>;

/// What gzip decompression (flate2's `GzDecoder`, read to the end) makes of `data`: the bytes,
/// or the text of the I/O error.
pub uninterp spec fn gunzip_of(data: Seq<u8>) -> Result<Seq<u8>, Seq<char>>;

/// The text of the error `std::str::from_utf8` reports for bytes that are not UTF-8.
pub uninterp spec fn utf8_error_text(bytes: Seq<u8>) -> Seq<char>;

/// Why gzip compression failed: at writing the data, or at finishing the stream.
pub enum GzipError {
    Write(String),
    Finish(String),
}

/// Compresses `data` with flate2's `GzEncoder` (default level) into a vector; the result is
/// named `gzip_of(data)`. Writing into a vector never fails, and a fresh deflate stream reports
/// no error (flate2's miniz_oxide backend fails only on a dictionary request or a corrupt
/// stream), so compression succeeds.
#[verifier::external_body]
fn gzip_bytes(data: &[u8]) -> (res: Result<Vec<u8>, GzipError>)
    ensures
        res is Ok,
        res matches Ok(v) ==> v@ == gzip_of(data@),
{
    let mut enc = flate2::write::GzEncoder::new(Vec::new(), flate2::Compression::default());
    match enc.write_all(data) {
        Ok(()) => {},
        Err(e) => return Err(GzipError::Write(e.to_string())),
    }
    match enc.finish() {
        Ok(v) => Ok(v),
        Err(e) => Err(GzipError::Finish(e.to_string())),
    }
}

/// Decompresses `data` with flate2's `GzDecoder`, reading to the end. The outcome is named
/// `gunzip_of(data)`; decompressing what `GzEncoder` made gives the compressed bytes back (as
/// the crate's own round-trip tests check).
#[verifier::external_body]
fn gunzip_bytes(data: &[u8]) -> (res: Result<Vec<u8>, String>)
    ensures
        match gunzip_of(data@) {
            Ok(v) => res matches Ok(x) && x@ == v,
            Err(m) => res matches Err(x) && x@ == m,
        },
        res matches Ok(x) ==> forall|orig: Seq<u8>| data@ == gzip_of(orig) ==> x@ == orig,
        res is Err ==> forall|orig: Seq<u8>| data@ != gzip_of(orig),
{
    let mut decoder = flate2::read::GzDecoder::new(data);
    let mut out = Vec::new();
    match decoder.read_to_end(&mut out) {
        Ok(_) => Ok(out),
        Err(e) => Err(e.to_string()),
    }
}

/// What decompressing `data` with flate2's `GzDecoder` into a string gives: the text, or the
/// text of the I/O error (which includes the data not being UTF-8).
pub uninterp spec fn gunzip_text_of(data: Seq<u8>) -> Result<Seq<char>, Seq<char>>;

/// Decompresses `data` with flate2's `GzDecoder`, reading it to the end as UTF-8 text; the
/// outcome is named `gunzip_text_of(data)`.
#[verifier::external_body]
pub(crate) fn gunzip_text(data: &[u8]) -> (res: Result<String, String>)
    ensures
        match gunzip_text_of(data@) {
            Ok(t) => res matches Ok(x) && x@ == t,
            Err(m) => res matches Err(x) && x@ == m,
        },
{
    let mut decoder = flate2::read::GzDecoder::new(data);
    let mut out = String::new();
    match decoder.read_to_string(&mut out) {
        Ok(_) => Ok(out),
        Err(e) => Err(e.to_string()),
    }
}

/// `std::str::from_utf8`: the text the bytes encode when they are valid UTF-8, else the
/// error's text (named `utf8_error_text`).
#[verifier::external_body]
fn utf8_text(bytes: &[u8]) -> (res: Result<String, String>)
    ensures
        res is Ok <==> valid_utf8(bytes@),
        res matches Ok(s) ==> s@ == decode_utf8(bytes@),
        res matches Err(m) ==> m@ == utf8_error_text(bytes@),
{
    match std::str::from_utf8(bytes) {
        Ok(s) => Ok(s.to_string()),
        Err(e) => Err(e.to_string()),
    }
}

// ── Specification ──────────────────────────────────────────────────────────

/// The magic bytes "MCBD".
pub open spec fn mcbd_magic() -> Seq<u8> {
    seq![0x4du8, 0x43u8, 0x42u8, 0x44u8]
}

/// The little-endian bytes of `v`.
pub open spec fn le32(v: u32) -> Seq<u8> {
    seq![(v % 256) as u8, ((v / 256) % 256) as u8, ((v / 65536) % 256) as u8, (v / 16777216) as u8]
}

/// The little-endian `u32` at `b[off..off + 4]`.
pub open spec fn le32_at(b: Seq<u8>, off: int) -> u32 {
    (b[off] + b[off + 1] * 256 + b[off + 2] * 65536 + b[off + 3] * 16777216) as u32
}

/// The bytes of one file entry.
pub open spec fn entry_bytes(f: McbdFile) -> Seq<u8> {
    let name = encode_utf8(f.name@);
    le32(name.len() as u32) + name + le32(f.data@.len() as u32) + f.data@
}

/// The bytes of the file entries, one after another.
pub open spec fn entries_bytes(files: Seq<McbdFile>) -> Seq<u8>
    decreases files.len(),
{
    if files.len() == 0 {
        Seq::empty()
    } else {
        entries_bytes(files.drop_last()) + entry_bytes(files.last())
    }
}

/// The MCBD payload of the given files.
pub open spec fn spec_payload(files: Seq<McbdFile>) -> Seq<u8> {
    mcbd_magic() + le32(MCBD_VERSION) + le32(files.len() as u32) + entries_bytes(files)
}

/// A file as plain values: its name and its bytes.
pub open spec fn file_view(f: McbdFile) -> (Seq<char>, Seq<u8>) {
    (f.name@, f.data@)
}

pub open spec fn file_views(files: Seq<McbdFile>) -> Seq<(Seq<char>, Seq<u8>)> {
    files.map_values(|f: McbdFile| file_view(f))
}

pub open spec fn truncated() -> Seq<char> {
    "Unexpected end of MCBD data"@
}

/// Reads `count` more file entries of payload `p` from offset `off`, after the entries `acc`.
pub open spec fn read_entries(p: Seq<u8>, off: int, count: nat, acc: Seq<(Seq<char>, Seq<u8>)>) -> Result<
    Seq<(Seq<char>, Seq<u8>)>,
    Seq<char>,
>
    decreases count,
{
    if count == 0 {
        Ok(acc)
    } else if off < 0 || off + 4 > p.len() {
        Err(truncated())
    } else {
        let name_len = le32_at(p, off);
        let o1 = off + 4;
        if o1 + name_len > p.len() {
            Err("Unexpected end of MCBD data (name)"@)
        } else {
            let name = p.subrange(o1, o1 + name_len);
            if !valid_utf8(name) {
                Err("Invalid UTF-8 in file name: "@ + utf8_error_text(name))
            } else {
                let o2 = o1 + name_len;
                if o2 + 4 > p.len() {
                    Err(truncated())
                } else {
                    let data_len = le32_at(p, o2);
                    let o3 = o2 + 4;
                    if o3 + data_len > p.len() {
                        Err("Unexpected end of MCBD data (file data)"@)
                    } else {
                        read_entries(
                            p,
                            o3 + data_len,
                            (count - 1) as nat,
                            acc.push((decode_utf8(name), p.subrange(o3, o3 + data_len))),
                        )
                    }
                }
            }
        }
    }
}

/// The files of an MCBD payload, or why it is not one.
pub open spec fn spec_parse_payload(p: Seq<u8>) -> Result<Seq<(Seq<char>, Seq<u8>)>, Seq<char>> {
    if p.len() < 4 || p.take(4) != mcbd_magic() {
        Err("Invalid MCBD magic"@)
    } else if p.len() < 8 {
        Err(truncated())
    } else if le32_at(p, 4) != MCBD_VERSION {
        Err("Unsupported MCBD version: "@ + dec_text(le32_at(p, 4) as nat))
    } else if p.len() < 12 {
        Err(truncated())
    } else {
        read_entries(p, 12, le32_at(p, 8) as nat, Seq::empty())
    }
}

/// The files of a compressed MCBD buffer, or why it is not one.
pub open spec fn spec_parse_mcbd(compressed: Seq<u8>) -> Result<Seq<(Seq<char>, Seq<u8>)>, Seq<char>> {
    match gunzip_of(compressed) {
        Err(m) => Err("Failed to decompress gzip: "@ + m),
        Ok(p) => spec_parse_payload(p),
    }
}

// ── Laws ───────────────────────────────────────────────────────────────────

proof fn lemma_le32(v: u32)
    ensures
        le32_at(le32(v), 0) == v,
        le32(v).len() == 4,
{
    let b = le32(v);
    assert(((v % 256) as u8) as int == v % 256) by (bit_vector);
    assert((((v / 256) % 256) as u8) as int == (v / 256) % 256) by (bit_vector);
    assert((((v / 65536) % 256) as u8) as int == (v / 65536) % 256) by (bit_vector);
    assert(((v / 16777216) as u8) as int == v / 16777216) by (bit_vector);
    assert(v % 256 + ((v / 256) % 256) * 256 + ((v / 65536) % 256) * 65536 + (v / 16777216) * 16777216
        == v) by (bit_vector);
}

/// The little-endian value read inside a larger sequence is the one read from the slice.
proof fn lemma_le32_at(p: Seq<u8>, off: int, v: u32)
    requires
        0 <= off,
        off + 4 <= p.len(),
        p.subrange(off, off + 4) == le32(v),
    ensures
        le32_at(p, off) == v,
{
    lemma_le32(v);
    let b = le32(v);
    assert(p[off] == b[0] && p[off + 1] == b[1] && p[off + 2] == b[2] && p[off + 3] == b[3]) by {
        assert(p.subrange(off, off + 4)[0] == p[off]);
        assert(p.subrange(off, off + 4)[1] == p[off + 1]);
        assert(p.subrange(off, off + 4)[2] == p[off + 2]);
        assert(p.subrange(off, off + 4)[3] == p[off + 3]);
    }
}

/// The bytes of the first `j` entries begin the bytes of all entries.
proof fn lemma_entries_prefix(files: Seq<McbdFile>, j: int)
    requires
        0 <= j <= files.len(),
    ensures
        entries_bytes(files.take(j)).len() <= entries_bytes(files).len(),
        entries_bytes(files).subrange(0, entries_bytes(files.take(j)).len() as int) == entries_bytes(
            files.take(j),
        ),
    decreases files.len(),
{
    if j == files.len() {
        assert(files.take(j) =~= files);
        assert(entries_bytes(files).subrange(0, entries_bytes(files).len() as int) =~= entries_bytes(files));
    } else {
        let rest = files.drop_last();
        assert(files.take(j) =~= rest.take(j));
        lemma_entries_prefix(rest, j);
        let a = entries_bytes(rest);
        let l = entries_bytes(rest.take(j)).len() as int;
        assert(entries_bytes(files) == a + entry_bytes(files.last()));
        assert((a + entry_bytes(files.last())).subrange(0, l) =~= a.subrange(0, l));
    }
}

/// The bytes of the `k`-th entry lie in the payload right after those of the entries before it.
proof fn lemma_entry_in_payload(files: Seq<McbdFile>, k: int)
    requires
        0 <= k < files.len(),
    ensures
        ({
            let off = 12 + entries_bytes(files.take(k)).len() as int;
            let e = entry_bytes(files[k]);
            &&& off + e.len() <= spec_payload(files).len()
            &&& spec_payload(files).subrange(off, off + e.len() as int) == e
            &&& off + e.len() == 12 + entries_bytes(files.take(k + 1)).len() as int
        }),
{
    let p = spec_payload(files);
    let head = mcbd_magic() + le32(MCBD_VERSION) + le32(files.len() as u32);
    assert(head.len() == 12);
    assert(p == head + entries_bytes(files));
    let f = files[k];
    let pre = entries_bytes(files.take(k));
    let e = entry_bytes(f);
    let off = 12 + pre.len() as int;
    assert(files.take(k + 1).drop_last() =~= files.take(k));
    assert(files.take(k + 1).last() == f);
    assert(entries_bytes(files.take(k + 1)) == pre + e);
    lemma_entries_prefix(files, k + 1);
    let whole = entries_bytes(files);
    assert forall|i: int| 0 <= i < e.len() implies #[trigger] p.subrange(off, off + e.len() as int)[i] == e[i] by {
        assert(whole.subrange(0, (pre + e).len() as int)[pre.len() + i] == (pre + e)[pre.len() + i]);
        assert(p[off + i] == whole[pre.len() + i]);
    }
    assert(p.subrange(off, off + e.len() as int) =~= e);
}

/// Reading one entry whose bytes lie at `off`.
proof fn lemma_read_one(p: Seq<u8>, off: int, f: McbdFile, count: nat, acc: Seq<(Seq<char>, Seq<u8>)>)
    requires
        0 <= off,
        off + entry_bytes(f).len() <= p.len(),
        p.subrange(off, off + entry_bytes(f).len() as int) == entry_bytes(f),
        encode_utf8(f.name@).len() <= u32::MAX,
        f.data@.len() <= u32::MAX,
    ensures
        read_entries(p, off, count + 1, acc) == read_entries(
            p,
            off + entry_bytes(f).len(),
            count,
            acc.push(file_view(f)),
        ),
{
    let e = entry_bytes(f);
    let name = encode_utf8(f.name@);
    let nl = name.len() as int;
    let dl = f.data@.len() as int;
    assert(e == le32(nl as u32) + name + le32(dl as u32) + f.data@);
    lemma_le32(nl as u32);
    lemma_le32(dl as u32);
    assert forall|i: int| 0 <= i < e.len() implies #[trigger] p[off + i] == e[i] by {
        assert(p.subrange(off, off + e.len() as int)[i] == p[off + i]);
    }
    assert(p.subrange(off, off + 4) =~= le32(nl as u32));
    lemma_le32_at(p, off, nl as u32);
    let o1 = off + 4;
    let a = le32(nl as u32);
    let b = a + name;
    let c = b + le32(dl as u32);
    assert forall|i: int| 0 <= i < nl implies #[trigger] p.subrange(o1, o1 + nl)[i] == name[i] by {
        assert(p[o1 + i] == e[4 + i]);
        assert(c[4 + i] == b[4 + i]);
        assert(b[4 + i] == name[i]);
    }
    assert(p.subrange(o1, o1 + nl) =~= name);
    vstd::utf8::encode_utf8_valid_utf8(f.name@);
    vstd::utf8::encode_utf8_decode_utf8(f.name@);
    let o2 = o1 + nl;
    assert forall|i: int| 0 <= i < 4 implies #[trigger] p.subrange(o2, o2 + 4)[i] == le32(dl as u32)[i] by {
        assert(p[o2 + i] == e[4 + nl + i]);
        assert(c[4 + nl + i] == le32(dl as u32)[i]);
    }
    assert(p.subrange(o2, o2 + 4) =~= le32(dl as u32));
    lemma_le32_at(p, o2, dl as u32);
    let o3 = o2 + 4;
    assert forall|i: int| 0 <= i < dl implies #[trigger] p.subrange(o3, o3 + dl)[i] == f.data@[i] by {
        assert(p[o3 + i] == e[8 + nl + i]);
    }
    assert(p.subrange(o3, o3 + dl) =~= f.data@);
}

/// Reading the entries from the `k`-th on gives back all the files.
proof fn lemma_read_entries(files: Seq<McbdFile>, k: int)
    requires
        0 <= k <= files.len(),
        forall|i: int| 0 <= i < files.len() ==> (#[trigger] encode_utf8(files[i].name@)).len() <= u32::MAX
            && files[i].data@.len() <= u32::MAX,
    ensures
        read_entries(
            spec_payload(files),
            12 + entries_bytes(files.take(k)).len() as int,
            (files.len() - k) as nat,
            file_views(files.take(k)),
        ) == Ok::<Seq<(Seq<char>, Seq<u8>)>, Seq<char>>(file_views(files)),
    decreases files.len() - k,
{
    if k == files.len() {
        assert(files.take(k) =~= files);
    } else {
        let p = spec_payload(files);
        let f = files[k];
        let off = 12 + entries_bytes(files.take(k)).len() as int;
        lemma_entry_in_payload(files, k);
        assert(encode_utf8(files[k].name@).len() <= u32::MAX);
        lemma_read_one(p, off, f, (files.len() - k - 1) as nat, file_views(files.take(k)));
        assert(file_views(files.take(k)).push(file_view(f)) =~= file_views(files.take(k + 1)));
        lemma_read_entries(files, k + 1);
    }
}

/// The number of files, and the length of every name (in UTF-8) and of every content, fit in
/// a `u32`.
pub open spec fn packable(files: Seq<McbdFile>) -> bool {
    &&& files.len() <= u32::MAX
    &&& forall|i: int| 0 <= i < files.len() ==> (#[trigger] encode_utf8(files[i].name@)).len() <= u32::MAX
        && files[i].data@.len() <= u32::MAX
}

/// Reading a packed payload back gives the files that were packed, names and contents in
/// order (when the number of files and every name and content length fit in a `u32`).
pub proof fn law_payload_roundtrip(files: Seq<McbdFile>)
    requires
        packable(files),
    ensures
        spec_parse_payload(spec_payload(files)) == Ok::<Seq<(Seq<char>, Seq<u8>)>, Seq<char>>(file_views(files)),
{
    let p = spec_payload(files);
    let head = mcbd_magic() + le32(MCBD_VERSION) + le32(files.len() as u32);
    lemma_le32(MCBD_VERSION);
    lemma_le32(files.len() as u32);
    assert(p.take(4) =~= mcbd_magic());
    assert(p.subrange(4, 8) =~= le32(MCBD_VERSION));
    lemma_le32_at(p, 4, MCBD_VERSION);
    assert(p.subrange(8, 12) =~= le32(files.len() as u32));
    lemma_le32_at(p, 8, files.len() as u32);
    assert(files.take(0) =~= Seq::<McbdFile>::empty());
    assert(entries_bytes(files.take(0)).len() == 0);
    assert(file_views(files.take(0)) =~= Seq::<(Seq<char>, Seq<u8>)>::empty());
    lemma_read_entries(files, 0);
}

// ── Implementation ─────────────────────────────────────────────────────────

fn push_le32(out: &mut Vec<u8>, v: u32)
    ensures
        final(out)@ == old(out)@ + le32(v),
{
    out.push((v % 256) as u8);
    out.push(((v / 256) % 256) as u8);
    out.push(((v / 65536) % 256) as u8);
    out.push((v / 16777216) as u8);
    assert(final(out)@ =~= old(out)@ + le32(v));
}

fn push_bytes(out: &mut Vec<u8>, b: &[u8])
    ensures
        final(out)@ == old(out)@ + b@,
{
    let ghost start = out@;
    let mut i: usize = 0;
    while i < b.len()
        invariant
            i <= b.len(),
            out@ == start + b@.take(i as int),
        decreases b.len() - i,
    {
        out.push(b[i]);
        i += 1;
        assert(out@ =~= start + b@.take(i as int));
    }
    assert(b@.take(b.len() as int) =~= b@);
}

/// Builds the (uncompressed) MCBD payload of the given files.
pub fn build_mcbd_payload(files: &[McbdFile]) -> (res: Vec<u8>)
    ensures
        res@ == spec_payload(files@),
{
    let mut payload: Vec<u8> = Vec::new();
    payload.push(0x4du8);
    payload.push(0x43u8);
    payload.push(0x42u8);
    payload.push(0x44u8);
    push_le32(&mut payload, MCBD_VERSION);
    push_le32(&mut payload, files.len() as u32);
    let ghost head = payload@;
    let mut i: usize = 0;
    assert(entries_bytes(files@.take(0)) =~= Seq::<u8>::empty());
    assert(payload@ =~= head + entries_bytes(files@.take(0)));
    while i < files.len()
        invariant
            i <= files.len(),
            payload@ == head + entries_bytes(files@.take(i as int)),
        decreases files.len() - i,
    {
        let f = &files[i];
        let name_bytes = f.name.as_str().as_bytes();
        push_le32(&mut payload, name_bytes.len() as u32);
        push_bytes(&mut payload, name_bytes);
        push_le32(&mut payload, f.data.len() as u32);
        push_bytes(&mut payload, f.data.as_slice());
        assert(files@.take(i + 1).drop_last() =~= files@.take(i as int));
        assert(payload@ =~= head + entries_bytes(files@.take(i + 1)));
        i += 1;
    }
    assert(files@.take(files.len() as int) =~= files@);
    assert(head =~= mcbd_magic() + le32(MCBD_VERSION) + le32(files@.len() as u32));
    payload
}

/// The dictionary files that an MCBD buffer packs, in order.
pub open spec fn dict_files() -> Seq<Seq<char>> {
    seq!["char.bin"@, "dicrc"@, "matrix.bin"@, "sys.dic"@, "unk.dic"@]
}

/// The names of the dictionary files to pack, in order.
pub fn dict_file_names() -> (res: Vec<String>)
    ensures
        res@.len() == 5,
        forall|i: int| 0 <= i < 5 ==> (#[trigger] res@[i])@ == dict_files()[i],
{
    let mut v: Vec<String> = Vec::new();
    v.push(text("char.bin"));
    v.push(text("dicrc"));
    v.push(text("matrix.bin"));
    v.push(text("sys.dic"));
    v.push(text("unk.dic"));
    v
}

/// The MCBD buffer of the given files: the payload, gzip-compressed.
pub fn pack_mcbd(files: &[McbdFile]) -> (res: Result<Vec<u8>, String>)
    ensures
        res is Ok,
        res matches Ok(v) ==> v@ == gzip_of(spec_payload(files@)),
{
    let payload = build_mcbd_payload(files);
    match gzip_bytes(payload.as_slice()) {
        Ok(v) => Ok(v),
        Err(GzipError::Write(e)) => {
            let mut m = String::new();
            m.append("Failed to write compressed data: ");
            m.append(e.as_str());
            Err(m)
        },
        Err(GzipError::Finish(e)) => {
            let mut m = String::new();
            m.append("Failed to finish gzip: ");
            m.append(e.as_str());
            Err(m)
        },
    }
}

/// The little-endian `u32` at `p[off..off + 4]`.
fn read_u32_at(p: &[u8], off: usize) -> (res: u32)
    requires
        off + 4 <= p.len(),
    ensures
        res == le32_at(p@, off as int),
{
    let v: u32 = p[off] as u32 + (p[off + 1] as u32) * 256 + (p[off + 2] as u32) * 65536 + (p[off + 3] as u32)
        * 16777216;
    v
}

/// A fixed message as a string.
fn text(s: &str) -> (res: String)
    ensures
        res@ == s@,
{
    let mut m = String::new();
    m.append(s);
    assert(m@ =~= s@);
    m
}

/// The characters `p[from..to]`, as bytes.
fn sub_bytes(p: &[u8], from: usize, to: usize) -> (res: Vec<u8>)
    requires
        from <= to <= p.len(),
    ensures
        res@ == p@.subrange(from as int, to as int),
{
    let mut v: Vec<u8> = Vec::new();
    let mut i: usize = from;
    while i < to
        invariant
            from <= i <= to <= p.len(),
            v@ == p@.subrange(from as int, i as int),
        decreases to - i,
    {
        v.push(p[i]);
        i += 1;
        assert(v@ =~= p@.subrange(from as int, i as int));
    }
    v
}

/// Parses an (uncompressed) MCBD payload into its files.
#[verifier::loop_isolation(false)]
pub fn parse_mcbd_payload(payload: &[u8]) -> (res: Result<Vec<McbdFile>, String>)
    ensures
        match spec_parse_payload(payload@) {
            Ok(fs) => res matches Ok(v) && file_views(v@) == fs,
            Err(m) => res matches Err(x) && x@ == m,
        },
{
    let p = payload;
    if p.len() < 4 || !(p[0] == 0x4du8 && p[1] == 0x43u8 && p[2] == 0x42u8 && p[3] == 0x44u8) {
        if p.len() >= 4 {
            assert(p@.take(4) != mcbd_magic()) by {
                if p@.take(4) == mcbd_magic() {
                    assert(p@.take(4)[0] == p@[0]);
                    assert(p@.take(4)[1] == p@[1]);
                    assert(p@.take(4)[2] == p@[2]);
                    assert(p@.take(4)[3] == p@[3]);
                }
            }
        }
        return Err(text("Invalid MCBD magic"));
    }
    assert(p@.take(4) =~= mcbd_magic());
    if p.len() < 8 {
        return Err(text("Unexpected end of MCBD data"));
    }
    let version = read_u32_at(p, 4);
    if version != MCBD_VERSION {
        let mut m = String::new();
        m.append("Unsupported MCBD version: ");
        push_dec(&mut m, version);
        assert(m@ =~= "Unsupported MCBD version: "@ + dec_text(version as nat));
        return Err(m);
    }
    if p.len() < 12 {
        return Err(text("Unexpected end of MCBD data"));
    }
    let num_files = read_u32_at(p, 8);
    let ghost target = spec_parse_payload(p@);
    let mut files: Vec<McbdFile> = Vec::new();
    let mut offset: usize = 12;
    let mut left: u32 = num_files;
    assert(file_views(files@) =~= Seq::<(Seq<char>, Seq<u8>)>::empty());
    while left > 0
        invariant
            offset <= p.len(),
            target == read_entries(p@, offset as int, left as nat, file_views(files@)),
        decreases left,
    {
        if p.len() - offset < 4 {
            return Err(text("Unexpected end of MCBD data"));
        }
        let name_len = read_u32_at(p, offset) as usize;
        let o1 = offset + 4;
        if name_len > p.len() - o1 {
            return Err(text("Unexpected end of MCBD data (name)"));
        }
        let name_bytes = &p[o1..o1 + name_len];
        assert(name_bytes@ =~= p@.subrange(o1 as int, o1 + name_len));
        let name = match utf8_text(name_bytes) {
            Ok(s) => s,
            Err(e) => {
                let mut m = String::new();
                m.append("Invalid UTF-8 in file name: ");
                m.append(e.as_str());
                return Err(m);
            },
        };
        let o2 = o1 + name_len;
        if p.len() - o2 < 4 {
            return Err(text("Unexpected end of MCBD data"));
        }
        let data_len = read_u32_at(p, o2) as usize;
        let o3 = o2 + 4;
        if data_len > p.len() - o3 {
            return Err(text("Unexpected end of MCBD data (file data)"));
        }
        let data = sub_bytes(p, o3, o3 + data_len);
        let f = McbdFile { name, data };
        let ghost before = file_views(files@);
        files.push(f);
        assert(file_views(files@) =~= before.push(file_view(f)));
        offset = o3 + data_len;
        left = left - 1;
    }
    Ok(files)
}

/// Decompress and parse an MCBD buffer into its files.
pub fn parse_mcbd(compressed: &[u8]) -> (res: Result<Vec<McbdFile>, String>)
    ensures
        match spec_parse_mcbd(compressed@) {
            Ok(fs) => res matches Ok(v) && file_views(v@) == fs,
            Err(m) => res matches Err(x) && x@ == m,
        },
        // reading back a packed buffer gives the files that were packed
        forall|files: Seq<McbdFile>|
            compressed@ == gzip_of(#[trigger] spec_payload(files)) && packable(files) ==> (res matches Ok(v)
                && file_views(v@) == file_views(files)),
{
    proof {
        assert forall|files: Seq<McbdFile>|
            compressed@ == gzip_of(#[trigger] spec_payload(files)) && packable(files) implies spec_parse_payload(
            spec_payload(files),
        ) == Ok::<Seq<(Seq<char>, Seq<u8>)>, Seq<char>>(file_views(files)) by {
            law_payload_roundtrip(files);
        }
    }
    let payload = match gunzip_bytes(compressed) {
        Ok(v) => v,
        Err(e) => {
            let mut m = String::new();
            m.append("Failed to decompress gzip: ");
            m.append(e.as_str());
            return Err(m);
        },
    };
    parse_mcbd_payload(payload.as_slice())
}

} // verus!
