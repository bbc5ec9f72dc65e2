//! The encrypted file's byte layout:
//! `[1 extension length][extension][16 IV][ciphertext][32 HMAC]`.

use crate::cipher::append_all;
use vstd::prelude::*;

verus! {

/// Size of the IV field in bytes.
pub const IV_SIZE: usize = 16;

/// Size of the authentication tag in bytes.
pub const MAC_SIZE: usize = 32;

/// The fields of an encrypted file as byte strings: extension length,
/// extension, IV, ciphertext and tag.
pub type FileFields = (u8, Seq<u8>, Seq<u8>, Seq<u8>, Seq<u8>);

/// The bytes of a file with the given fields, in layout order.
pub open spec fn file_layout(f: FileFields) -> Seq<u8> {
    seq![f.0] + f.1 + f.2 + f.3 + f.4
}

/// The shortest input that parsing looks into: length byte, IV and tag.
pub open spec fn min_file_len() -> int {
    (1 + IV_SIZE + MAC_SIZE) as int
}

/// Where the IV ends in `data`, by the extension length stored there.
pub open spec fn iv_end(data: Seq<u8>) -> int {
    1 + data[0] + IV_SIZE
}

/// Inputs on which parsing slices past where the tag begins: long enough
/// to pass both length checks, yet the extension and IV run into the last
/// 32 bytes.
pub open spec fn fields_overrun_tag(data: Seq<u8>) -> bool {
    &&& data.len() >= min_file_len()
    &&& iv_end(data) <= data.len()
    &&& data.len() - MAC_SIZE < iv_end(data)
}

/// The inputs that parse: long enough for the fixed fields and for the
/// extension and IV that the length byte announces.
pub open spec fn parses(data: Seq<u8>) -> bool {
    &&& data.len() >= min_file_len()
    &&& iv_end(data) <= data.len()
}

/// The fields that parsing reads from `data`.
pub open spec fn parse_fields(data: Seq<u8>) -> FileFields {
    let e = data[0] as int;
    let ct_end = data.len() - MAC_SIZE;
    (
        data[0],
        data.subrange(1, 1 + e),
        data.subrange(1 + e, iv_end(data)),
        data.subrange(iv_end(data), ct_end),
        data.subrange(ct_end, data.len() as int),
    )
}

/// An encrypted file, field by field.
#[derive(Debug)]
pub struct EncryptedFile {
    pub iv: [u8; 16],
    pub ext_len: u8,
    pub ext: Vec<u8>,
    pub ciphertext: Vec<u8>,
    pub mac: [u8; 32],
}

impl EncryptedFile {
    /// The file's fields as byte strings.
    pub open spec fn fields(&self) -> FileFields {
        (self.ext_len, self.ext@, self.iv@, self.ciphertext@, self.mac@)
    }

    /// Writes the fields out in layout order. The extension is written in
    /// full, whatever the length byte says.
    pub fn to_bytes(&self) -> (out: Vec<u8>)
        ensures
            out@ == file_layout(self.fields()),
    {
        let mut result: Vec<u8> = Vec::new();
        result.push(self.ext_len);
        append_all(&mut result, self.ext.as_slice());
        append_all(&mut result, self.iv.as_slice());
        append_all(&mut result, self.ciphertext.as_slice());
        append_all(&mut result, self.mac.as_slice());
        assert(result@ =~= file_layout(self.fields()));
        result
    }

    /// Reads the fields back: the length byte, that many bytes of
    /// extension, the IV, everything up to the last 32 bytes as ciphertext,
    /// and those 32 bytes as the tag.
    pub fn from_bytes(data: &[u8]) -> (res: Result<Self, String>)
        requires
            !fields_overrun_tag(data@),
        ensures
            res is Ok <==> parses(data@),
            res matches Ok(f) ==> f.fields() == parse_fields(data@),
            data@.len() < min_file_len() ==> (res matches Err(e) && e@ == "Data too short"@),
            data@.len() >= min_file_len() && !parses(data@) ==> (res matches Err(e) && e@
                == "Data too short for IV"@),
    {
        if data.len() < 1 + IV_SIZE + MAC_SIZE {
            let e = "Data too short".to_string();
            proof {
                vstd::string::to_string_from_display_ensures_for_str("Data too short", e);
            }
            return Err(e);
        }
        let ext_len = data[0] as usize;
        let ext_start: usize = 1;
        let ext_end = ext_start + ext_len;
        let iv_start = ext_end;
        let iv_end = iv_start + IV_SIZE;
        let ciphertext_end = data.len() - MAC_SIZE;

        if data.len() < iv_end {
            let e = "Data too short for IV".to_string();
            proof {
                vstd::string::to_string_from_display_ensures_for_str("Data too short for IV", e);
            }
            return Err(e);
        }

        let ext = slice_range_to_vec(data, ext_start, ext_end);
        let iv: [u8; 16] = copy_16(data, iv_start);
        let ciphertext = slice_range_to_vec(data, iv_end, ciphertext_end);
        let mac: [u8; 32] = copy_32(data, ciphertext_end);
        let file = EncryptedFile { iv, ext_len: ext_len as u8, ext, ciphertext, mac };
        assert(file.fields() =~= parse_fields(data@));
        Ok(file)
    }
}

/// The bytes `data[start..end]`, copied.
fn slice_range_to_vec(data: &[u8], start: usize, end: usize) -> (out: Vec<u8>)
    requires
        start <= end <= data@.len(),
    ensures
        out@ == data@.subrange(start as int, end as int),
{
    let mut out: Vec<u8> = Vec::new();
    let mut i = start;
    while i < end
        invariant
            start <= i <= end,
            end <= data@.len(),
            out@ == data@.subrange(start as int, i as int),
        decreases end - i,
    {
        out.push(data[i]);
        assert(out@ =~= data@.subrange(start as int, i + 1));
        i += 1;
    }
    out
}

/// The sixteen bytes of `data` from `start`.
fn copy_16(data: &[u8], start: usize) -> (out: [u8; 16])
    requires
        start + 16 <= data@.len(),
    ensures
        out@ == data@.subrange(start as int, start + 16),
{
    let mut out = [0u8; 16];
    let len = data.len();
    let mut i: usize = 0;
    while i < 16
        invariant
            i <= 16,
            start + 16 <= data@.len(),
            len == data@.len(),
            forall|t: int| 0 <= t < i ==> out@[t] == data@[start + t],
        decreases 16 - i,
    {
        out[i] = data[start + i];
        i += 1;
    }
    assert(out@ =~= data@.subrange(start as int, start + 16));
    out
}

/// The thirty-two bytes of `data` from `start`.
fn copy_32(data: &[u8], start: usize) -> (out: [u8; 32])
    requires
        start + 32 <= data@.len(),
    ensures
        out@ == data@.subrange(start as int, start + 32),
{
    let mut out = [0u8; 32];
    let len = data.len();
    let mut i: usize = 0;
    while i < 32
        invariant
            i <= 32,
            start + 32 <= data@.len(),
            len == data@.len(),
            forall|t: int| 0 <= t < i ==> out@[t] == data@[start + t],
        decreases 32 - i,
    {
        out[i] = data[start + i];
        i += 1;
    }
    assert(out@ =~= data@.subrange(start as int, start + 32));
    out
}

/// Writing out the fields that parsing read gives back the bytes it read.
pub proof fn lemma_parse_then_layout(data: Seq<u8>)
    requires
        parses(data),
        !fields_overrun_tag(data),
    ensures
        file_layout(parse_fields(data)) == data,
{
    assert(file_layout(parse_fields(data)) =~= data);
}

/// Parsing the bytes of a file whose length byte matches its extension
/// reads every field back, and slices nothing past the tag.
pub proof fn lemma_layout_then_parse(f: FileFields)
    requires
        f.0 as int == f.1.len(),
        f.2.len() == IV_SIZE,
        f.4.len() == MAC_SIZE,
    ensures
        parses(file_layout(f)),
        !fields_overrun_tag(file_layout(f)),
        parse_fields(file_layout(f)) == f,
{
    let data = file_layout(f);
    assert(data[0] == f.0);
    let p = parse_fields(data);
    assert(p.1 =~= f.1);
    assert(p.2 =~= f.2);
    assert(p.3 =~= f.3);
    assert(p.4 =~= f.4);
}

} // verus!
