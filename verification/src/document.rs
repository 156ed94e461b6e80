//! Documents: the checks before opening one, its fingerprint, and the plan
//! for saving it atomically without overwriting changes made on disk.
use vstd::prelude::*;
use vstd::utf8::{
    decode_utf8, decode_utf8_encode_utf8, encode_utf8, encode_utf8_decode_utf8,
    encode_utf8_valid_utf8, is_ascii_chars_encode_utf8, valid_utf8,
};
use crate::error::AppError;
use crate::path::{
    byte_chars, directory_bytes, file_name_bytes, is_plain_name, join_bytes,
    lemma_byte_path_parts, lemma_join_directory_plain_name, name_start, opt_view,
    spec_directory_bytes, spec_file_name, spec_file_name_bytes, spec_join_bytes,
    spec_parent_bytes, trim_end,
};
use crate::text::{
    lemma_encode_utf8_concat, lossy_text, push_char, text_from_utf8, text_from_utf8_lossy,
};

verus! {

/// The largest document the editor opens, in bytes (16 MiB).
pub const MAX_DOCUMENT_BYTES: u64 = 16 * 1024 * 1024;

/// The BLAKE3 digest of a byte sequence.
pub uninterp spec fn spec_blake3(data: Seq<u8>) -> Seq<u8>;

/// `blake3::hash`, read out through `Hash::as_bytes`: the BLAKE3 digest of
/// `data`, which is always `OUT_LEN` = 32 bytes long.  What the digest bytes
/// are is left to the name `spec_blake3`.
#[verifier::external_body]
fn blake3_digest(data: &[u8]) -> (res: Vec<u8>)
    ensures
        res@ == spec_blake3(data@),
        res@.len() == 32,
{
    blake3::hash(data).as_bytes().to_vec()
}

/// The lowercase hexadecimal digit for `n` (0 <= n < 16).
pub open spec fn hex_digit(n: int) -> char {
    seq!['0', '1', '2', '3', '4', '5', '6', '7', '8', '9', 'a', 'b', 'c', 'd', 'e', 'f'][n]
}

/// Lowercase hexadecimal encoding: two digits per byte, high nibble first.
pub open spec fn spec_hex(bytes: Seq<u8>) -> Seq<char>
    decreases bytes.len(),
{
    if bytes.len() == 0 {
        seq![]
    } else {
        spec_hex(bytes.drop_last()) + seq![
            hex_digit(bytes.last() as int / 16),
            hex_digit(bytes.last() as int % 16),
        ]
    }
}

/// A hexadecimal digit as `to_hex` writes it.
pub open spec fn is_lower_hex_digit(c: char) -> bool {
    ('0' <= c && c <= '9') || ('a' <= c && c <= 'f')
}

fn hex_digit_char(n: u8) -> (c: char)
    requires
        n < 16,
    ensures
        c == hex_digit(n as int),
{
    if n == 0 {
        '0'
    } else if n == 1 {
        '1'
    } else if n == 2 {
        '2'
    } else if n == 3 {
        '3'
    } else if n == 4 {
        '4'
    } else if n == 5 {
        '5'
    } else if n == 6 {
        '6'
    } else if n == 7 {
        '7'
    } else if n == 8 {
        '8'
    } else if n == 9 {
        '9'
    } else if n == 10 {
        'a'
    } else if n == 11 {
        'b'
    } else if n == 12 {
        'c'
    } else if n == 13 {
        'd'
    } else if n == 14 {
        'e'
    } else {
        'f'
    }
}

/// Encodes bytes as lowercase hexadecimal.
pub fn to_hex(bytes: &[u8]) -> (res: String)
    ensures
        res@ == spec_hex(bytes@),
{
    let mut res = String::new();
    let mut i: usize = 0;
    while i < bytes.len()
        invariant
            i <= bytes@.len(),
            res@ == spec_hex(bytes@.take(i as int)),
        decreases bytes.len() - i,
    {
        let b = bytes[i];
        push_char(&mut res, hex_digit_char(b / 16));
        push_char(&mut res, hex_digit_char(b % 16));
        assert(bytes@.take(i + 1).drop_last() =~= bytes@.take(i as int));
        assert(res@ =~= spec_hex(bytes@.take(i + 1)));
        i = i + 1;
    }
    assert(bytes@.take(bytes@.len() as int) =~= bytes@);
    res
}

/// The encoding has two digits per byte, each a lowercase hexadecimal digit.
pub proof fn lemma_hex_shape(bytes: Seq<u8>)
    ensures
        spec_hex(bytes).len() == 2 * bytes.len(),
        forall|i: int| 0 <= i < spec_hex(bytes).len() ==> is_lower_hex_digit(#[trigger] spec_hex(bytes)[i]),
    decreases bytes.len(),
{
    if bytes.len() > 0 {
        lemma_hex_shape(bytes.drop_last());
        let hi = bytes.last() as int / 16;
        let lo = bytes.last() as int % 16;
        let digits = seq!['0', '1', '2', '3', '4', '5', '6', '7', '8', '9', 'a', 'b', 'c', 'd', 'e', 'f'];
        assert forall|k: int| 0 <= k < 16 implies is_lower_hex_digit(#[trigger] digits[k]) by {
        }
        assert(is_lower_hex_digit(hex_digit(hi as int)));
        assert(is_lower_hex_digit(hex_digit(lo as int)));
        let rest = spec_hex(bytes.drop_last());
        let h = spec_hex(bytes);
        assert forall|i: int| 0 <= i < h.len() implies is_lower_hex_digit(#[trigger] h[i]) by {
            if i < rest.len() {
                assert(h[i] == rest[i]);
            }
        }
    }
}

proof fn lemma_hex_digit_injective(a: int, b: int)
    requires
        0 <= a < 16,
        0 <= b < 16,
        hex_digit(a) == hex_digit(b),
    ensures
        a == b,
{
    let digits = seq!['0', '1', '2', '3', '4', '5', '6', '7', '8', '9', 'a', 'b', 'c', 'd', 'e', 'f'];
    assert(forall|i: int, j: int| 0 <= i < 16 && 0 <= j < 16 && i != j ==> digits[i] != digits[j]);
}

/// Different byte sequences have different hexadecimal encodings.
pub proof fn lemma_hex_injective(a: Seq<u8>, b: Seq<u8>)
    requires
        spec_hex(a) == spec_hex(b),
    ensures
        a == b,
    decreases a.len(),
{
    lemma_hex_shape(a);
    lemma_hex_shape(b);
    if a.len() > 0 {
        let ha = spec_hex(a);
        let n = ha.len();
        let pa = spec_hex(a.drop_last());
        let pb = spec_hex(b.drop_last());
        lemma_hex_shape(a.drop_last());
        lemma_hex_shape(b.drop_last());
        assert(ha == pa + seq![hex_digit(a.last() as int / 16), hex_digit(a.last() as int % 16)]);
        assert(ha == pb + seq![hex_digit(b.last() as int / 16), hex_digit(b.last() as int % 16)]);
        assert(ha[n - 2] == hex_digit(a.last() as int / 16));
        assert(ha[n - 2] == hex_digit(b.last() as int / 16));
        assert(ha[n - 1] == hex_digit(a.last() as int % 16));
        assert(ha[n - 1] == hex_digit(b.last() as int % 16));
        lemma_hex_digit_injective(a.last() as int / 16, b.last() as int / 16);
        lemma_hex_digit_injective(a.last() as int % 16, b.last() as int % 16);
        assert(a.last() == b.last());
        assert(pa =~= ha.take(n - 2));
        assert(pb =~= ha.take(n - 2));
        lemma_hex_injective(a.drop_last(), b.drop_last());
        assert(a =~= a.drop_last().push(a.last()));
        assert(b =~= b.drop_last().push(b.last()));
    } else {
        assert(a =~= b);
    }
}

/// Fingerprint hashes are equal exactly when the BLAKE3 digests of the
/// contents are: contents with different digests are told apart.
pub proof fn lemma_fingerprint_hash_distinguishes(c1: Seq<u8>, c2: Seq<u8>)
    ensures
        spec_hex(spec_blake3(c1)) == spec_hex(spec_blake3(c2)) <==> spec_blake3(c1) == spec_blake3(c2),
{
    if spec_hex(spec_blake3(c1)) == spec_hex(spec_blake3(c2)) {
        lemma_hex_injective(spec_blake3(c1), spec_blake3(c2));
    }
}

/// What the editor remembers of a document to notice changes made on disk.
#[derive(Debug, Clone, PartialEq, Eq)]
pub struct DocumentFingerprint {
    /// Last modification time, in milliseconds since the Unix epoch.
    pub modified_ms: u128,
    /// Length in bytes.
    pub size: u64,
    /// BLAKE3 digest of the contents, in lowercase hexadecimal.
    pub hash: String,
}

/// The fingerprint of a file with the given modification time, length and contents.
pub fn fingerprint(modified_ms: u128, size: u64, contents: &[u8]) -> (res: DocumentFingerprint)
    ensures
        res.modified_ms == modified_ms,
        res.size == size,
        res.hash@ == spec_hex(spec_blake3(contents@)),
        res.hash@.len() == 64,
{
    let digest = blake3_digest(contents);
    let hash = to_hex(digest.as_slice());
    proof {
        lemma_hex_shape(digest@);
    }
    DocumentFingerprint { modified_ms, size, hash }
}

/// Two fingerprints describe the same file state.
pub open spec fn same_fingerprint(a: DocumentFingerprint, b: DocumentFingerprint) -> bool {
    &&& a.modified_ms == b.modified_ms
    &&& a.size == b.size
    &&& a.hash@ == b.hash@
}

/// Before saving, the file on disk is compared with the fingerprint the
/// editor expects only when the save is not forced and a fingerprint is known.
pub fn conflict_check_needed(force: bool, expected: &Option<DocumentFingerprint>) -> (res: bool)
    ensures
        res == (!force && expected is Some),
{
    !force && expected.is_some()
}

/// A save is refused when the file on disk no longer has the expected fingerprint.
pub fn check_unchanged(expected: &DocumentFingerprint, actual: &DocumentFingerprint) -> (res:
    Result<(), AppError>)
    ensures
        res is Ok <==> same_fingerprint(*expected, *actual),
        res is Err ==> res == Err::<(), AppError>(AppError::Conflict),
{
    if expected.modified_ms == actual.modified_ms && expected.size == actual.size
        && expected.hash == actual.hash {
        Ok(())
    } else {
        Err(AppError::Conflict)
    }
}

/// A file is opened only when it is a regular file of at most 16 MiB.
pub fn check_document_metadata(is_file: bool, len: u64) -> (res: Result<(), AppError>)
    ensures
        !is_file ==> res == Err::<(), AppError>(AppError::NotAFile),
        is_file && len > MAX_DOCUMENT_BYTES ==> res == Err::<(), AppError>(AppError::FileTooLarge),
        is_file && len <= MAX_DOCUMENT_BYTES ==> res is Ok,
{
    if !is_file {
        Err(AppError::NotAFile)
    } else if len > MAX_DOCUMENT_BYTES {
        Err(AppError::FileTooLarge)
    } else {
        Ok(())
    }
}

/// The file name of a byte path when it is UTF-8, as text
/// (`Path::file_name` followed by `OsStr::to_str`).
pub open spec fn spec_utf8_file_name(path: Seq<u8>) -> Option<Seq<char>> {
    match spec_file_name_bytes(path) {
        Some(n) => if valid_utf8(n) {
            Some(decode_utf8(n))
        } else {
            None
        },
        None => None,
    }
}

/// The file name of a byte path, when it has one that is UTF-8.
pub fn utf8_file_name(path: &[u8]) -> (res: Option<String>)
    ensures
        opt_view(res) == spec_utf8_file_name(path@),
{
    match file_name_bytes(path) {
        Some(n) => match text_from_utf8(n) {
            Ok(s) => Some(s),
            Err(_) => None,
        },
        None => None,
    }
}

/// The name shown for a document: its file name, or `Untitled.md` when it
/// has none or the name is not UTF-8.
pub open spec fn spec_document_name(path: Seq<u8>) -> Seq<char> {
    match spec_utf8_file_name(path) {
        Some(n) => n,
        None => "Untitled.md"@,
    }
}

/// A document is named by its file name exactly as the path spells it, when
/// that name is UTF-8, with no change of case or anything else; it is named
/// `Untitled.md` when the path has no file name or the name is not UTF-8.
pub proof fn lemma_document_name_is_file_name(path: Seq<u8>)
    ensures
        spec_document_name(path) == match spec_file_name_bytes(path) {
            Some(n) => if valid_utf8(n) {
                decode_utf8(n)
            } else {
                "Untitled.md"@
            },
            None => "Untitled.md"@,
        },
{
}

/// A document opened in the editor.
#[derive(Debug, Clone, PartialEq, Eq)]
pub struct FileDocument {
    pub path: String,
    pub name: String,
    pub content: String,
    pub fingerprint: DocumentFingerprint,
}

impl FileDocument {
    /// The document read from the path with bytes `path`, with its contents
    /// and fingerprint; the path is kept as text, lossily where it is not UTF-8.
    pub fn new(path: &[u8], content: String, fingerprint: DocumentFingerprint) -> (res:
        FileDocument)
        ensures
            res.path@ == lossy_text(path@),
            res.name@ == spec_document_name(path@),
            res.name@ == match spec_file_name_bytes(path@) {
                Some(n) => if valid_utf8(n) {
                    decode_utf8(n)
                } else {
                    "Untitled.md"@
                },
                None => "Untitled.md"@,
            },
            res.content@ == content@,
            res.fingerprint == fingerprint,
    {
        let name = match utf8_file_name(path) {
            Some(n) => n,
            None => String::from_str("Untitled.md"),
        };
        proof {
            lemma_document_name_is_file_name(path@);
        }
        FileDocument { path: text_from_utf8_lossy(path), name, content, fingerprint }
    }
}

/// Where a document is written before it replaces the file at its path.
#[derive(Debug, Clone, PartialEq, Eq)]
pub struct SavePlan {
    /// The directory to create and to write in.
    pub directory: Vec<u8>,
    /// The temporary file that is renamed onto the document's path.
    pub temporary: Vec<u8>,
}

/// The name the temporary file is built from: the document's file name, or
/// `document.md` when it has none or the name is not UTF-8.
pub open spec fn spec_save_name(path: Seq<u8>) -> Seq<char> {
    match spec_utf8_file_name(path) {
        Some(n) => n,
        None => "document.md"@,
    }
}

/// The temporary file's name when saving a document: `.NAME.tuxedo-tmp`, in UTF-8.
pub open spec fn spec_save_temp_name(path: Seq<u8>) -> Seq<u8> {
    encode_utf8(seq!['.'] + spec_save_name(path) + ".tuxedo-tmp"@)
}

/// A document's temporary file is named `.NAME.tuxedo-tmp`, where NAME is
/// the document's file name exactly as the path spells it when that is
/// UTF-8, and `document.md` otherwise.
pub proof fn lemma_save_temp_name_uses_file_name(path: Seq<u8>)
    ensures
        spec_save_temp_name(path) == encode_utf8(
            seq!['.'] + match spec_file_name_bytes(path) {
                Some(n) => if valid_utf8(n) {
                    decode_utf8(n)
                } else {
                    "document.md"@
                },
                None => "document.md"@,
            } + ".tuxedo-tmp"@,
        ),
{
}

/// The plan for saving a document at `path`.
pub open spec fn spec_save_plan(path: Seq<u8>) -> (Seq<u8>, Seq<u8>) {
    let dir = spec_directory_bytes(path);
    (dir, spec_join_bytes(dir, spec_save_temp_name(path)))
}

/// Where a document saved at the path with bytes `path` is first written.
pub fn save_plan(path: &[u8]) -> (res: SavePlan)
    ensures
        (res.directory@, res.temporary@) == spec_save_plan(path@),
{
    let directory = directory_bytes(path);
    let mut temp_name = String::from_str(".");
    match utf8_file_name(path) {
        Some(n) => temp_name.append(n.as_str()),
        None => temp_name.append("document.md"),
    }
    temp_name.append(".tuxedo-tmp");
    proof {
        reveal_strlit(".");
        assert(temp_name@ =~= seq!['.'] + spec_save_name(path@) + ".tuxedo-tmp"@);
    }
    let bytes = temp_name.as_str().as_bytes();
    let temporary = join_bytes(directory.as_slice(), bytes);
    SavePlan { directory, temporary }
}

/// Every character of a file name after its last separator is not a separator.
pub proof fn lemma_final_component_has_no_separator(t: Seq<char>)
    ensures
        0 <= name_start(t) <= t.len(),
        forall|i: int| name_start(t) <= i < t.len() ==> t[i] != '/',
    decreases t.len(),
{
    if t.len() > 0 && t.last() != '/' {
        lemma_final_component_has_no_separator(t.drop_last());
        assert forall|i: int| name_start(t) <= i < t.len() implies t[i] != '/' by {
            if i < t.len() - 1 {
                assert(t[i] == t.drop_last()[i]);
            }
        }
    }
}

pub(crate) proof fn lemma_file_name_plain(path: Seq<char>)
    requires
        spec_file_name(path) is Some,
    ensures
        is_plain_name(spec_file_name(path)->0),
{
    let t = trim_end(path);
    lemma_final_component_has_no_separator(t);
    let c = t.skip(name_start(t));
    assert forall|i: int| 0 <= i < c.len() implies c[i] != '/' by {
        assert(c[i] == t[name_start(t) + i]);
    }
}

/// `.` + name + suffix is a plain name when the name and suffix have no separator.
pub(crate) proof fn lemma_dotted_name_plain(name: Seq<char>, suffix: Seq<char>)
    requires
        forall|i: int| 0 <= i < name.len() ==> name[i] != '/',
        forall|i: int| 0 <= i < suffix.len() ==> suffix[i] != '/',
        suffix.len() >= 2,
    ensures
        is_plain_name(seq!['.'] + name + suffix),
{
    let n = seq!['.'] + name + suffix;
    assert forall|i: int| 0 <= i < n.len() implies n[i] != '/' by {
        if i == 0 {
        } else if i < 1 + name.len() {
            assert(n[i] == name[i - 1]);
        } else {
            assert(n[i] == suffix[i - 1 - name.len()]);
        }
    }
    assert(n.len() >= 3);
}

/// The bytes of the save name hold no separator.
proof fn lemma_save_name_bytes(path: Seq<u8>)
    ensures
        forall|i: int| 0 <= i < encode_utf8(spec_save_name(path)).len()
            ==> #[trigger] encode_utf8(spec_save_name(path))[i] != 47u8,
{
    match spec_file_name_bytes(path) {
        Some(n) if valid_utf8(n) => {
            let c = spec_file_name(byte_chars(path))->0;
            lemma_byte_path_parts(path);
            lemma_file_name_plain(byte_chars(path));
            decode_utf8_encode_utf8(n);
            assert(byte_chars(n) == c);
            assert forall|i: int| 0 <= i < n.len() implies #[trigger] n[i] != 47u8 by {
                assert(byte_chars(n)[i] == c[i]);
            }
        },
        _ => {
            reveal_strlit("document.md");
            let d = "document.md"@;
            is_ascii_chars_encode_utf8(d);
        },
    }
}

/// Saving writes a temporary file next to the document, inside the
/// directory the plan creates, and never at the document's own path.
pub proof fn lemma_save_temp_is_sibling(path: Seq<u8>)
    ensures
        spec_parent_bytes(spec_save_plan(path).1) == Some(spec_save_plan(path).0),
        spec_file_name_bytes(spec_save_plan(path).1) == Some(spec_save_temp_name(path)),
        spec_save_plan(path).1 != path,
{
    let name = spec_save_name(path);
    let suffix = ".tuxedo-tmp"@;
    reveal_strlit(".tuxedo-tmp");
    is_ascii_chars_encode_utf8(suffix);
    is_ascii_chars_encode_utf8(seq!['.']);
    lemma_encode_utf8_concat(seq!['.'], name);
    lemma_encode_utf8_concat(seq!['.'] + name, suffix);
    lemma_save_name_bytes(path);
    let nb = encode_utf8(name);
    let sb = encode_utf8(suffix);
    let tn = spec_save_temp_name(path);
    assert(tn == seq![46u8] + nb + sb);
    assert forall|i: int| 0 <= i < tn.len() implies #[trigger] byte_chars(tn)[i] != '/' by {
        if i == 0 {
        } else if i < 1 + nb.len() {
            assert(tn[i] == nb[i - 1]);
        } else {
            assert(tn[i] == sb[i - 1 - nb.len()]);
        }
    }
    assert(sb.len() == 11);
    assert(byte_chars(tn).len() == tn.len());
    assert(byte_chars(tn).len() >= 3);
    assert(is_plain_name(byte_chars(tn)));
    lemma_join_directory_plain_name(path, tn);
    let temp = spec_save_plan(path).1;
    if temp == path {
        encode_utf8_valid_utf8(seq!['.'] + name + suffix);
        encode_utf8_decode_utf8(seq!['.'] + name + suffix);
        assert(spec_utf8_file_name(path) == Some(seq!['.'] + name + suffix));
        assert(name.len() == (seq!['.'] + name + suffix).len());
    }
}

} // verus!
