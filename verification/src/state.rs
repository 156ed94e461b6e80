//! Application state files: which keys are accepted, where their files live,
//! and how reading and deleting them is reported.
use vstd::prelude::*;
use vstd::utf8::{
    decode_utf8, decode_utf8_encode_utf8, encode_utf8, encode_utf8_decode_utf8,
    encode_utf8_valid_utf8, is_ascii_chars, is_ascii_chars_encode_utf8, valid_utf8,
};
use crate::error::{AppError, IoFailure};
use crate::path::{
    byte_chars, directory_bytes, file_name_bytes, is_plain_name, join_bytes,
    lemma_byte_path_parts, lemma_join_bytes_onto_plain, lemma_join_directory_plain_name,
    spec_directory_bytes, spec_file_name, spec_file_name_bytes, spec_join_bytes,
    spec_parent_bytes,
};
use crate::text::{
    chars_of, lemma_encode_utf8_concat, lossy_text, spec_utf8_lossy, text_from_utf8_lossy,
};

verus! {

/// Characters allowed in a state key: ASCII letters and digits, `-` and `_`.
pub open spec fn is_state_key_char(c: char) -> bool {
    ||| ('0' <= c && c <= '9')
    ||| ('a' <= c && c <= 'z')
    ||| ('A' <= c && c <= 'Z')
    ||| c == '-'
    ||| c == '_'
}

/// A key is valid when all its characters are allowed (the empty key is valid).
pub open spec fn spec_is_valid_state_key(key: Seq<char>) -> bool {
    forall|i: int| 0 <= i < key.len() ==> is_state_key_char(key[i])
}

/// A key is accepted exactly when every character is an ASCII letter of
/// either case, an ASCII digit, `-` or `_` (so `editorSettings` is accepted
/// and `a/b`, `a.b` or `ключ` are not).
pub proof fn lemma_state_keys_are_ascii_alphanumeric(key: Seq<char>)
    ensures
        spec_is_valid_state_key(key) <==> forall|i: int|
            0 <= i < key.len() ==> {
                let u = #[trigger] key[i] as u32;
                ||| 48 <= u <= 57
                ||| 65 <= u <= 90
                ||| 97 <= u <= 122
                ||| u == 45
                ||| u == 95
            },
{
    assert forall|i: int| 0 <= i < key.len() implies is_state_key_char(key[i]) <==> {
        let u = #[trigger] key[i] as u32;
        ||| 48 <= u <= 57
        ||| 65 <= u <= 90
        ||| 97 <= u <= 122
        ||| u == 45
        ||| u == 95
    } by {
        let c = key[i];
        assert(('0' as u32) == 48 && ('9' as u32) == 57 && ('A' as u32) == 65 && ('Z' as u32) == 90);
        assert(('a' as u32) == 97 && ('z' as u32) == 122 && ('-' as u32) == 45 && ('_' as u32) == 95);
        vstd::utf8::char_u32_cast(c, c as u32);
        vstd::utf8::char_u32_cast('-', 45);
        vstd::utf8::char_u32_cast('_', 95);
    }
}

/// Whether `key` may name a state file.
pub fn is_valid_state_key(key: &str) -> (res: bool)
    ensures
        res == spec_is_valid_state_key(key@),
{
    let s = chars_of(key);
    let mut i: usize = 0;
    while i < s.len()
        invariant
            s@ == key@,
            i <= s@.len(),
            forall|j: int| 0 <= j < i ==> is_state_key_char(s@[j]),
        decreases s.len() - i,
    {
        let c = s[i];
        if !(('0' <= c && c <= '9') || ('a' <= c && c <= 'z') || ('A' <= c && c <= 'Z') || c
            == '-' || c == '_') {
            return false;
        }
        i = i + 1;
    }
    true
}

/// The file holding the state stored under `key`: `DIR/state/KEY.json`,
/// with the directory given as bytes.
pub open spec fn spec_state_file_path(dir: Seq<u8>, key: Seq<char>) -> Seq<u8> {
    spec_join_bytes(spec_join_bytes(dir, encode_utf8("state"@)), encode_utf8(key + ".json"@))
}

/// The file for the state stored under `key`, given the application data
/// directory (as bytes) or the reason it could not be determined.  The key is
/// checked first.
pub fn state_file(app_data_dir: Result<Vec<u8>, String>, key: &str) -> (res: Result<
    Vec<u8>,
    AppError,
>)
    ensures
        !spec_is_valid_state_key(key@) ==> res == Err::<Vec<u8>, AppError>(AppError::InvalidStateKey),
        spec_is_valid_state_key(key@) ==> match app_data_dir {
            Ok(dir) => res matches Ok(p) && p@ == spec_state_file_path(dir@, key@),
            Err(m) => res == Err::<Vec<u8>, AppError>(AppError::StatePath(m)),
        },
{
    if !is_valid_state_key(key) {
        return Err(AppError::InvalidStateKey);
    }
    match app_data_dir {
        Ok(dir) => {
            let state_dir = join_bytes(dir.as_slice(), "state".as_bytes());
            let mut name = String::from_str(key);
            name.append(".json");
            Ok(join_bytes(state_dir.as_slice(), name.as_str().as_bytes()))
        },
        Err(m) => Err(AppError::StatePath(m)),
    }
}

/// A character allowed in a state key, or `.`, is one UTF-8 byte other than `/`.
proof fn lemma_key_char_byte(c: char)
    requires
        is_state_key_char(c) || c == '.',
    ensures
        c <= '\u{7f}',
        (c as u8) != 47u8,
{
    let u = c as u32;
    assert(u as u8 == c as u8);
    assert((u as u8) != 47u8) by (bit_vector)
        requires
            (48 <= u <= 57) || (65 <= u <= 90) || (97 <= u <= 122) || u == 45 || u == 95 || u
                == 46,
    ;
}

/// The UTF-8 bytes of a text made of key characters and `.` form one plain
/// path component when there are at least three of them.
proof fn lemma_key_text_plain(t: Seq<char>)
    requires
        forall|i: int| 0 <= i < t.len() ==> is_state_key_char(#[trigger] t[i]) || t[i] == '.',
        t.len() >= 3,
    ensures
        is_plain_name(byte_chars(encode_utf8(t))),
{
    assert forall|i: int| 0 <= i < t.len() implies '\0' <= #[trigger] t[i] <= '\u{7f}' by {
        lemma_key_char_byte(t[i]);
    }
    assert(is_ascii_chars(t));
    is_ascii_chars_encode_utf8(t);
    let e = encode_utf8(t);
    assert forall|i: int| 0 <= i < e.len() implies #[trigger] byte_chars(e)[i] != '/' by {
        lemma_key_char_byte(t[i]);
        assert(e[i] == t[i] as u8);
    }
    assert(byte_chars(e).len() >= 3);
}

/// A state file always lies directly inside the `state` directory of the
/// application data directory and is named after its key: no valid key can
/// reach another place on disk.
pub proof fn lemma_state_file_confined(dir: Seq<u8>, key: Seq<char>)
    requires
        spec_is_valid_state_key(key),
    ensures
        spec_parent_bytes(spec_state_file_path(dir, key)) == Some(
            spec_join_bytes(dir, encode_utf8("state"@)),
        ),
        spec_file_name_bytes(spec_state_file_path(dir, key)) == Some(encode_utf8(key + ".json"@)),
{
    reveal_strlit("state");
    reveal_strlit(".json");
    let state = "state"@;
    assert(state =~= seq!['s', 't', 'a', 't', 'e']);
    lemma_key_text_plain(state);
    let n = key + ".json"@;
    assert forall|i: int| 0 <= i < n.len() implies is_state_key_char(#[trigger] n[i]) || n[i]
        == '.' by {
        if i < key.len() {
            assert(n[i] == key[i]);
        } else {
            assert(n[i] == ".json"@[i - key.len()]);
        }
    }
    lemma_key_text_plain(n);
    lemma_join_bytes_onto_plain(dir, encode_utf8(state), encode_utf8(n));
}

/// Reading a state file that does not exist means nothing was stored.
pub fn state_load_result(read: Result<String, IoFailure>) -> (res: Result<Option<String>, AppError>)
    ensures
        match read {
            Ok(content) => res == Ok::<Option<String>, AppError>(Some(content)),
            Err(failure) => if failure.not_found {
                res == Ok::<Option<String>, AppError>(None)
            } else {
                res == Err::<Option<String>, AppError>(AppError::Io(failure.message))
            },
        },
{
    match read {
        Ok(content) => Ok(Some(content)),
        Err(failure) => {
            if failure.not_found {
                Ok(None)
            } else {
                Err(AppError::from_io(failure))
            }
        },
    }
}

/// Deleting a state file that does not exist succeeds.
pub fn state_delete_result(removal: Result<(), IoFailure>) -> (res: Result<(), AppError>)
    ensures
        match removal {
            Ok(()) => res is Ok,
            Err(failure) => if failure.not_found {
                res is Ok
            } else {
                res == Err::<(), AppError>(AppError::Io(failure.message))
            },
        },
{
    match removal {
        Ok(()) => Ok(()),
        Err(failure) => {
            if failure.not_found {
                Ok(())
            } else {
                Err(AppError::from_io(failure))
            }
        },
    }
}

/// Where a file is written before it replaces its destination.
#[derive(Debug, Clone, PartialEq, Eq)]
pub struct ReplacementPlan {
    /// The directory to create and to write in.
    pub directory: Vec<u8>,
    /// The temporary file that is renamed onto the destination.
    pub temporary: Vec<u8>,
}

/// The temporary file's name when replacing a file: `.NAME.tmp` in UTF-8,
/// where NAME is the destination's file name read lossily (empty when it has
/// none).
pub open spec fn spec_replacement_temp_name(path: Seq<u8>) -> Seq<u8> {
    let name = match spec_file_name_bytes(path) {
        Some(n) => lossy_text(n),
        None => seq![],
    };
    encode_utf8(seq!['.'] + name + ".tmp"@)
}

/// A replacement's temporary file is named `.NAME.tmp`, where NAME is the
/// destination's file name as the path spells it when that is UTF-8, its
/// lossy reading otherwise, and empty when it has none.
pub proof fn lemma_replacement_temp_name_uses_file_name(path: Seq<u8>)
    ensures
        spec_replacement_temp_name(path) == encode_utf8(
            seq!['.'] + match spec_file_name_bytes(path) {
                Some(n) => if valid_utf8(n) {
                    decode_utf8(n)
                } else {
                    spec_utf8_lossy(n)
                },
                None => Seq::<char>::empty(),
            } + ".tmp"@,
        ),
{
}

/// The plan for replacing the file at `path`.
pub open spec fn spec_replacement_plan(path: Seq<u8>) -> (Seq<u8>, Seq<u8>) {
    let dir = spec_directory_bytes(path);
    (dir, spec_join_bytes(dir, spec_replacement_temp_name(path)))
}

/// Where a file that replaces the one at the byte path `path` is first written.
pub fn replacement_plan(path: &[u8]) -> (res: ReplacementPlan)
    ensures
        (res.directory@, res.temporary@) == spec_replacement_plan(path@),
{
    let directory = directory_bytes(path);
    let mut temp_name = String::from_str(".");
    match file_name_bytes(path) {
        Some(n) => {
            let text = text_from_utf8_lossy(n.as_slice());
            temp_name.append(text.as_str());
        },
        None => {},
    }
    temp_name.append(".tmp");
    proof {
        reveal_strlit(".");
        let name = match spec_file_name_bytes(path@) {
            Some(n) => lossy_text(n),
            None => seq![],
        };
        assert(temp_name@ =~= seq!['.'] + name + ".tmp"@);
    }
    let bytes = temp_name.as_str().as_bytes();
    let temporary = join_bytes(directory.as_slice(), bytes);
    ReplacementPlan { directory, temporary }
}

/// When the file name is UTF-8 (or there is none), replacing a file writes
/// the temporary file next to it, in the directory the plan creates, and
/// never at the file's own path.
pub proof fn lemma_replacement_temp_is_sibling(path: Seq<u8>)
    requires
        spec_file_name_bytes(path) matches Some(n) ==> valid_utf8(n),
    ensures
        spec_parent_bytes(spec_replacement_plan(path).1) == Some(spec_replacement_plan(path).0),
        spec_file_name_bytes(spec_replacement_plan(path).1) == Some(spec_replacement_temp_name(path)),
        spec_replacement_plan(path).1 != path,
{
    let name = match spec_file_name_bytes(path) {
        Some(n) => lossy_text(n),
        None => seq![],
    };
    let suffix = ".tmp"@;
    reveal_strlit(".tmp");
    let text = seq!['.'] + name + suffix;
    let tn = spec_replacement_temp_name(path);
    assert(tn == encode_utf8(text));
    let temp = spec_replacement_plan(path).1;
    {
        is_ascii_chars_encode_utf8(suffix);
        is_ascii_chars_encode_utf8(seq!['.']);
        lemma_encode_utf8_concat(seq!['.'], name);
        lemma_encode_utf8_concat(seq!['.'] + name, suffix);
        let nb = encode_utf8(name);
        let sb = encode_utf8(suffix);
        match spec_file_name_bytes(path) {
            Some(n) => {
                let c = spec_file_name(byte_chars(path))->0;
                lemma_byte_path_parts(path);
                crate::document::lemma_file_name_plain(byte_chars(path));
                decode_utf8_encode_utf8(n);
                assert(byte_chars(n) == c);
                assert forall|i: int| 0 <= i < n.len() implies #[trigger] n[i] != 47u8 by {
                    assert(byte_chars(n)[i] == c[i]);
                }
            },
            None => {
                assert(nb =~= seq![]);
            },
        }
        assert(tn == seq![46u8] + nb + sb);
        assert forall|i: int| 0 <= i < tn.len() implies #[trigger] byte_chars(tn)[i] != '/' by {
            if i == 0 {
            } else if i < 1 + nb.len() {
                assert(tn[i] == nb[i - 1]);
            } else {
                assert(tn[i] == sb[i - 1 - nb.len()]);
            }
        }
        assert(sb.len() == 4);
        assert(byte_chars(tn).len() >= 3);
        assert(is_plain_name(byte_chars(tn)));
        lemma_join_directory_plain_name(path, tn);
    }
    if temp == path {
        encode_utf8_valid_utf8(text);
        encode_utf8_decode_utf8(text);
        assert(name == lossy_text(tn));
        assert(name.len() == text.len());
    }
}

/// Paths named on the command line of the first launch, waiting for the
/// front end to ask for them.
pub struct PendingOpenPaths {
    paths: Vec<String>,
}

impl View for PendingOpenPaths {
    type V = Seq<String>;

    closed spec fn view(&self) -> Seq<String> {
        self.paths@
    }
}

impl PendingOpenPaths {
    /// Paths waiting to be opened.
    pub fn new(paths: Vec<String>) -> (res: PendingOpenPaths)
        ensures
            res@ == paths@,
    {
        PendingOpenPaths { paths }
    }

    /// Hands out the waiting paths; nothing stays pending afterwards.
    pub fn take(&mut self) -> (res: Vec<String>)
        ensures
            res@ == old(self)@,
            final(self)@ == Seq::<String>::empty(),
    {
        let mut taken: Vec<String> = Vec::new();
        std::mem::swap(&mut taken, &mut self.paths);
        taken
    }
}

} // verus!
