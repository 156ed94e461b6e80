//! The third-party license listing: where each license file is looked for,
//! how a found file is read, and how the files are combined.
//!
//! Two files are loaded, `licenses-npm.json` then `licenses-cargo.json`.
//! Each is looked for first among the bundled assets, then in the resource
//! directory (when there is one), then relative to the working directory,
//! each time as `NAME`, `public/NAME` and `dist/NAME`.  The first place that
//! yields content is used; every place looked at is remembered for the error
//! reported when neither file is found.
use vstd::prelude::*;
use vstd::utf8::{decode_utf8, encode_utf8, valid_utf8};
use crate::path::{bytes_of_range, join_bytes, opt_bytes, spec_join_bytes};
use crate::text::{lossy_text, spec_utf8_error, text_from_utf8, text_from_utf8_lossy};
use crate::workspace::into_reversed;

verus! {

#[verifier::external_type_specification]
#[verifier::external_body]
pub struct ExJsonValue(serde_json::Value);

#[verifier::external_type_specification]
#[verifier::external_body]
#[verifier::reject_recursive_types(K)]
#[verifier::reject_recursive_types(V)]
pub struct ExJsonMap<K, V>(serde_json::Map<K, V>);

/// A JSON object as `serde_json` holds it.
pub type JsonObject = serde_json::Map<String, serde_json::Value>;

/// What a JSON object holds: each key with its value's compact JSON text.
pub uninterp spec fn json_map_contents(m: serde_json::Map<String, serde_json::Value>) -> Map<
    Seq<char>,
    Seq<char>,
>;

/// What parsing a JSON text shows of it.
pub enum JsonShape {
    /// The text is not JSON; the parser's message.
    Invalid(Seq<char>),
    /// The text is JSON but not an object.
    NotObject,
    /// The text is a JSON object holding these keys, each with its value's
    /// compact JSON text.
    Object(Map<Seq<char>, Seq<char>>),
}

/// The shape of a JSON text as `serde_json` parses it.
pub uninterp spec fn spec_json_shape(text: Seq<char>) -> JsonShape;

/// `serde_json::from_str::<Value>`, told apart by `Value::Object`: a parse
/// failure gives the parser's message, a non-object gives `None`, and an
/// object gives its map.  Which texts parse, the messages and what an object
/// holds are left to the name `spec_json_shape`.
#[verifier::external_body]
fn parse_json_object(text: &str) -> (res: Result<Option<JsonObject>, String>)
    ensures
        match spec_json_shape(text@) {
            JsonShape::Invalid(m) => res matches Err(e) && e@ == m,
            JsonShape::NotObject => res matches Ok(None),
            JsonShape::Object(c) => res matches Ok(Some(m)) && json_map_contents(m) == c,
        },
{
    match serde_json::from_str::<serde_json::Value>(text) {
        Ok(serde_json::Value::Object(map)) => Ok(Some(map)),
        Ok(_) => Ok(None),
        Err(e) => Err(e.to_string()),
    }
}

/// The contents of an object holding nothing.
pub open spec fn empty_contents() -> Map<Seq<char>, Seq<char>> {
    Map::empty()
}

/// `serde_json::Map::new`: an object holding nothing.
#[verifier::external_body]
fn json_map_new() -> (res: JsonObject)
    ensures
        json_map_contents(res) == empty_contents(),
{
    serde_json::Map::new()
}

/// `Extend` of `serde_json::Map`: inserts every entry of `src` into `dst`;
/// an inserted value replaces the value `dst` had for its key.
#[verifier::external_body]
fn json_map_extend(dst: &mut JsonObject, src: JsonObject)
    ensures
        json_map_contents(*final(dst)) == json_map_contents(*old(dst)).union_prefer_right(
            json_map_contents(src),
        ),
{
    dst.extend(src);
}

/// The compact JSON text of an object with the given keys and value texts.
/// The map is ordered by key (serde_json is built without `preserve_order`),
/// so the text depends on what the object holds alone.
pub uninterp spec fn spec_json_object_text(contents: Map<Seq<char>, Seq<char>>) -> Seq<char>;

/// `serde_json::to_string` of an object; the text is left to the name
/// `spec_json_object_text`.  Writing a map with string keys cannot fail.
#[verifier::external_body]
fn json_map_text(m: &JsonObject) -> (res: String)
    ensures
        res@ == spec_json_object_text(json_map_contents(*m)),
{
    serde_json::to_string(m).unwrap_or_default()
}

/// The names of the license files, in the order they are merged.
pub open spec fn spec_license_file_name(i: int) -> Seq<char> {
    if i == 0 {
        "licenses-npm.json"@
    } else {
        "licenses-cargo.json"@
    }
}

/// The number of license files.
pub const LICENSE_FILE_COUNT: usize = 2;

/// The name of the `i`-th license file.
pub fn license_file_name(i: usize) -> (res: String)
    requires
        i < LICENSE_FILE_COUNT,
    ensures
        res@ == spec_license_file_name(i as int),
{
    if i == 0 {
        String::from_str("licenses-npm.json")
    } else {
        String::from_str("licenses-cargo.json")
    }
}

/// Where a license file may be found.
#[derive(Debug, Clone, Copy, PartialEq, Eq)]
pub enum ProbeKind {
    /// Among the assets bundled with the application, by file name.
    Asset,
    /// On disk, by path.
    File,
}

/// One place to look for a license file.
#[derive(Debug, Clone, PartialEq, Eq)]
pub struct LicenseProbe {
    pub kind: ProbeKind,
    /// The asset name, or the path as it is shown.
    pub location: String,
    /// The bytes of the asset name or of the path that is read.
    pub path: Vec<u8>,
}

/// The abstract value of a probe.
pub struct ProbeModel {
    pub kind: ProbeKind,
    pub location: Seq<char>,
    pub path: Seq<u8>,
}

pub open spec fn probe_model(p: LicenseProbe) -> ProbeModel {
    ProbeModel { kind: p.kind, location: p.location@, path: p.path@ }
}

pub open spec fn probe_models(s: Seq<LicenseProbe>) -> Seq<ProbeModel> {
    s.map_values(|p: LicenseProbe| probe_model(p))
}

/// How a probe is listed among the places looked at.
pub open spec fn spec_probe_label(p: ProbeModel) -> Seq<char> {
    match p.kind {
        ProbeKind::Asset => "asset:"@ + p.location,
        ProbeKind::File => p.location,
    }
}

/// The relative paths under which a license file is looked for.
pub open spec fn license_suffixes(f: Seq<char>) -> Seq<Seq<char>> {
    seq![f, "public/"@ + f, "dist/"@ + f]
}

/// The probe that reads the file at the byte path `path`, shown as
/// `Path::display` shows it.
pub open spec fn file_probe(path: Seq<u8>) -> ProbeModel {
    ProbeModel { kind: ProbeKind::File, location: lossy_text(path), path }
}

/// Every place where the license file `f` is looked for, in order; the
/// resource directory is given as bytes.
pub open spec fn spec_license_probes(f: Seq<char>, resource_dir: Option<Seq<u8>>) -> Seq<
    ProbeModel,
> {
    let s = license_suffixes(f);
    let in_resources = match resource_dir {
        Some(d) => seq![
            file_probe(spec_join_bytes(d, encode_utf8(s[0]))),
            file_probe(spec_join_bytes(d, encode_utf8(s[1]))),
            file_probe(spec_join_bytes(d, encode_utf8(s[2]))),
        ],
        None => seq![],
    };
    seq![ProbeModel { kind: ProbeKind::Asset, location: f, path: encode_utf8(f) }] + in_resources
        + seq![
        file_probe(encode_utf8(s[0])),
        file_probe(encode_utf8(s[1])),
        file_probe(encode_utf8(s[2])),
    ]
}

impl LicenseProbe {
    /// How this probe is listed among the places looked at.
    pub fn label(&self) -> (res: String)
        ensures
            res@ == spec_probe_label(probe_model(*self)),
    {
        match self.kind {
            ProbeKind::Asset => {
                let mut res = String::from_str("asset:");
                res.append(self.location.as_str());
                res
            },
            ProbeKind::File => self.location.clone(),
        }
    }
}

fn prefixed(prefix: &str, f: &str) -> (res: String)
    ensures
        res@ == prefix@ + f@,
{
    let mut res = String::from_str(prefix);
    res.append(f);
    res
}

/// The probe that reads the file at `path`.
fn file_probe_at(path: Vec<u8>) -> (res: LicenseProbe)
    ensures
        probe_model(res) == file_probe(path@),
{
    let location = text_from_utf8_lossy(path.as_slice());
    LicenseProbe { kind: ProbeKind::File, location, path }
}

/// A copy of the bytes of `s`.
fn text_bytes(s: &str) -> (res: Vec<u8>)
    ensures
        res@ == encode_utf8(s@),
{
    let b = s.as_bytes();
    bytes_of_range(b, 0, b.len())
}

/// The places where the license file `file_name` is looked for, in order;
/// `resource_dir` is the resource directory's path as bytes, when there is one.
pub fn license_probes(file_name: &str, resource_dir: &Option<Vec<u8>>) -> (res: Vec<LicenseProbe>)
    ensures
        probe_models(res@) == spec_license_probes(file_name@, opt_bytes(*resource_dir)),
{
    let suffixes: Vec<String> = vec![
        String::from_str(file_name),
        prefixed("public/", file_name),
        prefixed("dist/", file_name),
    ];
    let mut res: Vec<LicenseProbe> = Vec::new();
    res.push(
        LicenseProbe {
            kind: ProbeKind::Asset,
            location: String::from_str(file_name),
            path: text_bytes(file_name),
        },
    );
    match resource_dir {
        Some(d) => {
            res.push(file_probe_at(join_bytes(d.as_slice(), suffixes[0].as_str().as_bytes())));
            res.push(file_probe_at(join_bytes(d.as_slice(), suffixes[1].as_str().as_bytes())));
            res.push(file_probe_at(join_bytes(d.as_slice(), suffixes[2].as_str().as_bytes())));
        },
        None => {},
    }
    res.push(file_probe_at(text_bytes(suffixes[0].as_str())));
    res.push(file_probe_at(text_bytes(suffixes[1].as_str())));
    res.push(file_probe_at(text_bytes(suffixes[2].as_str())));
    assert(probe_models(res@) =~= spec_license_probes(file_name@, opt_bytes(*resource_dir)));
    res
}

/// What a probe found: the raw bytes of a bundled asset, or the text of a file.
pub enum LicenseContent {
    Bytes(Vec<u8>),
    Text(String),
}

/// The first place, in order, where `read` yields content, with that
/// content.  Every earlier place was read and yielded nothing; when no place
/// yields content, every place was read.
pub fn first_found<F>(probes: &Vec<LicenseProbe>, read: F) -> (res: Option<(usize, LicenseContent)>)
    where
        F: Fn(&LicenseProbe) -> Option<LicenseContent>,
    requires
        forall|i: int| 0 <= i < probes@.len() ==> read.requires((&probes@[i],)),
    ensures
        match res {
            Some((i, c)) => {
                &&& i < probes@.len()
                &&& read.ensures((&probes@[i as int],), Some(c))
                &&& forall|j: int| 0 <= j < i ==> read.ensures((&probes@[j],), None::<LicenseContent>)
            },
            None => forall|j: int| 0 <= j < probes@.len() ==> read.ensures(
                (&probes@[j],),
                None::<LicenseContent>,
            ),
        },
{
    let mut i: usize = 0;
    while i < probes.len()
        invariant
            i <= probes@.len(),
            forall|j: int| 0 <= j < probes@.len() ==> read.requires((&probes@[j],)),
            forall|j: int| 0 <= j < i ==> read.ensures((&probes@[j],), None::<LicenseContent>),
        decreases probes.len() - i,
    {
        match read(&probes[i]) {
            Some(c) => {
                return Some((i, c));
            },
            None => {},
        }
        i = i + 1;
    }
    None
}

/// The text of found content, or the decoding error's message.
pub open spec fn spec_content_text(c: LicenseContent) -> Result<Seq<char>, Seq<char>> {
    match c {
        LicenseContent::Text(s) => Ok(s@),
        LicenseContent::Bytes(b) => if valid_utf8(b@) {
            Ok(decode_utf8(b@))
        } else {
            Err(spec_utf8_error(b@))
        },
    }
}

/// What reading one found license file gives.
pub enum LoadOutcome {
    /// The license listing fails with this message.
    Failed(Seq<char>),
    /// The file holds an object with these keys and value texts.
    Loaded(Map<Seq<char>, Seq<char>>),
}

/// The outcome of reading the license file `f` from the place `p`, given
/// what was found there.  Messages name a bundled asset by file name and a
/// file on disk by path.
pub open spec fn spec_load_outcome(f: Seq<char>, p: ProbeModel, c: LicenseContent) -> LoadOutcome {
    let bundled = p.kind == ProbeKind::Asset;
    match spec_content_text(c) {
        Err(e) => LoadOutcome::Failed(
            if bundled {
                "Failed to decode bundled "@ + f + ": "@ + e
            } else {
                "Failed to decode "@ + p.location + ": "@ + e
            },
        ),
        Ok(t) => match spec_json_shape(t) {
            JsonShape::Invalid(m) => LoadOutcome::Failed(
                if bundled {
                    "Failed to parse bundled "@ + f + ": "@ + m
                } else {
                    "Failed to parse "@ + p.location + ": "@ + m
                },
            ),
            JsonShape::NotObject => LoadOutcome::Failed(
                if bundled {
                    "Bundled "@ + f + " must be a JSON object"@
                } else {
                    p.location + " must be a JSON object"@
                },
            ),
            JsonShape::Object(c) => LoadOutcome::Loaded(c),
        },
    }
}

/// The labels of the given probes, in order.
pub open spec fn probe_labels(ps: Seq<ProbeModel>) -> Seq<Seq<char>> {
    ps.map_values(|p: ProbeModel| spec_probe_label(p))
}

pub open spec fn string_views(s: Seq<String>) -> Seq<Seq<char>> {
    s.map_values(|x: String| x@)
}

fn concat3(a: &str, b: &str, c: &str) -> (res: String)
    ensures
        res@ == a@ + b@ + c@,
        res@ == a@ + (b@ + c@),
{
    assert(a@ + b@ + c@ =~= a@ + (b@ + c@));
    let mut res = String::from_str(a);
    res.append(b);
    res.append(c);
    res
}

/// Reads the license file `file_name` given its places `probes` and the
/// first place that yielded content, if any.  Every place up to and
/// including that one (or every place, when none did) is added to
/// `attempted`.
pub fn load_license_file(
    file_name: &str,
    probes: &Vec<LicenseProbe>,
    found: Option<(usize, LicenseContent)>,
    attempted: &mut Vec<String>,
) -> (res: Result<Option<JsonObject>, String>)
    requires
        found matches Some((i, _)) ==> i < probes@.len(),
    ensures
        string_views(final(attempted)@) == string_views(old(attempted)@) + probe_labels(
            probe_models(
                match found {
                    Some((i, _)) => probes@.take(i + 1),
                    None => probes@,
                },
            ),
        ),
        match found {
            None => res == Ok::<Option<JsonObject>, String>(None),
            Some((i, c)) => match spec_load_outcome(file_name@, probe_model(probes@[i as int]), c) {
                LoadOutcome::Failed(m) => res matches Err(e) && e@ == m,
                LoadOutcome::Loaded(c) => res matches Ok(Some(m)) && json_map_contents(m) == c,
            },
        },
{
    proof {
        reveal_strlit("");
    }
    let upto = match &found {
        Some((i, _)) => {
            assert(*i < probes.len());
            *i + 1
        },
        None => probes.len(),
    };
    let ghost start = string_views(attempted@);
    let mut k: usize = 0;
    while k < upto
        invariant
            upto <= probes@.len(),
            k <= upto,
            string_views(attempted@) == start + probe_labels(probe_models(probes@.take(k as int))),
        decreases upto - k,
    {
        let label = probes[k].label();
        let ghost before = attempted@;
        attempted.push(label);
        assert(string_views(attempted@) =~= string_views(before).push(label@));
        assert(probe_models(probes@.take(k + 1)) =~= probe_models(probes@.take(k as int)).push(
            probe_model(probes@[k as int]),
        ));
        assert(probe_labels(probe_models(probes@.take(k + 1))) =~= probe_labels(
            probe_models(probes@.take(k as int)),
        ).push(spec_probe_label(probe_model(probes@[k as int]))));
        k = k + 1;
    }
    assert(probes@.take(probes@.len() as int) =~= probes@);
    match found {
        None => Ok(None),
        Some((i, content)) => {
            let probe = &probes[i];
            let bundled = match probe.kind {
                ProbeKind::Asset => true,
                ProbeKind::File => false,
            };
            let text = match content {
                LicenseContent::Text(s) => s,
                LicenseContent::Bytes(b) => match text_from_utf8(b) {
                    Ok(s) => s,
                    Err(e) => {
                        return if bundled {
                            Err(concat3("Failed to decode bundled ", file_name, &concat3(": ", e.as_str(), "")))
                        } else {
                            Err(concat3("Failed to decode ", probe.location.as_str(), &concat3(": ", e.as_str(), "")))
                        };
                    },
                },
            };
            match parse_json_object(text.as_str()) {
                Err(m) => {
                    if bundled {
                        Err(concat3("Failed to parse bundled ", file_name, &concat3(": ", m.as_str(), "")))
                    } else {
                        Err(concat3("Failed to parse ", probe.location.as_str(), &concat3(": ", m.as_str(), "")))
                    }
                },
                Ok(None) => {
                    if bundled {
                        Err(concat3("Bundled ", file_name, " must be a JSON object"))
                    } else {
                        Err(concat3("", probe.location.as_str(), " must be a JSON object"))
                    }
                },
                Ok(Some(entries)) => Ok(Some(entries)),
            }
        },
    }
}

/// `parts` joined with `sep` between consecutive parts.
pub open spec fn join_with(parts: Seq<Seq<char>>, sep: Seq<char>) -> Seq<char>
    decreases parts.len(),
{
    if parts.len() == 0 {
        seq![]
    } else if parts.len() == 1 {
        parts[0]
    } else {
        join_with(parts.drop_last(), sep) + sep + parts.last()
    }
}

fn join_strings(parts: &Vec<String>, sep: &str) -> (res: String)
    ensures
        res@ == join_with(string_views(parts@), sep@),
{
    let mut res = String::new();
    let ghost ps = string_views(parts@);
    let mut i: usize = 0;
    while i < parts.len()
        invariant
            i <= parts@.len(),
            ps == string_views(parts@),
            res@ == join_with(ps.take(i as int), sep@),
        decreases parts.len() - i,
    {
        assert(ps.take(i + 1).drop_last() =~= ps.take(i as int));
        if i > 0 {
            res.append(sep);
        } else {
            assert(ps.take(1) =~= seq![ps[0]]);
            assert(res@ + ps[0] =~= ps[0]);
        }
        res.append(parts[i].as_str());
        i = i + 1;
    }
    assert(ps.take(parts@.len() as int) =~= ps);
    res
}

/// The message when no license file was found anywhere.
pub open spec fn spec_no_license_message(attempted: Seq<Seq<char>>) -> Seq<char> {
    "Failed to read licenses: no license files were found in bundled assets or known paths (tried: "@
        + join_with(attempted, ", "@) + ")"@
}

/// What a loaded file contributes (nothing when it was not found).
pub open spec fn file_map(file: Option<JsonObject>) -> Map<Seq<char>, Seq<char>> {
    match file {
        Some(m) => json_map_contents(m),
        None => Map::empty(),
    }
}

/// The merged license listing: the loaded files' objects in order, each
/// later file's values replacing earlier ones on equal keys.
pub open spec fn merged_licenses(loaded: Seq<Option<JsonObject>>) -> Map<Seq<char>, Seq<char>>
    decreases loaded.len(),
{
    if loaded.len() == 0 {
        Map::empty()
    } else {
        merged_licenses(loaded.drop_last()).union_prefer_right(file_map(loaded.last()))
    }
}

/// The merged listing holds exactly the keys of the loaded files, and each
/// key has the value of the last file that holds it.
pub proof fn lemma_later_license_file_wins(loaded: Seq<Option<JsonObject>>, k: Seq<char>)
    ensures
        merged_licenses(loaded).contains_key(k) <==> exists|i: int|
            0 <= i < loaded.len() && #[trigger] file_map(loaded[i]).contains_key(k),
        forall|i: int|
            0 <= i < loaded.len() && #[trigger] file_map(loaded[i]).contains_key(k) && (forall|j: int|
                i < j < loaded.len() ==> !file_map(loaded[j]).contains_key(k)) ==> merged_licenses(
                loaded,
            )[k] == file_map(loaded[i])[k],
    decreases loaded.len(),
{
    if loaded.len() > 0 {
        let d = loaded.drop_last();
        lemma_later_license_file_wins(d, k);
        let last = loaded.len() - 1;
        assert(loaded[last] == loaded.last());
        assert forall|i: int| 0 <= i < d.len() implies d[i] == loaded[i] by {}
        if merged_licenses(loaded).contains_key(k) {
            if file_map(loaded.last()).contains_key(k) {
                assert(file_map(loaded[last]).contains_key(k));
            } else {
                let i = choose|i: int| 0 <= i < d.len() && #[trigger] file_map(d[i]).contains_key(k);
                assert(file_map(loaded[i]).contains_key(k));
            }
        }
        if exists|i: int| 0 <= i < loaded.len() && #[trigger] file_map(loaded[i]).contains_key(k) {
            let i = choose|i: int| 0 <= i < loaded.len() && #[trigger] file_map(loaded[i]).contains_key(k);
            if i < last {
                assert(file_map(d[i]).contains_key(k));
            }
        }
        assert forall|i: int|
            0 <= i < loaded.len() && #[trigger] file_map(loaded[i]).contains_key(k) && (forall|j: int|
                i < j < loaded.len() ==> !file_map(loaded[j]).contains_key(k)) implies merged_licenses(
            loaded,
        )[k] == file_map(loaded[i])[k] by {
            if i < last {
                assert(!file_map(loaded[last]).contains_key(k));
                assert(file_map(d[i]).contains_key(k));
                assert forall|j: int| i < j < d.len() implies !file_map(d[j]).contains_key(k) by {
                    assert(d[j] == loaded[j]);
                }
            }
        }
    }
}

/// The merged license listing as JSON text: every loaded file's object,
/// later files overriding earlier ones on equal keys.  When no file was
/// loaded, the places looked at are reported instead.
pub fn license_payload(loaded: Vec<Option<JsonObject>>, attempted: &Vec<String>) -> (res: Result<String, String>)
    ensures
        (forall|i: int| 0 <= i < loaded@.len() ==> loaded@[i] is None) ==> (res matches Err(m)
            && m@ == spec_no_license_message(string_views(attempted@))),
        (exists|i: int| 0 <= i < loaded@.len() && loaded@[i] is Some) ==> (res matches Ok(t)
            && t@ == spec_json_object_text(merged_licenses(loaded@))),
{
    let ghost all = loaded@;
    let mut merged = json_map_new();
    let mut any = false;
    let mut queue = into_reversed(loaded);
    let n = queue.len();
    assert(all.take(0) =~= Seq::<Option<JsonObject>>::empty());
    while queue.len() > 0
        invariant
            n == all.len(),
            queue@.len() <= n,
            forall|j: int| 0 <= j < queue@.len() ==> queue@[j] == all[all.len() - 1 - j],
            json_map_contents(merged) == merged_licenses(all.take(n - queue@.len())),
            any == exists|j: int| 0 <= j < n - queue@.len() && all[j] is Some,
        decreases queue.len(),
    {
        let ghost done = (n - queue@.len()) as int;
        let x = queue.pop().unwrap();
        assert(x == all[done]);
        assert(all.take(done + 1).drop_last() =~= all.take(done));
        assert(all.take(done + 1).last() == x);
        match x {
            Some(m) => {
                json_map_extend(&mut merged, m);
                any = true;
            },
            None => {
                assert(merged_licenses(all.take(done)).union_prefer_right(Map::empty()) =~= merged_licenses(
                    all.take(done),
                ));
            },
        }
    }
    assert(all.take(n as int) =~= all);
    if !any {
        let joined = join_strings(attempted, ", ");
        return Err(concat3(
            "Failed to read licenses: no license files were found in bundled assets or known paths (tried: ",
            joined.as_str(),
            ")",
        ));
    }
    Ok(json_map_text(&merged))
}

} // verus!
