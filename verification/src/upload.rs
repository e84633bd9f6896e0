//! The upload pipeline's decisions: which multipart parts matter, what title
//! and description a request carries, what extension the stored file gets, and
//! when the whole request is rejected. The caller decodes the multipart stream
//! into [`UploadPart`]s, and performs the file write that a returned
//! [`UploadPlan`] asks for before appending the plan's record to the store.

use vstd::prelude::*;
use crate::record::ImageMeta;
use crate::record::ImageMetaView;
use crate::text::chars_of;
use crate::text::chars_to_string;
use crate::text::decode_utf8;
use crate::text::sub_vec;

verus! {

/// One decoded multipart part: its field name, the client-supplied filename if
/// the part carried one, and its raw bytes.
pub struct UploadPart {
    pub name: String,
    pub filename: Option<String>,
    pub data: Vec<u8>,
}

/// Mathematical view of an [`UploadPart`].
pub struct UploadPartView {
    pub name: Seq<char>,
    pub filename: Option<Seq<char>>,
    pub data: Seq<u8>,
}

impl View for UploadPart {
    type V = UploadPartView;

    open spec fn view(&self) -> UploadPartView {
        UploadPartView {
            name: self.name@,
            filename: (match self.filename {
                Some(f) => Some(f@),
                None => None,
            }),
            data: self.data@,
        }
    }
}

impl DeepView for UploadPart {
    type V = UploadPartView;

    open spec fn deep_view(&self) -> UploadPartView {
        self@
    }
}

/// Why an upload request was rejected.
#[derive(Debug)]
pub enum UploadError {
    /// No part named `file` was present: there is nothing to store.
    MissingFile,
}

/// What a successful upload decodes to: the file to create in the upload
/// directory, its bytes, and the metadata record to append to the store.
pub struct UploadPlan {
    pub file_name: String,
    pub file_data: Vec<u8>,
    pub record: ImageMeta,
}

/// Mathematical view of an [`UploadPlan`].
pub struct UploadPlanView {
    pub file_name: Seq<char>,
    pub file_data: Seq<u8>,
    pub record: ImageMetaView,
}

impl View for UploadPlan {
    type V = UploadPlanView;

    open spec fn view(&self) -> UploadPlanView {
        UploadPlanView {
            file_name: self.file_name@,
            file_data: self.file_data@,
            record: self.record@,
        }
    }
}

/// The view of an optional string.
pub open spec fn opt_str_view(o: Option<String>) -> Option<Seq<char>> {
    match o {
        Some(f) => Some(f@),
        None => None,
    }
}

/// The last part carrying the given field name; later parts win, as when the
/// same field is submitted twice.
pub open spec fn last_named(parts: Seq<UploadPartView>, name: Seq<char>) -> Option<UploadPartView>
    decreases parts.len(),
{
    if parts.len() == 0 {
        None
    } else if parts.last().name == name {
        Some(parts.last())
    } else {
        last_named(parts.drop_last(), name)
    }
}

/// The part the stored file comes from.
pub open spec fn file_part(parts: Seq<UploadPartView>) -> Option<UploadPartView> {
    last_named(parts, "file"@)
}

/// Whether the request carries a `file` part at all.
pub open spec fn has_file_part(parts: Seq<UploadPartView>) -> bool {
    file_part(parts) is Some
}

/// The text of the named field: its bytes decoded as UTF-8, the empty string
/// when the field is absent or not valid text.
pub open spec fn field_text(parts: Seq<UploadPartView>, name: Seq<char>) -> Seq<char> {
    match last_named(parts, name) {
        None => Seq::empty(),
        Some(p) => if vstd::utf8::valid_utf8(p.data) {
            vstd::utf8::decode_utf8(p.data)
        } else {
            Seq::empty()
        },
    }
}

/// Index of the last occurrence of `c` in `s`, `-1` if there is none.
pub open spec fn last_index_of(s: Seq<char>, c: char) -> int
    decreases s.len(),
{
    if s.len() == 0 {
        -1
    } else if s.last() == c {
        s.len() - 1
    } else {
        last_index_of(s.drop_last(), c)
    }
}

/// `last_index_of` names a position of `s`, or `-1`.
pub proof fn lemma_last_index_of_bounds(s: Seq<char>, c: char)
    ensures
        -1 <= last_index_of(s, c) < s.len() || (s.len() == 0 && last_index_of(s, c) == -1),
        -1 <= last_index_of(s, c),
        last_index_of(s, c) < s.len() || s.len() == 0,
    decreases s.len(),
{
    if s.len() > 0 && s.last() != c {
        lemma_last_index_of_bounds(s.drop_last(), c);
    }
}

/// The final path component of a client-supplied filename.
pub open spec fn spec_base_name(f: Seq<char>) -> Seq<char> {
    f.subrange(last_index_of(f, '/') + 1, f.len() as int)
}

/// Whether the filename has an extension: a dot in its final component,
/// somewhere past the first character (a name that is nothing but a leading
/// dot stays extensionless, as hidden files do, and so does the parent-dir
/// component `..`).
pub open spec fn spec_has_extension(f: Seq<char>) -> bool {
    last_index_of(spec_base_name(f), '.') > 0 && spec_base_name(f) != ".."@
}

/// The stored file's extension: what follows the last dot of the filename's
/// final component, or `jpg` when the filename is absent or extensionless.
pub open spec fn spec_extension(filename: Option<Seq<char>>) -> Seq<char> {
    match filename {
        None => "jpg"@,
        Some(f) => if spec_has_extension(f) {
            let b = spec_base_name(f);
            b.subrange(last_index_of(b, '.') + 1, b.len() as int)
        } else {
            "jpg"@
        },
    }
}

/// Exec mirror of [`last_index_of`], as an optional index.
fn last_index_of_x(v: &Vec<char>, c: char) -> (r: Option<usize>)
    ensures
        (match r {
            Some(k) => last_index_of(v@, c) == k as int,
            None => last_index_of(v@, c) == -1,
        }),
{
    let mut i: usize = v.len();
    assert(v@.take(v@.len() as int) =~= v@);
    while i > 0
        invariant
            i <= v@.len(),
            last_index_of(v@, c) == last_index_of(v@.take(i as int), c),
        decreases i,
    {
        if v[i - 1] == c {
            assert(v@.take(i as int).last() == v@[i - 1]);
            return Some(i - 1);
        }
        assert(v@.take(i as int).drop_last() =~= v@.take(i - 1 as int));
        i = i - 1;
    }
    assert(v@.take(0) =~= Seq::<char>::empty());
    None
}

/// The extension the stored file gets, per [`spec_extension`].
pub fn extension_of(filename: &Option<String>) -> (e: String)
    ensures
        e@ == spec_extension(opt_str_view(*filename)),
{
    match filename {
        None => String::from_str("jpg"),
        Some(f) => {
            let cs = chars_of(f.as_str());
            proof {
                lemma_last_index_of_bounds(cs@, '/');
            }
            let base_start: usize = match last_index_of_x(&cs, '/') {
                Some(k) => k + 1,
                None => 0,
            };
            let base = sub_vec(&cs, base_start, cs.len());
            assert(base@ == spec_base_name(f@));
            proof {
                lemma_last_index_of_bounds(base@, '.');
            }
            let dotdot = base.len() == 2 && base[0] == '.' && base[1] == '.';
            proof {
                reveal_strlit("..");
                if dotdot {
                    assert(base@ =~= ".."@);
                } else if base@.len() == 2 {
                    assert(base@ != ".."@) by {
                        if base@ == ".."@ {
                            assert(base@[0] == '.' && base@[1] == '.');
                        }
                    }
                }
            }
            match last_index_of_x(&base, '.') {
                Some(d) => {
                    if d > 0 && !dotdot {
                        chars_to_string(&sub_vec(&base, d + 1, base.len()))
                    } else {
                        String::from_str("jpg")
                    }
                },
                None => String::from_str("jpg"),
            }
        },
    }
}

/// Index of the last part named `key`, consistent with [`last_named`].
fn find_last_named(parts: &Vec<UploadPart>, key: &String) -> (r: Option<usize>)
    ensures
        (match r {
            Some(i) => i < parts@.len() && last_named(parts.deep_view(), key@) == Some(
                parts.deep_view()[i as int],
            ),
            None => last_named(parts.deep_view(), key@) is None,
        }),
{
    let ghost dv = parts.deep_view();
    proof {
        assert(forall|q: int| 0 <= q < parts@.len() ==> dv[q] == #[trigger] parts@[q].deep_view());
        assert(dv.take(dv.len() as int) =~= dv);
    }
    let mut i: usize = parts.len();
    while i > 0
        invariant
            dv == parts.deep_view(),
            dv.len() == parts@.len(),
            forall|q: int| 0 <= q < parts@.len() ==> dv[q] == #[trigger] parts@[q].deep_view(),
            i <= parts@.len(),
            last_named(dv, key@) == last_named(dv.take(i as int), key@),
        decreases i,
    {
        if parts[i - 1].name.eq(key) {
            assert(dv.take(i as int).last() == dv[i - 1]);
            return Some(i - 1);
        }
        assert(dv.take(i as int).last() == dv[i - 1]);
        assert(dv.take(i as int).drop_last() =~= dv.take(i - 1 as int));
        i = i - 1;
    }
    assert(dv.take(0) =~= Seq::<UploadPartView>::empty());
    None
}

/// The text of the named field, per [`field_text`].
fn decode_field(parts: &Vec<UploadPart>, key: &String) -> (t: String)
    ensures
        t@ == field_text(parts.deep_view(), key@),
{
    match find_last_named(parts, key) {
        None => String::new(),
        Some(i) => match decode_utf8(&parts[i].data) {
            Some(s) => s,
            None => String::new(),
        },
    }
}

/// The exact relation between a request's parts, the random token the stored
/// filename was built from, and the resulting plan.
pub open spec fn plan_matches(
    parts: Seq<UploadPartView>,
    token: Seq<char>,
    plan: UploadPlanView,
) -> bool {
    &&& has_file_part(parts)
    &&& plan.file_name == token + "."@ + spec_extension(file_part(parts).unwrap().filename)
    &&& plan.file_data == file_part(parts).unwrap().data
    &&& plan.record.path == "/uploads/"@ + plan.file_name
    &&& plan.record.title == field_text(parts, "title"@)
    &&& plan.record.description == field_text(parts, "description"@)
}

/// Decode a request's parts into an upload plan, the stored filename built
/// from the given token. Verified for every token value; the public entry
/// point [`plan_upload`] supplies a fresh random one.
pub fn plan_upload_with(parts: Vec<UploadPart>, token: String) -> (r: Result<
    UploadPlan,
    UploadError,
>)
    ensures
        (match r {
            Ok(plan) => plan_matches(parts.deep_view(), token@, plan@),
            Err(e) => e == UploadError::MissingFile && !has_file_part(parts.deep_view()),
        }),
{
    let ghost pdv = parts.deep_view();
    let file_key = String::from_str("file");
    match find_last_named(&parts, &file_key) {
        None => Err(UploadError::MissingFile),
        Some(i) => {
            let title_key = String::from_str("title");
            let desc_key = String::from_str("description");
            let title = decode_field(&parts, &title_key);
            let description = decode_field(&parts, &desc_key);
            let mut parts = parts;
            let fp = parts.remove(i);
            assert(fp@ == pdv[i as int]);
            let ext = extension_of(&fp.filename);
            let file_name = token.concat(".").concat(ext.as_str());
            let path = String::from_str("/uploads/").concat(file_name.as_str());
            let record = ImageMeta::new(path, title, description);
            Ok(UploadPlan { file_name, file_data: fp.data, record })
        },
    }
}

/// Relies on `uuid::Uuid::new_v4` and its hyphenated `Display` form: a random
/// version-4 UUID printed as 36 characters. Nothing else is assumed of the
/// token — in particular not its value, which is random. Should the operating
/// system's randomness source itself fail, the call aborts the process, an
/// environmental failure on a par with running out of memory.
#[verifier::external_body]
fn fresh_token() -> (t: String)
    ensures
        t@.len() == 36,
{
    uuid::Uuid::new_v4().to_string()
}

/// Decode a request's parts into an upload plan, the stored filename built
/// from a fresh random token: rejected exactly when no `file` part is present,
/// before any store mutation.
pub fn plan_upload(parts: Vec<UploadPart>) -> (r: Result<UploadPlan, UploadError>)
    ensures
        (match r {
            Ok(plan) => exists|token: Seq<char>|
                token.len() == 36 && plan_matches(parts.deep_view(), token, plan@),
            Err(e) => e == UploadError::MissingFile && !has_file_part(parts.deep_view()),
        }),
{
    let ghost pdv = parts.deep_view();
    let token = fresh_token();
    let ghost t = token@;
    let r = plan_upload_with(parts, token);
    proof {
        if r is Ok {
            assert(t.len() == 36 && plan_matches(pdv, t, r->Ok_0@));
        }
    }
    r
}

/// Missing file rejection: a request whose parts are all metadata fields — no
/// part named `file` — has no file part, so the pipeline fails it before any
/// mutation.
pub proof fn lemma_missing_file_rejected(parts: Seq<UploadPartView>)
    requires
        forall|i: int| 0 <= i < parts.len() ==> parts[i].name != "file"@,
    ensures
        !has_file_part(parts),
    decreases parts.len(),
{
    if parts.len() > 0 {
        assert(parts.last().name != "file"@);
        lemma_missing_file_rejected(parts.drop_last());
    }
}

/// Default extension: when the file part carries no filename, or one without
/// an extension, the stored path ends in `.jpg`.
pub proof fn lemma_default_extension(
    parts: Seq<UploadPartView>,
    token: Seq<char>,
    plan: UploadPlanView,
)
    requires
        plan_matches(parts, token, plan),
        (match file_part(parts).unwrap().filename {
            None => true,
            Some(f) => !spec_has_extension(f),
        }),
    ensures
        plan.record.path.len() > 4,
        plan.record.path.subrange(
            plan.record.path.len() - 4,
            plan.record.path.len() as int,
        ) == ".jpg"@,
{
    reveal_strlit(".jpg");
    reveal_strlit("jpg");
    reveal_strlit(".");
    reveal_strlit("/uploads/");
    assert(spec_extension(file_part(parts).unwrap().filename) == "jpg"@);
    let p = plan.record.path;
    assert(p =~= "/uploads/"@ + token + "."@ + "jpg"@);
    assert(p.subrange(p.len() - 4, p.len() as int) =~= ".jpg"@);
}

} // verus!
