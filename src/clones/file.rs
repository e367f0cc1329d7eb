use vstd::prelude::*;

use crate::clones::db::{clone_groups_from_texts, loaded, lists_view, text_lists_view};
use crate::path::{
    absolutize_against, absolutized_against, hash_member, is_absolute, is_absolute_text,
    path_hash, resolve_path, HashedAbsolutePath,
    HashedAbsolutePathSet,
};

verus! {

/// A JSON value as the report loader reads it: numbers are kept as the non-negative
/// integer they hold, if they hold one.
#[derive(Debug)]
pub enum JsonValue {
    Null,
    Bool(bool),
    Number(Option<u64>),
    Str(String),
    Array(Vec<JsonValue>),
    Object(Vec<(String, JsonValue)>),
}

/// Why a duplicate report could not be read.
#[derive(Debug, Clone, Copy, PartialEq, Eq, Structural)]
pub enum ReportError {
    MissingHeader,
    MissingBaseDir,
    BadScannedPath,
    MissingGroups,
    BadGroup,
    MissingFileLen,
    BadFileLen,
    MissingFiles,
    BadFile,
}

/// The value of the first entry of an object with key `key`.
pub open spec fn obj_get(entries: Seq<(String, JsonValue)>, key: Seq<char>) -> Option<JsonValue>
    decreases entries.len(),
{
    if entries.len() == 0 {
        None
    } else if entries[0].0@ == key {
        Some(entries[0].1)
    } else {
        obj_get(entries.drop_first(), key)
    }
}

fn get<'a>(entries: &'a Vec<(String, JsonValue)>, key: &String) -> (r: Option<&'a JsonValue>)
    ensures
        r is Some <==> obj_get(entries@, key@) is Some,
        r is Some ==> *r->Some_0 == obj_get(entries@, key@)->Some_0,
{
    let mut i: usize = 0;
    assert(entries@.skip(0) =~= entries@);
    while i < entries.len()
        invariant
            i <= entries.len(),
            obj_get(entries@, key@) == obj_get(entries@.skip(i as int), key@),
        decreases entries.len() - i,
    {
        assert(entries@.skip(i as int).drop_first() =~= entries@.skip(i + 1));
        assert(entries@.skip(i as int)[0] == entries@[i as int]);
        if entries[i].0 == *key {
            return Some(&entries[i].1);
        }
        i = i + 1;
    }
    None
}

/// The texts of a JSON array of strings; None where an element is not a string.
pub open spec fn strings_of(v: Seq<JsonValue>) -> Option<Seq<String>>
    decreases v.len(),
{
    if v.len() == 0 {
        Some(Seq::empty())
    } else {
        match strings_of(v.drop_last()) {
            Some(prev) => match v.last() {
                JsonValue::Str(s) => Some(prev.push(s)),
                _ => None,
            },
            None => None,
        }
    }
}

fn strings(v: &Vec<JsonValue>) -> (r: Option<Vec<String>>)
    ensures
        r is Some <==> strings_of(v@) is Some,
        r is Some ==> r->Some_0@ == strings_of(v@)->Some_0,
{
    let mut out: Vec<String> = Vec::new();
    let mut i: usize = 0;
    assert(v@.take(0) =~= Seq::<JsonValue>::empty());
    assert(out@ =~= Seq::<String>::empty());
    while i < v.len()
        invariant
            i <= v.len(),
            strings_of(v@.take(i as int)) == Some(out@),
        decreases v.len() - i,
    {
        assert(v@.take(i + 1).drop_last() =~= v@.take(i as int));
        assert(v@.take(i + 1).last() == v@[i as int]);
        match &v[i] {
            JsonValue::Str(s) => {
                out.push(s.clone());
            },
            _ => {
                proof {
                    lemma_strings_of_prefix(v@, i + 1);
                }
                return None;
            },
        }
        i = i + 1;
    }
    assert(v@.take(v.len() as int) =~= v@);
    Some(out)
}

proof fn lemma_strings_of_prefix(v: Seq<JsonValue>, i: int)
    requires
        0 <= i <= v.len(),
        strings_of(v.take(i)) is None,
    ensures
        strings_of(v) is None,
    decreases v.len() - i,
{
    if i < v.len() {
        assert(v.take(i + 1).drop_last() =~= v.take(i));
        lemma_strings_of_prefix(v, i + 1);
    } else {
        assert(v.take(i) =~= v);
    }
}

/// One group of the report: its `file_len` and the texts of its `files`.
pub open spec fn group_of_json(v: JsonValue) -> Result<(u64, Seq<String>), ReportError> {
    match v {
        JsonValue::Object(entries) => match obj_get(entries@, "file_len"@) {
            Some(JsonValue::Number(n)) => match n {
                Some(len) => match obj_get(entries@, "files"@) {
                    Some(JsonValue::Array(files)) => match strings_of(files@) {
                        Some(texts) => Ok((len, texts)),
                        None => Err(ReportError::BadFile),
                    },
                    _ => Err(ReportError::MissingFiles),
                },
                None => Err(ReportError::BadFileLen),
            },
            _ => Err(ReportError::MissingFileLen),
        },
        _ => Err(ReportError::BadGroup),
    }
}

/// The report's groups, or the error of the first group that is not well formed.
pub open spec fn groups_of_json(v: Seq<JsonValue>) -> Result<Seq<(u64, Seq<String>)>, ReportError>
    decreases v.len(),
{
    if v.len() == 0 {
        Ok(Seq::empty())
    } else {
        match groups_of_json(v.drop_last()) {
            Ok(prev) => match group_of_json(v.last()) {
                Ok(g) => Ok(prev.push(g)),
                Err(e) => Err(e),
            },
            Err(e) => Err(e),
        }
    }
}

proof fn lemma_groups_of_json_prefix(v: Seq<JsonValue>, i: int)
    requires
        0 <= i <= v.len(),
        groups_of_json(v.take(i)) is Err,
    ensures
        groups_of_json(v) == groups_of_json(v.take(i)),
    decreases v.len() - i,
{
    if i < v.len() {
        assert(v.take(i + 1).drop_last() =~= v.take(i));
        lemma_groups_of_json_prefix(v, i + 1);
    } else {
        assert(v.take(i) =~= v);
    }
}

fn key(s: &str) -> (r: String)
    ensures
        r@ == s@,
{
    s.to_owned()
}

fn group_from_json(v: &JsonValue) -> (r: Result<(u64, Vec<String>), ReportError>)
    ensures
        r is Ok <==> group_of_json(*v) is Ok,
        r is Ok ==> r->Ok_0.0 == group_of_json(*v)->Ok_0.0 && r->Ok_0.1@ == group_of_json(*v)->Ok_0.1,
        r is Err ==> r->Err_0 == group_of_json(*v)->Err_0,
{
    let entries = match v {
        JsonValue::Object(entries) => entries,
        _ => {
            return Err(ReportError::BadGroup);
        },
    };
    let file_len = match get(entries, &key("file_len")) {
        Some(JsonValue::Number(n)) => match n {
            Some(len) => *len,
            None => {
                return Err(ReportError::BadFileLen);
            },
        },
        _ => {
            return Err(ReportError::MissingFileLen);
        },
    };
    match get(entries, &key("files")) {
        Some(JsonValue::Array(files)) => match strings(files) {
            Some(texts) => Ok((file_len, texts)),
            None => Err(ReportError::BadFile),
        },
        _ => Err(ReportError::MissingFiles),
    }
}

/// The groups listed under `groups`, as (file size, member texts).
fn groups_from_json(v: &Vec<JsonValue>) -> (r: Result<Vec<(u64, Vec<String>)>, ReportError>)
    ensures
        r is Ok <==> groups_of_json(v@) is Ok,
        r is Ok ==> text_lists_view(r->Ok_0@) == groups_of_json(v@)->Ok_0,
        r is Err ==> r->Err_0 == groups_of_json(v@)->Err_0,
{
    let mut out: Vec<(u64, Vec<String>)> = Vec::new();
    let mut i: usize = 0;
    assert(v@.take(0) =~= Seq::<JsonValue>::empty());
    assert(text_lists_view(out@) =~= Seq::<(u64, Seq<String>)>::empty());
    while i < v.len()
        invariant
            i <= v.len(),
            groups_of_json(v@.take(i as int)) == Ok::<Seq<(u64, Seq<String>)>, ReportError>(text_lists_view(out@)),
        decreases v.len() - i,
    {
        assert(v@.take(i + 1).drop_last() =~= v@.take(i as int));
        assert(v@.take(i + 1).last() == v@[i as int]);
        match group_from_json(&v[i]) {
            Ok(g) => {
                let ghost before = out@;
                out.push(g);
                assert(text_lists_view(out@) =~= text_lists_view(before).push((g.0, g.1@)));
            },
            Err(e) => {
                proof {
                    lemma_groups_of_json_prefix(v@, i + 1);
                }
                return Err(e);
            },
        }
        i = i + 1;
    }
    assert(v@.take(v.len() as int) =~= v@);
    Ok(out)
}

/// The scanned directories listed under `header/paths`, resolved against `header/base_dir`;
/// None where the header lists none.
pub open spec fn scanned_of_json(top: Seq<(String, JsonValue)>) -> Result<Option<Seq<String>>, ReportError> {
    match obj_get(top, "header"@) {
        Some(JsonValue::Object(header)) => match obj_get(header@, "paths"@) {
            Some(JsonValue::Array(paths)) => match obj_get(header@, "base_dir"@) {
                Some(JsonValue::Str(_)) => match strings_of(paths@) {
                    Some(texts) => Ok(Some(texts)),
                    None => Err(ReportError::BadScannedPath),
                },
                _ => Err(ReportError::MissingBaseDir),
            },
            _ => Ok(None),
        },
        _ => Err(ReportError::MissingHeader),
    }
}

/// The base directory that the header names, a relative one read from `cwd`.
pub open spec fn scanned_base(top: Seq<(String, JsonValue)>, cwd: Seq<char>) -> Seq<char> {
    match obj_get(top, "header"@) {
        Some(JsonValue::Object(header)) => match obj_get(header@, "base_dir"@) {
            Some(JsonValue::Str(b)) => if is_absolute_text(b@) {
                b@
            } else {
                absolutized_against(b@, cwd)
            },
            _ => Seq::empty(),
        },
        _ => Seq::empty(),
    }
}

/// `q` has the hash of one of the scanned directories, resolved against the base directory.
pub open spec fn resolved_hash(top: Seq<(String, JsonValue)>, cwd: Seq<char>, q: Seq<Seq<char>>) -> bool {
    match scanned_of_json(top) {
        Ok(Some(texts)) => exists|k: int|
            0 <= k < texts.len() && path_hash(q) == path_hash(
                resolve_path((#[trigger] texts[k])@, scanned_base(top, cwd)),
            ),
        _ => false,
    }
}

/// A duplicate report as read from its file: the file's path and its top-level object.
#[derive(Debug)]
pub struct File {
    path: String,
    content: Vec<(String, JsonValue)>,
}

impl File {
    pub closed spec fn spec_content(&self) -> Seq<(String, JsonValue)> {
        self.content@
    }

    pub fn new(path: String, content: Vec<(String, JsonValue)>) -> (r: File)
        ensures
            r.spec_content() == content@,
            r.spec_path() == path@,
    {
        File { path, content }
    }

    pub closed spec fn spec_path(&self) -> Seq<char> {
        self.path@
    }

    /// The path of the report file, for messages.
    pub fn path(&self) -> (r: &String)
        ensures
            r@ == self.spec_path(),
    {
        &self.path
    }

    /// The report's groups read into hashed paths (a relative member read from the absolute
    /// `cwd`), those with fewer than two distinct members left out; fails on the first part
    /// of `groups` that is missing or of the wrong kind.
    pub fn clone_groups(&self, cwd: &str) -> (r: Result<Vec<(u64, Vec<HashedAbsolutePath>)>, ReportError>)
        requires
            is_absolute_text(cwd@),
        ensures
            r is Err <==> (match obj_get(self.spec_content(), "groups"@) {
                Some(JsonValue::Array(groups)) => groups_of_json(groups@) is Err,
                _ => true,
            }),
            r is Err ==> r->Err_0 == match obj_get(self.spec_content(), "groups"@) {
                Some(JsonValue::Array(groups)) => groups_of_json(groups@)->Err_0,
                _ => ReportError::MissingGroups,
            },
            r is Ok ==> exists|groups: Vec<JsonValue>|
                obj_get(self.spec_content(), "groups"@) == Some(JsonValue::Array(groups))
                    && lists_view(r->Ok_0@) == loaded(groups_of_json(groups@)->Ok_0, cwd@),
    {
        match get(&self.content, &key("groups")) {
            Some(JsonValue::Array(groups)) => match groups_from_json(groups) {
                Ok(texts) => Ok(clone_groups_from_texts(&texts, cwd)),
                Err(e) => Err(e),
            },
            _ => Err(ReportError::MissingGroups),
        }
    }

    /// The scanned directories of the header, resolved against its base directory (a
    /// relative one read from the absolute `cwd`); None where it lists none.
    pub fn scanned_paths(&self, cwd: &str) -> (r: Result<Option<HashedAbsolutePathSet>, ReportError>)
        requires
            is_absolute_text(cwd@),
        ensures
            r is Ok <==> scanned_of_json(self.spec_content()) is Ok,
            r is Err ==> r->Err_0 == scanned_of_json(self.spec_content())->Err_0,
            r is Ok ==> (r->Ok_0 is None <==> scanned_of_json(self.spec_content())->Ok_0 is None),
            r is Ok && r->Ok_0 is Some ==> forall|q: Seq<Seq<char>>|
                hash_member(r->Ok_0->Some_0@, q) <==> resolved_hash(self.spec_content(), cwd@, q),
    {
        let header = match get(&self.content, &key("header")) {
            Some(JsonValue::Object(header)) => header,
            _ => {
                return Err(ReportError::MissingHeader);
            },
        };
        let paths = match get(header, &key("paths")) {
            Some(JsonValue::Array(paths)) => paths,
            _ => {
                return Ok(None);
            },
        };
        let base_dir = match get(header, &key("base_dir")) {
            Some(JsonValue::Str(base_dir)) => base_dir,
            _ => {
                return Err(ReportError::MissingBaseDir);
            },
        };
        let base_dir: String = if is_absolute(base_dir.as_str()) {
            base_dir.clone()
        } else {
            absolutize_against(base_dir.as_str(), cwd)
        };
        let texts = match strings(paths) {
            Some(texts) => texts,
            None => {
                return Err(ReportError::BadScannedPath);
            },
        };
        let ghost base = base_dir@;
        let ghost tv = texts@;
        proof {
            assert(scanned_base(self.spec_content(), cwd@) == base);
            assert(scanned_of_json(self.spec_content())->Ok_0->Some_0 == tv);
        }
        let mut set = HashedAbsolutePathSet::new();
        let mut i: usize = 0;
        while i < texts.len()
            invariant
                i <= texts.len(),
                tv == texts@,
                base == base_dir@,
                is_absolute_text(base),
                forall|q: Seq<Seq<char>>|
                    hash_member(set@, q) <==> exists|k: int|
                        0 <= k < i && path_hash(q) == path_hash(
                            resolve_path((#[trigger] tv[k])@, base),
                        ),
            decreases texts.len() - i,
        {
            let p = HashedAbsolutePath::from_text_against(texts[i].as_str(), base_dir.as_str());
            let ghost pv = p@;
            let ghost before = set@;
            set.insert(p);
            proof {
                assert forall|q: Seq<Seq<char>>|
                    hash_member(set@, q) <==> exists|k: int|
                        0 <= k < i + 1 && path_hash(q) == path_hash(
                            resolve_path((#[trigger] tv[k])@, base),
                        ) by {
                    if path_hash(q) == path_hash(pv) {
                        assert(path_hash(q) == path_hash(resolve_path(tv[i as int]@, base)));
                    }
                    if exists|k: int|
                        0 <= k < i + 1 && path_hash(q) == path_hash(
                            resolve_path((#[trigger] tv[k])@, base),
                        ) {
                        let k = choose|k: int|
                            0 <= k < i + 1 && path_hash(q) == path_hash(
                                resolve_path((#[trigger] tv[k])@, base),
                            );
                        if k == i {
                            assert(path_hash(q) == path_hash(pv));
                        }
                    }
                }
            }
            i = i + 1;
        }
        Ok(Some(set))
    }
}

} // verus!
