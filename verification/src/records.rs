//! Key records and the pure collection operations on them.
//!
//! A collection is an ordered sequence of records; insertion order is
//! preserved. Records are identified by `id`; names must be unique
//! case-insensitively and key contents must be unique by trimmed exact
//! match. Merging two collections deduplicates by `id` alone.

use vstd::prelude::*;
use vstd::pervasive::VecAdditionalExecFns;
use crate::KeyStoreError;

verus! {

/// The mathematical value of a key record.
pub struct SshKeyView {
    pub id: Seq<char>,
    pub name: Seq<char>,
    pub tag: Option<Seq<char>>,
    pub key: Seq<char>,
    pub key_type: Seq<char>,
    pub created: int,
    pub last_modified: int,
}

/// One stored SSH key record. Timestamps are UTC milliseconds.
#[derive(Debug)]
pub struct SshKey {
    pub id: String,
    pub name: String,
    pub tag: Option<String>,
    pub key: String,
    pub key_type: String,
    pub created: i64,
    pub last_modified: i64,
}

impl View for SshKey {
    type V = SshKeyView;

    open spec fn view(&self) -> SshKeyView {
        SshKeyView {
            id: self.id@,
            name: self.name@,
            tag: match self.tag {
                Some(t) => Some(t@),
                None => None,
            },
            key: self.key@,
            key_type: self.key_type@,
            created: self.created as int,
            last_modified: self.last_modified as int,
        }
    }
}

impl Clone for SshKey {
    fn clone(&self) -> (r: Self)
        ensures
            r == *self,
    {
        SshKey {
            id: self.id.clone(),
            name: self.name.clone(),
            tag: match &self.tag {
                Some(t) => Some(t.clone()),
                None => None,
            },
            key: self.key.clone(),
            key_type: self.key_type.clone(),
            created: self.created,
            last_modified: self.last_modified,
        }
    }
}

/// A partial update: `None` fields are left as they are.
pub struct SshKeyUpdate {
    pub name: Option<String>,
    pub tag: Option<String>,
    pub key: Option<String>,
}

/// The mathematical value of a partial update.
pub struct SshKeyUpdateView {
    pub name: Option<Seq<char>>,
    pub tag: Option<Seq<char>>,
    pub key: Option<Seq<char>>,
}

impl View for SshKeyUpdate {
    type V = SshKeyUpdateView;

    open spec fn view(&self) -> SshKeyUpdateView {
        SshKeyUpdateView {
            name: match self.name {
                Some(t) => Some(t@),
                None => None,
            },
            tag: match self.tag {
                Some(t) => Some(t@),
                None => None,
            },
            key: match self.key {
                Some(t) => Some(t@),
                None => None,
            },
        }
    }
}

/// A location that was scanned for public key files.
pub struct SshKeyLocation {
    pub path: String,
    pub exists: bool,
    pub keys: Vec<String>,
}

/// The outcome of importing a collection into the store.
#[derive(Debug)]
pub struct ImportResult {
    pub keys: Vec<SshKey>,
    pub imported_count: usize,
    pub duplicate_count: usize,
    pub total_in_store: usize,
}

/// The character sequence that `str::trim` leaves of `s`.
pub uninterp spec fn trim_of(s: Seq<char>) -> Seq<char>;

/// The character sequence that `str::to_lowercase` makes of `s`.
pub uninterp spec fn lower_of(s: Seq<char>) -> Seq<char>;

/// Relies on `str::trim`: the input without leading and trailing
/// whitespace, so trimming its result changes nothing.
#[verifier::external_body]
fn trim_str(s: &str) -> (r: String)
    ensures
        r@ == trim_of(s@),
        trim_of(r@) == r@,
{
    s.trim().to_string()
}

/// Relies on `str::to_lowercase`: the result depends on the characters
/// alone.
#[verifier::external_body]
fn lower_str(s: &str) -> (r: String)
    ensures
        r@ == lower_of(s@),
{
    s.to_lowercase()
}

/// Relies on `uuid::Uuid::new_v4` and its hyphenated text form: a random
/// identifier, of which nothing is assumed.
#[verifier::external_body]
fn new_uuid() -> (r: String) {
    uuid::Uuid::new_v4().to_string()
}

/// Relies on `chrono::Utc::now` (`timestamp_millis`): the clock, of which
/// nothing is assumed.
#[verifier::external_body]
fn now_millis() -> (r: i64) {
    chrono::Utc::now().timestamp_millis()
}

/// Copy every record of `keys` into a fresh vector.
pub fn clone_keys(keys: &Vec<SshKey>) -> (r: Vec<SshKey>)
    ensures
        r@ == keys@,
{
    let mut r: Vec<SshKey> = Vec::new();
    let mut i: usize = 0;
    while i < keys.len()
        invariant
            i <= keys@.len(),
            r@ =~= keys@.take(i as int),
        decreases keys@.len() - i,
    {
        r.push(keys[i].clone());
        assert(r@ =~= keys@.take((i + 1) as int));
        i = i + 1;
    }
    proof {
        assert(keys@.take(keys@.len() as int) =~= keys@);
    }
    r
}

/// `needle` occurs in `hay` starting at position `i`.
pub open spec fn contains_at(hay: Seq<char>, needle: Seq<char>, i: int) -> bool {
    0 <= i && i + needle.len() <= hay.len() && hay.subrange(i, i + needle.len()) == needle
}

/// `needle` occurs somewhere in `hay`.
pub open spec fn contains_seq(hay: Seq<char>, needle: Seq<char>) -> bool {
    exists|i: int| contains_at(hay, needle, i)
}

/// The characters of `s`, as a vector.
fn str_chars(s: &str) -> (r: Vec<char>)
    ensures
        r@ == s@,
{
    let n = s.unicode_len();
    let mut r: Vec<char> = Vec::new();
    let mut i: usize = 0;
    while i < n
        invariant
            i <= n,
            n == s@.len(),
            r@ =~= s@.take(i as int),
        decreases n - i,
    {
        r.push(s.get_char(i));
        assert(r@ =~= s@.take((i + 1) as int));
        i = i + 1;
    }
    proof {
        assert(s@.take(n as int) =~= s@);
    }
    r
}

/// Substring search over character vectors.
fn contains_chars(hay: &Vec<char>, needle: &Vec<char>) -> (r: bool)
    ensures
        r == contains_seq(hay@, needle@),
{
    let m = needle.len();
    let n = hay.len();
    if m == 0 {
        proof {
            assert(hay@.subrange(0, 0) =~= needle@);
            assert(contains_at(hay@, needle@, 0));
        }
        return true;
    }
    if m > n {
        proof {
            assert forall|i: int| !contains_at(hay@, needle@, i) by {}
        }
        return false;
    }
    let mut i: usize = 0;
    while i <= n - m
        invariant
            m == needle@.len(),
            n == hay@.len(),
            m <= n,
            1 <= m,
            i <= n - m + 1,
            forall|ii: int| 0 <= ii < i ==> !contains_at(hay@, needle@, ii),
        decreases n - i,
    {
        let mut j: usize = 0;
        let mut matches_here = true;
        while j < m
            invariant
                m == needle@.len(),
                n == hay@.len(),
                i + m <= n,
                j <= m,
                matches_here ==> hay@.subrange(i as int, i + j) =~= needle@.take(j as int),
                !matches_here ==> !contains_at(hay@, needle@, i as int),
            decreases m - j,
        {
            if hay[i + j] != needle[j] {
                proof {
                    if contains_at(hay@, needle@, i as int) {
                        assert(hay@.subrange(i as int, i + m)[j as int] == needle@[j as int]);
                    }
                }
                matches_here = false;
                j = m;
            } else {
                proof {
                    if matches_here {
                        assert(hay@.subrange(i as int, i + j + 1) =~= hay@.subrange(
                            i as int,
                            i + j,
                        ).push(hay@[i + j]));
                        assert(needle@.take(j + 1) =~= needle@.take(j as int).push(
                            needle@[j as int],
                        ));
                    }
                }
                j = j + 1;
            }
        }
        if matches_here {
            proof {
                assert(needle@.take(m as int) =~= needle@);
                assert(contains_at(hay@, needle@, i as int));
            }
            return true;
        }
        i = i + 1;
    }
    proof {
        assert forall|ii: int| !contains_at(hay@, needle@, ii) by {
            if 0 <= ii && ii + needle@.len() <= hay@.len() {
                assert(ii < i);
            }
        }
    }
    false
}

/// The classification that the store derives from key content, by
/// substring match.
pub open spec fn spec_detect_key_type(s: Seq<char>) -> Seq<char> {
    if contains_seq(s, "ssh-rsa"@) {
        "rsa"@
    } else if contains_seq(s, "ssh-dss"@) {
        "dsa"@
    } else if contains_seq(s, "ecdsa-"@) {
        "ecdsa"@
    } else if contains_seq(s, "ssh-ed25519"@) {
        "ed25519"@
    } else {
        "unknown"@
    }
}

/// Detect the SSH key type from the key content.
pub fn detect_key_type(key_content: &str) -> (r: String)
    ensures
        r@ == spec_detect_key_type(key_content@),
{
    let hay = str_chars(key_content);
    if contains_chars(&hay, &str_chars("ssh-rsa")) {
        String::from_str("rsa")
    } else if contains_chars(&hay, &str_chars("ssh-dss")) {
        String::from_str("dsa")
    } else if contains_chars(&hay, &str_chars("ecdsa-")) {
        String::from_str("ecdsa")
    } else if contains_chars(&hay, &str_chars("ssh-ed25519")) {
        String::from_str("ed25519")
    } else {
        String::from_str("unknown")
    }
}

/// Some record in `c` has this `id`.
pub open spec fn has_id(c: Seq<SshKey>, id: Seq<char>) -> bool {
    exists|i: int| 0 <= i < c.len() && c[i]@.id == id
}

/// Some record in `c` has this key content, by trimmed exact match.
pub open spec fn content_dup(c: Seq<SshKey>, content: Seq<char>) -> bool {
    exists|i: int| 0 <= i < c.len() && trim_of(c[i]@.key) == trim_of(content)
}

/// Some record in `c` has this name, compared case-insensitively after
/// trimming.
pub open spec fn name_dup(c: Seq<SshKey>, name: Seq<char>) -> bool {
    exists|i: int|
        0 <= i < c.len() && lower_of(trim_of(c[i]@.name)) == lower_of(trim_of(name))
}

/// Like [`content_dup`], ignoring records whose id is `id`.
pub open spec fn content_dup_except(c: Seq<SshKey>, content: Seq<char>, id: Seq<char>) -> bool {
    exists|i: int|
        0 <= i < c.len() && c[i]@.id != id && trim_of(c[i]@.key) == trim_of(content)
}

/// Like [`name_dup`], ignoring records whose id is `id`.
pub open spec fn name_dup_except(c: Seq<SshKey>, name: Seq<char>, id: Seq<char>) -> bool {
    exists|i: int|
        0 <= i < c.len() && c[i]@.id != id && lower_of(trim_of(c[i]@.name)) == lower_of(
            trim_of(name),
        )
}

fn has_id_exec(keys: &Vec<SshKey>, id: &String) -> (r: bool)
    ensures
        r == has_id(keys@, id@),
{
    let mut i: usize = 0;
    while i < keys.len()
        invariant
            i <= keys@.len(),
            forall|j: int| 0 <= j < i ==> keys@[j]@.id != id@,
        decreases keys@.len() - i,
    {
        if keys[i].id.eq(id) {
            return true;
        }
        i = i + 1;
    }
    false
}

fn has_content_dup(keys: &Vec<SshKey>, content: &str, except: Option<&String>) -> (r: bool)
    ensures
        except is None ==> r == content_dup(keys@, content@),
        except matches Some(id) ==> r == content_dup_except(keys@, content@, id@),
{
    let t = trim_str(content);
    let mut i: usize = 0;
    while i < keys.len()
        invariant
            i <= keys@.len(),
            t@ == trim_of(content@),
            forall|j: int|
                0 <= j < i && (except is None || keys@[j]@.id != except->0@) ==> trim_of(
                    keys@[j]@.key,
                ) != trim_of(content@),
        decreases keys@.len() - i,
    {
        let skip = match except {
            Some(id) => keys[i].id.eq(id),
            None => false,
        };
        if !skip {
            let kt = trim_str(keys[i].key.as_str());
            if kt.eq(&t) {
                return true;
            }
        }
        i = i + 1;
    }
    false
}

fn has_name_dup(keys: &Vec<SshKey>, name: &str, except: Option<&String>) -> (r: bool)
    ensures
        except is None ==> r == name_dup(keys@, name@),
        except matches Some(id) ==> r == name_dup_except(keys@, name@, id@),
{
    let trimmed = trim_str(name);
    let t = lower_str(trimmed.as_str());
    let mut i: usize = 0;
    while i < keys.len()
        invariant
            i <= keys@.len(),
            t@ == lower_of(trim_of(name@)),
            forall|j: int|
                0 <= j < i && (except is None || keys@[j]@.id != except->0@) ==> lower_of(
                    trim_of(keys@[j]@.name),
                ) != lower_of(trim_of(name@)),
        decreases keys@.len() - i,
    {
        let skip = match except {
            Some(id) => keys[i].id.eq(id),
            None => false,
        };
        if !skip {
            let ktrim = trim_str(keys[i].name.as_str());
            let kt = lower_str(ktrim.as_str());
            if kt.eq(&t) {
                return true;
            }
        }
        i = i + 1;
    }
    false
}

/// Add a record built from the given parts to a copy of `keys`.
///
/// Content duplicates are rejected before name duplicates, both
/// independently of record identity. On success the new record is
/// appended; its key content is stored trimmed, its type derived from
/// the trimmed content, and both timestamps are `now`.
pub fn add_record(
    keys: &Vec<SshKey>,
    id: String,
    now: i64,
    name: String,
    tag: Option<String>,
    key_content: &str,
) -> (r: Result<(Vec<SshKey>, SshKey), KeyStoreError>)
    ensures
        r == Err::<(Vec<SshKey>, SshKey), KeyStoreError>(KeyStoreError::DuplicateContent)
            <==> content_dup(keys@, key_content@),
        r == Err::<(Vec<SshKey>, SshKey), KeyStoreError>(KeyStoreError::DuplicateName)
            <==> (!content_dup(keys@, key_content@) && name_dup(keys@, name@)),
        r is Ok <==> (!content_dup(keys@, key_content@) && !name_dup(keys@, name@)),
        r matches Ok(p) ==> ({
            &&& p.0@ == keys@.push(p.1)
            &&& p.1.id == id
            &&& p.1.name == name
            &&& p.1.tag == tag
            &&& p.1.key@ == trim_of(key_content@)
            &&& trim_of(p.1.key@) == p.1.key@
            &&& p.1.key_type@ == spec_detect_key_type(trim_of(key_content@))
            &&& p.1.created == now
            &&& p.1.last_modified == now
        }),
{
    if has_content_dup(keys, key_content, None) {
        return Err(KeyStoreError::DuplicateContent);
    }
    if has_name_dup(keys, name.as_str(), None) {
        return Err(KeyStoreError::DuplicateName);
    }
    let trimmed = trim_str(key_content);
    let key_type = detect_key_type(trimmed.as_str());
    let rec = SshKey {
        id,
        name,
        tag,
        key: trimmed,
        key_type,
        created: now,
        last_modified: now,
    };
    let mut out = clone_keys(keys);
    out.push(rec.clone());
    proof {
        assert(out@ =~= keys@.push(rec));
    }
    Ok((out, rec))
}

/// Add a record with a fresh random id and the current time.
///
/// The duplicate checks and the shape of the result are exactly those of
/// [`add_record`]; only the id and the timestamps are drawn here.
pub fn add_ssh_key(
    keys: &Vec<SshKey>,
    name: String,
    tag: Option<String>,
    key_content: &str,
) -> (r: Result<(Vec<SshKey>, SshKey), KeyStoreError>)
    ensures
        r == Err::<(Vec<SshKey>, SshKey), KeyStoreError>(KeyStoreError::DuplicateContent)
            <==> content_dup(keys@, key_content@),
        r == Err::<(Vec<SshKey>, SshKey), KeyStoreError>(KeyStoreError::DuplicateName)
            <==> (!content_dup(keys@, key_content@) && name_dup(keys@, name@)),
        r is Ok <==> (!content_dup(keys@, key_content@) && !name_dup(keys@, name@)),
        r matches Ok(p) ==> ({
            &&& p.0@ == keys@.push(p.1)
            &&& p.1.name == name
            &&& p.1.tag == tag
            &&& p.1.key@ == trim_of(key_content@)
            &&& trim_of(p.1.key@) == p.1.key@
            &&& p.1.key_type@ == spec_detect_key_type(trim_of(key_content@))
            &&& p.1.created == p.1.last_modified
        }),
{
    let id = new_uuid();
    let now = now_millis();
    add_record(keys, id, now, name, tag, key_content)
}

/// The collection `nk` is `keys` with the record at `i` — the first
/// one carrying the sought id — replaced by `rec`, updated at `now`.
pub open spec fn updated_at(
    keys: Seq<SshKey>,
    i: int,
    nk: Seq<SshKey>,
    rec: SshKey,
    up: SshKeyUpdateView,
    id: Seq<char>,
    now: int,
) -> bool {
    &&& 0 <= i < keys.len()
    &&& keys[i]@.id == id
    &&& (forall|j: int| 0 <= j < i ==> keys[j]@.id != id)
    &&& nk.len() == keys.len()
    &&& (forall|j: int| 0 <= j < keys.len() && j != i ==> nk[j] == keys[j])
    &&& nk[i]@ == updated_view(keys[i]@, up, now)
    &&& rec == nk[i]
}

/// The record value that applying `up` at time `now` makes of `old`.
pub open spec fn updated_view(old: SshKeyView, up: SshKeyUpdateView, now: int) -> SshKeyView {
    SshKeyView {
        id: old.id,
        name: if up.name is Some {
            up.name->0
        } else {
            old.name
        },
        tag: if up.tag is Some {
            up.tag
        } else {
            old.tag
        },
        key: if up.key is Some {
            trim_of(up.key->0)
        } else {
            old.key
        },
        key_type: if up.key is Some {
            spec_detect_key_type(trim_of(up.key->0))
        } else {
            old.key_type
        },
        created: old.created,
        last_modified: now,
    }
}

/// Apply a partial update to the first record with this `id`, at time
/// `now`, in a copy of `keys`.
///
/// A new name may not collide case-insensitively with any other record's
/// name; new key content may not collide by trimmed match with any other
/// record's content. `created` never changes; `last_modified` becomes
/// `now`.
pub fn update_record(
    keys: &Vec<SshKey>,
    id: &String,
    update: &SshKeyUpdate,
    now: i64,
) -> (r: Result<(Vec<SshKey>, SshKey), KeyStoreError>)
    ensures
        r == Err::<(Vec<SshKey>, SshKey), KeyStoreError>(KeyStoreError::NotFound)
            <==> !has_id(keys@, id@),
        r == Err::<(Vec<SshKey>, SshKey), KeyStoreError>(KeyStoreError::DuplicateName)
            <==> (has_id(keys@, id@) && (update@.name matches Some(n) && name_dup_except(
            keys@,
            n,
            id@,
        ))),
        r == Err::<(Vec<SshKey>, SshKey), KeyStoreError>(KeyStoreError::DuplicateContent)
            <==> (has_id(keys@, id@) && !(update@.name matches Some(n) && name_dup_except(
            keys@,
            n,
            id@,
        )) && (update@.key matches Some(kc) && content_dup_except(keys@, kc, id@))),
        r matches Ok(p) ==> exists|i: int|
            updated_at(keys@, i, p.0@, p.1, update@, id@, now as int),
        r is Ok <==> (has_id(keys@, id@) && !(update@.name matches Some(n) && name_dup_except(
            keys@,
            n,
            id@,
        )) && !(update@.key matches Some(kc) && content_dup_except(keys@, kc, id@))),
        r matches Ok(p) ==> (update@.key matches Some(kc) ==> trim_of(p.1.key@) == p.1.key@),
{
    let n = keys.len();
    let mut idx: usize = 0;
    let mut found = false;
    while idx < n && !found
        invariant
            n == keys@.len(),
            idx <= n,
            !found ==> forall|j: int| 0 <= j < idx ==> keys@[j]@.id != id@,
            found ==> idx < n && keys@[idx as int]@.id == id@ && (forall|j: int|
                0 <= j < idx ==> keys@[j]@.id != id@),
        decreases n - idx + (if found { 0int } else { 1int }),
    {
        if keys[idx].id.eq(id) {
            found = true;
        } else {
            idx = idx + 1;
        }
    }
    if !found {
        return Err(KeyStoreError::NotFound);
    }
    if let Some(new_name) = &update.name {
        if has_name_dup(keys, new_name.as_str(), Some(id)) {
            return Err(KeyStoreError::DuplicateName);
        }
    }
    if let Some(new_key) = &update.key {
        if has_content_dup(keys, new_key.as_str(), Some(id)) {
            return Err(KeyStoreError::DuplicateContent);
        }
    }
    let old_rec = &keys[idx];
    let new_name = match &update.name {
        Some(s) => s.clone(),
        None => old_rec.name.clone(),
    };
    let new_tag = match &update.tag {
        Some(s) => Some(s.clone()),
        None => match &old_rec.tag {
            Some(t) => Some(t.clone()),
            None => None,
        },
    };
    let (new_key, new_key_type) = match &update.key {
        Some(s) => {
            let trimmed = trim_str(s.as_str());
            let kt = detect_key_type(trimmed.as_str());
            (trimmed, kt)
        },
        None => (old_rec.key.clone(), old_rec.key_type.clone()),
    };
    let rec = SshKey {
        id: old_rec.id.clone(),
        name: new_name,
        tag: new_tag,
        key: new_key,
        key_type: new_key_type,
        created: old_rec.created,
        last_modified: now,
    };
    let mut out = clone_keys(keys);
    out.set(idx, rec.clone());
    let res: Result<(Vec<SshKey>, SshKey), KeyStoreError> = Ok((out, rec));
    proof {
        let p = res->Ok_0;
        assert(p.0@[idx as int]@ == updated_view(keys@[idx as int]@, update@, now as int));
        assert(updated_at(keys@, idx as int, p.0@, p.1, update@, id@, now as int));
    }
    res
}

/// Apply a partial update at the current time.
pub fn update_ssh_key(keys: &Vec<SshKey>, id: &String, update: &SshKeyUpdate) -> (r: Result<
    (Vec<SshKey>, SshKey),
    KeyStoreError,
>)
    ensures
        r == Err::<(Vec<SshKey>, SshKey), KeyStoreError>(KeyStoreError::NotFound)
            <==> !has_id(keys@, id@),
        r == Err::<(Vec<SshKey>, SshKey), KeyStoreError>(KeyStoreError::DuplicateName)
            <==> (has_id(keys@, id@) && (update@.name matches Some(n) && name_dup_except(
            keys@,
            n,
            id@,
        ))),
        r == Err::<(Vec<SshKey>, SshKey), KeyStoreError>(KeyStoreError::DuplicateContent)
            <==> (has_id(keys@, id@) && !(update@.name matches Some(n) && name_dup_except(
            keys@,
            n,
            id@,
        )) && (update@.key matches Some(kc) && content_dup_except(keys@, kc, id@))),
        r matches Ok(p) ==> exists|i: int, now: int|
            updated_at(keys@, i, p.0@, p.1, update@, id@, now),
        r is Ok <==> (has_id(keys@, id@) && !(update@.name matches Some(n) && name_dup_except(
            keys@,
            n,
            id@,
        )) && !(update@.key matches Some(kc) && content_dup_except(keys@, kc, id@))),
        r matches Ok(p) ==> (update@.key matches Some(kc) ==> trim_of(p.1.key@) == p.1.key@),
{
    let now = now_millis();
    update_record(keys, id, update, now)
}

/// Remove every record with this `id` from a copy of `keys`.
pub fn remove_ssh_key(keys: &Vec<SshKey>, id: &String) -> (r: Result<Vec<SshKey>, KeyStoreError>)
    ensures
        r is Err <==> !has_id(keys@, id@),
        r is Err ==> r == Err::<Vec<SshKey>, KeyStoreError>(KeyStoreError::NotFound),
        r matches Ok(nk) ==> nk@ == keys@.filter(|k: SshKey| k@.id != id@),
{
    let mut out: Vec<SshKey> = Vec::new();
    let mut i: usize = 0;
    let mut removed = false;
    while i < keys.len()
        invariant
            i <= keys@.len(),
            out@ =~= keys@.take(i as int).filter(|k: SshKey| k@.id != id@),
            removed <==> exists|j: int| 0 <= j < i && keys@[j]@.id == id@,
        decreases keys@.len() - i,
    {
        proof {
            reveal_with_fuel(Seq::filter, 2);
        }
        let ghost prefix = keys@.take(i as int);
        if keys[i].id.eq(id) {
            removed = true;
        } else {
            out.push(keys[i].clone());
        }
        proof {
            assert(keys@.take((i + 1) as int).drop_last() =~= prefix);
            assert(keys@.take((i + 1) as int).last() == keys@[i as int]);
        }
        i = i + 1;
    }
    proof {
        assert(keys@.take(keys@.len() as int) =~= keys@);
    }
    if removed {
        Ok(out)
    } else {
        Err(KeyStoreError::NotFound)
    }
}

/// The reconciliation of `inc` into `cur`: walk `inc` in order and append
/// each record whose id is not yet present.
pub open spec fn merge_spec(cur: Seq<SshKey>, inc: Seq<SshKey>) -> Seq<SshKey>
    decreases inc.len(),
{
    if inc.len() == 0 {
        cur
    } else if has_id(cur, inc[0]@.id) {
        merge_spec(cur, inc.drop_first())
    } else {
        merge_spec(cur.push(inc[0]), inc.drop_first())
    }
}

proof fn lemma_merge_prefix(cur: Seq<SshKey>, inc: Seq<SshKey>)
    ensures
        merge_spec(cur, inc).len() >= cur.len(),
        merge_spec(cur, inc).take(cur.len() as int) == cur,
        forall|id: Seq<char>|
            #![trigger has_id(merge_spec(cur, inc), id)]
            has_id(merge_spec(cur, inc), id) <==> has_id(cur, id) || has_id(inc, id),
    decreases inc.len(),
{
    if inc.len() == 0 {
        assert(cur.take(cur.len() as int) =~= cur);
        assert forall|id: Seq<char>| has_id(merge_spec(cur, inc), id) implies has_id(cur, id)
            || has_id(inc, id) by {}
    } else {
        let first = inc[0];
        let rest = inc.drop_first();
        if has_id(cur, first@.id) {
            lemma_merge_prefix(cur, rest);
            assert forall|id: Seq<char>|
                has_id(cur, id) || has_id(inc, id) implies has_id(merge_spec(cur, inc), id) by {
                if has_id(inc, id) {
                    let w = choose|i: int| 0 <= i < inc.len() && inc[i]@.id == id;
                    if w == 0 {
                        assert(has_id(cur, id));
                    } else {
                        assert(rest[w - 1]@.id == id);
                        assert(has_id(rest, id));
                    }
                }
            }
            assert forall|id: Seq<char>|
                has_id(merge_spec(cur, inc), id) implies has_id(cur, id) || has_id(inc, id) by {
                if has_id(rest, id) {
                    let w = choose|i: int| 0 <= i < rest.len() && rest[i]@.id == id;
                    assert(inc[w + 1]@.id == id);
                }
            }
        } else {
            let cur2 = cur.push(first);
            lemma_merge_prefix(cur2, rest);
            assert(merge_spec(cur, inc) == merge_spec(cur2, rest));
            assert(merge_spec(cur2, rest).take(cur2.len() as int) == cur2);
            assert(merge_spec(cur, inc).take(cur.len() as int) =~= cur2.take(cur.len() as int));
            assert(cur2.take(cur.len() as int) =~= cur);
            assert forall|id: Seq<char>|
                has_id(merge_spec(cur, inc), id) implies has_id(cur, id) || has_id(inc, id) by {
                if has_id(cur2, id) {
                    let w = choose|i: int| 0 <= i < cur2.len() && cur2[i]@.id == id;
                    if w == cur.len() {
                        assert(inc[0]@.id == id);
                    }
                } else if has_id(rest, id) {
                    let w = choose|i: int| 0 <= i < rest.len() && rest[i]@.id == id;
                    assert(inc[w + 1]@.id == id);
                }
            }
            assert forall|id: Seq<char>|
                has_id(cur, id) || has_id(inc, id) implies has_id(merge_spec(cur, inc), id) by {
                if has_id(cur, id) {
                    let w = choose|i: int| 0 <= i < cur.len() && cur[i]@.id == id;
                    assert(cur2[w]@.id == id);
                } else if has_id(inc, id) {
                    let w = choose|i: int| 0 <= i < inc.len() && inc[i]@.id == id;
                    if w == 0 {
                        assert(cur2[cur.len() as int]@.id == id);
                    } else {
                        assert(rest[w - 1]@.id == id);
                    }
                }
            }
        }
    }
}

proof fn lemma_merge_snoc(cur: Seq<SshKey>, inc: Seq<SshKey>, x: SshKey)
    ensures
        merge_spec(cur, inc.push(x)) == (if has_id(merge_spec(cur, inc), x@.id) {
            merge_spec(cur, inc)
        } else {
            merge_spec(cur, inc).push(x)
        }),
    decreases inc.len(),
{
    lemma_merge_prefix(cur, inc);
    if inc.len() == 0 {
        let single = inc.push(x);
        assert(single[0] == x);
        assert(single.drop_first() =~= Seq::<SshKey>::empty());
        assert(single.drop_first().len() == 0);
        if has_id(cur, x@.id) {
            assert(merge_spec(cur, single.drop_first()) == cur);
            assert(merge_spec(cur, single) == cur);
        } else {
            assert(merge_spec(cur.push(x), single.drop_first()) == cur.push(x));
            assert(merge_spec(cur, single) == merge_spec(cur.push(x), single.drop_first()));
        }
    } else {
        let whole = inc.push(x);
        assert(whole[0] == inc[0]);
        assert(whole.drop_first() =~= inc.drop_first().push(x));
        if has_id(cur, inc[0]@.id) {
            lemma_merge_snoc(cur, inc.drop_first(), x);
        } else {
            lemma_merge_snoc(cur.push(inc[0]), inc.drop_first(), x);
        }
    }
}

/// Merge `incoming` into `current`, deduplicating by record id.
///
/// Returns the merged collection, how many incoming records were
/// retained, and how many were discarded as duplicates; the two counts
/// always sum to the incoming length, and `current` is a prefix of the
/// result.
pub fn merge_collections(current: &Vec<SshKey>, incoming: &Vec<SshKey>) -> (r: (
    Vec<SshKey>,
    usize,
    usize,
))
    ensures
        r.0@ == merge_spec(current@, incoming@),
        r.1 + r.2 == incoming@.len(),
        current@.len() + r.1 == r.0@.len(),
        r.0@.take(current@.len() as int) == current@,
{
    let mut out = clone_keys(current);
    let mut imported: usize = 0;
    let mut duplicates: usize = 0;
    let mut i: usize = 0;
    while i < incoming.len()
        invariant
            i <= incoming@.len(),
            out@ == merge_spec(current@, incoming@.take(i as int)),
            imported + duplicates == i,
            current@.len() + imported == out@.len(),
        decreases incoming@.len() - i,
    {
        proof {
            lemma_merge_snoc(current@, incoming@.take(i as int), incoming@[i as int]);
            assert(incoming@.take(i as int).push(incoming@[i as int]) =~= incoming@.take(
                (i + 1) as int,
            ));
        }
        if has_id_exec(&out, &incoming[i].id) {
            duplicates = duplicates + 1;
        } else {
            out.push(incoming[i].clone());
            imported = imported + 1;
        }
        i = i + 1;
    }
    proof {
        assert(incoming@.take(incoming@.len() as int) =~= incoming@);
        lemma_merge_prefix(current@, incoming@);
    }
    (out, imported, duplicates)
}

/// No two records of `c` share an id.
pub open spec fn unique_ids(c: Seq<SshKey>) -> bool {
    forall|i: int, j: int| 0 <= i < j < c.len() ==> c[i]@.id != c[j]@.id
}

/// The count of incoming records whose id already occurs in `cur`.
pub open spec fn shared_id_count(cur: Seq<SshKey>, inc: Seq<SshKey>) -> int {
    inc.filter(|k: SshKey| has_id(cur, k@.id)).len() as int
}

/// The merge arithmetic law: when the incoming records have distinct
/// ids and share `k` of them with `cur`, the merged collection has
/// `cur.len() + inc.len() - k` records.
pub proof fn lemma_merge_counts(cur: Seq<SshKey>, inc: Seq<SshKey>)
    requires
        unique_ids(inc),
    ensures
        merge_spec(cur, inc).len() == cur.len() + inc.len() - shared_id_count(cur, inc),
    decreases inc.len(),
{
    reveal_with_fuel(Seq::filter, 2);
    if inc.len() == 0 {
    } else {
        let rest = inc.drop_last();
        let x = inc.last();
        assert(inc =~= rest.push(x));
        assert(unique_ids(rest));
        lemma_merge_counts(cur, rest);
        lemma_merge_snoc(cur, rest, x);
        lemma_merge_prefix(cur, rest);
        assert(inc.filter(|k: SshKey| has_id(cur, k@.id)).len() == rest.filter(
            |k: SshKey| has_id(cur, k@.id),
        ).len() + (if has_id(cur, x@.id) {
            1int
        } else {
            0int
        }));
        if has_id(rest, x@.id) {
            let w = choose|i: int| 0 <= i < rest.len() && rest[i]@.id == x@.id;
            assert(inc[w]@.id == inc[inc.len() - 1]@.id);
            assert(false);
        }
        assert(has_id(merge_spec(cur, rest), x@.id) <==> has_id(cur, x@.id));
    }
}

/// Appending a record with a fresh id preserves id uniqueness, so a
/// collection only ever grown through checked inserts has distinct ids
/// throughout.
pub proof fn lemma_push_preserves_unique_ids(c: Seq<SshKey>, rec: SshKey)
    requires
        unique_ids(c),
        !has_id(c, rec@.id),
    ensures
        unique_ids(c.push(rec)),
{
    let out = c.push(rec);
    assert forall|i: int, j: int| 0 <= i < j < out.len() implies out[i]@.id != out[j]@.id by {
        if j == c.len() {
            if out[i]@.id == rec@.id {
                assert(c[i]@.id == rec@.id);
            }
        }
    }
}

/// Merging preserves id uniqueness: if both sides have distinct ids,
/// so does the merged collection.
pub proof fn lemma_merge_unique_ids(cur: Seq<SshKey>, inc: Seq<SshKey>)
    requires
        unique_ids(cur),
        unique_ids(inc),
    ensures
        unique_ids(merge_spec(cur, inc)),
    decreases inc.len(),
{
    if inc.len() > 0 {
        let first = inc[0];
        let rest = inc.drop_first();
        assert(unique_ids(rest));
        if has_id(cur, first@.id) {
            lemma_merge_unique_ids(cur, rest);
        } else {
            let cur2 = cur.push(first);
            assert forall|i: int, j: int| 0 <= i < j < cur2.len() implies cur2[i]@.id
                != cur2[j]@.id by {
                if j == cur.len() {
                    assert(!has_id(cur, first@.id));
                    if cur2[i]@.id == first@.id {
                        assert(cur[i]@.id == first@.id);
                    }
                }
            }
            lemma_merge_unique_ids(cur2, rest);
        }
    }
}

/// The content of a single-line public key file: it names an SSH key
/// algorithm and has no line break before its final character.
pub open spec fn spec_public_key_content(s: Seq<char>) -> bool {
    &&& contains_seq(s, "ssh-"@)
    &&& s.len() > 0
    &&& forall|i: int| 0 <= i < s.len() - 1 ==> s[i] != '\n'
}

/// Whether a scanned file's text looks like one SSH public key: it
/// mentions an SSH key algorithm and consists of a single line.
pub fn is_public_key_content(content: &str) -> (r: bool)
    ensures
        r == spec_public_key_content(content@),
{
    let chars = str_chars(content);
    let n = chars.len();
    if n == 0 {
        return false;
    }
    if !contains_chars(&chars, &str_chars("ssh-")) {
        return false;
    }
    let mut i: usize = 0;
    while i < n - 1
        invariant
            n == content@.len(),
            n == chars@.len(),
            chars@ == content@,
            n > 0,
            i <= n - 1,
            forall|j: int| 0 <= j < i ==> content@[j] != '\n',
        decreases n - 1 - i,
    {
        if chars[i] == '\n' {
            return false;
        }
        i = i + 1;
    }
    true
}

} // verus!
