//! Where blobs are stored, and under which names.

use crate::catalog::BlobKey;
use crate::error::{ErrorView, Result, ServerError};
use crate::identity::{generated_blob_key, hex_digit, hyphenated};
use crate::paths::{
    characters, directly_below, is_directly_below, join, joined, law_a_plain_name_is_one_component_more,
    law_a_slash_begins_a_segment, plain, segments, split_segments, texts, trim, trimmed,
};
use crate::text::{
    concat_three, decimal, owned, text_with_number, text_with_two_numbers, with_number, with_two_numbers,
};
use vstd::prelude::*;
use vstd::string::*;

verus! {

/// How many keys are tried for a new blob.
pub const BLOB_KEY_ATTEMPTS: u32 = 16;

/// Stores each blob as a file directly below a directory.
#[derive(Debug)]
pub struct LocalBlobStore {
    root: String,
}

impl LocalBlobStore {
    pub closed spec fn directory(&self) -> Seq<char> {
        self.root@
    }

    pub fn new(root: String) -> (store: Self)
        ensures
            store.directory() == root@,
    {
        Self { root }
    }

    pub fn root(&self) -> (root: &str)
        ensures
            root@ == self.directory(),
    {
        self.root.as_str()
    }

    /// The path of a blob. A key that does not name a file directly below the directory is refused.
    pub fn blob_path(&self, key: &BlobKey) -> (result: Result<String>)
        ensures
            ({
                let path = joined(self.directory(), key@);
                match result {
                    Ok(text) => directly_below(path, self.directory()) && text@ == path,
                    Err(error) => !directly_below(path, self.directory()) && error@ == (
                    ErrorView::Io {
                        context: "resolve blob path"@,
                        message: "blob key `"@ + key@ + "` escaped blob root"@,
                    }),
                }
            }),
    {
        let path = join(self.root.as_str(), key.as_str());
        if !is_directly_below(path.as_str(), self.root.as_str()) {
            return Err(
                ServerError::io(
                    "resolve blob path",
                    concat_three("blob key `", key.as_str(), "` escaped blob root"),
                ),
            );
        }
        Ok(path)
    }

    /// How many bytes are read at once. A length that memory cannot hold is refused.
    pub fn read_length(&self, len: u64) -> (result: Result<usize>)
        ensures
            match result {
                Ok(length) => len <= usize::MAX && length == len,
                Err(error) => len > usize::MAX && error@ == (ErrorView::Io {
                    context: "get blob"@,
                    message: with_number("length "@, len as nat, " does not fit in memory"@),
                }),
            },
    {
        if len > usize::MAX as u64 {
            return Err(
                ServerError::io("get blob", text_with_number("length ", len, " does not fit in memory")),
            );
        }
        Ok(len as usize)
    }
}

/// The key of a file that takes a blob's place once it was written.
pub fn replacement_key() -> (key: BlobKey)
    ensures
        key@.len() == 41,
        key@.take(5) == ".tmp-"@,
        hyphenated(key@.skip(5)),
{
    let random = generated_blob_key();
    let text = concat_three(".tmp-", random.as_str(), "");
    proof {
        reveal_strlit(".tmp-");
        reveal_strlit("");
        assert(text@.take(5) =~= ".tmp-"@);
        assert(text@.skip(5) =~= random@);
    }
    BlobKey::new(text)
}

/// The failure of a blob that is stored already.
pub fn blob_already_exists(context: &'static str, key: &BlobKey) -> (error: ServerError)
    ensures
        error@ == (ErrorView::BlobAlreadyExists { context: context@, key: key@ }),
{
    ServerError::BlobAlreadyExists { context, key: key.clone() }
}

/// Whether an error says that a blob is stored already.
pub fn is_blob_already_exists(error: &ServerError) -> (exists: bool)
    ensures
        exists == (error@ is BlobAlreadyExists),
{
    match error {
        ServerError::BlobAlreadyExists { .. } => true,
        _ => false,
    }
}

/// A new blob that looks for a key of its own.
#[derive(Debug)]
pub struct RandomBlobPut {
    attempts: u32,
}

/// What follows an attempt to store a blob.
#[derive(Debug)]
pub enum PutStep {
    /// The blob is stored.
    Stored,
    /// The key is taken: another one is tried.
    Retry,
    Failed(ServerError),
}

/// How the next key is drawn, given how many were drawn before.
pub open spec fn draws(before: int, after: int, result: Result<BlobKey>) -> bool {
    if before < BLOB_KEY_ATTEMPTS {
        &&& result matches Ok(key) && hyphenated(key@)
        &&& after == before + 1
    } else {
        &&& result matches Err(error) && error@ == (ErrorView::Io {
            context: "put random blob"@,
            message: "failed to allocate unique blob key"@,
        })
        &&& after == before
    }}

/// What an attempt to store leads to.
pub open spec fn steps_to(result: Result<()>, step: PutStep) -> bool {
    match result {
        Ok(_) => step is Stored,
        Err(error) => if error@ is BlobAlreadyExists {
            step is Retry
        } else {
            step == PutStep::Failed(error)
        },
    }}

impl RandomBlobPut {
    /// How many keys were tried.
    pub closed spec fn tried(&self) -> int {
        self.attempts as int
    }

    pub fn new() -> (put: Self)
        ensures
            put.tried() == 0,
    {
        Self { attempts: 0 }
    }

    /// The next key to be tried.
    pub fn next_key(&mut self) -> (result: Result<BlobKey>)
        ensures
            draws(old(self).tried(), final(self).tried(), result),
    {
        if self.attempts >= BLOB_KEY_ATTEMPTS {
            return Err(
                ServerError::io("put random blob", owned("failed to allocate unique blob key")),
            );
        }
        self.attempts = self.attempts + 1;
        Ok(generated_blob_key())
    }

    /// What follows an attempt.
    pub fn attempted(&self, result: Result<()>) -> (step: PutStep)
        ensures
            steps_to(result, step),
    {
        match result {
            Ok(_) => PutStep::Stored,
            Err(error) => {
                if is_blob_already_exists(&error) {
                    PutStep::Retry
                } else {
                    PutStep::Failed(error)
                }
            },
        }
    }
}

/// A segment that a prefix must not hold.
pub open spec fn ambiguous(segment: Seq<char>) -> bool {
    segment.len() == 0 || segment == "."@ || segment == ".."@
}

/// A text without one slash at its end.
pub open spec fn without_slash(text: Seq<char>) -> Seq<char> {
    if text.len() > 0 && text.last() == '/' {
        text.drop_last()
    } else {
        text
    }
}

/// Whether a prefix names one place only: relative, without empty segments or dots that lead
/// elsewhere, and without characters that paths do not have.
pub open spec fn proper_prefix(text: Seq<char>) -> bool {
    &&& text.len() > 0
    &&& text[0] != '/'
    &&& forall|i: int| 0 <= i < text.len() ==> #[trigger] text[i] != '\\' && text[i] != '\0'
    &&& forall|i: int|
        0 <= i < segments(without_slash(text)).len() ==> !ambiguous(
            #[trigger] segments(without_slash(text))[i],
        )
}

fn is_ambiguous(segment: &String) -> (bad: bool)
    ensures
        bad == ambiguous(segment@),
{
    let text = segment.as_str();
    let count: usize = text.unicode_len();
    proof {
        reveal_strlit(".");
        reveal_strlit("..");
    }
    if count == 0 {
        return true;
    }
    if count == 1 && text.get_char(0) == '.' {
        proof {
            assert(text@ =~= "."@);
        }
        return true;
    }
    if count == 2 && text.get_char(0) == '.' && text.get_char(1) == '.' {
        proof {
            assert(text@ =~= ".."@);
        }
        return true;
    }
    false
}

/// Whether a prefix names one place only.
fn check_prefix(text: &str) -> (proper: bool)
    ensures
        proper == proper_prefix(text@),
{
    let chars = characters(text);
    let count: usize = chars.len();
    if count == 0 || chars[0] == '/' {
        return false;
    }
    let mut index: usize = 0;
    while index < count
        invariant
            count == chars@.len(),
            chars@ == text@,
            index <= count,
            forall|i: int| 0 <= i < index ==> #[trigger] text@[i] != '\\' && text@[i] != '\0',
        decreases count - index,
    {
        if chars[index] == '\\' || chars[index] == '\0' {
            assert(text@[index as int] == chars@[index as int]);
            return false;
        }
        index = index + 1;
    }
    let stripped = strip_slash(text);
    let parts = split_segments(stripped.as_str());
    let ghost parted = segments(stripped@);
    let mut place: usize = 0;
    while place < parts.len()
        invariant
            place <= parts@.len(),
            texts(parts@) == parted,
            parted == segments(without_slash(text@)),
            forall|i: int| 0 <= i < place ==> !ambiguous(#[trigger] parted[i]),
        decreases parts@.len() - place,
    {
        proof {
            assert(parted[place as int] == parts@[place as int]@);
        }
        if is_ambiguous(&parts[place]) {
            return false;
        }
        place = place + 1;
    }
    true
}

fn strip_slash(text: &str) -> (result: String)
    ensures
        result@ == without_slash(text@),
{
    let count: usize = text.unicode_len();
    if count > 0 && text.get_char(count - 1) == '/' {
        proof {
            assert(text@.subrange(0, count - 1) =~= text@.drop_last());
        }
        return owned(text.substring_char(0, count - 1));
    }
    owned(text)
}

/// The normal form of a prefix, or that it has none.
pub open spec fn normalizes(prefix: Option<Seq<char>>, result: Result<String>) -> bool {
    match prefix {
        None => result matches Ok(text) && text@ == Seq::<char>::empty(),
        Some(prefix) => {
            let text = trimmed(prefix);
            if text.len() == 0 {
                result matches Ok(normal) && normal@ == Seq::<char>::empty()
            } else if proper_prefix(text) {
                result matches Ok(normal) && normal@ == without_slash(text) + "/"@
            } else {
                result matches Err(error) && error@ == (ErrorView::Io {
                    context: "normalize S3 blob key prefix"@,
                    message: "invalid S3 blob key prefix `"@ + prefix + "`"@,
                })
            }
        },
    }
}

/// The prefix of object names. It is empty, or ends in a slash.
pub fn normalize_key_prefix(prefix: Option<&str>) -> (result: Result<String>)
    ensures
        normalizes(
            match prefix {
                Some(prefix) => Some(prefix@),
                None => None,
            },
            result,
        ),
{
    let prefix = match prefix {
        Some(prefix) => prefix,
        None => {
            return Ok(String::new());
        },
    };
    let text = trim(prefix);
    if text.as_str().unicode_len() == 0 {
        return Ok(String::new());
    }
    if !check_prefix(text.as_str()) {
        return Err(
            ServerError::io(
                "normalize S3 blob key prefix",
                concat_three("invalid S3 blob key prefix `", prefix, "`"),
            ),
        );
    }
    let mut normal = strip_slash(text.as_str());
    normal.append("/");
    Ok(normal)
}

/// The name of the object of a blob.
pub fn object_key_for_prefix(prefix: &str, key: &BlobKey) -> (name: String)
    ensures
        name@ == prefix@ + key@,
{
    let mut name = owned(prefix);
    name.append(key.as_str());
    name
}

/// The header that asks for some bytes of a blob, or that there is none to ask for.
pub open spec fn asks_for(offset: u64, len: u64, result: Result<Option<String>>) -> bool {
    if len == 0 {
        result matches Ok(None)
    } else if offset + (len - 1) > u64::MAX {
        result matches Err(error) && error@ == (ErrorView::Io {
            context: "get S3 blob"@,
            message: with_two_numbers(
                "range offset="@,
                offset as nat,
                " length="@,
                len as nat,
                " overflows"@,
            ),
        })
    } else {
        result matches Ok(Some(range)) && range@ == with_two_numbers(
            "bytes="@,
            offset as nat,
            "-"@,
            (offset + (len - 1)) as nat,
            ""@,
        )
    }
}

/// The range of bytes that is asked for. `None` where none are; a range whose end is not a number of
/// the type is refused.
pub fn byte_range_header(offset: u64, len: u64) -> (result: Result<Option<String>>)
    ensures
        asks_for(offset, len, result),
{
    if len == 0 {
        return Ok(None);
    }
    match offset.checked_add(len - 1) {
        Some(end) => Ok(Some(text_with_two_numbers("bytes=", offset, "-", end, ""))),
        None => Err(
            ServerError::io(
                "get S3 blob",
                text_with_two_numbers("range offset=", offset, " length=", len, " overflows"),
            ),
        ),
    }
}

/// Whether two texts are the same.
fn same_text(first: &str, second: &str) -> (same: bool)
    ensures
        same == (first@ == second@),
{
    owned(first) == owned(second)
}

/// Whether the code of a failure says that the object was there already.
pub fn is_create_collision(code: Option<&str>) -> (collision: bool)
    ensures
        collision == (code matches Some(code) && (code@ == "PreconditionFailed"@ || code@
            == "ConditionalRequestConflict"@)),
{
    match code {
        Some(code) => same_text(code, "PreconditionFailed") || same_text(
            code,
            "ConditionalRequestConflict",
        ),
        None => false,
    }
}

/// Whether the code of a failure says that the bucket was there already.
pub fn is_bucket_already_exists(code: Option<&str>) -> (exists: bool)
    ensures
        exists == (code matches Some(code) && (code@ == "BucketAlreadyOwnedByYou"@ || code@
            == "BucketAlreadyExists"@)),
{
    match code {
        Some(code) => same_text(code, "BucketAlreadyOwnedByYou") || same_text(
            code,
            "BucketAlreadyExists",
        ),
        None => false,
    }
}

/// A prefix in its normal form is its own normal form, so that normalizing once is enough.
pub proof fn law_normal_prefix_is_stable(text: Seq<char>)
    requires
        proper_prefix(text),
    ensures
        proper_prefix(without_slash(text) + "/"@),
        without_slash(without_slash(text) + "/"@) + "/"@ == without_slash(text) + "/"@,
{
    reveal_strlit("/");
    let base = without_slash(text);
    let normal = base + "/"@;
    assert(normal.last() == '/');
    assert(normal.drop_last() =~= base);
    lemma_base_not_empty(text);
    assert(normal[0] == text[0]);
    assert forall|i: int| 0 <= i < normal.len() implies #[trigger] normal[i] != '\\' && normal[i]
        != '\0' by {
        if i < base.len() {
            assert(normal[i] == text[i]);
        }
    }
}

/// A proper prefix is more than a slash.
proof fn lemma_base_not_empty(text: Seq<char>)
    requires
        proper_prefix(text),
    ensures
        without_slash(text).len() > 0,
{
    if without_slash(text).len() == 0 {
        assert(text.len() == 1);
        assert(text.last() == text[0]);
    }
}

/// Every key that was made for a blob has a path, directly below the directory of the store.
pub proof fn law_a_generated_key_has_a_path(directory: Seq<char>, key: Seq<char>)
    requires
        hyphenated(key),
    ensures
        directly_below(joined(directory, key), directory),
{
    reveal_strlit(".");
    assert forall|i: int| 0 <= i < key.len() implies #[trigger] key[i] != '/' by {
        if i == 8 || i == 13 || i == 18 || i == 23 {
            assert(key[i] == '-');
        } else {
            assert(hex_digit(key[i]));
        }
    }
    law_a_plain_name_is_one_component_more(directory, key);
}

/// A word that is neither empty nor one of the two that stand for a directory, and holds no slash,
/// backslash or zero, is a proper prefix, and stays one with such a word behind it.
pub proof fn law_plain_words_are_proper_prefixes(text: Seq<char>, word: Seq<char>)
    requires
        plain(word),
        !ambiguous(word),
        forall|i: int| 0 <= i < word.len() ==> #[trigger] word[i] != '\\' && word[i] != '\0',
    ensures
        proper_prefix(word),
        without_slash(word) == word,
        proper_prefix(text) && text.last() != '/' ==> proper_prefix(text + "/"@ + word),
{
    reveal_strlit("/");
    law_a_slash_begins_a_segment(text, word);
    assert(word[0] != '/' && word[word.len() - 1] != '/');
    assert(segments(word)[0] == word);
    if proper_prefix(text) && text.last() != '/' {
        let longer = text + "/"@ + word;
        let list = segments(text);
        assert(longer.last() == word.last());
        assert(longer[0] == text[0]);
        assert forall|i: int| 0 <= i < longer.len() implies #[trigger] longer[i] != '\\'
            && longer[i] != '\0' by {
            if i < text.len() {
                assert(longer[i] == text[i]);
            } else if i > text.len() {
                assert(longer[i] == word[i - text.len() - 1]);
            }
        }
        assert forall|i: int| 0 <= i < segments(longer).len() implies !ambiguous(
            #[trigger] segments(longer)[i],
        ) by {
            if i < list.len() {
                assert(segments(longer)[i] == list[i]);
                assert(!ambiguous(segments(without_slash(text))[i]));
            }
        }
    }
}

/// A prefix with an empty part in it, or one that stands for a directory, is none.
pub proof fn law_a_prefix_does_not_lead_elsewhere(text: Seq<char>, word: Seq<char>)
    requires
        plain(word),
        ambiguous(word),
        word.len() > 0,
    ensures
        !proper_prefix(text + "/"@ + word),
        !proper_prefix("/"@ + text),
        !proper_prefix(word),
{
    reveal_strlit("/");
    law_a_slash_begins_a_segment(text, word);
    let longer = text + "/"@ + word;
    assert(word[word.len() - 1] != '/');
    assert(longer.last() == word.last());
    assert(without_slash(longer) == longer);
    assert(without_slash(word) == word);
    assert(ambiguous(segments(without_slash(longer))[segments(text).len() as int]));
    assert(ambiguous(segments(without_slash(word))[0]));
    assert(("/"@ + text)[0] == '/');
}

/// The normal form of a prefix is empty, or ends in a slash and begins with none, so that a name
/// behind it is one in that place; white space around a prefix does not count, and a prefix that
/// leads elsewhere has no normal form.
pub proof fn law_normal_prefix_is_a_place(prefix: Option<Seq<char>>, result: Result<String>)
    requires
        normalizes(prefix, result),
    ensures
        result is Err <==> prefix is Some && trimmed(prefix->0).len() > 0 && !proper_prefix(
            trimmed(prefix->0),
        ),
        result matches Ok(normal) ==> {
            &&& normal@.len() == 0 <==> prefix is None || trimmed(prefix->0).len() == 0
            &&& normal@.len() > 0 ==> normal@.last() == '/' && normal@[0] != '/'
            &&& normal@.len() > 0 ==> normal@.drop_last() == without_slash(trimmed(prefix->0))
        },
{
    reveal_strlit("/");
    if let Ok(normal) = result {
        if normal@.len() > 0 && prefix is Some {
            let text = trimmed(prefix->0);
            lemma_base_not_empty(text);
            assert(normal@.drop_last() =~= without_slash(text));
            assert(normal@[0] == text[0]);
        }
    }
}

/// A header asks for exactly the bytes from the first to the last one that is wanted, both named in
/// digits, and there is none where no byte is wanted.
pub proof fn law_header_names_the_first_and_the_last_byte(
    offset: u64,
    len: u64,
    result: Result<Option<String>>,
)
    requires
        asks_for(offset, len, result),
    ensures
        result is Err <==> offset + len > u64::MAX + 1,
        result is Ok ==> (result->Ok_0 is None <==> len == 0),
        result is Ok && result->Ok_0 is Some ==> result->Ok_0->0@ == "bytes="@ + decimal(
            offset as nat,
        ) + "-"@ + decimal((offset + len - 1) as nat),
{
    reveal_strlit("");
    if len > 0 && offset + (len - 1) <= u64::MAX {
        let head = "bytes="@ + decimal(offset as nat) + "-"@ + decimal((offset + len - 1) as nat);
        assert(head + ""@ =~= head);
    }
}

/// Another key is tried exactly when the last one was taken; a blob is stored exactly when the store
/// said so, and every other error is passed on as it is.
pub proof fn law_only_a_taken_key_is_tried_again(result: Result<()>, step: PutStep)
    requires
        steps_to(result, step),
    ensures
        step is Stored <==> result is Ok,
        step is Retry <==> result is Err && result->Err_0@ is BlobAlreadyExists,
        step matches PutStep::Failed(error) ==> result == Err::<(), ServerError>(error),
{
}

/// A key is drawn until as many were drawn as are tried, and each one counts.
pub proof fn law_keys_are_drawn_a_bounded_number_of_times(
    before: int,
    after: int,
    result: Result<BlobKey>,
)
    requires
        draws(before, after, result),
    ensures
        result is Ok <==> before < BLOB_KEY_ATTEMPTS,
        result is Ok <==> after == before + 1,
        result is Err <==> after == before,
{
}

} // verus!
