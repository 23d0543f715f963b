//! What the playground reads out of requests: the first line, the length of the
//! body, and the fields of the body.
use crate::demo::http::{branch_text, parse_hex};
use crate::facade::json::{
    check_json, json_fault, json_number, json_number_of, json_part, json_part_of, json_text, json_text_of, text_view,
};
use crate::format::ids::BranchId;
use crate::text::{parse_u64, parsed_u64};
use vstd::prelude::*;

verus! {

/// The longest body that is read.
pub const MAX_BODY_BYTES: usize = 4 * 1024 * 1024;

/// Whether a character is white space.
pub open spec fn is_space(c: char) -> bool {
    let n = c as u32;
    ||| 0x09 <= n <= 0x0d
    ||| n == 0x20
    ||| n == 0x85
    ||| n == 0xa0
    ||| n == 0x1680
    ||| 0x2000 <= n <= 0x200a
    ||| n == 0x2028
    ||| n == 0x2029
    ||| n == 0x202f
    ||| n == 0x205f
    ||| n == 0x3000
}

fn space(c: char) -> (r: bool)
    ensures
        r == is_space(c),
{
    let n: u32 = c as u32;
    (n >= 0x09 && n <= 0x0d) || n == 0x20 || n == 0x85 || n == 0xa0 || n == 0x1680 || (n >= 0x2000 && n <= 0x200a) || n == 0x2028
        || n == 0x2029 || n == 0x202f || n == 0x205f || n == 0x3000
}

/// A text without the white space it begins with.
pub open spec fn unspaced_front(text: Seq<char>) -> Seq<char>
    decreases text.len(),
{
    if text.len() > 0 && is_space(text[0]) {
        unspaced_front(text.skip(1))
    } else {
        text
    }
}

/// A text without the white space it ends with.
pub open spec fn unspaced_back(text: Seq<char>) -> Seq<char>
    decreases text.len(),
{
    if text.len() > 0 && is_space(text.last()) {
        unspaced_back(text.drop_last())
    } else {
        text
    }
}

/// How long the word is that a text begins with.
pub open spec fn word_len(text: Seq<char>) -> nat
    decreases text.len(),
{
    if text.len() > 0 && !is_space(text[0]) {
        1 + word_len(text.skip(1))
    } else {
        0
    }
}

/// The first word of a text.
pub open spec fn first_word(text: Seq<char>) -> Seq<char> {
    unspaced_front(text).take(word_len(unspaced_front(text)) as int)
}

/// What follows the first word of a text.
pub open spec fn after_word(text: Seq<char>) -> Seq<char> {
    unspaced_front(text).skip(word_len(unspaced_front(text)) as int)
}

/// Where the white space from `at` on ends.
fn skip_spaces(text: &str, at: usize, len: usize) -> (i: usize)
    requires
        len == text@.len(),
        at <= len,
    ensures
        at <= i <= len,
        unspaced_front(text@.skip(at as int)) == text@.skip(i as int),
{
    let mut i: usize = at;
    while i < len && space(text.get_char(i))
        invariant
            at <= i <= len,
            len == text@.len(),
            unspaced_front(text@.skip(at as int)) == unspaced_front(text@.skip(i as int)),
        decreases len - i,
    {
        assert(text@.skip(i as int).skip(1) =~= text@.skip(i + 1));
        i = i + 1;
    }
    i
}

/// Where the word that begins at `at` ends.
fn skip_word(text: &str, at: usize, len: usize) -> (i: usize)
    requires
        len == text@.len(),
        at <= len,
    ensures
        at <= i <= len,
        i == at + word_len(text@.skip(at as int)),
{
    let mut i: usize = at;
    while i < len && !space(text.get_char(i))
        invariant
            at <= i <= len,
            len == text@.len(),
            word_len(text@.skip(at as int)) == i - at + word_len(text@.skip(i as int)),
        decreases len - i,
    {
        assert(text@.skip(i as int).skip(1) =~= text@.skip(i + 1));
        i = i + 1;
    }
    i
}

/// The method and the target of a request's first line: its first two words.
pub fn request_line(line: &str) -> (r: (String, String))
    ensures
        r.0@ == first_word(line@),
        r.1@ == first_word(after_word(line@)),
{
    let len: usize = line.unicode_len();
    assert(line@.skip(0) =~= line@);
    let a: usize = skip_spaces(line, 0, len);
    let b: usize = skip_word(line, a, len);
    let c: usize = skip_spaces(line, b, len);
    let d: usize = skip_word(line, c, len);
    let method = line.substring_char(a, b);
    let target = line.substring_char(c, d);
    proof {
        assert(method@ =~= first_word(line@));
        assert(after_word(line@) =~= line@.skip(b as int));
        assert(target@ =~= first_word(after_word(line@)));
    }
    (method.to_owned(), target.to_owned())
}

/// A character as it stands among small letters.
pub open spec fn lowered(c: char) -> char {
    if 'A' <= c <= 'Z' {
        (c as u32 + 32) as char
    } else {
        c
    }
}

/// Whether a text begins with a word of small letters, however it is written.
pub open spec fn begins_lowered(text: Seq<char>, word: Seq<char>) -> bool {
    &&& word.len() <= text.len()
    &&& forall|i: int| 0 <= i < word.len() ==> #[trigger] lowered(text[i]) == word[i]
}

fn same_lowered(c: char, small: char) -> (r: bool)
    ensures
        r == (lowered(c) == small),
{
    let n: u32 = c as u32;
    let m: u32 = small as u32;
    if n >= 0x41 && n <= 0x5a {
        n + 32 == m
    } else {
        n == m
    }
}

/// The length that a header gives for the body, if it is the header that gives
/// it.
pub open spec fn declared_length(header: Seq<char>) -> Option<u64> {
    let name = "content-length:"@;
    if begins_lowered(header, name) {
        parsed_u64(unspaced_back(unspaced_front(header.skip(name.len() as int))))
    } else {
        None
    }
}

/// Reads the length of the body out of a header.
pub fn content_length(header: &str) -> (r: Option<u64>)
    ensures
        r == declared_length(header@),
{
    let name = "content-length:";
    let skipped: usize = name.unicode_len();
    let len: usize = header.unicode_len();
    if len < skipped {
        return None;
    }
    let mut i: usize = 0;
    while i < skipped
        invariant
            i <= skipped <= len,
            skipped == name@.len(),
            name@ == "content-length:"@,
            len == header@.len(),
            forall|k: int| 0 <= k < i ==> #[trigger] lowered(header@[k]) == name@[k],
        decreases skipped - i,
    {
        if !same_lowered(header.get_char(i), name.get_char(i)) {
            assert(lowered(header@[i as int]) != name@[i as int]);
            return None;
        }
        i = i + 1;
    }
    let start: usize = skip_spaces(header, skipped, len);
    let mut end: usize = len;
    assert(header@.subrange(start as int, end as int) =~= header@.skip(start as int));
    while end > start && space(header.get_char(end - 1))
        invariant
            start <= end <= len,
            len == header@.len(),
            unspaced_back(header@.skip(start as int)) == unspaced_back(header@.subrange(start as int, end as int)),
        decreases end - start,
    {
        proof {
            let part = header@.subrange(start as int, end as int);
            assert(part.last() == header@[end - 1]);
            assert(part.drop_last() =~= header@.subrange(start as int, end - 1));
        }
        end = end - 1;
    }
    let value = header.substring_char(start, end);
    proof {
        assert(value@ =~= header@.subrange(start as int, end as int));
        if end > start {
            assert(value@.last() == header@[end - 1]);
        }
        assert(unspaced_back(value@) == value@);
    }
    parse_u64(value)
}

/// What a body asks to be appended: the branch, the stream and the payload.
#[derive(Debug)]
pub struct AppendFields {
    pub branch: BranchId,
    pub stream: String,
    pub payload: String,
}

/// The branch that a field names: the default branch where it names none.
pub open spec fn named_branch(field: Option<Seq<char>>) -> core::result::Result<Seq<u8>, Seq<char>> {
    match field {
        None => Ok(crate::bytes::zero16()),
        Some(text) => branch_text(text),
    }
}

fn read_branch(field: &Option<String>) -> (r: core::result::Result<BranchId, String>)
    ensures
        match named_branch(text_view(*field)) {
            Ok(id) => r matches Ok(branch) && branch@ == id,
            Err(text) => r matches Err(e) && e@ == text,
        },
{
    match field {
        None => Ok(BranchId::zero()),
        Some(text) => parse_hex(text.as_str()),
    }
}

/// What the fields of a body ask to be appended, or what is wrong with them.
pub open spec fn append_asked(stream: Option<Seq<char>>, payload: Option<Seq<char>>, branch: Option<Seq<char>>) -> core::result::Result<
    (Seq<u8>, Seq<char>, Seq<char>),
    Seq<char>,
> {
    if stream is None || stream->0.len() == 0 {
        Err("missing \"stream\""@)
    } else if payload is None {
        Err("missing \"payload\""@)
    } else {
        match named_branch(branch) {
            Err(text) => Err(text),
            Ok(id) => Ok((id, stream->0, payload->0)),
        }
    }
}

/// Takes the fields of a body that asks for an append.
pub fn choose_append(stream: Option<String>, payload: Option<String>, branch: Option<String>) -> (r: core::result::Result<
    AppendFields,
    String,
>)
    ensures
        match append_asked(text_view(stream), text_view(payload), text_view(branch)) {
            Ok((id, name, text)) => r matches Ok(fields) && fields.branch@ == id && fields.stream@ == name && fields.payload@ == text,
            Err(text) => r matches Err(e) && e@ == text,
        },
{
    let stream = match stream {
        Some(stream) => stream,
        None => return Err("missing \"stream\"".to_owned()),
    };
    if stream.as_str().is_empty() {
        return Err("missing \"stream\"".to_owned());
    }
    let payload = match payload {
        Some(payload) => payload,
        None => return Err("missing \"payload\"".to_owned()),
    };
    match read_branch(&branch) {
        Ok(branch) => Ok(AppendFields { branch, stream, payload }),
        Err(e) => Err(e),
    }
}

/// Reads a body that asks for an append.
pub fn append_fields(body: &[u8]) -> (r: core::result::Result<AppendFields, String>)
    ensures
        match json_fault(body@) {
            Some(fault) => r matches Err(e) && e@ == fault,
            None => match append_asked(
                json_text_of(body@, "stream"@),
                json_part_of(body@, "payload"@),
                json_text_of(body@, "branch"@),
            ) {
                Ok((id, name, text)) => r matches Ok(fields) && fields.branch@ == id && fields.stream@ == name && fields.payload@
                    == text,
                Err(text) => r matches Err(e) && e@ == text,
            },
        },
{
    match check_json(body) {
        Some(fault) => return Err(fault),
        None => {},
    }
    choose_append(json_text(body, "stream"), json_part(body, "payload"), json_text(body, "branch"))
}

/// What a body asks to be forked: the parent, the position and the name.
#[derive(Debug)]
pub struct ForkFields {
    pub parent: BranchId,
    pub at: u64,
    pub name: String,
}

/// What the fields of a body ask to be forked, or what is wrong with them.
pub open spec fn fork_asked(branch: Option<Seq<char>>, at: Option<u64>, name: Option<Seq<char>>) -> core::result::Result<
    (Seq<u8>, u64, Seq<char>),
    Seq<char>,
> {
    match named_branch(branch) {
        Err(text) => Err(text),
        Ok(id) => if at is None {
            Err("missing \"at\""@)
        } else if name is None || name->0.len() == 0 {
            Err("missing \"name\""@)
        } else {
            Ok((id, at->0, name->0))
        },
    }
}

/// Takes the fields of a body that asks for a fork.
pub fn choose_fork(branch: Option<String>, at: Option<u64>, name: Option<String>) -> (r: core::result::Result<ForkFields, String>)
    ensures
        match fork_asked(text_view(branch), at, text_view(name)) {
            Ok((id, position, text)) => r matches Ok(fields) && fields.parent@ == id && fields.at == position && fields.name@ == text,
            Err(text) => r matches Err(e) && e@ == text,
        },
{
    let parent = match read_branch(&branch) {
        Ok(parent) => parent,
        Err(e) => return Err(e),
    };
    let at: u64 = match at {
        Some(at) => at,
        None => return Err("missing \"at\"".to_owned()),
    };
    let name = match name {
        Some(name) => name,
        None => return Err("missing \"name\"".to_owned()),
    };
    if name.as_str().is_empty() {
        return Err("missing \"name\"".to_owned());
    }
    Ok(ForkFields { parent, at, name })
}

/// Reads a body that asks for a fork.
pub fn fork_fields(body: &[u8]) -> (r: core::result::Result<ForkFields, String>)
    ensures
        match json_fault(body@) {
            Some(fault) => r matches Err(e) && e@ == fault,
            None => match fork_asked(json_text_of(body@, "branch"@), json_number_of(body@, "at"@), json_text_of(body@, "name"@)) {
                Ok((id, position, text)) => r matches Ok(fields) && fields.parent@ == id && fields.at == position && fields.name@
                    == text,
                Err(text) => r matches Err(e) && e@ == text,
            },
        },
{
    match check_json(body) {
        Some(fault) => return Err(fault),
        None => {},
    }
    choose_fork(json_text(body, "branch"), json_number(body, "at"), json_text(body, "name"))
}

} // verus!
