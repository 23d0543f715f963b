//! What the playground makes of a request: its path and its parameters, the
//! branch that it speaks of, and what it asks for.
use crate::bytes::zero16;
use crate::format::ids::BranchId;
use crate::text::{join2, pair_value, quote, quoted, read_pair, same_text};
use vstd::prelude::*;
use vstd::utf8::{decode_utf8, encode_utf8, valid_utf8};

verus! {

/// The bytes of a parameter from one on: escapes stand for the byte they spell,
/// a plus sign for a space, and a percent sign that begins no escape for itself.
pub open spec fn unescaped(bytes: Seq<u8>, i: int) -> Seq<u8>
    decreases bytes.len() - i,
{
    if i < 0 || i >= bytes.len() {
        Seq::empty()
    } else if bytes[i] == 0x25 && i + 2 < bytes.len() && pair_value(bytes[i + 1], bytes[i + 2]) is Some {
        seq![pair_value(bytes[i + 1], bytes[i + 2])->0] + unescaped(bytes, i + 3)
    } else if bytes[i] == 0x2b {
        seq![0x20u8] + unescaped(bytes, i + 1)
    } else {
        seq![bytes[i]] + unescaped(bytes, i + 1)
    }
}

/// The text that bytes are shown as where they may be no UTF-8.
pub uninterp spec fn lossy_text_of(bytes: Seq<u8>) -> Seq<char>;

/// `String::from_utf8_lossy`: bytes that are UTF-8 give the text that they
/// encode; what others give depends on them alone, and is named.
#[verifier::external_body]
fn lossy_text(bytes: &[u8]) -> (r: String)
    ensures
        r@ == lossy_text_of(bytes@),
        valid_utf8(bytes@) ==> r@ == decode_utf8(bytes@),
{
    String::from_utf8_lossy(bytes).into_owned()
}

/// The bytes that a parameter stands for.
pub fn unescape(value: &str) -> (r: Vec<u8>)
    ensures
        r@ == unescaped(encode_utf8(value@), 0),
{
    let bytes = value.as_bytes();
    let mut out: Vec<u8> = Vec::new();
    let mut i: usize = 0;
    assert(out@ + unescaped(bytes@, 0) =~= unescaped(bytes@, 0));
    while i < bytes.len()
        invariant
            i <= bytes@.len(),
            out@ + unescaped(bytes@, i as int) == unescaped(bytes@, 0),
        decreases bytes@.len() - i,
    {
        let ghost before = out@;
        let ghost at = i as int;
        let pair: Option<u8> = if bytes[i] == 0x25 && bytes.len() - i > 2 {
            read_pair(bytes[i + 1], bytes[i + 2])
        } else {
            None
        };
        match pair {
            Some(byte) => {
                out.push(byte);
                i = i + 3;
                assert(before + (seq![byte] + unescaped(bytes@, at + 3)) =~= out@ + unescaped(bytes@, at + 3));
            },
            None => {
                let byte: u8 = if bytes[i] == 0x2b {
                    0x20
                } else {
                    bytes[i]
                };
                out.push(byte);
                i = i + 1;
                assert(before + (seq![byte] + unescaped(bytes@, at + 1)) =~= out@ + unescaped(bytes@, at + 1));
            },
        }
    }
    assert(out@ + Seq::<u8>::empty() =~= out@);
    out
}

/// The text that a parameter stands for.
pub fn percent_decode(value: &str) -> (r: String)
    ensures
        r@ == lossy_text_of(unescaped(encode_utf8(value@), 0)),
        valid_utf8(unescaped(encode_utf8(value@), 0)) ==> r@ == decode_utf8(unescaped(encode_utf8(value@), 0)),
{
    lossy_text(unescape(value).as_slice())
}

/// Where a character first stands in a text, or the text's length.
pub open spec fn first_of(text: Seq<char>, c: char) -> int
    decreases text.len(),
{
    if text.len() == 0 || text[0] == c {
        0
    } else {
        1 + first_of(text.skip(1), c)
    }
}

proof fn lemma_first_of(text: Seq<char>, c: char, n: int)
    requires
        0 <= n <= text.len(),
        forall|i: int| 0 <= i < n ==> #[trigger] text[i] != c,
        n == text.len() || text[n] == c,
    ensures
        first_of(text, c) == n,
    decreases text.len(),
{
    if n > 0 {
        assert(text[0] != c);
        let rest = text.skip(1);
        assert forall|i: int| 0 <= i < n - 1 implies #[trigger] rest[i] != c by {
            assert(rest[i] == text[i + 1]);
        }
        lemma_first_of(rest, c, n - 1);
    }
}

fn find_first(text: &str, c: char) -> (n: usize)
    ensures
        n == first_of(text@, c),
        n <= text@.len(),
        n < text@.len() ==> text@[n as int] == c,
{
    let len: usize = text.unicode_len();
    let mut n: usize = 0;
    while n < len && text.get_char(n) != c
        invariant
            n <= len,
            len == text@.len(),
            forall|i: int| 0 <= i < n ==> #[trigger] text@[i] != c,
        decreases len - n,
    {
        n = n + 1;
    }
    proof {
        lemma_first_of(text@, c, n as int);
    }
    n
}

/// The path of a request's target: what comes before the first question mark.
pub open spec fn path_of(target: Seq<char>) -> Seq<char> {
    target.take(first_of(target, '?'))
}

/// The parameters of a request's target, still in one text.
pub open spec fn query_of(target: Seq<char>) -> Seq<char> {
    if first_of(target, '?') < target.len() {
        target.skip(first_of(target, '?') + 1)
    } else {
        Seq::empty()
    }
}

/// The parameters of a text: those between ampersands that hold an equals sign,
/// each a name and a value as it stands.
pub open spec fn raw_parameters(query: Seq<char>) -> Seq<(Seq<char>, Seq<char>)>
    decreases query.len(),
{
    if query.len() == 0 {
        Seq::empty()
    } else {
        let end = first_of(query, '&');
        let part = query.take(end);
        let equals = first_of(part, '=');
        let rest = if 0 <= end < query.len() {
            raw_parameters(query.skip(end + 1))
        } else {
            Seq::empty()
        };
        if equals < part.len() {
            seq![(part.take(equals), part.skip(equals + 1))] + rest
        } else {
            rest
        }
    }
}

/// A parameter: its name as it stands, and the text that its value stands for.
#[derive(Debug)]
pub struct Parameter {
    pub name: String,
    pub value: String,
}

/// Whether parameters are those of a text.
pub open spec fn parameters_of(out: Seq<Parameter>, query: Seq<char>) -> bool {
    &&& out.len() == raw_parameters(query).len()
    &&& forall|i: int|
        0 <= i < out.len() ==> (#[trigger] out[i]).name@ == raw_parameters(query)[i].0 && out[i].value@ == lossy_text_of(
            unescaped(encode_utf8(raw_parameters(query)[i].1), 0),
        )
}

fn read_parameters(query: &str) -> (out: Vec<Parameter>)
    ensures
        parameters_of(out@, query@),
{
    let ghost all = raw_parameters(query@);
    let len: usize = query.unicode_len();
    let mut out: Vec<Parameter> = Vec::new();
    let mut at: usize = 0;
    let ghost mut done = Seq::<(Seq<char>, Seq<char>)>::empty();
    proof {
        assert(query@.skip(0) =~= query@);
        assert(done + all =~= all);
    }
    while at < len
        invariant
            at <= len,
            len == query@.len(),
            all == raw_parameters(query@),
            done + raw_parameters(query@.skip(at as int)) == all,
            out@.len() == done.len(),
            forall|i: int|
                0 <= i < out@.len() ==> (#[trigger] out@[i]).name@ == done[i].0 && out@[i].value@ == lossy_text_of(
                    unescaped(encode_utf8(done[i].1), 0),
                ),
        decreases len - at,
    {
        let rest = query.substring_char(at, len);
        assert(rest@ =~= query@.skip(at as int));
        let end: usize = find_first(rest, '&');
        let part = rest.substring_char(0, end);
        assert(part@ =~= rest@.take(end as int));
        let equals: usize = find_first(part, '=');
        let next: usize = if end < len - at {
            at + end + 1
        } else {
            len
        };
        let ghost tail = raw_parameters(query@.skip(next as int));
        proof {
            if end < rest@.len() {
                assert(rest@.skip(end + 1) =~= query@.skip(next as int));
            } else {
                assert(query@.skip(next as int) =~= Seq::empty());
            }
        }
        if equals < end {
            let name = part.substring_char(0, equals);
            let value = part.substring_char(equals + 1, end);
            proof {
                assert(name@ =~= part@.take(equals as int));
                assert(value@ =~= part@.skip(equals + 1));
                let pair = (name@, value@);
                assert(done + (seq![pair] + tail) =~= done.push(pair) + tail);
                done = done.push(pair);
            }
            out.push(Parameter { name: name.to_owned(), value: percent_decode(value) });
        }
        at = next;
    }
    proof {
        assert(query@.skip(at as int) =~= Seq::empty());
        assert(done + Seq::<(Seq<char>, Seq<char>)>::empty() =~= done);
    }
    out
}

/// The path and the parameters of a request's target.
pub fn split_target(target: &str) -> (r: (String, Vec<Parameter>))
    ensures
        r.0@ == path_of(target@),
        parameters_of(r.1@, query_of(target@)),
{
    let at: usize = find_first(target, '?');
    let path = target.substring_char(0, at);
    assert(path@ =~= path_of(target@));
    let len: usize = target.unicode_len();
    if at < len {
        let query = target.substring_char(at + 1, len);
        assert(query@ =~= query_of(target@));
        (path.to_owned(), read_parameters(query))
    } else {
        (path.to_owned(), Vec::new())
    }
}

/// Why a text is no branch's identity, or the identity: thirty-two characters
/// that spell sixteen bytes.
pub open spec fn branch_text(value: Seq<char>) -> core::result::Result<Seq<u8>, Seq<char>> {
    let bytes = encode_utf8(value);
    if bytes.len() != 32 {
        Err("bad branch id "@ + quoted(value))
    } else if exists|i: int| 0 <= i < 16 && #[trigger] pair_value(bytes[2 * i], bytes[2 * i + 1]) is None {
        Err("bad branch id"@)
    } else {
        Ok(Seq::new(16, |i: int| pair_value(bytes[2 * i], bytes[2 * i + 1])->0))
    }
}

/// The branch that a text gives.
pub fn parse_hex(value: &str) -> (r: core::result::Result<BranchId, String>)
    ensures
        match branch_text(value@) {
            Ok(id) => r matches Ok(branch) && branch@ == id,
            Err(text) => r matches Err(e) && e@ == text,
        },
{
    let bytes = value.as_bytes();
    if bytes.len() != 32 {
        return Err(join2("bad branch id ", quote(value).as_str()));
    }
    let mut id: [u8; 16] = [0; 16];
    let mut i: usize = 0;
    while i < 16
        invariant
            i <= 16,
            bytes@.len() == 32,
            bytes@ == encode_utf8(value@),
            forall|j: int|
                0 <= j < i ==> (#[trigger] pair_value(bytes@[2 * j], bytes@[2 * j + 1])) is Some && id@[j] == pair_value(
                    bytes@[2 * j],
                    bytes@[2 * j + 1],
                )->0,
        decreases 16 - i,
    {
        match read_pair(bytes[2 * i], bytes[2 * i + 1]) {
            Some(byte) => {
                id[i] = byte;
            },
            None => {
                assert(pair_value(bytes@[2 * (i as int)], bytes@[2 * (i as int) + 1]) is None);
                return Err("bad branch id".to_owned());
            },
        }
        i = i + 1;
    }
    assert(id@ =~= branch_text(value@)->Ok_0);
    Ok(BranchId::from_bytes(id))
}

/// Where a parameter first has a name.
pub open spec fn parameter_named(parameters: Seq<Parameter>, name: Seq<char>) -> Option<int>
    decreases parameters.len(),
{
    if parameters.len() == 0 {
        None
    } else {
        match parameter_named(parameters.drop_last(), name) {
            Some(i) => Some(i),
            None => if parameters.last().name@ == name {
                Some(parameters.len() - 1)
            } else {
                None
            },
        }
    }
}

proof fn lemma_parameter_named(parameters: Seq<Parameter>, name: Seq<char>, n: int)
    requires
        0 <= n <= parameters.len(),
        parameter_named(parameters.take(n), name) is Some,
    ensures
        parameter_named(parameters, name) == parameter_named(parameters.take(n), name),
    decreases parameters.len(),
{
    if n == parameters.len() {
        assert(parameters.take(n) =~= parameters);
    } else {
        assert(parameters.drop_last().take(n) =~= parameters.take(n));
        lemma_parameter_named(parameters.drop_last(), name, n);
    }
}

/// The branch that a request speaks of: the default one unless a parameter gives
/// another.
pub fn branch_param(parameters: &Vec<Parameter>) -> (r: core::result::Result<BranchId, String>)
    ensures
        match parameter_named(parameters@, "branch"@) {
            None => r matches Ok(branch) && branch@ == zero16(),
            Some(i) => match branch_text(parameters@[i].value@) {
                Ok(id) => r matches Ok(branch) && branch@ == id,
                Err(text) => r matches Err(e) && e@ == text,
            },
        },
{
    let mut i: usize = 0;
    assert(parameters@.take(0) =~= Seq::empty());
    while i < parameters.len()
        invariant
            i <= parameters@.len(),
            parameter_named(parameters@.take(i as int), "branch"@) is None,
        decreases parameters@.len() - i,
    {
        proof {
            assert(parameters@.take(i + 1).drop_last() =~= parameters@.take(i as int));
            assert(parameters@.take(i + 1).last() == parameters@[i as int]);
        }
        if same_text(parameters[i].name.as_str(), "branch") {
            proof {
                lemma_parameter_named(parameters@, "branch"@, i + 1);
            }
            return parse_hex(parameters[i].value.as_str());
        }
        i = i + 1;
    }
    assert(parameters@.take(i as int) =~= parameters@);
    Ok(BranchId::zero())
}

/// What a request asks for.
#[derive(Debug, Clone, Copy, PartialEq, Eq, Structural)]
pub enum Route {
    Page,
    State,
    Events,
    Append,
    Fork,
    NotFound,
}

/// What a request asks for.
pub open spec fn routed(method: Seq<char>, path: Seq<char>) -> Route {
    if method == "GET"@ && path == "/"@ {
        Route::Page
    } else if method == "GET"@ && path == "/api/state"@ {
        Route::State
    } else if method == "GET"@ && path == "/api/events"@ {
        Route::Events
    } else if method == "POST"@ && path == "/api/append"@ {
        Route::Append
    } else if method == "POST"@ && path == "/api/fork"@ {
        Route::Fork
    } else {
        Route::NotFound
    }
}

/// What a request asks for.
pub fn route(method: &str, path: &str) -> (r: Route)
    ensures
        r == routed(method@, path@),
{
    let get = same_text(method, "GET");
    let post = same_text(method, "POST");
    if get && same_text(path, "/") {
        Route::Page
    } else if get && same_text(path, "/api/state") {
        Route::State
    } else if get && same_text(path, "/api/events") {
        Route::Events
    } else if post && same_text(path, "/api/append") {
        Route::Append
    } else if post && same_text(path, "/api/fork") {
        Route::Fork
    } else {
        Route::NotFound
    }
}

} // verus!
