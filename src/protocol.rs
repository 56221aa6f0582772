use vstd::prelude::*;

use crate::command::{max_response_size_of, wire_id, CommandId};
use crate::key::{key_lt, lemma_key_lt_total, lemma_key_lt_transitive, Key};

verus! {

/// Store `val` under `key`.
#[derive(Debug)]
pub struct PutRequest {
    pub key: String,
    pub val: Vec<u8>,
}

/// The value that was stored under the key before, if any.
#[derive(Debug)]
pub struct PutResponse {
    pub prev_val: Option<Vec<u8>>,
}

/// Fetch the value stored under `key`.
#[derive(Debug)]
pub struct GetRequest {
    pub key: String,
}

/// The stored value, or `None` where the key is not found.
#[derive(Debug)]
pub struct GetResponse {
    pub val: Option<Vec<u8>>,
}

/// Ask for the service's build identifier.
#[derive(Debug)]
pub struct VersionRequest;

/// An opaque build identifier.
#[derive(Debug)]
pub struct VersionResponse(pub String);

/// List stored keys, optionally only those of one effective user id and with a prefix
/// (an empty prefix filters nothing).
#[derive(Debug)]
pub struct ListRequest {
    pub euid: Option<u32>,
    pub prefix: String,
}

/// A request, one variant per command.
#[derive(Debug)]
pub enum Request {
    Put(PutRequest),
    Get(GetRequest),
    Version(VersionRequest),
    List(ListRequest),
}

/// A response, one variant per command.
#[derive(Debug)]
pub enum Response {
    Put(PutResponse),
    Get(GetResponse),
    Version(VersionResponse),
    List(ListResponse),
}

/// The output buffer cannot hold the encoded value.
#[derive(Debug, Clone, Copy, PartialEq, Eq, Structural)]
pub struct BufferTooSmallErr;

/// The input bytes do not decode to a value of the expected shape.
#[derive(Debug, Clone, Copy, PartialEq, Eq, Structural)]
pub struct DecodeErr;

/// A request arrived under a command identifier that is not its own.
#[derive(Debug, Clone, Copy, PartialEq, Eq, Structural)]
pub struct CommandMismatch {
    /// The identifier it arrived under.
    pub received: u32,
    /// The request's own command.
    pub expected: CommandId,
}

/// The command each request variant belongs to.
pub open spec fn request_command(r: &Request) -> CommandId {
    match r {
        Request::Put(_) => CommandId::Put,
        Request::Get(_) => CommandId::Get,
        Request::Version(_) => CommandId::Version,
        Request::List(_) => CommandId::List,
    }
}

/// The command each response variant answers.
pub open spec fn response_command(r: &Response) -> CommandId {
    match r {
        Response::Put(_) => CommandId::Put,
        Response::Get(_) => CommandId::Get,
        Response::Version(_) => CommandId::Version,
        Response::List(_) => CommandId::List,
    }
}

impl PutRequest {
    pub fn id(&self) -> (r: CommandId)
        ensures
            r == CommandId::Put,
    {
        CommandId::Put
    }

    pub fn max_response_size(&self) -> (r: u32)
        ensures
            r == max_response_size_of(CommandId::Put),
    {
        CommandId::Put.max_response_size()
    }
}

impl GetRequest {
    pub fn id(&self) -> (r: CommandId)
        ensures
            r == CommandId::Get,
    {
        CommandId::Get
    }

    pub fn max_response_size(&self) -> (r: u32)
        ensures
            r == max_response_size_of(CommandId::Get),
    {
        CommandId::Get.max_response_size()
    }
}

impl VersionRequest {
    pub fn id(&self) -> (r: CommandId)
        ensures
            r == CommandId::Version,
    {
        CommandId::Version
    }

    pub fn max_response_size(&self) -> (r: u32)
        ensures
            r == max_response_size_of(CommandId::Version),
    {
        CommandId::Version.max_response_size()
    }
}

impl ListRequest {
    pub fn id(&self) -> (r: CommandId)
        ensures
            r == CommandId::List,
    {
        CommandId::List
    }

    pub fn max_response_size(&self) -> (r: u32)
        ensures
            r == max_response_size_of(CommandId::List),
    {
        CommandId::List.max_response_size()
    }
}

impl Request {
    /// The command this request belongs to.
    pub fn id(&self) -> (r: CommandId)
        ensures
            r == request_command(self),
    {
        match self {
            Request::Put(_) => CommandId::Put,
            Request::Get(_) => CommandId::Get,
            Request::Version(_) => CommandId::Version,
            Request::List(_) => CommandId::List,
        }
    }

    /// The size the caller's receive buffer must have for this request's response.
    pub fn max_response_size(&self) -> (r: u32)
        ensures
            r == max_response_size_of(request_command(self)),
    {
        self.id().max_response_size()
    }

    /// Accepts a decoded request only where it arrived under its own command identifier.
    pub fn for_command(self, raw_id: u32) -> (r: Result<Request, CommandMismatch>)
        ensures
            raw_id == wire_id(request_command(&self)) ==> r == Ok::<Request, CommandMismatch>(self),
            raw_id != wire_id(request_command(&self)) ==> r == Err::<Request, CommandMismatch>(
                CommandMismatch { received: raw_id, expected: request_command(&self) },
            ),
    {
        let expected = self.id();
        if expected.as_u32() == raw_id {
            Ok(self)
        } else {
            Err(CommandMismatch { received: raw_id, expected })
        }
    }
}

impl Response {
    /// The command this response answers.
    pub fn id(&self) -> (r: CommandId)
        ensures
            r == response_command(self),
    {
        match self {
            Response::Put(_) => CommandId::Put,
            Response::Get(_) => CommandId::Get,
            Response::Version(_) => CommandId::Version,
            Response::List(_) => CommandId::List,
        }
    }

    /// Whether this response is of the variant that answers `req`.
    pub fn answers(&self, req: &Request) -> (r: bool)
        ensures
            r == (response_command(self) == request_command(req)),
    {
        self.id() == req.id()
    }
}

/// Copies an encoded value into the front of a caller's fixed-size buffer. Where it does
/// not fit, the buffer is left as it was.
pub fn serialize_into(encoded: &[u8], out_buf: &mut [u8]) -> (r: Result<usize, BufferTooSmallErr>)
    ensures
        final(out_buf)@.len() == old(out_buf)@.len(),
        encoded@.len() <= old(out_buf)@.len() ==> r == Ok::<usize, BufferTooSmallErr>(
            encoded@.len() as usize,
        ) && final(out_buf)@ == encoded@ + old(out_buf)@.skip(encoded@.len() as int),
        encoded@.len() > old(out_buf)@.len() ==> r == Err::<usize, BufferTooSmallErr>(
            BufferTooSmallErr,
        ) && final(out_buf)@ == old(out_buf)@,
{
    let n = encoded.len();
    if out_buf.len() < n {
        return Err(BufferTooSmallErr);
    }
    let mut i: usize = 0;
    while i < n
        invariant
            n == encoded@.len(),
            n <= out_buf@.len(),
            i <= n,
            out_buf@.len() == old(out_buf)@.len(),
            out_buf@ =~= encoded@.take(i as int) + old(out_buf)@.skip(i as int),
        decreases n - i,
    {
        out_buf[i] = encoded[i];
        i = i + 1;
    }
    assert(encoded@.take(n as int) =~= encoded@);
    Ok(n)
}

/// Keys in strictly ascending key order: sorted, and no key twice.
pub open spec fn strictly_ascending(s: Seq<(u32, Seq<char>)>) -> bool {
    forall|i: int, j: int| 0 <= i < j < s.len() ==> key_lt(#[trigger] s[i], #[trigger] s[j])
}

/// The views of a sequence of keys.
pub open spec fn key_views(keys: Seq<Key>) -> Seq<(u32, Seq<char>)> {
    keys.map_values(|k: Key| k@)
}

/// The keys that a list command found, in ascending key order without duplicates.
#[derive(Debug)]
pub struct ListResponse {
    keys: Vec<Key>,
}

impl ListResponse {
    pub closed spec fn view_keys(&self) -> Seq<(u32, Seq<char>)> {
        key_views(self.keys@)
    }

    /// The keys are always in strictly ascending order.
    #[verifier::type_invariant]
    pub closed spec fn wf(&self) -> bool {
        strictly_ascending(self.view_keys())
    }

    /// The response for a collection of found keys: each distinct key once, in ascending order.
    pub fn from_keys(keys: Vec<Key>) -> (r: ListResponse)
        ensures
            strictly_ascending(r.view_keys()),
            r.view_keys().to_set() == key_views(keys@).to_set(),
    {
        let ghost orig = key_views(keys@);
        let mut rest = keys;
        let mut out: Vec<Key> = Vec::new();
        while rest.len() > 0
            invariant
                strictly_ascending(key_views(out@)),
                forall|v: (u32, Seq<char>)|
                    orig.contains(v) <==> (key_views(rest@).contains(v) || key_views(
                        out@,
                    ).contains(v)),
            decreases rest@.len(),
        {
            let ghost before_rest = key_views(rest@);
            let ghost before_out = key_views(out@);
            let k = rest.pop().unwrap();
            assert(before_rest =~= key_views(rest@).push(k@));
            let mut p: usize = 0;
            while p < out.len() && out[p].compare(&k) < 0
                invariant
                    p <= out@.len(),
                    forall|q: int| 0 <= q < p ==> key_lt(#[trigger] key_views(out@)[q], k@),
                decreases out@.len() - p,
            {
                p = p + 1;
            }
            if p < out.len() && out[p].compare(&k) == 0 {
                assert(key_views(out@)[p as int] == k@);
            } else {
                proof {
                    if p < out@.len() {
                        lemma_key_lt_total(key_views(out@)[p as int], k@);
                    }
                }
                let ghost views = key_views(out@);
                out.insert(p, k);
                let ghost nviews = key_views(out@);
                assert(nviews =~= views.insert(p as int, k@));
                assert forall|i: int, j: int| 0 <= i < j < nviews.len() implies key_lt(
                    #[trigger] nviews[i],
                    #[trigger] nviews[j],
                ) by {
                    if j == p {
                        assert(nviews[i] == views[i]);
                    } else if i == p {
                        assert(nviews[j] == views[j - 1]);
                        if j - 1 > p {
                            lemma_key_lt_transitive(k@, views[p as int], views[j - 1]);
                        }
                    } else if i < p && j > p {
                        assert(nviews[i] == views[i]);
                        assert(nviews[j] == views[j - 1]);
                    } else if j < p {
                        assert(nviews[i] == views[i]);
                        assert(nviews[j] == views[j]);
                    } else {
                        assert(nviews[i] == views[i - 1]);
                        assert(nviews[j] == views[j - 1]);
                    }
                }
            }
            assert forall|v: (u32, Seq<char>)|
                orig.contains(v) <==> (key_views(rest@).contains(v) || key_views(
                    out@,
                ).contains(v)) by {
                if before_out.contains(v) {
                    let w = choose|w: int| 0 <= w < before_out.len() && before_out[w] == v;
                    if w >= p && key_views(out@).len() > before_out.len() {
                        assert(key_views(out@)[w + 1] == v);
                    } else {
                        assert(key_views(out@)[w] == v);
                    }
                }
                if key_views(out@).contains(v) && v != k@ {
                    let w = choose|w: int| 0 <= w < key_views(out@).len() && key_views(out@)[w] == v;
                    if w > p && key_views(out@).len() > before_out.len() {
                        assert(before_out[w - 1] == v);
                    } else if w < p || key_views(out@).len() == before_out.len() {
                        assert(before_out[w] == v);
                    }
                }
                if v == k@ {
                    assert(before_rest[before_rest.len() - 1] == v);
                    assert(key_views(out@)[p as int] == v);
                }
                if key_views(rest@).contains(v) {
                    let w = choose|w: int| 0 <= w < key_views(rest@).len() && key_views(rest@)[w] == v;
                    assert(before_rest[w] == v);
                }
                if before_rest.contains(v) && v != k@ {
                    let w = choose|w: int| 0 <= w < before_rest.len() && before_rest[w] == v;
                    assert(key_views(rest@)[w] == v);
                }
            }
        }
        proof {
            assert(key_views(rest@).len() == 0);
            assert(key_views(out@).to_set() =~= orig.to_set());
        }
        ListResponse { keys: out }
    }

    /// The keys, in ascending order.
    pub fn keys(&self) -> (r: &Vec<Key>)
        ensures
            key_views(r@) == self.view_keys(),
            strictly_ascending(key_views(r@)),
    {
        proof {
            use_type_invariant(self);
        }
        &self.keys
    }

    /// Whether `key` is among the keys.
    pub fn contains(&self, key: &Key) -> (r: bool)
        ensures
            r == self.view_keys().contains(key@),
    {
        let mut i: usize = 0;
        while i < self.keys.len()
            invariant
                i <= self.keys@.len(),
                forall|j: int| 0 <= j < i ==> #[trigger] self.view_keys()[j] != key@,
            decreases self.keys@.len() - i,
        {
            if self.keys[i].compare(key) == 0 {
                assert(self.view_keys()[i as int] == key@);
                return true;
            }
            i = i + 1;
        }
        false
    }
}

} // verus!
