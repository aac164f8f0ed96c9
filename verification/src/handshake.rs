//! Where the edit server listens, and who may connect to it.
use crate::keys::{base64_url_safe, create_secure_key, encode_key_string, EncodedKey};
use crate::keys::{is_drawn, key_text_is_injective, key_text_is_url_safe, next_key_bytes};
use crate::text::{append_decimal, chars_of, find_char, read_unsigned, trim_range, Trim};
use crate::text::{before, decimal, decimal_reads_back, lemma_decimal_value, parse_unsigned};
use crate::text::{decimal_is_the_numeral, split_is_at_the_first, trim_takes_both_ends};
use crate::text::{split_once, trim_end, trim_start, trimmed};
use subtle::ConstantTimeEq;
use vstd::prelude::*;
use vstd::string::*;

verus! {

/// The port of the edit server and the keys with which both ends identify themselves.
#[derive(Clone, Copy, PartialEq, Eq, Hash)]
pub struct ServerLocation {
    /// The port the websocket is on
    pub port: u16,
    /// A key that every websocket connection that originates from this application will use to identify itself.
    /// We use this to make sure no external applications can connect to our websocket and receive UI updates.
    pub client_key: EncodedKey,
    /// The key that the server must respond with for the client to connect to the websocket
    pub server_key: EncodedKey,
}

/// What an accepted handshake says of the connection.
#[derive(Clone, Copy, PartialEq, Eq, Structural, Debug)]
pub struct Handshake {
    /// The webview that connects.
    pub webview_id: u32,
    /// The place of the connection among those of its webview: a later one is greater.
    pub generation: u64,
}

/// Why a handshake is refused.
#[derive(Clone, Copy, PartialEq, Eq, Structural, Debug)]
pub enum HandshakeError {
    /// The first segment of the path is no webview id.
    InvalidWebviewId,
    /// The path has no second segment.
    MissingKey,
    /// The second segment of the path is not the client key.
    InvalidKey,
}

/// The generation that a query asks for: the number behind `generation=`, or zero where
/// there is no such query or no such number.
pub open spec fn requested_generation(query: Option<Seq<char>>) -> nat {
    match query {
        Some(text) => if "generation="@.is_prefix_of(text) {
            match parse_unsigned(text.skip("generation="@.len() as int), u64::MAX as nat) {
                Some(generation) => generation,
                None => 0,
            }
        } else {
            0
        },
        None => 0,
    }
}

/// What a request for `/webview_id/key` is answered: the slashes around the path do not
/// count, and segments behind the key are ignored.
pub open spec fn handshake_answer(
    path: Seq<char>,
    query: Option<Seq<char>>,
    client_key: Seq<u8>,
) -> Result<Handshake, HandshakeError> {
    let inner = trimmed(path, Trim::Slash);
    match parse_unsigned(before(inner, '/'), u32::MAX as nat) {
        None => Err(HandshakeError::InvalidWebviewId),
        Some(webview_id) => match split_once(inner, '/') {
            None => Err(HandshakeError::MissingKey),
            Some((_, rest)) => if before(rest, '/') == base64_url_safe(client_key) {
                Ok(
                    Handshake {
                        webview_id: webview_id as u32,
                        generation: requested_generation(query) as u64,
                    },
                )
            } else {
                Err(HandshakeError::InvalidKey)
            },
        },
    }
}

/// The path that a webview requests: its id and the text of the client key.
pub open spec fn request_path(webview_id: u32, client_key: Seq<u8>) -> Seq<char> {
    "/"@ + decimal(webview_id as nat) + "/"@ + base64_url_safe(client_key)
}

/// Calls `subtle::ConstantTimeEq::ct_eq` on two byte slices.
///
/// Believed: the choice is true exactly where the slices have the same length and the
/// same bytes. That the time taken does not depend on the bytes is not stated.
#[verifier::external_body]
fn ct_eq_bytes(x: &[u8], y: &[u8]) -> (equal: bool)
    ensures
        equal == (x@ == y@),
{
    x.ct_eq(y).into()
}

/// Compares two keys in constant time.
///
/// VERY IMPORTANT: ordinary string comparison would reveal how much of a guessed key is
/// right by the time it takes.
fn key_matches(expected: &str, given: &str) -> (equal: bool)
    ensures
        equal == (expected@ == given@),
{
    proof {
        vstd::utf8::encode_utf8_decode_utf8(expected@);
        vstd::utf8::encode_utf8_decode_utf8(given@);
    }
    ct_eq_bytes(expected.as_bytes(), given.as_bytes())
}

fn has_prefix(chars: &Vec<char>, prefix: &Vec<char>) -> (found: bool)
    ensures
        found == prefix@.is_prefix_of(chars@),
{
    if chars.len() < prefix.len() {
        return false;
    }
    let mut i: usize = 0;
    while i < prefix.len()
        invariant
            i <= prefix@.len() <= chars@.len(),
            forall|j: int| 0 <= j < i ==> prefix@[j] == chars@[j],
        decreases prefix@.len() - i,
    {
        if chars[i] != prefix[i] {
            assert(chars@.take(prefix@.len() as int)[i as int] != prefix@[i as int]);
            return false;
        }
        i = i + 1;
    }
    assert(prefix@ =~= chars@.take(prefix@.len() as int));
    true
}

/// Reads the generation that a query asks for.
pub fn connection_generation(query: Option<&str>) -> (generation: u64)
    ensures
        generation == requested_generation(
            match query {
                Some(text) => Some(text@),
                None => None,
            },
        ),
{
    match query {
        Some(text) => {
            let chars = chars_of(text);
            let prefix = chars_of("generation=");
            if has_prefix(&chars, &prefix) {
                let from = prefix.len();
                let to = chars.len();
                assert(chars@.subrange(from as int, to as int) =~= text@.skip(from as int));
                match read_unsigned(&chars, from, to, u64::MAX) {
                    Some(generation) => generation,
                    None => 0,
                }
            } else {
                0
            }
        },
        None => 0,
    }
}

/// Decides whether a request with this path and query may connect.
pub fn authorize(path: &str, query: Option<&str>, client_key: &EncodedKey) -> (answer: Result<
    Handshake,
    HandshakeError,
>)
    ensures
        answer == handshake_answer(
            path@,
            match query {
                Some(text) => Some(text@),
                None => None,
            },
            client_key@,
        ),
{
    let generation = connection_generation(query);
    let chars = chars_of(path);
    let (from, to) = trim_range(&chars, 0, chars.len(), Trim::Slash);
    assert(chars@.subrange(0, chars@.len() as int) =~= path@);
    let ghost inner = chars@.subrange(from as int, to as int);
    proof {
        inner.index_of_first_ensures('/');
    }
    let slash = find_char(&chars, from, to, '/');
    assert(chars@.subrange(from as int, slash as int) =~= before(inner, '/'));
    let webview_id = match read_unsigned(&chars, from, slash, u32::MAX as u64) {
        Some(webview_id) => webview_id as u32,
        None => return Err(HandshakeError::InvalidWebviewId),
    };
    if slash == to {
        return Err(HandshakeError::MissingKey);
    }
    let ghost rest = chars@.subrange(slash + 1, to as int);
    assert(rest =~= inner.skip(slash - from + 1));
    proof {
        rest.index_of_first_ensures('/');
    }
    let end = find_char(&chars, slash + 1, to, '/');
    assert(path@.subrange(slash + 1, end as int) =~= before(rest, '/'));
    let expected = encode_key_string(client_key);
    if key_matches(expected.as_str(), path.substring_char(slash + 1, end)) {
        Ok(Handshake { webview_id, generation })
    } else {
        Err(HandshakeError::InvalidKey)
    }
}

impl HandshakeError {
    /// The HTTP status with which the refusal is answered.
    pub fn status(&self) -> (status: u16)
        ensures
            status == (match *self {
                HandshakeError::InvalidWebviewId => 400u16,
                HandshakeError::MissingKey => 400u16,
                HandshakeError::InvalidKey => 403u16,
            }),
    {
        match self {
            HandshakeError::InvalidWebviewId => 400,
            HandshakeError::MissingKey => 400,
            HandshakeError::InvalidKey => 403,
        }
    }

    /// The body with which the refusal is answered.
    pub fn message(&self) -> (body: String)
        ensures
            body@ == (match *self {
                HandshakeError::InvalidWebviewId => "Bad Request: Invalid webview ID"@,
                HandshakeError::MissingKey => "Bad Request: Missing key"@,
                HandshakeError::InvalidKey => "Forbidden: Invalid key"@,
            }),
    {
        match self {
            HandshakeError::InvalidWebviewId => "Bad Request: Invalid webview ID".to_owned(),
            HandshakeError::MissingKey => "Bad Request: Missing key".to_owned(),
            HandshakeError::InvalidKey => "Forbidden: Invalid key".to_owned(),
        }
    }
}

/// What has happened on a new socket.
#[derive(Clone, Copy, PartialEq, Eq, Structural, Debug)]
pub enum HandshakeEvent {
    /// The request was refused.
    Refused(HandshakeError),
    /// The socket speaks the websocket protocol from now on.
    Upgraded,
    /// The socket could not be brought to speak it.
    UpgradeFailed,
    /// The server's key was sent.
    KeySent,
    /// The server's key could not be sent.
    KeyFailed,
}

/// What is to be done with a new socket.
#[derive(Clone, Copy, PartialEq, Eq, Structural, Debug)]
pub enum HandshakeAction {
    /// Answer the request with this refusal.
    Refuse(HandshakeError),
    /// Send the server's key, to authenticate the server.
    SendKey,
    /// Let the connection take over.
    TakeOver(Handshake),
    /// Give the socket up.
    GiveUp,
}

/// Decides what is to be done with a new socket, whose request was accepted as `accepted`:
/// its connection takes over only once the server has shown its key.
pub fn after_handshake_event(accepted: Option<Handshake>, event: HandshakeEvent) -> (action:
    HandshakeAction)
    ensures
        action == (match event {
            HandshakeEvent::Refused(error) => HandshakeAction::Refuse(error),
            HandshakeEvent::Upgraded => HandshakeAction::SendKey,
            HandshakeEvent::KeySent => match accepted {
                Some(handshake) => HandshakeAction::TakeOver(handshake),
                None => HandshakeAction::GiveUp,
            },
            HandshakeEvent::UpgradeFailed => HandshakeAction::GiveUp,
            HandshakeEvent::KeyFailed => HandshakeAction::GiveUp,
        }),
        forall|handshake: Handshake|
            action == HandshakeAction::TakeOver(handshake) <==> event == HandshakeEvent::KeySent
                && accepted == Some(handshake),
{
    match event {
        HandshakeEvent::Refused(error) => HandshakeAction::Refuse(error),
        HandshakeEvent::Upgraded => HandshakeAction::SendKey,
        HandshakeEvent::KeySent => match accepted {
            Some(handshake) => HandshakeAction::TakeOver(handshake),
            None => HandshakeAction::GiveUp,
        },
        HandshakeEvent::UpgradeFailed => HandshakeAction::GiveUp,
        HandshakeEvent::KeyFailed => HandshakeAction::GiveUp,
    }
}

impl ServerLocation {
    /// The location of a server that has just been bound to `port`, with keys of its own;
    /// none where the operating system has no entropy for them.
    ///
    /// For security, it is important that the keys are regenerated whenever the server is
    /// started: a client that tries the old port again may show its key to whoever listens
    /// there now.
    pub fn with_new_keys(port: u16) -> (location: Option<ServerLocation>)
        ensures
            location matches Some(location) ==> location.port == port && is_drawn(
                location.client_key@,
            ) && is_drawn(location.server_key@),
            location matches Some(location) ==> (exists|rng: rand::rngs::StdRng|
                location.client_key@ == #[trigger] next_key_bytes(rng)) && (exists|
                rng: rand::rngs::StdRng,
            | location.server_key@ == #[trigger] next_key_bytes(rng)),
    {
        let client_key = create_secure_key();
        let server_key = create_secure_key();
        ServerLocation::with_keys(port, client_key, server_key)
    }

    /// The location of a server on `port` with these keys, if there are both. Each key comes
    /// with its hexadecimal text, which the location does not keep.
    pub fn with_keys(
        port: u16,
        client_key: Option<(EncodedKey, String)>,
        server_key: Option<(EncodedKey, String)>,
    ) -> (location: Option<ServerLocation>)
        ensures
            location == (match (client_key, server_key) {
                (Some((client_key, _)), Some((server_key, _))) => Some(
                    ServerLocation { port, client_key, server_key },
                ),
                _ => None,
            }),
    {
        match (client_key, server_key) {
            (Some((client_key, _)), Some((server_key, _))) => Some(
                ServerLocation { port, client_key, server_key },
            ),
            _ => None,
        }
    }

    /// The websocket address under which `webview_id` reaches this server.
    pub fn address_of(&self, webview_id: u32) -> (address: String)
        ensures
            address@ == "ws://127.0.0.1:"@ + decimal(self.port as nat) + request_path(
                webview_id,
                self.client_key@,
            ),
            address@ == "ws://127.0.0.1:"@ + decimal(self.port as nat) + "/"@ + decimal(
                webview_id as nat,
            ) + "/"@ + base64_url_safe(self.client_key@),
    {
        let mut address = String::new();
        address.append("ws://127.0.0.1:");
        append_decimal(&mut address, self.port as u64);
        address.append("/");
        append_decimal(&mut address, webview_id as u64);
        address.append("/");
        let key = encode_key_string(&self.client_key);
        address.append(key.as_str());
        assert(address@ =~= "ws://127.0.0.1:"@ + decimal(self.port as nat) + request_path(
            webview_id,
            self.client_key@,
        ));
        assert(address@ =~= "ws://127.0.0.1:"@ + decimal(self.port as nat) + "/"@ + decimal(
            webview_id as nat,
        ) + "/"@ + base64_url_safe(self.client_key@));
        address
    }
}

proof fn lemma_request_path_parts(webview_id: u32, key: Seq<u8>)
    requires
        key.len() > 0,
    ensures
        ({
            let inner = trimmed(request_path(webview_id, key), Trim::Slash);
            &&& before(inner, '/') == decimal(webview_id as nat)
            &&& split_once(inner, '/') is Some
            &&& before((split_once(inner, '/')->0).1, '/') == base64_url_safe(key)
        }),
{
    let id = decimal(webview_id as nat);
    let text = base64_url_safe(key);
    let path = request_path(webview_id, key);
    reveal_strlit("/");
    lemma_decimal_value(webview_id as nat);
    let inner = id + "/"@ + text;
    assert(path.drop_first() =~= inner);
    assert('0' <= id[0]);
    assert(inner.first() == id[0]);
    reveal_with_fuel(trim_start, 2);
    assert(trim_start(path, Trim::Slash) == inner);
    key_text_is_url_safe(key, text.len() - 1);
    assert(inner.last() == text.last());
    assert(trim_end(inner, Trim::Slash) == inner);
    inner.index_of_first_ensures('/');
    assert(inner[id.len() as int] == '/');
    assert forall|i: int| 0 <= i < id.len() implies inner[i] != '/' by {
        assert('0' <= id[i]);
    }
    assert(inner.index_of_first('/') == Some(id.len() as int));
    assert(inner.take(id.len() as int) =~= id);
    assert(inner.skip(id.len() as int + 1) =~= text);
    text.index_of_first_ensures('/');
    assert forall|i: int| 0 <= i < text.len() implies text[i] != '/' by {
        key_text_is_url_safe(key, i);
    }
}

/// A webview that requests the path it was given, and asks for a generation, is accepted
/// under its own id and with that generation.
pub proof fn given_address_is_accepted(webview_id: u32, generation: u64, client_key: Seq<u8>)
    requires
        client_key.len() > 0,
    ensures
        handshake_answer(
            request_path(webview_id, client_key),
            Some("generation="@ + decimal(generation as nat)),
            client_key,
        ) == Ok::<Handshake, HandshakeError>(Handshake { webview_id, generation }),
{
    lemma_request_path_parts(webview_id, client_key);
    decimal_reads_back(webview_id as nat, u32::MAX as nat);
    lemma_generation_reads_back(generation);
}

/// A webview that shows any other key than the client key is refused, whatever else it asks
/// for. So is one that comes with the key of an earlier location of the server.
pub proof fn other_key_is_refused(
    webview_id: u32,
    query: Option<Seq<char>>,
    shown: Seq<u8>,
    client_key: Seq<u8>,
)
    requires
        client_key.len() > 0,
        shown.len() == client_key.len(),
        shown != client_key,
    ensures
        handshake_answer(request_path(webview_id, shown), query, client_key) == Err::<
            Handshake,
            HandshakeError,
        >(HandshakeError::InvalidKey),
{
    lemma_request_path_parts(webview_id, shown);
    decimal_reads_back(webview_id as nat, u32::MAX as nat);
    if base64_url_safe(shown) == base64_url_safe(client_key) {
        key_text_is_injective(shown, client_key);
    }
}

proof fn lemma_generation_reads_back(generation: u64)
    ensures
        requested_generation(Some("generation="@ + decimal(generation as nat))) == generation,
{
    let text = "generation="@ + decimal(generation as nat);
    assert(text.take("generation="@.len() as int) =~= "generation="@);
    assert(text.skip("generation="@.len() as int) =~= decimal(generation as nat));
    decimal_reads_back(generation as nat, u64::MAX as nat);
}

/// The end of a text that is made of slashes.
proof fn lemma_trailing_slashes(s: Seq<char>) -> (parts: (Seq<char>, Seq<char>))
    ensures
        s == parts.0 + parts.1,
        forall|i: int| 0 <= i < parts.1.len() ==> #[trigger] parts.1[i] == '/',
        parts.0.len() > 0 ==> parts.0.last() != '/',
    decreases s.len(),
{
    if s.len() > 0 && s.last() == '/' {
        let (core, tail) = lemma_trailing_slashes(s.drop_last());
        assert(s =~= (core + tail).push('/'));
        assert((core + tail).push('/') =~= core + tail.push('/'));
        (core, tail.push('/'))
    } else {
        assert(s =~= s + Seq::<char>::empty());
        (s, Seq::empty())
    }
}

/// The path of a request without the slashes around it.
proof fn lemma_trimmed_path(lead: Seq<char>, id: Seq<char>, rest: Seq<char>) -> (core: Seq<char>)
    requires
        forall|i: int| 0 <= i < lead.len() ==> #[trigger] lead[i] == '/',
        !id.contains('/'),
        rest.len() > 0 ==> rest[0] == '/',
        rest.len() > 0 ==> id.len() > 0,
    ensures
        trimmed(lead + id + rest, Trim::Slash) == id + core,
        core.len() <= rest.len(),
        core == rest.take(core.len() as int),
        core.len() > 0 ==> core.last() != '/' && core[0] == '/',
        forall|i: int| core.len() <= i < rest.len() ==> #[trigger] rest[i] == '/',
{
    let (core, tail) = lemma_trailing_slashes(rest);
    assert(lead + id + rest =~= lead + (id + core) + tail);
    assert(core =~= rest.take(core.len() as int));
    assert forall|i: int| core.len() <= i < rest.len() implies #[trigger] rest[i] == '/' by {
        assert(rest[i] == tail[i - core.len()]);
    }
    assert forall|i: int| 0 <= i < id.len() implies id[i] != '/' by {
        assert(id.contains(id[i]));
    }
    trim_takes_both_ends(lead, id + core, tail, Trim::Slash);
    core
}

/// A request is read by segments, whatever slashes stand around them: it is refused for its
/// webview id exactly if the first segment is no number that fits, and else for want of a key
/// exactly if nothing but slashes follows.
pub proof fn request_needs_an_id_and_a_key(
    lead: Seq<char>,
    id: Seq<char>,
    rest: Seq<char>,
    query: Option<Seq<char>>,
    client_key: Seq<u8>,
)
    requires
        forall|i: int| 0 <= i < lead.len() ==> #[trigger] lead[i] == '/',
        !id.contains('/'),
        rest.len() > 0 ==> rest[0] == '/' && id.len() > 0,
    ensures
        handshake_answer(lead + id + rest, query, client_key) == Err::<Handshake, HandshakeError>(
            HandshakeError::InvalidWebviewId,
        ) <==> parse_unsigned(id, u32::MAX as nat) is None,
        handshake_answer(lead + id + rest, query, client_key) == Err::<Handshake, HandshakeError>(
            HandshakeError::MissingKey,
        ) <==> parse_unsigned(id, u32::MAX as nat) is Some && (forall|i: int|
            0 <= i < rest.len() ==> #[trigger] rest[i] == '/'),
{
    let core = lemma_trimmed_path(lead, id, rest);
    let inner = trimmed(lead + id + rest, Trim::Slash);
    if core.len() == 0 {
        assert(inner =~= id);
        split_is_at_the_first(id, '/', Seq::empty());
    } else {
        assert(inner =~= id + seq!['/'] + core.drop_first());
        split_is_at_the_first(id, '/', core.drop_first());
        assert(rest[core.len() - 1] != '/');
    }
}

/// A request that shows a key is accepted exactly if the segment behind the webview id is the
/// text of the client key, whatever follows it; it is accepted under the id that it gives and
/// with the generation that its query asks for, and else refused for its key.
pub proof fn exactly_the_client_key_is_accepted(
    lead: Seq<char>,
    id: Seq<char>,
    shown: Seq<char>,
    tail: Seq<char>,
    query: Option<Seq<char>>,
    client_key: Seq<u8>,
)
    requires
        client_key.len() > 0,
        forall|i: int| 0 <= i < lead.len() ==> #[trigger] lead[i] == '/',
        !id.contains('/'),
        parse_unsigned(id, u32::MAX as nat) is Some,
        !shown.contains('/'),
        tail.len() > 0 ==> tail[0] == '/',
        exists|i: int| 0 <= i < (shown + tail).len() && #[trigger] (shown + tail)[i] != '/',
    ensures
        handshake_answer(lead + id + (seq!['/'] + shown + tail), query, client_key) == (if shown
            == base64_url_safe(client_key) {
            Ok(
                Handshake {
                    webview_id: parse_unsigned(id, u32::MAX as nat)->0 as u32,
                    generation: requested_generation(query) as u64,
                },
            )
        } else {
            Err(HandshakeError::InvalidKey)
        }),
{
    let rest = seq!['/'] + shown + tail;
    assert(id.len() > 0) by {
        if id.len() == 0 {
            assert(parse_unsigned(id, u32::MAX as nat) is None);
        }
    }
    let core = lemma_trimmed_path(lead, id, rest);
    let inner = trimmed(lead + id + rest, Trim::Slash);
    let i = choose|i: int| 0 <= i < (shown + tail).len() && #[trigger] (shown + tail)[i] != '/';
    assert(rest[i + 1] == (shown + tail)[i]);
    assert(core.len() > i + 1);
    assert(inner =~= id + seq!['/'] + core.drop_first());
    split_is_at_the_first(id, '/', core.drop_first());
    let behind = core.drop_first();
    if shown.len() > 0 {
        assert(rest[shown.len() as int] == shown.last());
        assert(shown.contains(shown.last()));
        assert(core.len() > shown.len());
    }
    let more = behind.skip(shown.len() as int);
    assert(behind =~= shown + more);
    if more.len() == 0 {
        assert(behind =~= shown);
        split_is_at_the_first(shown, '/', Seq::empty());
    } else {
        assert(more[0] == rest[shown.len() + 1int]);
        assert(rest[shown.len() + 1int] == tail[0]);
        assert(behind =~= shown + seq!['/'] + more.drop_first());
        split_is_at_the_first(shown, '/', more.drop_first());
    }
}

/// A query asks for the generation that stands behind `generation=`; one that reads otherwise
/// asks for generation zero, as does a request without a query.
pub proof fn generation_stands_behind_its_name(text: Seq<char>)
    ensures
        requested_generation(Some("generation="@ + text)) == (match parse_unsigned(
            text,
            u64::MAX as nat,
        ) {
            Some(generation) => generation,
            None => 0,
        }),
        (forall|number: Seq<char>| text != #[trigger] ("generation="@ + number))
            ==> requested_generation(Some(text)) == 0,
        requested_generation(None) == 0,
{
    let name = "generation="@;
    assert((name + text).take(name.len() as int) =~= name);
    assert((name + text).skip(name.len() as int) =~= text);
    if name.is_prefix_of(text) {
        assert(text =~= name + text.skip(name.len() as int));
    }
}

/// The address of a webview leads to the port of the server and shows the webview's id: both
/// are read back from it digit by digit.
pub proof fn address_leads_to_the_port(
    port: u16,
    webview_id: u32,
    client_key: Seq<u8>,
    read: spec_fn(int, char) -> int,
)
    requires
        forall|value: int, c: char| #[trigger]
            read(value, c) == 10 * value + (c as int - '0' as int),
    ensures
        exists|port_text: Seq<char>, id_text: Seq<char>|
            {
                &&& "ws://127.0.0.1:"@ + decimal(port as nat) + request_path(webview_id, client_key)
                    == "ws://127.0.0.1:"@ + port_text + "/"@ + id_text + "/"@ + base64_url_safe(
                    client_key,
                )
                &&& #[trigger] port_text.fold_left(0int, read) == port
                &&& #[trigger] id_text.fold_left(0int, read) == webview_id
                &&& forall|i: int| 0 <= i < port_text.len() ==> '0' <= #[trigger] port_text[i] <= '9'
                &&& forall|i: int| 0 <= i < id_text.len() ==> '0' <= #[trigger] id_text[i] <= '9'
            },
{
    decimal_is_the_numeral(port as nat, read);
    decimal_is_the_numeral(webview_id as nat, read);
    let port_text = decimal(port as nat);
    let id_text = decimal(webview_id as nat);
    assert("ws://127.0.0.1:"@ + port_text + request_path(webview_id, client_key)
        =~= "ws://127.0.0.1:"@ + port_text + "/"@ + id_text + "/"@ + base64_url_safe(client_key));
    assert(port_text.fold_left(0int, read) == port && id_text.fold_left(0int, read) == webview_id);
}

} // verus!
