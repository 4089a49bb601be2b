//! Endpoints of a local model service.

use crate::text;
use vstd::prelude::*;

verus! {

pub open spec fn without_trailing_slashes(value: Seq<char>) -> Seq<char>
    decreases value.len(),
{
    if value.len() > 0 && value.last() == '/' {
        without_trailing_slashes(value.drop_last())
    } else {
        value
    }
}

/// An endpoint without blanks around it and slashes behind it.
pub open spec fn plain_endpoint(endpoint: Seq<char>) -> Seq<char> {
    without_trailing_slashes(text::trimmed(endpoint))
}

/// Whether a text spells a port.
pub open spec fn is_port(value: Seq<char>) -> bool {
    match text::spelled_number(value) {
        Some(number) => 0 < number <= 65_535,
        None => false,
    }
}

/// Whether a text is empty or spells a port behind a colon.
pub open spec fn is_optional_port(value: Seq<char>) -> bool {
    value.len() == 0 || (value[0] == ':' && is_port(value.drop_first()))
}

/// Where a character stands first, from a position on; the length where it
/// does not.
pub open spec fn position(value: Seq<char>, wanted: char, from: int) -> int
    decreases value.len() - from,
{
    if from < 0 || from >= value.len() {
        value.len() as int
    } else if value[from] == wanted {
        from
    } else {
        position(value, wanted, from + 1)
    }
}

/// Whether an authority is a loopback host, with or without a port.
pub open spec fn is_loopback(authority: Seq<char>) -> bool {
    if text::starts(authority, "[::1]"@) {
        is_optional_port(authority.skip(5))
    } else {
        let colon = position(authority, ':', 0);
        let host = authority.take(colon);
        &&& host == "localhost"@ || host == "127.0.0.1"@
        &&& colon < authority.len() ==> is_port(authority.skip(colon + 1))
    }
}

/// An endpoint that is local, or why it is refused.
pub open spec fn local_endpoint(endpoint: Seq<char>) -> Result<Seq<char>, Seq<char>> {
    let plain = plain_endpoint(endpoint);
    if !text::starts(plain, "http://"@) {
        Err("the Ollama endpoint must use local HTTP"@)
    } else {
        let authority = plain.skip(7);
        if authority.len() == 0 || authority.contains('/') || authority.contains('@') {
            Err("the Ollama endpoint must contain only a loopback host and port"@)
        } else if !is_loopback(authority) {
            Err("remote Ollama endpoints are not allowed; use localhost or a loopback address"@)
        } else {
            Ok(plain)
        }
    }
}

fn port_is_valid(characters: &[char], from: usize) -> (result: bool)
    requires
        from <= characters@.len(),
    ensures
        result == is_port(characters@.skip(from as int)),
{
    let port = text::string_between(characters, from, characters.len());
    assert(port@ =~= characters@.skip(from as int));
    match text::parse_number(port.as_str(), 65_535) {
        Some(number) => number != 0,
        None => false,
    }
}

fn find(characters: &[char], wanted: char) -> (result: usize)
    ensures
        result <= characters@.len(),
        result == position(characters@, wanted, 0),
        characters@.contains(wanted) <==> result < characters@.len(),
{
    let mut at: usize = 0;
    while at < characters.len() && characters[at] != wanted
        invariant
            at <= characters@.len(),
            position(characters@, wanted, 0) == position(characters@, wanted, at as int),
            forall|i: int| 0 <= i < at ==> characters@[i] != wanted,
        decreases characters@.len() - at,
    {
        at = at + 1;
    }
    at
}

fn authority_is_loopback(authority: &[char]) -> (result: bool)
    ensures
        result == is_loopback(authority@),
{
    proof {
        reveal_strlit("[::1]");
    }
    let bracketed = text::chars_of("[::1]");
    if text::chars_start_with(authority, bracketed.as_slice()) {
        let ghost rest = authority@.skip(5);
        if authority.len() == 5 {
            return true;
        }
        assert(rest[0] == authority@[5]);
        assert(rest.drop_first() =~= authority@.skip(6));
        return authority[5] == ':' && port_is_valid(authority, 6);
    }
    let colon = find(authority, ':');
    let host = text::string_between(authority, 0, colon);
    assert(host@ =~= authority@.take(colon as int));
    let known = text::same_text(host.as_str(), "localhost") || text::same_text(
        host.as_str(),
        "127.0.0.1",
    );
    known && (colon == authority.len() || port_is_valid(authority, colon + 1))
}

/// Accepts an endpoint on this computer only.
pub fn validate_local_endpoint(endpoint: &str) -> (result: Result<String, String>)
    ensures
        match result {
            Ok(plain) => local_endpoint(endpoint@) == Ok::<Seq<char>, Seq<char>>(plain@),
            Err(reason) => local_endpoint(endpoint@) == Err::<Seq<char>, Seq<char>>(reason@),
        },
{
    let trimmed = text::trim(endpoint);
    let characters = text::chars_of(trimmed.as_str());
    let mut end: usize = characters.len();
    assert(characters@.take(end as int) =~= characters@);
    while end > 0 && characters[end - 1] == '/'
        invariant
            end <= characters@.len(),
            without_trailing_slashes(characters@) == without_trailing_slashes(
                characters@.take(end as int),
            ),
        decreases end,
    {
        assert(characters@.take(end as int).drop_last() =~= characters@.take(end - 1));
        end = end - 1;
    }
    let plain = text::string_between(characters.as_slice(), 0, end);
    assert(plain@ =~= characters@.take(end as int));
    let plain_characters = text::chars_of(plain.as_str());
    proof {
        reveal_strlit("http://");
    }
    let scheme = text::chars_of("http://");
    if !text::chars_start_with(plain_characters.as_slice(), scheme.as_slice()) {
        return Err("the Ollama endpoint must use local HTTP".to_owned());
    }
    let authority_text = text::string_between(
        plain_characters.as_slice(),
        7,
        plain_characters.len(),
    );
    let authority = text::chars_of(authority_text.as_str());
    assert(authority@ =~= plain@.skip(7));
    if authority.len() == 0 || find(authority.as_slice(), '/') < authority.len() || find(
        authority.as_slice(),
        '@',
    ) < authority.len() {
        return Err("the Ollama endpoint must contain only a loopback host and port".to_owned());
    }
    if !authority_is_loopback(authority.as_slice()) {
        return Err(
            "remote Ollama endpoints are not allowed; use localhost or a loopback address".to_owned(),
        );
    }
    Ok(plain)
}

/// An accepted endpoint names a loopback host over plain HTTP, and nothing else.
pub proof fn law_accepted_endpoints_are_local(endpoint: Seq<char>)
    requires
        local_endpoint(endpoint) is Ok,
    ensures
        ({
            let accepted = local_endpoint(endpoint)->Ok_0;
            &&& text::starts(accepted, "http://"@)
            &&& is_loopback(accepted.skip(7))
            &&& !accepted.skip(7).contains('/')
            &&& !accepted.skip(7).contains('@')
        }),
{
}

} // verus!
