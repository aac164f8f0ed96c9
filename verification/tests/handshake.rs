use desktop_edits::handshake::{
    after_handshake_event, authorize, connection_generation, Handshake, HandshakeAction,
    HandshakeError, HandshakeEvent, ServerLocation,
};
use desktop_edits::keys::{encode_key_string, KEY_SIZE};

fn location() -> ServerLocation {
    ServerLocation {
        port: 4321,
        client_key: [1u8; KEY_SIZE],
        server_key: [2u8; KEY_SIZE],
    }
}

#[test]
fn given_address_is_accepted() {
    let location = location();
    let address = location.address_of(17);
    let key = encode_key_string(&location.client_key);
    assert_eq!(address, format!("ws://127.0.0.1:4321/17/{key}"));
    let path = &address["ws://127.0.0.1:4321".len()..];
    assert_eq!(
        authorize(path, Some("generation=3"), &location.client_key),
        Ok(Handshake {
            webview_id: 17,
            generation: 3
        })
    );
}

#[test]
fn slashes_around_and_segments_behind_do_not_count() {
    let location = location();
    let key = encode_key_string(&location.client_key);
    for path in [
        format!("{}/{key}", u32::MAX),
        format!("///{}/{key}//", u32::MAX),
        format!("/{}/{key}/more/of/it", u32::MAX),
    ] {
        assert_eq!(
            authorize(&path, None, &location.client_key),
            Ok(Handshake {
                webview_id: u32::MAX,
                generation: 0
            })
        );
    }
}

#[test]
fn other_key_is_refused() {
    let location = location();
    let shown = encode_key_string(&location.server_key);
    assert_eq!(
        authorize(&format!("/0/{shown}"), None, &location.client_key),
        Err(HandshakeError::InvalidKey)
    );
    let key = encode_key_string(&location.client_key);
    assert_eq!(
        authorize(&format!("/0/{}", &key[..343]), None, &location.client_key),
        Err(HandshakeError::InvalidKey)
    );
    assert_eq!(
        authorize("/0//", None, &location.client_key),
        Err(HandshakeError::MissingKey)
    );
    assert_eq!(
        authorize("/0/é", None, &location.client_key),
        Err(HandshakeError::InvalidKey)
    );
}

#[test]
fn malformed_paths_are_refused() {
    let key = [1u8; KEY_SIZE];
    for path in ["", "/", "//", "/x/key", "/4294967296/key", "/-1/key", "/+/key", "/ 1/key"] {
        assert_eq!(
            authorize(path, None, &key),
            Err(HandshakeError::InvalidWebviewId)
        );
    }
    assert_eq!(authorize("/1", None, &key), Err(HandshakeError::MissingKey));
    assert_eq!(
        authorize("/+1/key", None, &key),
        Err(HandshakeError::InvalidKey)
    );
    assert_eq!(
        authorize("/0001//key", None, &key),
        Err(HandshakeError::InvalidKey)
    );
}

#[test]
fn generations_in_queries() {
    assert_eq!(connection_generation(None), 0);
    assert_eq!(connection_generation(Some("")), 0);
    assert_eq!(connection_generation(Some("generation=")), 0);
    assert_eq!(connection_generation(Some("generation=12")), 12);
    assert_eq!(connection_generation(Some("generation=+12")), 12);
    assert_eq!(connection_generation(Some("generation=12&x=1")), 0);
    assert_eq!(connection_generation(Some("x=1&generation=12")), 0);
    assert_eq!(
        connection_generation(Some("generation=18446744073709551615")),
        u64::MAX
    );
    assert_eq!(
        connection_generation(Some("generation=18446744073709551616")),
        0
    );
}

#[test]
fn refusals_have_status_and_body() {
    let answers = [
        (
            HandshakeError::InvalidWebviewId,
            400,
            "Bad Request: Invalid webview ID",
        ),
        (HandshakeError::MissingKey, 400, "Bad Request: Missing key"),
        (HandshakeError::InvalidKey, 403, "Forbidden: Invalid key"),
    ];
    for (error, status, body) in answers {
        assert_eq!(error.status(), status);
        assert_eq!(error.message(), body);
    }
}

#[test]
fn location_takes_both_keys() {
    let client = || Some(([1u8; KEY_SIZE], "01".repeat(KEY_SIZE)));
    let server = || Some(([2u8; KEY_SIZE], "02".repeat(KEY_SIZE)));
    let location = ServerLocation::with_keys(8080, client(), server()).unwrap();
    assert_eq!(location.port, 8080);
    assert_eq!(location.client_key[..], [1u8; KEY_SIZE][..]);
    assert_eq!(location.server_key[..], [2u8; KEY_SIZE][..]);
    assert!(ServerLocation::with_keys(8080, None, server()).is_none());
    assert!(ServerLocation::with_keys(8080, client(), None).is_none());
    assert!(ServerLocation::with_keys(8080, None, None).is_none());
}

#[test]
fn new_location_has_keys_of_its_own() {
    let first = ServerLocation::with_new_keys(80).unwrap();
    let second = ServerLocation::with_new_keys(80).unwrap();
    assert_eq!(first.port, 80);
    assert_ne!(first.client_key[..], second.client_key[..]);
    assert_ne!(first.server_key[..], second.server_key[..]);
    assert_ne!(first.client_key[..], first.server_key[..]);
    // The key of an earlier location opens nothing.
    let old = first.address_of(5);
    assert_eq!(
        authorize(&old["ws://127.0.0.1:80".len()..], None, &second.client_key),
        Err(HandshakeError::InvalidKey)
    );
}

#[test]
fn key_is_shown_before_the_connection_takes_over() {
    let handshake = Handshake {
        webview_id: 3,
        generation: 9,
    };
    let after = |event| after_handshake_event(Some(handshake), event);
    assert_eq!(after(HandshakeEvent::Upgraded), HandshakeAction::SendKey);
    assert_eq!(
        after(HandshakeEvent::KeySent),
        HandshakeAction::TakeOver(handshake)
    );
    assert_eq!(after(HandshakeEvent::KeyFailed), HandshakeAction::GiveUp);
    assert_eq!(after(HandshakeEvent::UpgradeFailed), HandshakeAction::GiveUp);
    assert_eq!(
        after_handshake_event(None, HandshakeEvent::KeySent),
        HandshakeAction::GiveUp
    );
    assert_eq!(
        after_handshake_event(None, HandshakeEvent::Refused(HandshakeError::InvalidKey)),
        HandshakeAction::Refuse(HandshakeError::InvalidKey)
    );
}
