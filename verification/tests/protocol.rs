use rorolala::auth::error::Error as AuthError;
use rorolala::protocol::address::{split_link, VaultAddress, ROOT_SUB_VAULT, VAULT_DEFAULT_PORT};
use rorolala::protocol::data::{ActionSide, Both, OnlyVault, OnlyWorkspace};
use rorolala::protocol::encode::Encodable;
use rorolala::protocol::error::ActionError;
use rorolala::protocol::sync::{exchange_role, value_frame, value_length, Role, MAX_FRAME};

#[test]
fn a_vault_wrapper_hands_out_its_value_or_a_fallback() {
    let held: OnlyVault<u64> = OnlyVault::from(Some(7));
    assert_eq!(held.unwrap(), 7);

    let empty: OnlyVault<u64> = OnlyVault::empty();
    assert_eq!(empty.unwrap_or(3), 3);
    assert_eq!(OnlyVault::<u64>::empty().unwrap_or_else(|| 4), 4);
    assert_eq!(OnlyVault::<u64>::empty().unwrap_or_default(), 0);
}

#[test]
fn a_workspace_wrapper_hands_out_its_value_or_a_fallback() {
    let held: OnlyWorkspace<u64> = OnlyWorkspace::from(Some(7));
    assert_eq!(held.unwrap(), 7);

    let empty: OnlyWorkspace<u64> = OnlyWorkspace::empty();
    assert_eq!(empty.unwrap_or(3), 3);
    assert_eq!(OnlyWorkspace::<u64>::empty().unwrap_or_else(|| 4), 4);
    assert_eq!(OnlyWorkspace::<u64>::empty().unwrap_or_default(), 0);
}

#[test]
fn a_vault_wrapper_reads_as_the_option_it_holds() {
    let held: OnlyVault<u64> = OnlyVault::from(Some(7));
    assert_eq!(held.as_ref(), &Some(7));
    assert_eq!(*held, Some(7));

    let empty: OnlyVault<u64> = OnlyVault::empty();
    assert_eq!(empty.as_ref(), &None);
}

#[test]
fn a_workspace_wrapper_reads_as_the_option_it_holds() {
    let held: OnlyWorkspace<u64> = OnlyWorkspace::from(Some(7));
    assert_eq!(held.as_ref(), &Some(7));
    assert_eq!(*held, Some(7));

    let empty: OnlyWorkspace<u64> = OnlyWorkspace::empty();
    assert_eq!(empty.as_ref(), &None);
}

#[test]
fn a_context_builds_a_vault_only_value_only_on_the_vault() {
    let empty: OnlyVault<u64> = OnlyVault::new(ActionSide::Workspace, || unreachable!());
    assert!(empty.into_inner().is_none());

    let held = OnlyVault::new(ActionSide::Vault, || 7_u64);
    assert_eq!(held.into_inner(), Some(7));
}

#[test]
fn a_context_builds_a_workspace_only_value_only_on_the_workspace() {
    let empty: OnlyWorkspace<u64> = OnlyWorkspace::new(ActionSide::Vault, || unreachable!());
    assert!(empty.into_inner().is_none());

    let held = OnlyWorkspace::new(ActionSide::Workspace, || 7_u64);
    assert_eq!(held.into_inner(), Some(7));
}

#[test]
fn a_shared_value_goes_to_one_side_only_when_handed_there() {
    let on_workspace = Both::new(5_u64).only_workspace(ActionSide::Workspace);
    assert_eq!(on_workspace.into_inner(), Some(5));

    let on_vault = Both::new(5_u64).only_workspace(ActionSide::Vault);
    assert_eq!(on_vault.into_inner(), None);

    assert_eq!(Both::new(9_u64).only_vault(ActionSide::Vault).into_inner(), Some(9));
}

#[test]
fn a_value_round_trips_through_its_encoding() {
    let encoded = 42_u32.encode().unwrap();
    assert_eq!(u32::decode(encoded).unwrap(), 42);
}

#[test]
fn decoding_bytes_that_are_too_short_reports_a_codec_failure() {
    assert!(u32::decode(Vec::new()).is_err());
    assert!(u32::decode(vec![0, 1, 2]).is_err());
}

#[test]
fn a_number_is_encoded_in_little_endian_order() {
    assert_eq!(0x0102_0304_u32.encode().unwrap(), vec![4, 3, 2, 1]);
    assert_eq!(
        u64::decode(vec![1, 0, 0, 0, 0, 0, 0, 0]).unwrap(),
        1_u64
    );
}

#[test]
fn bytes_are_encoded_behind_their_length() {
    let encoded = vec![9_u8, 8].encode().unwrap();
    assert_eq!(encoded, vec![2, 0, 0, 0, 0, 0, 0, 0, 9, 8]);
    assert_eq!(Vec::<u8>::decode(encoded).unwrap(), vec![9, 8]);
}

#[test]
fn a_variant_with_no_cause_says_what_happened() {
    assert_eq!(
        ActionError::NoChannel.to_string(),
        "the action context has no channel"
    );
    assert_eq!(
        ActionError::MissingValue.to_string(),
        "the owning side held no value to send"
    );
    assert_eq!(
        ActionError::ValueTooLarge.to_string(),
        "a value was too long to frame"
    );
    assert_eq!(
        ActionError::UnknownAction(7).to_string(),
        "no action answers to id 7"
    );
}

#[test]
fn a_variant_with_no_cause_has_no_source() {
    for error in [
        ActionError::NoChannel,
        ActionError::MissingValue,
        ActionError::ValueTooLarge,
        ActionError::UnknownAction(1),
    ] {
        assert!(!error.has_source());
    }
}

#[test]
fn an_io_failure_becomes_a_failed_channel() {
    let error = ActionError::from(std::io::Error::new(
        std::io::ErrorKind::PermissionDenied,
        "denied",
    ));

    assert!(matches!(error, ActionError::Io(_)));
    assert_eq!(error.to_string(), "the channel failed: denied");
    assert!(error.has_source());
}

#[test]
fn a_codec_failure_becomes_a_value_that_would_not_cross() {
    let raw = u32::decode(Vec::new()).unwrap_err();
    let error = ActionError::from(raw);

    assert!(matches!(error, ActionError::Codec(_)));
    assert!(error
        .to_string()
        .starts_with("a value could not cross the channel:"));
    assert!(error.has_source());
}

#[test]
fn an_auth_failure_becomes_a_session_that_would_not_establish() {
    let error = ActionError::from(AuthError::Malformed);

    assert!(matches!(error, ActionError::Auth(_)));
    assert_eq!(
        error.to_string(),
        "the session could not be established: a key or signature was malformed"
    );
    assert!(error.has_source());
}

#[test]
fn a_value_past_the_frame_bound_will_not_be_sent() {
    let oversized = vec![0_u8; MAX_FRAME + 1];
    assert!(matches!(
        value_frame(&oversized),
        Err(ActionError::ValueTooLarge)
    ));

    let framed = value_frame(&[7, 8, 9]).unwrap();
    assert_eq!(framed, vec![0, 0, 0, 3, 7, 8, 9]);
}

#[test]
fn a_frame_that_claims_more_than_the_bound_is_refused() {
    assert!(matches!(
        value_length(&u32::MAX.to_be_bytes()),
        Err(ActionError::ValueTooLarge)
    ));
    assert_eq!(value_length(&[0, 0, 1, 0]).unwrap(), 256);
    assert_eq!(value_length(&[1, 0, 0, 0]).unwrap(), MAX_FRAME);
}

#[test]
fn the_side_that_owns_a_value_sends_it() {
    assert_eq!(
        exchange_role(ActionSide::Workspace, ActionSide::Workspace, true).unwrap(),
        Role::Send
    );
    assert_eq!(
        exchange_role(ActionSide::Workspace, ActionSide::Vault, false).unwrap(),
        Role::Receive
    );
    assert!(matches!(
        exchange_role(ActionSide::Vault, ActionSide::Vault, false),
        Err(ActionError::MissingValue)
    ));
}

/// The parts of `text`, read as an address, given what the standard library reads its
/// authority as: a socket address, or else an ip.
fn parts_with(text: &str, socket: Option<(&str, u16)>, ip: Option<&str>) -> (String, u16, String) {
    let address = VaultAddress::read(
        text,
        socket.map(|(host, port)| (host.to_string(), port)),
        ip.map(str::to_string),
    )
    .unwrap();

    (
        address.address().to_string(),
        address.port(),
        address.sub().to_string(),
    )
}

/// The parts of `text`, where its authority reads as neither a socket address nor an ip.
fn parts(text: &str) -> (String, u16, String) {
    parts_with(text, None, None)
}

#[test]
fn a_host_is_read_as_it_was_written() {
    assert_eq!(
        parts_with("127.0.0.1:7000", Some(("127.0.0.1", 7000)), None),
        ("127.0.0.1".to_string(), 7000, ROOT_SUB_VAULT.to_string())
    );
    assert_eq!(
        parts_with("127.0.0.1", None, Some("127.0.0.1")),
        (
            "127.0.0.1".to_string(),
            VAULT_DEFAULT_PORT,
            ROOT_SUB_VAULT.to_string()
        )
    );
    assert_eq!(
        parts("example.com"),
        (
            "example.com".to_string(),
            VAULT_DEFAULT_PORT,
            ROOT_SUB_VAULT.to_string()
        )
    );
    assert_eq!(
        parts("localhost:7000"),
        ("localhost".to_string(), 7000, ROOT_SUB_VAULT.to_string())
    );
}

#[test]
fn a_bare_address_names_the_root_of_the_vault_it_answers_at() {
    assert_eq!(
        parts_with("127.0.0.1", None, Some("127.0.0.1")),
        (
            "127.0.0.1".to_string(),
            VAULT_DEFAULT_PORT,
            ROOT_SUB_VAULT.to_string()
        )
    );
    assert_eq!(
        parts_with("10.0.0.1:7000", Some(("10.0.0.1", 7000)), None),
        ("10.0.0.1".to_string(), 7000, ROOT_SUB_VAULT.to_string())
    );
    assert_eq!(
        parts("7000"),
        ("127.0.0.1".to_string(), 7000, ROOT_SUB_VAULT.to_string())
    );
}

#[test]
fn a_link_says_the_sub_vault_beside_the_address() {
    assert_eq!(
        parts_with(
            "rola://10.0.0.1:7000/vaults/alpha",
            Some(("10.0.0.1", 7000)),
            None
        ),
        ("10.0.0.1".to_string(), 7000, "vaults/alpha".to_string())
    );
    assert_eq!(
        parts_with("rola://10.0.0.1/vaults/alpha", None, Some("10.0.0.1")),
        (
            "10.0.0.1".to_string(),
            VAULT_DEFAULT_PORT,
            "vaults/alpha".to_string()
        )
    );
    assert_eq!(
        parts_with("rola://10.0.0.1:7000", Some(("10.0.0.1", 7000)), None),
        ("10.0.0.1".to_string(), 7000, ROOT_SUB_VAULT.to_string())
    );
    assert_eq!(
        parts_with("rola://10.0.0.1:7000/", Some(("10.0.0.1", 7000)), None),
        ("10.0.0.1".to_string(), 7000, ROOT_SUB_VAULT.to_string())
    );
}

#[test]
fn an_ipv6_address_is_read_and_written_without_coming_apart() {
    let bare = VaultAddress::read("::1", None, Some("::1".to_string())).unwrap();
    assert_eq!(bare.address(), "::1");
    assert_eq!(bare.port(), VAULT_DEFAULT_PORT);
    assert_eq!(bare.to_string(true), "rola://[::1]/");

    let with_port = VaultAddress::read(
        "rola://[::1]:7000/sub",
        Some(("::1".to_string(), 7000)),
        None,
    )
    .unwrap();
    assert_eq!(with_port.address(), "::1");
    assert_eq!(with_port.port(), 7000);
    assert_eq!(with_port.to_string(true), "rola://[::1]:7000/sub");
}

#[test]
fn a_link_is_written_with_the_port_only_where_it_is_not_the_default_one() {
    let bare = VaultAddress::read("10.0.0.1", None, Some("10.0.0.1".to_string())).unwrap();
    assert_eq!(bare.to_string(false), "rola://10.0.0.1/");

    let default =
        VaultAddress::read("rola://10.0.0.1/vaults/alpha", None, Some("10.0.0.1".to_string()))
            .unwrap();
    assert_eq!(default.to_string(false), "rola://10.0.0.1/vaults/alpha");

    let named = VaultAddress::read(
        "rola://10.0.0.1:7000/vaults/alpha",
        Some(("10.0.0.1".to_string(), 7000)),
        None,
    )
    .unwrap();
    assert_eq!(named.to_string(false), "rola://10.0.0.1:7000/vaults/alpha");
}

#[test]
fn what_is_written_is_read_back_as_the_same_address() {
    let cases: [(&str, Option<(&str, u16)>, Option<&str>, bool); 4] = [
        ("127.0.0.1:7000", Some(("127.0.0.1", 7000)), None, false),
        ("7000", None, None, false),
        ("rola://10.0.0.1/vaults/deep/alpha", None, Some("10.0.0.1"), false),
        ("rola://[::1]:7000/sub", Some(("::1", 7000)), None, true),
    ];
    for (written, socket, ip, v6) in cases {
        let address = VaultAddress::read(
            written,
            socket.map(|(h, p)| (h.to_string(), p)),
            ip.map(str::to_string),
        )
        .unwrap();
        let link = address.to_string(v6);
        let (authority, _) = split_link(&link);
        // The authority of the link written back is what the standard library reads again.
        let socket_back = if address.port() == VAULT_DEFAULT_PORT && socket.is_none() {
            None
        } else {
            Some((address.address().to_string(), address.port()))
        };
        let ip_back = if socket_back.is_none() && ip.is_some() {
            Some(address.address().to_string())
        } else {
            None
        };
        let read_back = VaultAddress::read(&link, socket_back, ip_back).unwrap();

        assert!(!authority.is_empty(), "{written}");
        assert_eq!(read_back.address(), address.address(), "{written}");
        assert_eq!(read_back.port(), address.port(), "{written}");
        assert_eq!(read_back.sub(), address.sub(), "{written}");
    }
}

#[test]
fn what_was_written_is_kept_as_it_was_written() {
    let address =
        VaultAddress::read("10.0.0.1:7000", Some(("10.0.0.1".to_string(), 7000)), None).unwrap();

    assert_eq!(address.raw(), "10.0.0.1:7000");
    assert_eq!(address.to_string(false), "rola://10.0.0.1:7000/");

    let mut changed = address;
    changed.set_address("10.0.0.2".to_string());
    changed.set_port(7001);
    changed.set_sub("vaults/beta".to_string());

    assert_eq!(changed.raw(), "10.0.0.1:7000");
    assert_eq!(changed.address(), "10.0.0.2");
    assert_eq!(changed.port(), 7001);
    assert_eq!(changed.sub(), "vaults/beta");
}

#[test]
fn what_names_neither_a_host_nor_a_port_is_refused() {
    for written in ["", "rola://", "99999", "10.0.0.1:99999", "not a host", "rola://a b"] {
        assert!(VaultAddress::read(written, None, None).is_err(), "{written}");
    }

    assert_eq!(
        VaultAddress::read("rola://", None, None)
            .unwrap_err()
            .target(),
        "rola://"
    );
}

#[test]
fn a_link_may_name_its_host() {
    assert_eq!(
        parts("rola://localhost/sub"),
        (
            "localhost".to_string(),
            VAULT_DEFAULT_PORT,
            "sub".to_string()
        )
    );
    assert_eq!(
        parts("rola://example.com:7000/vaults/alpha"),
        ("example.com".to_string(), 7000, "vaults/alpha".to_string())
    );
}

#[test]
fn the_abi_reads_back_the_parts_the_link_was_written_with() {
    let address = VaultAddress::read(
        "rola://10.0.0.1:7000/vaults/alpha",
        Some(("10.0.0.1".to_string(), 7000)),
        None,
    )
    .unwrap();

    assert_eq!(address.raw(), "rola://10.0.0.1:7000/vaults/alpha");
    assert_eq!(address.address(), "10.0.0.1");
    assert_eq!(address.port(), 7000);
}

#[test]
fn two_spellings_of_one_place_are_one_address() {
    let bare =
        VaultAddress::read("10.0.0.1:7000", Some(("10.0.0.1".to_string(), 7000)), None).unwrap();
    let link = VaultAddress::read(
        "rola://10.0.0.1:7000/",
        Some(("10.0.0.1".to_string(), 7000)),
        None,
    )
    .unwrap();
    assert!(bare.same_place(&link));

    let under = VaultAddress::read(
        "rola://10.0.0.1:7000/vaults/alpha",
        Some(("10.0.0.1".to_string(), 7000)),
        None,
    )
    .unwrap();
    assert!(!link.same_place(&under));
}

#[test]
fn the_authority_is_the_daemon_without_the_sub_vault() {
    let root = VaultAddress::read("10.0.0.1", None, Some("10.0.0.1".to_string())).unwrap();
    assert_eq!(root.authority(false), format!("10.0.0.1:{VAULT_DEFAULT_PORT}"));

    let under = VaultAddress::read(
        "rola://10.0.0.1:7000/vaults/alpha",
        Some(("10.0.0.1".to_string(), 7000)),
        None,
    )
    .unwrap();
    assert_eq!(under.authority(false), "10.0.0.1:7000");

    let v6 = VaultAddress::read(
        "rola://[::1]:7000/sub",
        Some(("::1".to_string(), 7000)),
        None,
    )
    .unwrap();
    assert_eq!(v6.authority(true), "[::1]:7000");

    let named = VaultAddress::read("rola://example.com/sub", None, None).unwrap();
    assert_eq!(
        named.authority(false),
        format!("example.com:{VAULT_DEFAULT_PORT}")
    );
}

#[test]
fn a_link_splits_into_its_authority_and_its_sub_vault() {
    assert_eq!(
        split_link("rola://host:1/a/b"),
        ("host:1".to_string(), "a/b".to_string())
    );
    assert_eq!(split_link("host"), ("host".to_string(), String::new()));
    assert_eq!(split_link("rola://host"), ("host".to_string(), String::new()));
}
