use pop3_codec::types::command::{Command, Language};
use pop3_codec::types::response::{Capability, ExpirePolicy};

#[test]
fn command_test_serialize() {
    assert_eq!(Command::User("alice".into()).serialize(), b"USER alice\r\n");
    assert_eq!(
        Command::Pass("password".into()).serialize(),
        b"PASS password\r\n"
    );
    assert_eq!(Command::Stat.serialize(), b"STAT\r\n");
    assert_eq!(Command::ListAll.serialize(), b"LIST\r\n");
    assert_eq!(Command::List { msg: 1 }.serialize(), b"LIST 1\r\n");
    assert_eq!(Command::Retr { msg: 1 }.serialize(), b"RETR 1\r\n");
    assert_eq!(Command::Dele { msg: 1 }.serialize(), b"DELE 1\r\n");
    assert_eq!(Command::Noop.serialize(), b"NOOP\r\n");
    assert_eq!(Command::Rset.serialize(), b"RSET\r\n");
    assert_eq!(Command::Quit.serialize(), b"QUIT\r\n");
    assert_eq!(
        Command::Apop {
            name: "alice".into(),
            digest: "aabbccddeeff".into()
        }
        .serialize(),
        b"APOP alice aabbccddeeff\r\n"
    );
    assert_eq!(Command::Top { msg: 1, n: 5 }.serialize(), b"TOP 1 5\r\n");
    assert_eq!(Command::UidlAll.serialize(), b"UIDL\r\n");
    assert_eq!(Command::Uidl { msg: 1 }.serialize(), b"UIDL 1\r\n");
    assert_eq!(Command::Capa.serialize(), b"CAPA\r\n");
    assert_eq!(Command::Stls.serialize(), b"STLS\r\n");
    assert_eq!(
        Command::Auth {
            mechanism: "PLAIN".into(),
            initial_response: None
        }
        .serialize(),
        b"AUTH PLAIN\r\n"
    );
    assert_eq!(
        Command::Auth {
            mechanism: "PLAIN".into(),
            initial_response: Some("XXX".into())
        }
        .serialize(),
        b"AUTH PLAIN XXX\r\n"
    );
    assert_eq!(Command::AuthAll.serialize(), b"AUTH\r\n");
}

#[test]
fn types_test_serialize() {
    assert_eq!(Command::User("alice".into()).serialize(), b"USER alice\r\n");
    assert_eq!(
        Command::Pass("password".into()).serialize(),
        b"PASS password\r\n"
    );
    assert_eq!(Command::Stat.serialize(), b"STAT\r\n");
    assert_eq!(Command::ListAll.serialize(), b"LIST\r\n");
    assert_eq!(Command::List { msg: 1 }.serialize(), b"LIST 1\r\n");
    assert_eq!(Command::Retr { msg: 1 }.serialize(), b"RETR 1\r\n");
    assert_eq!(Command::Dele { msg: 1 }.serialize(), b"DELE 1\r\n");
    assert_eq!(Command::Noop.serialize(), b"NOOP\r\n");
    assert_eq!(Command::Rset.serialize(), b"RSET\r\n");
    assert_eq!(Command::Quit.serialize(), b"QUIT\r\n");
    assert_eq!(
        Command::Apop {
            name: "alice".into(),
            digest: "aabbccddeeff".into()
        }
        .serialize(),
        b"APOP alice aabbccddeeff\r\n"
    );
    assert_eq!(Command::Top { msg: 1, n: 5 }.serialize(), b"TOP 1 5\r\n");
    assert_eq!(Command::UidlAll.serialize(), b"UIDL\r\n");
    assert_eq!(Command::Uidl { msg: 1 }.serialize(), b"UIDL 1\r\n");
    assert_eq!(Command::Capa.serialize(), b"CAPA\r\n");
    assert_eq!(Command::Stls.serialize(), b"STLS\r\n");
    assert_eq!(
        Command::Auth {
            mechanism: "PLAIN".into(),
            initial_response: None
        }
        .serialize(),
        b"AUTH PLAIN\r\n"
    );
    assert_eq!(
        Command::Auth {
            mechanism: "PLAIN".into(),
            initial_response: Some("XXX".into())
        }
        .serialize(),
        b"AUTH PLAIN XXX\r\n"
    );
    assert_eq!(Command::AuthAll.serialize(), b"AUTH\r\n");
}

#[test]
fn serialize_the_later_verbs() {
    assert_eq!(Command::Utf8.serialize(), b"UTF8\r\n");
    assert_eq!(Command::LangAll.serialize(), b"LANG\r\n");
    assert_eq!(
        Command::Lang {
            lang_or_wild: Language::Wild
        }
        .serialize(),
        b"LANG *\r\n"
    );
    assert_eq!(
        Command::Lang {
            lang_or_wild: Language::Lang("en-boont".into())
        }
        .serialize(),
        b"LANG en-boont\r\n"
    );
}

#[test]
fn serialize_numbers_in_decimal() {
    assert_eq!(Command::Retr { msg: 0 }.serialize(), b"RETR 0\r\n");
    assert_eq!(Command::Retr { msg: 10 }.serialize(), b"RETR 10\r\n");
    assert_eq!(
        Command::Top {
            msg: 4294967295,
            n: 1000
        }
        .serialize(),
        b"TOP 4294967295 1000\r\n"
    );
}

#[test]
fn serialize_text_as_utf8() {
    assert_eq!(
        Command::User("zo\u{eb}".into()).serialize(),
        b"USER zo\xc3\xab\r\n"
    );
}

#[test]
fn command_names() {
    assert_eq!(Command::User("a".into()).name(), "USER");
    assert_eq!(Command::Pass("a".into()).name(), "PASS");
    assert_eq!(Command::Stat.name(), "STAT");
    assert_eq!(Command::ListAll.name(), "LISTALL");
    assert_eq!(Command::List { msg: 1 }.name(), "LIST");
    assert_eq!(Command::Retr { msg: 1 }.name(), "RETR");
    assert_eq!(Command::Dele { msg: 1 }.name(), "DELE");
    assert_eq!(Command::Noop.name(), "NOOP");
    assert_eq!(Command::Rset.name(), "RSET");
    assert_eq!(Command::Quit.name(), "QUIT");
    assert_eq!(
        Command::Apop {
            name: "a".into(),
            digest: "b".into()
        }
        .name(),
        "APOP"
    );
    assert_eq!(Command::Top { msg: 1, n: 1 }.name(), "TOP");
    assert_eq!(Command::UidlAll.name(), "UIDLALL");
    assert_eq!(Command::Uidl { msg: 1 }.name(), "UIDL");
    assert_eq!(Command::Capa.name(), "CAPA");
    assert_eq!(Command::Stls.name(), "STLS");
    assert_eq!(Command::AuthAll.name(), "AUTHALL");
    assert_eq!(
        Command::Auth {
            mechanism: "PLAIN".into(),
            initial_response: None
        }
        .name(),
        "AUTH"
    );
    assert_eq!(Command::Utf8.name(), "UTF8");
    assert_eq!(Command::LangAll.name(), "LANGALL");
    assert_eq!(
        Command::Lang {
            lang_or_wild: Language::Wild
        }
        .name(),
        "LANG"
    );
}

#[test]
fn language_text() {
    assert_eq!(Language::Wild.to_string(), "*");
    assert_eq!(Language::Lang("sv".into()).to_string(), "sv");
}

#[test]
fn capability_text() {
    assert_eq!(Capability::Top.to_string(), "TOP");
    assert_eq!(
        Capability::Sasl {
            mechanisms: vec!["PLAIN".into(), "LOGIN".into()]
        }
        .to_string(),
        "SASL PLAIN LOGIN"
    );
    assert_eq!(
        Capability::Sasl { mechanisms: vec![] }.to_string(),
        "SASL"
    );
    assert_eq!(
        Capability::Sasl {
            mechanisms: vec!["PLAIN".into()]
        }
        .to_string(),
        "SASL PLAIN"
    );
    assert_eq!(
        Capability::Other {
            tag: "X-SPECIAL".into(),
            parameters: vec![]
        }
        .to_string(),
        "X-SPECIAL"
    );
    assert_eq!(
        Capability::LoginDelay {
            minimum_seconds: 900,
            per_user: true
        }
        .to_string(),
        "LOGIN-DELAY 900 USER"
    );
    assert_eq!(
        Capability::Expire {
            policy: ExpirePolicy::MinimumDays(60),
            per_user: false
        }
        .to_string(),
        "EXPIRE 60"
    );
    assert_eq!(
        Capability::Expire {
            policy: ExpirePolicy::Never,
            per_user: true
        }
        .to_string(),
        "EXPIRE NEVER USER"
    );
    assert_eq!(
        Capability::Implementation {
            text: "Shlemazle-Plotz-v302".into()
        }
        .to_string(),
        "IMPLEMENTATION Shlemazle-Plotz-v302"
    );
    assert_eq!(
        Capability::Utf8 {
            in_credentials: true
        }
        .to_string(),
        "UTF8 USER"
    );
    assert_eq!(
        Capability::Other {
            tag: "X-SPECIAL".into(),
            parameters: vec!["something".into(), "different".into()]
        }
        .to_string(),
        "X-SPECIAL something different"
    );
    assert_eq!(ExpirePolicy::Never.to_string(), "NEVER");
    assert_eq!(ExpirePolicy::MinimumDays(7).to_string(), "7");
}
