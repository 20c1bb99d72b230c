//! Choosing and describing the input side: from the configuration to the
//! credentials of the receiver that should run.  Opening sockets and
//! consuming brokers happen outside the library.

use vstd::prelude::*;

verus! {

use vstd::string::StrSliceExecFns;
use crate::config::{hosts_view, Settings};

/// What a receiver needs to start: broker hosts, topic and group for a
/// bus consumer, or a bind address for a datagram server.
pub enum ListenerCredentials {
    Kafka(Vec<String>, String, String),
    UdpServer(String),
}

/// Compares two string slices character by character.
pub fn str_eq(a: &str, b: &str) -> (r: bool)
    ensures
        r == (a@ == b@),
{
    let la = a.unicode_len();
    let lb = b.unicode_len();
    if la != lb {
        return false;
    }
    let mut i: usize = 0;
    while i < la
        invariant
            i <= la,
            la == a@.len(),
            la == b@.len(),
            forall|k: int| 0 <= k < i ==> a@[k] == b@[k],
        decreases la - i,
    {
        if a.get_char(i) != b.get_char(i) {
            return false;
        }
        i = i + 1;
    }
    proof {
        assert(a@ =~= b@);
    }
    true
}

/// Reads the receiver choice out of the settings: the datagram server
/// with its bind address, or the bus consumer with its credentials.
/// Succeeds exactly when the configured kind is known and the matching
/// section is present.
pub fn get_credentials_from_settings(settings: &Settings) -> (r: Result<
    ListenerCredentials,
    String,
>)
    ensures
        match r {
            Result::Ok(creds) => match creds {
                ListenerCredentials::UdpServer(address) => settings.receiver.receiver@ == "udp"@
                    && settings.receiver.udp_address is Some && address@
                    == settings.receiver.udp_address.unwrap()@,
                ListenerCredentials::Kafka(hosts, topic, group) => settings.receiver.receiver@
                    == "kafka"@ && settings.receiver.kafka is Some && hosts_view(hosts@)
                    == hosts_view(settings.receiver.kafka.unwrap().hosts@) && topic@
                    == settings.receiver.kafka.unwrap().topic@ && group@
                    == settings.receiver.kafka.unwrap().group@,
            },
            Result::Err(_) => !(settings.receiver.receiver@ == "udp"@
                && settings.receiver.udp_address is Some) && !(settings.receiver.receiver@
                == "kafka"@ && settings.receiver.kafka is Some),
        },
{
    proof {
        reveal_strlit("udp");
        reveal_strlit("kafka");
        assert("udp"@.len() == 3);
        assert("kafka"@.len() == 5);
        assert("udp"@ != "kafka"@);
    }
    if str_eq(settings.get_receiver_type(), "udp") {
        match settings.get_udp_bind_address() {
            Option::Some(address) => Ok(ListenerCredentials::UdpServer(address)),
            Option::None => Err(
                "Expected udp receiver, but no address to bind specified".to_owned(),
            ),
        }
    } else if str_eq(settings.get_receiver_type(), "kafka") {
        match settings.get_kafka_receiver_credentials() {
            Option::Some(kafka) => Ok(
                ListenerCredentials::Kafka(kafka.get_hosts(), kafka.get_topic(), kafka.get_group()),
            ),
            Option::None => Err(
                "Expected kafka receiver, but no kafka settings specified".to_owned(),
            ),
        }
    } else {
        proof {
            reveal_strlit("udp");
            reveal_strlit("kafka");
        }
        Err("Unknown receiver type specified!".to_owned())
    }
}

} // verus!
