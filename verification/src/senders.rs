//! Choosing and describing the output side: from the configuration to
//! the credentials of the publisher that should run.  Sockets and broker
//! producers live outside the library.

use vstd::prelude::*;

verus! {

use crate::config::{hosts_view, Settings};
use crate::listeners::str_eq;

/// What a publisher needs to start: a datagram target address, or
/// broker hosts with an acknowledgement timeout (in seconds) and the
/// outbound topic.
pub enum PublisherCredentials {
    Udp(String),
    Kafka(Vec<String>, u64, String),
}

/// Reads the publisher choice out of the settings: the datagram sender
/// with its target, or the bus producer with its credentials.  Succeeds
/// exactly when the configured kind is known and the matching section is
/// present.
pub fn get_publisher_credentials(settings: &Settings) -> (r: Result<PublisherCredentials, String>)
    ensures
        match r {
            Result::Ok(creds) => match creds {
                PublisherCredentials::Udp(target) => settings.sender.sender@ == "udp"@
                    && settings.sender.udp_address is Some && target@
                    == settings.sender.udp_address.unwrap()@,
                PublisherCredentials::Kafka(hosts, ack_seconds, topic) => settings.sender.sender@
                    == "kafka"@ && settings.sender.kafka is Some && hosts_view(hosts@)
                    == hosts_view(settings.sender.kafka.unwrap().hosts@) && ack_seconds
                    == settings.sender.kafka.unwrap().ack_duration_seconds && topic@
                    == settings.sender.kafka.unwrap().topic@,
            },
            Result::Err(_) => !(settings.sender.sender@ == "udp"@
                && settings.sender.udp_address is Some) && !(settings.sender.sender@ == "kafka"@
                && settings.sender.kafka is Some),
        },
{
    proof {
        reveal_strlit("udp");
        reveal_strlit("kafka");
        assert("udp"@.len() == 3);
        assert("kafka"@.len() == 5);
        assert("udp"@ != "kafka"@);
    }
    if str_eq(settings.get_publisher_type(), "udp") {
        match settings.get_udp_send_to() {
            Option::Some(target) => Ok(PublisherCredentials::Udp(target)),
            Option::None => Err("Expected udp sender, but no target address specified".to_owned()),
        }
    } else if str_eq(settings.get_publisher_type(), "kafka") {
        match &settings.sender.kafka {
            Option::Some(kafka) => Ok(
                PublisherCredentials::Kafka(
                    kafka.get_hosts(),
                    kafka.get_ack_duration_seconds(),
                    kafka.get_topic(),
                ),
            ),
            Option::None => Err(
                "Expected kafka sender, but no kafka settings specified".to_owned(),
            ),
        }
    } else {
        proof {
            reveal_strlit("udp");
            reveal_strlit("kafka");
        }
        Err("Unknown sender type specified!".to_owned())
    }
}

} // verus!
