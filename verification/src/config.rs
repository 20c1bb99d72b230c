//! The service configuration: which receiver and publisher to run, where
//! to bind and send, the dump period, and the seeding policy of the
//! tree.  Loading the document and reading the command line happen
//! outside the library; what is here is the data and the merge logic.

use vstd::prelude::*;

verus! {

use vstd::string::StringExecFns;

/// The view of an optional string.
pub open spec fn opt_view(o: Option<String>) -> Option<Seq<char>> {
    match o {
        Option::Some(s) => Option::Some(s@),
        Option::None => Option::None,
    }
}

/// The views of a list of strings.
pub open spec fn hosts_view(v: Seq<String>) -> Seq<Seq<char>> {
    v.map_values(|s: String| s@)
}

/// Clones a list of host names.
fn clone_hosts(v: &Vec<String>) -> (r: Vec<String>)
    ensures
        hosts_view(r@) == hosts_view(v@),
{
    let mut r: Vec<String> = Vec::new();
    let mut i: usize = 0;
    while i < v.len()
        invariant
            i <= v@.len(),
            r@.len() == i,
            forall|k: int| 0 <= k < i ==> (#[trigger] r@[k])@ == v@[k]@,
        decreases v@.len() - i,
    {
        r.push(v[i].clone());
        i = i + 1;
    }
    proof {
        assert forall|k: int| 0 <= k < r@.len() implies hosts_view(r@)[k] == hosts_view(
            v@,
        )[k] by {
            assert(hosts_view(r@)[k] == r@[k]@);
            assert(hosts_view(v@)[k] == v@[k]@);
        }
        assert(hosts_view(r@) =~= hosts_view(v@));
    }
    r
}

/// Clones an optional string.
fn clone_opt(o: &Option<String>) -> (r: Option<String>)
    ensures
        opt_view(r) == opt_view(*o),
{
    match o {
        Option::Some(s) => Some(s.clone()),
        Option::None => None,
    }
}

/// The receiver side of the configuration.
pub struct Receivers {
    pub receiver: String,
    pub udp_address: Option<String>,
    pub kafka: Option<KafkaReceiver>,
}

/// Broker endpoints, inbound topic and consumer group of a bus receiver.
pub struct KafkaReceiver {
    pub hosts: Vec<String>,
    pub topic: String,
    pub group: String,
}

impl KafkaReceiver {
    fn extend_kafka_hosts(&mut self, hosts: &Vec<String>)
        ensures
            hosts_view(final(self).hosts@) == hosts_view(old(self).hosts@) + hosts_view(hosts@),
            final(self).topic == old(self).topic,
            final(self).group == old(self).group,
    {
        let ghost n0 = old(self).hosts@.len() as int;
        let mut i: usize = 0;
        while i < hosts.len()
            invariant
                i <= hosts@.len(),
                n0 == old(self).hosts@.len() as int,
                self.hosts@.len() == n0 + i,
                forall|k: int| 0 <= k < n0 ==> self.hosts@[k] == old(self).hosts@[k],
                forall|k: int|
                    0 <= k < i ==> (#[trigger] self.hosts@[n0 + k])@ == hosts@[k]@,
                self.topic == old(self).topic,
                self.group == old(self).group,
            decreases hosts@.len() - i,
        {
            let ghost pre = self.hosts@;
            let cloned = hosts[i].clone();
            let ghost cv = cloned;
            self.hosts.push(cloned);
            i = i + 1;
            proof {
                assert(self.hosts@ == pre.push(cv));
                assert forall|k: int|
                    0 <= k < i implies (#[trigger] self.hosts@[n0 + k])@ == hosts@[k]@ by {
                    if k < i - 1 {
                        assert(pre.len() == n0 + i - 1);
                        assert(0 <= n0 + k < pre.len());
                        assert(pre.push(cv)[n0 + k] == pre[n0 + k]);
                    } else {
                        assert(pre.push(cv)[n0 + k] == cv);
                    }
                }
            }
        }
        proof {
            let lhs = hosts_view(self.hosts@);
            let rhs = hosts_view(old(self).hosts@) + hosts_view(hosts@);
            assert forall|k: int| 0 <= k < lhs.len() implies lhs[k] == rhs[k] by {
                assert(lhs[k] == self.hosts@[k]@);
                if k < n0 {
                    assert(rhs[k] == old(self).hosts@[k]@);
                } else {
                    assert(rhs[k] == hosts@[k - n0]@);
                    assert(self.hosts@[n0 + (k - n0)]@ == hosts@[k - n0]@);
                }
            }
            assert(lhs =~= rhs);
        }
    }

    pub fn get_hosts(&self) -> (r: Vec<String>)
        ensures
            hosts_view(r@) == hosts_view(self.hosts@),
    {
        clone_hosts(&self.hosts)
    }

    pub fn get_topic(&self) -> (r: String)
        ensures
            r@ == self.topic@,
    {
        self.topic.clone()
    }

    pub fn get_group(&self) -> (r: String)
        ensures
            r@ == self.group@,
    {
        self.group.clone()
    }
}

/// The publisher side of the configuration.
pub struct Senders {
    pub sender: String,
    pub udp_address: Option<String>,
    pub kafka: Option<KafkaSender>,
}

/// Broker endpoints, outbound topic and acknowledgement timeout of a bus
/// publisher.
pub struct KafkaSender {
    pub hosts: Vec<String>,
    pub topic: String,
    pub ack_duration_seconds: u64,
}

impl KafkaSender {
    fn extend_kafka_hosts(&mut self, hosts: &Vec<String>)
        ensures
            hosts_view(final(self).hosts@) == hosts_view(old(self).hosts@) + hosts_view(hosts@),
            final(self).topic == old(self).topic,
            final(self).ack_duration_seconds == old(self).ack_duration_seconds,
    {
        let ghost n0 = old(self).hosts@.len() as int;
        let mut i: usize = 0;
        while i < hosts.len()
            invariant
                i <= hosts@.len(),
                n0 == old(self).hosts@.len() as int,
                self.hosts@.len() == n0 + i,
                forall|k: int| 0 <= k < n0 ==> self.hosts@[k] == old(self).hosts@[k],
                forall|k: int|
                    0 <= k < i ==> (#[trigger] self.hosts@[n0 + k])@ == hosts@[k]@,
                self.topic == old(self).topic,
                self.ack_duration_seconds == old(self).ack_duration_seconds,
            decreases hosts@.len() - i,
        {
            let ghost pre = self.hosts@;
            let cloned = hosts[i].clone();
            let ghost cv = cloned;
            self.hosts.push(cloned);
            i = i + 1;
            proof {
                assert(self.hosts@ == pre.push(cv));
                assert forall|k: int|
                    0 <= k < i implies (#[trigger] self.hosts@[n0 + k])@ == hosts@[k]@ by {
                    if k < i - 1 {
                        assert(pre.len() == n0 + i - 1);
                        assert(0 <= n0 + k < pre.len());
                        assert(pre.push(cv)[n0 + k] == pre[n0 + k]);
                    } else {
                        assert(pre.push(cv)[n0 + k] == cv);
                    }
                }
            }
        }
        proof {
            let lhs = hosts_view(self.hosts@);
            let rhs = hosts_view(old(self).hosts@) + hosts_view(hosts@);
            assert forall|k: int| 0 <= k < lhs.len() implies lhs[k] == rhs[k] by {
                assert(lhs[k] == self.hosts@[k]@);
                if k < n0 {
                    assert(rhs[k] == old(self).hosts@[k]@);
                } else {
                    assert(rhs[k] == hosts@[k - n0]@);
                    assert(self.hosts@[n0 + (k - n0)]@ == hosts@[k - n0]@);
                }
            }
            assert(lhs =~= rhs);
        }
    }

    pub fn get_hosts(&self) -> (r: Vec<String>)
        ensures
            hosts_view(r@) == hosts_view(self.hosts@),
    {
        clone_hosts(&self.hosts)
    }

    pub fn get_topic(&self) -> (r: String)
        ensures
            r@ == self.topic@,
    {
        self.topic.clone()
    }

    pub fn get_ack_duration_seconds(&self) -> (r: u64)
        ensures
            r == self.ack_duration_seconds,
    {
        self.ack_duration_seconds
    }
}

/// The whole configuration document.
pub struct Settings {
    pub receiver: Receivers,
    pub sender: Senders,
    pub publish_timer: u32,
    pub auto_add_broadcast: bool,
    pub auto_add_zeroed: bool,
    pub log4rs_settings: Option<String>,
}

impl Settings {
    /// The built-in defaults: datagram receiver and publisher on the
    /// loopback ports, a dump every thirty seconds, both seeds on.
    pub fn default() -> (r: Settings)
        ensures
            r.receiver.receiver@ == "udp"@,
            opt_view(r.receiver.udp_address) == Option::Some("127.0.0.1:6788"@),
            r.receiver.kafka is None,
            r.sender.sender@ == "udp"@,
            opt_view(r.sender.udp_address) == Option::Some("127.0.0.1:6789"@),
            r.sender.kafka is None,
            r.publish_timer == 30,
            r.auto_add_broadcast,
            r.auto_add_zeroed,
            r.log4rs_settings is None,
    {
        Settings {
            receiver: Receivers {
                receiver: "udp".to_owned(),
                udp_address: Some("127.0.0.1:6788".to_owned()),
                kafka: None,
            },
            sender: Senders {
                sender: "udp".to_owned(),
                udp_address: Some("127.0.0.1:6789".to_owned()),
                kafka: None,
            },
            publish_timer: 30,
            auto_add_zeroed: true,
            auto_add_broadcast: true,
            log4rs_settings: None,
        }
    }

    /// Whether freshly created terminal nodes need any seeding at all.
    pub fn is_last_node_with_settings(&self) -> (r: bool)
        ensures
            r == (self.auto_add_broadcast || self.auto_add_zeroed),
    {
        self.auto_add_broadcast || self.auto_add_zeroed
    }

    pub fn add_zeroed(&self) -> (r: bool)
        ensures
            r == self.auto_add_zeroed,
    {
        self.auto_add_zeroed
    }

    pub fn add_broadcast(&self) -> (r: bool)
        ensures
            r == self.auto_add_broadcast,
    {
        self.auto_add_broadcast
    }

    pub fn get_udp_bind_address(&self) -> (r: Option<String>)
        ensures
            opt_view(r) == opt_view(self.receiver.udp_address),
    {
        clone_opt(&self.receiver.udp_address)
    }

    pub fn get_udp_send_to(&self) -> (r: Option<String>)
        ensures
            opt_view(r) == opt_view(self.sender.udp_address),
    {
        clone_opt(&self.sender.udp_address)
    }

    pub fn get_publish_timer(&self) -> (r: u32)
        ensures
            r == self.publish_timer,
    {
        self.publish_timer
    }

    pub fn get_logger_config(&self) -> (r: Option<String>)
        ensures
            opt_view(r) == opt_view(self.log4rs_settings),
    {
        clone_opt(&self.log4rs_settings)
    }

    pub fn get_receiver_type(&self) -> (r: &str)
        ensures
            r@ == self.receiver.receiver@,
    {
        self.receiver.receiver.as_str()
    }

    pub fn get_publisher_type(&self) -> (r: &str)
        ensures
            r@ == self.sender.sender@,
    {
        self.sender.sender.as_str()
    }

    pub fn get_kafka_receiver_credentials(&self) -> (r: Option<KafkaReceiver>)
        ensures
            r is Some <==> self.receiver.kafka is Some,
            r is Some ==> {
                &&& hosts_view(r.unwrap().hosts@) == hosts_view(
                    self.receiver.kafka.unwrap().hosts@,
                )
                &&& r.unwrap().topic@ == self.receiver.kafka.unwrap().topic@
                &&& r.unwrap().group@ == self.receiver.kafka.unwrap().group@
            },
    {
        match &self.receiver.kafka {
            Option::Some(k) => Some(
                KafkaReceiver {
                    hosts: clone_hosts(&k.hosts),
                    topic: k.topic.clone(),
                    group: k.group.clone(),
                },
            ),
            Option::None => None,
        }
    }

    /// Merges command-line overrides into the loaded settings: explicit
    /// options replace the loaded values, extra broker hosts extend both
    /// broker lists, and a bus section is created where an override
    /// mentions one that the document lacks.
    pub fn override_settings(self, settings: OverrideSettings) -> (r: Settings)
        ensures
            r.publish_timer == self.publish_timer,
            r.auto_add_broadcast == self.auto_add_broadcast,
            r.auto_add_zeroed == self.auto_add_zeroed,
            r.receiver.receiver@ == (match settings.receiver {
                Option::Some(s) => s@,
                Option::None => self.receiver.receiver@,
            }),
            r.sender.sender@ == (match settings.sender {
                Option::Some(s) => s@,
                Option::None => self.sender.sender@,
            }),
            opt_view(r.receiver.udp_address) == (match settings.udp_recv_host {
                Option::Some(h) => Option::Some(h@),
                Option::None => opt_view(self.receiver.udp_address),
            }),
            opt_view(r.sender.udp_address) == (match settings.udp_send_to_host {
                Option::Some(h) => Option::Some(h@),
                Option::None => opt_view(self.sender.udp_address),
            }),
            opt_view(r.log4rs_settings) == (match settings.logger_config {
                Option::Some(p) => Option::Some(p@),
                Option::None => opt_view(self.log4rs_settings),
            }),
            (r.receiver.kafka is Some) == (self.receiver.kafka is Some
                || settings.kafka_hosts@.len() > 0 || settings.kafka_inboud_topic is Some
                || settings.kafka_group is Some),
            r.receiver.kafka is Some ==> {
                &&& hosts_view(r.receiver.kafka.unwrap().hosts@) == (match self.receiver.kafka {
                    Option::Some(k0) => hosts_view(k0.hosts@),
                    Option::None => Seq::empty(),
                }) + hosts_view(settings.kafka_hosts@)
                &&& r.receiver.kafka.unwrap().topic@ == (match settings.kafka_inboud_topic {
                    Option::Some(t) => t@,
                    Option::None => match self.receiver.kafka {
                        Option::Some(k0) => k0.topic@,
                        Option::None => Seq::empty(),
                    },
                })
                &&& r.receiver.kafka.unwrap().group@ == (match settings.kafka_group {
                    Option::Some(g) => g@,
                    Option::None => match self.receiver.kafka {
                        Option::Some(k0) => k0.group@,
                        Option::None => Seq::empty(),
                    },
                })
            },
            (r.sender.kafka is Some) == (self.sender.kafka is Some || settings.kafka_hosts@.len()
                > 0 || settings.kafka_outbound_topic is Some),
            r.sender.kafka is Some ==> {
                &&& hosts_view(r.sender.kafka.unwrap().hosts@) == (match self.sender.kafka {
                    Option::Some(k0) => hosts_view(k0.hosts@),
                    Option::None => Seq::empty(),
                }) + hosts_view(settings.kafka_hosts@)
                &&& r.sender.kafka.unwrap().topic@ == (match settings.kafka_outbound_topic {
                    Option::Some(t) => t@,
                    Option::None => match self.sender.kafka {
                        Option::Some(k0) => k0.topic@,
                        Option::None => Seq::empty(),
                    },
                })
                &&& r.sender.kafka.unwrap().ack_duration_seconds == (match self.sender.kafka {
                    Option::Some(k0) => k0.ack_duration_seconds,
                    Option::None => 1u64,
                })
            },
    {
        let mut merged = self;
        if settings.kafka_hosts.len() > 0 {
            match &mut merged.sender.kafka {
                Option::Some(kafka) => {
                    kafka.extend_kafka_hosts(&settings.kafka_hosts);
                },
                Option::None => {
                    merged.sender.kafka = Some(
                        KafkaSender {
                            hosts: clone_hosts(&settings.kafka_hosts),
                            topic: String::new(),
                            ack_duration_seconds: 1,
                        },
                    );
                    proof {
                        assert(hosts_view(merged.sender.kafka.unwrap().hosts@)
                            =~= Seq::<Seq<char>>::empty() + hosts_view(settings.kafka_hosts@));
                    }
                },
            }
            match &mut merged.receiver.kafka {
                Option::Some(kafka) => {
                    kafka.extend_kafka_hosts(&settings.kafka_hosts);
                },
                Option::None => {
                    merged.receiver.kafka = Some(
                        KafkaReceiver {
                            hosts: clone_hosts(&settings.kafka_hosts),
                            topic: String::new(),
                            group: String::new(),
                        },
                    );
                    proof {
                        assert(hosts_view(merged.receiver.kafka.unwrap().hosts@)
                            =~= Seq::<Seq<char>>::empty() + hosts_view(settings.kafka_hosts@));
                    }
                },
            }
        } else {
            proof {
                assert(hosts_view(settings.kafka_hosts@) =~= Seq::<Seq<char>>::empty());
                if merged.sender.kafka is Some {
                    assert(hosts_view(merged.sender.kafka.unwrap().hosts@) =~= hosts_view(
                        merged.sender.kafka.unwrap().hosts@,
                    ) + hosts_view(settings.kafka_hosts@));
                }
                if merged.receiver.kafka is Some {
                    assert(hosts_view(merged.receiver.kafka.unwrap().hosts@) =~= hosts_view(
                        merged.receiver.kafka.unwrap().hosts@,
                    ) + hosts_view(settings.kafka_hosts@));
                }
            }
        }
        if let Option::Some(kafka_inbound_topic) = settings.kafka_inboud_topic {
            match &mut merged.receiver.kafka {
                Option::Some(kafka) => {
                    kafka.topic = kafka_inbound_topic;
                },
                Option::None => {
                    merged.receiver.kafka = Some(
                        KafkaReceiver {
                            hosts: Vec::new(),
                            topic: kafka_inbound_topic,
                            group: String::new(),
                        },
                    );
                    proof {
                        assert(hosts_view(merged.receiver.kafka.unwrap().hosts@)
                            =~= Seq::<Seq<char>>::empty() + hosts_view(settings.kafka_hosts@));
                    }
                },
            }
        }
        if let Option::Some(kafka_outbound_topic) = settings.kafka_outbound_topic {
            match &mut merged.sender.kafka {
                Option::Some(kafka) => {
                    kafka.topic = kafka_outbound_topic;
                },
                Option::None => {
                    merged.sender.kafka = Some(
                        KafkaSender {
                            hosts: Vec::new(),
                            topic: kafka_outbound_topic,
                            ack_duration_seconds: 1,
                        },
                    );
                    proof {
                        assert(hosts_view(merged.sender.kafka.unwrap().hosts@)
                            =~= Seq::<Seq<char>>::empty() + hosts_view(settings.kafka_hosts@));
                    }
                },
            }
        }
        if let Option::Some(kafka_group) = settings.kafka_group {
            match &mut merged.receiver.kafka {
                Option::Some(kafka) => {
                    kafka.group = kafka_group;
                },
                Option::None => {
                    merged.receiver.kafka = Some(
                        KafkaReceiver {
                            hosts: Vec::new(),
                            topic: String::new(),
                            group: kafka_group,
                        },
                    );
                    proof {
                        assert(hosts_view(merged.receiver.kafka.unwrap().hosts@)
                            =~= Seq::<Seq<char>>::empty() + hosts_view(settings.kafka_hosts@));
                    }
                },
            }
        }
        if let Option::Some(log4rs_path) = settings.logger_config {
            merged.log4rs_settings = Some(log4rs_path);
        }
        if let Option::Some(sender_type) = settings.sender {
            merged.sender.sender = sender_type;
        }
        if let Option::Some(receiver_type) = settings.receiver {
            merged.receiver.receiver = receiver_type;
        }
        if let Option::Some(udp_recv_host) = settings.udp_recv_host {
            merged.receiver.udp_address = Some(udp_recv_host);
        }
        if let Option::Some(udp_send_to_host) = settings.udp_send_to_host {
            merged.sender.udp_address = Some(udp_send_to_host);
        }
        merged
    }
}

/// The command-line overrides, every one optional.
pub struct OverrideSettings {
    pub settings_path: Option<String>,
    pub logger_config: Option<String>,
    pub kafka_hosts: Vec<String>,
    pub kafka_inboud_topic: Option<String>,
    pub kafka_outbound_topic: Option<String>,
    pub kafka_group: Option<String>,
    pub udp_recv_host: Option<String>,
    pub udp_send_to_host: Option<String>,
    pub receiver: Option<String>,
    pub sender: Option<String>,
}

impl OverrideSettings {
    /// No overrides at all.
    pub fn default() -> (r: OverrideSettings)
        ensures
            r.settings_path is None,
            r.logger_config is None,
            r.kafka_hosts@.len() == 0,
            r.kafka_inboud_topic is None,
            r.kafka_outbound_topic is None,
            r.kafka_group is None,
            r.udp_recv_host is None,
            r.udp_send_to_host is None,
            r.receiver is None,
            r.sender is None,
    {
        OverrideSettings {
            settings_path: None,
            logger_config: None,
            kafka_hosts: Vec::new(),
            kafka_inboud_topic: None,
            kafka_outbound_topic: None,
            kafka_group: None,
            udp_recv_host: None,
            udp_send_to_host: None,
            receiver: None,
            sender: None,
        }
    }

    pub fn get_settings_path(&self) -> (r: Option<String>)
        ensures
            opt_view(r) == opt_view(self.settings_path),
    {
        clone_opt(&self.settings_path)
    }

    pub fn get_log4rs_path(&self) -> (r: Option<String>)
        ensures
            opt_view(r) == opt_view(self.logger_config),
    {
        clone_opt(&self.logger_config)
    }

    /// The extra broker hosts, or nothing when none were given.
    pub fn get_kafka_hosts(&self) -> (r: Option<&Vec<String>>)
        ensures
            r is Some <==> self.kafka_hosts@.len() > 0,
            r is Some ==> *r.unwrap() == self.kafka_hosts,
    {
        if self.kafka_hosts.len() == 0 {
            None
        } else {
            Some(&self.kafka_hosts)
        }
    }

    pub fn get_receiver_type(&self) -> (r: Option<String>)
        ensures
            opt_view(r) == opt_view(self.receiver),
    {
        clone_opt(&self.receiver)
    }

    pub fn get_sender_type(&self) -> (r: Option<String>)
        ensures
            opt_view(r) == opt_view(self.sender),
    {
        clone_opt(&self.sender)
    }

    pub fn get_udp_recv_host(&self) -> (r: Option<String>)
        ensures
            opt_view(r) == opt_view(self.udp_recv_host),
    {
        clone_opt(&self.udp_recv_host)
    }

    pub fn get_udp_send_to_host(&self) -> (r: Option<String>)
        ensures
            opt_view(r) == opt_view(self.udp_send_to_host),
    {
        clone_opt(&self.udp_send_to_host)
    }

    pub fn get_kafka_inbound_topic(&self) -> (r: Option<String>)
        ensures
            opt_view(r) == opt_view(self.kafka_inboud_topic),
    {
        clone_opt(&self.kafka_inboud_topic)
    }

    pub fn get_kafka_outbound_topic(&self) -> (r: Option<String>)
        ensures
            opt_view(r) == opt_view(self.kafka_outbound_topic),
    {
        clone_opt(&self.kafka_outbound_topic)
    }

    pub fn get_kafka_group(&self) -> (r: Option<String>)
        ensures
            opt_view(r) == opt_view(self.kafka_group),
    {
        clone_opt(&self.kafka_group)
    }
}


} // verus!
