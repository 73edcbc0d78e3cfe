use chat::broker::filters::{Filter, FilterMessage, LengthFilter};
use chat::broker::{Broker, BrokerEvent};
use chat::user::{User, UserId};

#[test]
fn test_connect_disconnect() {
    let mut broker: Broker<LengthFilter> = Broker::new();
    let (client_sender, client_receiver) = flume::unbounded();

    let user = User {
        id: UserId("skade".into()),
        display_name: "Skade".into(),
    };
    broker.handle_message(BrokerEvent::Connect(user.clone(), client_sender));

    assert_eq!(broker.connections.len(), 1);

    broker.handle_message(BrokerEvent::Disconnect(user));

    assert_eq!(broker.connections.len(), 0);
    drop(client_receiver);
}

#[test]
fn test_sending() {
    let mut broker: Broker<LengthFilter> = Broker::new();
    let (client1_sender, _) = flume::unbounded();
    let (client2_sender, client2_receiver) = flume::unbounded();

    let user = User {
        id: UserId("skade".into()),
        display_name: "Skade".into(),
    };
    let user2 = User {
        id: UserId("other".into()),
        display_name: "Other".into(),
    };

    broker.handle_message(BrokerEvent::Connect(user.clone(), client1_sender));
    broker.handle_message(BrokerEvent::Connect(user2.clone(), client2_sender));

    assert_eq!(broker.connections.len(), 2);

    broker.handle_message(BrokerEvent::Sending {
        id: user.id,
        text: "Hello!".into(),
    });

    assert_eq!(String::from("Hello!"), client2_receiver.recv().unwrap());
}

#[test]
fn test_filter() {
    let mut broker: Broker<LengthFilter> = Broker::new();
    let filter = LengthFilter::new(10);
    broker.add_filter(filter);

    let (client1_sender, _) = flume::unbounded();
    let (client2_sender, client2_receiver) = flume::unbounded();

    let user = User {
        id: UserId("skade".into()),
        display_name: "Skade".into(),
    };
    let user2 = User {
        id: UserId("other".into()),
        display_name: "Other".into(),
    };

    broker.handle_message(BrokerEvent::Connect(user.clone(), client1_sender));
    broker.handle_message(BrokerEvent::Connect(user2.clone(), client2_sender));

    assert_eq!(broker.connections.len(), 2);

    broker.handle_message(BrokerEvent::Sending {
        id: user.id,
        text: "Hello! HelllOOOO!".into(),
    });

    assert!(client2_receiver.try_recv().is_err());
}

#[test]
fn test_end_to_end_via_step() {
    let mut broker: Broker<LengthFilter> = Broker::new();
    let (skade_sender, skade_receiver) = flume::unbounded();
    let (other_sender, other_receiver) = flume::unbounded();
    let (event_sender, event_receiver) = flume::unbounded();

    let skade = User {
        id: UserId("skade".into()),
        display_name: "Skade".into(),
    };
    let other = User {
        id: UserId("other".into()),
        display_name: "Other".into(),
    };

    event_sender
        .send(BrokerEvent::Connect(skade.clone(), skade_sender))
        .unwrap();
    event_sender
        .send(BrokerEvent::Connect(other.clone(), other_sender))
        .unwrap();
    event_sender
        .send(BrokerEvent::Sending {
            id: skade.id,
            text: "Hello!".into(),
        })
        .unwrap();
    event_sender.send(BrokerEvent::Stop).unwrap();

    while let Ok(event) = event_receiver.try_recv() {
        if !broker.step(event) {
            break;
        }
    }

    assert_eq!(String::from("Hello!"), other_receiver.recv().unwrap());
    assert!(other_receiver.try_recv().is_err());
    assert!(skade_receiver.try_recv().is_err());
}

#[test]
fn test_stop_leaves_broker_untouched() {
    let mut broker: Broker<LengthFilter> = Broker::new();
    let (client_sender, _client_receiver) = flume::unbounded();
    let user = User {
        id: UserId("skade".into()),
        display_name: "Skade".into(),
    };
    broker.handle_message(BrokerEvent::Connect(user, client_sender));

    let keep_running = broker.step(BrokerEvent::Stop);

    assert!(!keep_running);
    assert_eq!(broker.connections.len(), 1);
}

#[test]
fn test_filter_boundary() {
    let mut broker: Broker<LengthFilter> = Broker::new();
    broker.add_filter(LengthFilter::new(10));

    let (a_sender, _a_receiver) = flume::unbounded();
    let (b_sender, b_receiver) = flume::unbounded();

    let a = User {
        id: UserId("a".into()),
        display_name: "A".into(),
    };
    let b = User {
        id: UserId("b".into()),
        display_name: "B".into(),
    };
    broker.handle_message(BrokerEvent::Connect(a.clone(), a_sender));
    broker.handle_message(BrokerEvent::Connect(b.clone(), b_sender));

    broker.handle_message(BrokerEvent::Sending {
        id: a.id.clone(),
        text: "abcdefghij".into(),
    });
    assert_eq!(String::from("abcdefghij"), b_receiver.recv().unwrap());

    broker.handle_message(BrokerEvent::Sending {
        id: a.id,
        text: "abcdefghijk".into(),
    });
    assert!(b_receiver.try_recv().is_err());
}

#[test]
fn test_length_filter_verdicts() {
    let filter = LengthFilter::new(3);
    assert!(matches!(filter.filter("abc"), FilterMessage::No));
    assert!(matches!(filter.filter(""), FilterMessage::No));
    assert!(matches!(filter.filter("abcd"), FilterMessage::Yes));
}

#[test]
fn test_re_registration_delivers_to_latest_channel() {
    let mut broker: Broker<LengthFilter> = Broker::new();
    let (first_sender, first_receiver) = flume::unbounded();
    let (second_sender, second_receiver) = flume::unbounded();
    let (peer_sender, _peer_receiver) = flume::unbounded();

    let user = User {
        id: UserId("skade".into()),
        display_name: "Skade".into(),
    };
    let peer = User {
        id: UserId("other".into()),
        display_name: "Other".into(),
    };

    broker.handle_message(BrokerEvent::Connect(user.clone(), first_sender));
    broker.handle_message(BrokerEvent::Connect(peer.clone(), peer_sender));
    broker.handle_message(BrokerEvent::Connect(user.clone(), second_sender));

    assert_eq!(broker.connections.len(), 2);

    broker.handle_message(BrokerEvent::Sending {
        id: peer.id,
        text: "ping".into(),
    });

    assert_eq!(String::from("ping"), second_receiver.recv().unwrap());
    assert!(first_receiver.try_recv().is_err());
}

#[test]
fn test_dead_recipient_is_isolated() {
    let mut broker: Broker<LengthFilter> = Broker::new();
    let (gone_sender, gone_receiver) = flume::unbounded::<String>();
    drop(gone_receiver);
    let (alive1_sender, alive1_receiver) = flume::unbounded();
    let (alive2_sender, alive2_receiver) = flume::unbounded();
    let (sender_sender, _sender_receiver) = flume::unbounded();

    let gone = User {
        id: UserId("gone".into()),
        display_name: "Gone".into(),
    };
    let alive1 = User {
        id: UserId("alive1".into()),
        display_name: "Alive1".into(),
    };
    let alive2 = User {
        id: UserId("alive2".into()),
        display_name: "Alive2".into(),
    };
    let speaker = User {
        id: UserId("speaker".into()),
        display_name: "Speaker".into(),
    };

    broker.handle_message(BrokerEvent::Connect(gone.clone(), gone_sender));
    broker.handle_message(BrokerEvent::Connect(alive1.clone(), alive1_sender));
    broker.handle_message(BrokerEvent::Connect(alive2.clone(), alive2_sender));
    broker.handle_message(BrokerEvent::Connect(speaker.clone(), sender_sender));

    broker.handle_message(BrokerEvent::Sending {
        id: speaker.id.clone(),
        text: "hi".into(),
    });

    assert_eq!(String::from("hi"), alive1_receiver.recv().unwrap());
    assert_eq!(String::from("hi"), alive2_receiver.recv().unwrap());

    broker.handle_message(BrokerEvent::Disconnect(gone));
    assert_eq!(broker.connections.len(), 3);

    broker.handle_message(BrokerEvent::Sending {
        id: speaker.id,
        text: "still here".into(),
    });
    assert_eq!(String::from("still here"), alive1_receiver.recv().unwrap());
    assert_eq!(String::from("still here"), alive2_receiver.recv().unwrap());
}

#[test]
fn test_user_from_display_name() {
    let user = User::from_display_name("Skade".into());
    assert_eq!(user.display_name, String::from("Skade"));
    assert!(user.id == UserId("Skade".into()));
}
