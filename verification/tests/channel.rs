use jerry::channel::Channel;
use jerry::message::Message;

fn job_of(m: Option<Message<u32>>) -> Option<u32> {
    match m {
        Some(Message::NewJob(job)) => Some(job),
        _ => None,
    }
}

#[test]
fn a_message_is_a_job_or_a_stop_order() {
    assert!(!Message::job(5u32).is_terminate());
    assert!(matches!(Message::job(5u32), Message::NewJob(5)));
    assert!(!Message::NewJob(0u32).is_terminate());
    assert!(Message::<u32>::Terminate.is_terminate());
}

#[test]
fn a_channel_hands_out_what_was_sent_in_the_order_of_sending() {
    let mut channel: Channel<u32> = Channel::new();
    assert!(channel.is_empty());
    assert_eq!(channel.len(), 0);
    assert!(channel.recv().is_none());
    channel.send(Message::job(3));
    channel.send(Message::job(1));
    channel.send(Message::Terminate);
    channel.send(Message::job(2));
    assert!(!channel.is_empty());
    assert_eq!(channel.len(), 4);
    assert_eq!(job_of(channel.recv()), Some(3));
    assert_eq!(job_of(channel.recv()), Some(1));
    assert_eq!(channel.len(), 2);
    assert!(matches!(channel.recv(), Some(Message::Terminate)));
    assert_eq!(job_of(channel.recv()), Some(2));
    assert!(channel.recv().is_none());
    assert!(channel.is_empty());
}

#[test]
fn stop_orders_go_behind_what_was_sent() {
    let mut channel: Channel<u32> = Channel::new();
    channel.send(Message::job(8));
    channel.send_stops(0);
    assert_eq!(channel.len(), 1);
    channel.send_stops(3);
    assert_eq!(channel.len(), 4);
    assert_eq!(job_of(channel.recv()), Some(8));
    for _ in 0..3 {
        assert!(matches!(channel.recv(), Some(Message::Terminate)));
    }
    assert!(channel.recv().is_none());
}
