use sdrtool::clients::{after_send, register_client, ClientAddr};
use sdrtool::command::{classify_command, split_command, CommandAssembler, RtlCommand};

fn v4(ip: u32, port: u16) -> ClientAddr {
    ClientAddr { v6: false, ip: ip as u128, port, flowinfo: 0, scope_id: 0 }
}

#[test]
fn command_letters() {
    assert_eq!(classify_command('F'), RtlCommand::TunerFrequency);
    assert_eq!(classify_command('f'), RtlCommand::MixerFrequency);
    assert_eq!(classify_command('g'), RtlCommand::Gain);
    assert_eq!(classify_command('G'), RtlCommand::Ignored);
    assert_eq!(classify_command('x'), RtlCommand::Ignored);
}

#[test]
fn split_letter_and_value() {
    assert_eq!(split_command("F103.6"), Some(('F', "103.6")));
    assert_eq!(split_command("f-0.3"), Some(('f', "-0.3")));
    assert_eq!(split_command("g1"), Some(('g', "1")));
    assert_eq!(split_command("g"), None);
    assert_eq!(split_command(""), None);
    assert_eq!(split_command("aé"), Some(('a', "é")));
}

#[test]
fn assembler_waits_for_a_line_feed() {
    let mut a = CommandAssembler::new();
    assert_eq!(a.feed(b"F1"), None);
    assert_eq!(a.pending(), b"F1");
    assert_eq!(a.feed(b"03\n"), Some(b"F103\n".to_vec()));
    assert!(a.pending().is_empty());
}

#[test]
fn assembler_keeps_a_lone_line_feed() {
    let mut a = CommandAssembler::new();
    assert_eq!(a.feed(b"\n"), None);
    assert_eq!(a.pending(), b"\n");
    assert_eq!(a.feed(b"g2\n"), Some(b"\ng2\n".to_vec()));
}

#[test]
fn assembler_line_feed_must_be_in_the_new_chunk() {
    let mut a = CommandAssembler::new();
    assert_eq!(a.feed(b"\n"), None);
    assert_eq!(a.feed(b"x"), None);
    assert_eq!(a.pending(), b"\nx");
}

#[test]
fn failed_client_is_replaced_by_the_last() {
    let mut clients = vec![10, 20, 30, 40];
    assert_eq!(after_send(&mut clients, 0, true), 1);
    assert_eq!(clients, vec![10, 20, 30, 40]);
    assert_eq!(after_send(&mut clients, 1, false), 1);
    assert_eq!(clients, vec![10, 40, 30]);
    assert_eq!(after_send(&mut clients, 2, false), 2);
    assert_eq!(clients, vec![10, 40]);
}

#[test]
fn clients_are_registered_once() {
    let mut clients: Vec<ClientAddr> = vec![];
    assert!(register_client(&mut clients, v4(0x7f000001, 8888)));
    assert!(register_client(&mut clients, v4(0x7f000001, 8889)));
    assert!(!register_client(&mut clients, v4(0x7f000001, 8888)));
    let six = ClientAddr { v6: true, ip: 1, port: 8888, flowinfo: 0, scope_id: 0 };
    assert!(register_client(&mut clients, six));
    assert!(!register_client(&mut clients, six));
    assert_eq!(clients, vec![v4(0x7f000001, 8888), v4(0x7f000001, 8889), six]);
}

#[test]
fn a_send_round_keeps_the_clients_that_accepted() {
    let mut clients = vec![1, 2, 3, 4, 5, 6];
    let accepts = |c: i32| c % 2 == 1;
    let mut idx = 0;
    let mut attempted = vec![];
    while idx < clients.len() {
        attempted.push(clients[idx]);
        let sent = accepts(clients[idx]);
        idx = after_send(&mut clients, idx, sent);
    }
    let mut kept = clients.clone();
    kept.sort();
    assert_eq!(kept, vec![1, 3, 5]);
    assert_eq!(clients, vec![1, 5, 3]);
    attempted.sort();
    assert_eq!(attempted, vec![1, 2, 3, 4, 5, 6]);
}
