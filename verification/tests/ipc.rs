use audio_visualizer::ipc::{frame_message, retain_delivered, PACKET_VERSION};

#[test]
fn packet_version_is_one() {
    assert_eq!(PACKET_VERSION, 1);
}

#[test]
fn message_is_one_line() {
    assert_eq!(frame_message("{\"version\":1}"), "{\"version\":1}\n");
    assert_eq!(frame_message(""), "\n");
}

#[test]
fn failed_clients_are_dropped_in_order() {
    let mut clients = vec!["a", "b", "c", "d", "e"];
    retain_delivered(&mut clients, &vec![true, false, true, false, true]);
    assert_eq!(clients, vec!["a", "c", "e"]);
}

#[test]
fn all_delivered_keeps_every_client() {
    let mut clients = vec![3, 1, 2];
    retain_delivered(&mut clients, &vec![true, true, true]);
    assert_eq!(clients, vec![3, 1, 2]);
}

#[test]
fn none_delivered_drops_every_client() {
    let mut clients = vec![String::from("x"), String::from("y")];
    retain_delivered(&mut clients, &vec![false, false]);
    assert!(clients.is_empty());
}

#[test]
fn no_clients_stays_empty() {
    let mut clients: Vec<u8> = Vec::new();
    retain_delivered(&mut clients, &Vec::new());
    assert!(clients.is_empty());
}
