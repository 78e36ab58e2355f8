use nanometers_server::address::{choose_socket_name, socket_buffer_size, socket_name};
use nanometers_server::RING_BUFFER_SIZE;
use nanometers_server::NameSupport;

#[test]
fn path_only_platforms_use_the_well_known_path() {
    assert_eq!(socket_name(NameSupport::OnlyPaths), "/tmp/nanometers.sock");
}

#[test]
fn namespaced_platforms_prefer_the_namespaced_name() {
    assert_eq!(socket_name(NameSupport::OnlyNamespaced), "@nanometers.sock");
    assert_eq!(socket_name(NameSupport::Both), "@nanometers.sock");
}

#[test]
fn kernel_buffers_hold_a_whole_snapshot() {
    assert!(socket_buffer_size(RING_BUFFER_SIZE) >= 4 * (RING_BUFFER_SIZE + 1));
    assert!(socket_buffer_size(48000) >= 4 * 48001);
}

#[test]
fn the_chosen_address_is_one_of_the_two() {
    let name = choose_socket_name();
    assert!(name == "/tmp/nanometers.sock" || name == "@nanometers.sock");
}
