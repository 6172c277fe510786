use jolt_core::toolchain::{delay_timeout, toolchain_tag_file, toolchain_url};

#[test]
fn tag_file_sits_inside_the_directory() {
    assert_eq!(
        toolchain_tag_file("/home/user/.jolt"),
        "/home/user/.jolt/.toolchaintag"
    );
}

#[test]
fn url_names_tag_and_target() {
    assert_eq!(
        toolchain_url("release-tag", "x86_64-unknown-linux-gnu"),
        "https://github.com/a16z/rust/releases/download/release-tag/rust-toolchain-x86_64-unknown-linux-gnu.tar.gz"
    );
}

#[test]
fn backoff_delay_stays_below_its_bound() {
    for attempt in 0..6usize {
        for _ in 0..16 {
            let d = delay_timeout(attempt, 500);
            assert!(d < (1u64 << attempt) * 500);
        }
    }
}
