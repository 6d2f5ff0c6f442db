use commit_msg::args::{classify_args, Invocation};

fn args(list: &[&str]) -> Vec<String> {
    list.iter().map(|s| s.to_string()).collect()
}

#[test]
fn short_message_flag_with_value_bypasses() {
    assert!(classify_args(&args(&["-m", "msg"])).bypass);
    assert!(classify_args(&args(&["--message=msg"])).bypass);
    assert!(!classify_args(&args(&["-m"])).bypass);
}

#[test]
fn value_flags_need_a_following_argument() {
    assert!(classify_args(&args(&["-F", "msg.txt"])).bypass);
    assert!(classify_args(&args(&["-C", "HEAD"])).bypass);
    assert!(classify_args(&args(&["-c", "HEAD"])).bypass);
    assert!(classify_args(&args(&["--message", "msg"])).bypass);
    assert!(!classify_args(&args(&["-a", "-F"])).bypass);
}

#[test]
fn flags_that_bypass_alone() {
    for a in ["--fixup", "--squash", "--help", "-h", "--version", "--fixup=abc", "--squash=abc",
              "--file=msg.txt", "--reuse-message=HEAD", "--reedit-message=HEAD"] {
        assert!(classify_args(&args(&[a])).bypass, "{}", a);
    }
}

#[test]
fn plain_flags_generate() {
    let r = classify_args(&args(&["-a", "--signoff"]));
    assert_eq!(r, Invocation { bypass: false, include_all: true, signoff: true, amend: false });
    let r = classify_args(&args(&["--all", "-s", "--verbose"]));
    assert_eq!(r, Invocation { bypass: false, include_all: true, signoff: true, amend: false });
    let r = classify_args(&args(&[]));
    assert_eq!(r, Invocation { bypass: false, include_all: false, signoff: false, amend: false });
}

#[test]
fn amend_generates() {
    let r = classify_args(&args(&["--amend"]));
    assert_eq!(r, Invocation { bypass: false, include_all: false, signoff: false, amend: true });
    assert!(classify_args(&args(&["--amend", "-m", "x"])).bypass);
}

#[test]
fn near_miss_flags_do_not_bypass() {
    assert!(!classify_args(&args(&["--messages", "x"])).bypass);
    assert!(!classify_args(&args(&["-mx"])).bypass);
    assert!(!classify_args(&args(&["--fixups"])).bypass);
}
