use sshfuse::{
    cat_command, child_key, list_command, listing_from_output, listing_path, parent_key,
    path_key, SshCmd,
};

#[test]
fn full_command_line() {
    let cmd = SshCmd::new("alice", "example.org", "-p 2222");
    assert_eq!(cmd.get_full_cmd("ls -l /"), "ssh -p 2222 alice@example.org -- ls -l /");
    let words = cmd.command_words("cat /etc/motd");
    assert_eq!(
        words,
        vec!["ssh", "-p", "2222", "alice@example.org", "--", "cat", "/etc/motd"]
    );
    let bare = SshCmd::new("bob", "h", "");
    assert_eq!(bare.command_words("ls"), vec!["ssh", "bob@h", "--", "ls"]);
}

#[test]
fn remote_commands() {
    assert_eq!(list_command("/boot"), "ls -l /boot/");
    assert_eq!(list_command("/"), "ls -l /");
    assert_eq!(cat_command("/etc/motd"), "cat /etc/motd");
}

#[test]
fn output_to_rows() {
    let out = b"total 1\n-rw-r--r-- 1 a b 10 Mar 3 2020 caf\xc3\xa9\n".to_vec();
    let rows = listing_from_output(out.clone(), &Vec::new(), 2021).unwrap();
    assert_eq!(rows.len(), 1);
    assert_eq!(rows[0].name, "caf\u{e9}");
    assert!(listing_from_output(out, &b"ls: error".to_vec(), 2021).is_none());
    assert!(listing_from_output(vec![0xff, 0xfe], &Vec::new(), 2021).is_none());
}

#[test]
fn path_keys() {
    assert_eq!(path_key("/"), "");
    assert_eq!(path_key("/boot"), "/boot");
    assert_eq!(path_key("/boot/"), "/boot");
    assert_eq!(parent_key("/boot"), "");
    assert_eq!(parent_key("/"), "");
    assert_eq!(parent_key("/a/b"), "/a");
    assert_eq!(child_key(&String::new(), &"bin".to_string()), "/bin");
    assert_eq!(child_key(&"/a".to_string(), &"b c".to_string()), "/a/b c");
    assert_eq!(listing_path(&String::new()), "/");
    assert_eq!(listing_path(&"/a".to_string()), "/a/");
}
