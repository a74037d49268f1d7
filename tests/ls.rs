use sshfuse::calendar::{civil_to_epoch, year_of_epoch_seconds};
use sshfuse::ls::decode_perms;
use sshfuse::{
    current_utc_year, parse_long_list, parse_long_list_in_year, parse_long_list_line,
    permissions_octet,
};

#[test]
fn test_ubuntu() {
    let sample = r"total 128
    drwxr-xr-x   2 root root  4096 Mar  3 23:27 bin
    drwxr-xr-x   3 root root  4096 Jun 25 06:00 boot
    drwxr-xr-x  14 root root  3160 Dec 17  2020 dev
    drwxr-xr-x 105 root root  4096 Jun 25 21:26 etc
    drwxr-xr-x   3 root root  4096 Jul 31  2019 home
    lrwxrwxrwx   1 root root    30 Jun 24 06:39 initrd.img -> boot/initrd.img-5.4.0-1051-aws
    lrwxrwxrwx   1 root root    30 Jun 24 06:39 initrd.img.old -> boot/initrd.img-5.4.0-1049-aws
    drwxr-xr-x  21 root root  4096 Jan  6 11:28 lib
    drwxr-xr-x   2 root root  4096 Jul  7  2020 lib32
    drwxr-xr-x   2 root root  4096 Jul  7  2020 lib64
    drwx------   2 root root 16384 Jul 22  2019 lost+found
    drwxr-xr-x   2 root root  4096 Jul 22  2019 media
    drwxr-xr-x   2 root root  4096 Jul 22  2019 mnt
    drwxr-xr-x   2 root root  4096 Jul 22  2019 opt
    dr-xr-xr-x 532 root root     0 Nov 21  2019 proc
    drwx------   4 root root  4096 Jun 12 21:13 root
    drwxr-xr-x  30 root root  1120 Jun 27 15:19 run
    drwxr-xr-x   2 root root 12288 May 29 06:21 sbin
    drwxr-xr-x   8 root root  4096 Nov  6  2020 snap
    drwxr-xr-x   2 root root  4096 Jul 22  2019 srv
    dr-xr-xr-x  13 root root     0 Jun 26 21:55 sys
    drwxrwxrwt 149 root root 36864 Jun 27 14:31 tmp
    drwxr-xr-x  11 root root  4096 Mar 15  2020 usr
    drwxr-xr-x  13 root root  4096 Jul 22  2019 var
    lrwxrwxrwx   1 root root    27 Jun 24 06:39 vmlinuz -> boot/vmlinuz-5.4.0-1051-aws
    lrwxrwxrwx   1 root root    27 Jun 24 06:39 vmlinuz.old -> boot/vmlinuz-5.4.0-1049-aws
    ";

    let dir = parse_long_list(sample);

    assert_eq!(dir.len(), 26);

    // symbolic links count as directories
    assert_eq!(
        dir.iter().filter(|m| m.directory).collect::<Vec<_>>().len(),
        26
    );
}

#[test]
fn test_parse_err() {
    let sample = r"ls: cannot access '/fdasfksahfjkdsa': No such file or directory";

    let dir = parse_long_list(sample);
    assert_eq!(dir.len(), 0);
}

#[test]
fn test_mac() {
    let sample = r"total 48
    -rw-r--r--  1 zz85  staff   6.7K 26 Jun 19:08 Cargo.lock
    -rw-r--r--  1 zz85  staff   345B 26 Jun 19:08 Cargo.toml
    -rw-r--r--  1 zz85  staff   1.0K 26 Jun 13:41 LICENSE
    -rw-r--r--  1 zz85  staff   611B 27 Jun 00:34 README.md
    drwxr-xr-x  5 zz85  staff   160B 26 Jun 16:59 src
    drwxr-xr-x@ 5 zz85  staff   160B 26 Jun 13:42 target
    -rwxr-xr-x  1 zz85  staff   128B 26 Jun 15:52 test.sh
    ";

    let dir = parse_long_list(sample);

    assert_eq!(dir.len(), 7);
    assert_eq!(
        dir.iter().filter(|m| m.directory).collect::<Vec<_>>().len(),
        2
    );
    assert!(dir.iter().all(|m| m.file_size == 0));
}

#[test]
fn test_stat() {
    let _stat = r"stat /bin
File: /bin
Size: 4096            Blocks: 8          IO Block: 4096   directory
Device: 10303h/66307d   Inode: 12          Links: 2
Access: (0755/drwxr-xr-x)  Uid: (    0/    root)   Gid: (    0/    root)
Access: 2021-06-26 08:05:02.904641271 +0000
Modify: 2021-03-03 23:27:41.025619169 +0000
Change: 2021-03-03 23:27:41.025619169 +0000
Birth: -";

    let _stat_ln = r"File: /vmlinuz -> boot/vmlinuz-5.4.0-1051-aws
Size: 27              Blocks: 0          IO Block: 4096   symbolic link
Device: 10303h/66307d   Inode: 59264       Links: 1
Access: (0777/lrwxrwxrwx)  Uid: (    0/    root)   Gid: (    0/    root)
Access: 2021-06-26 21:55:07.638695727 +0000
Modify: 2021-06-24 06:39:16.664708918 +0000
Change: 2021-06-24 06:39:16.664708918 +0000
Birth: -";

    let _stat_linked = r"stat /boot/initrd.img-5.4.0-1051-aws
File: /boot/initrd.img-5.4.0-1051-aws
Size: 21246462        Blocks: 41504      IO Block: 4096   regular file
Device: 10303h/66307d   Inode: 146138      Links: 1
Access: (0644/-rw-r--r--)  Uid: (    0/    root)   Gid: (    0/    root)
Access: 2021-06-24 06:39:24.292540575 +0000
Modify: 2021-06-24 06:39:24.260541281 +0000
Change: 2021-06-24 06:39:24.288540664 +0000
Birth: -";
}

#[test]
fn test_perms() {
    let sample = r"total 1
    drwxr-xr-x   2 root root  4096 Mar  3 23:27 bin
    ";

    let dir = parse_long_list(sample);

    assert_eq!(dir.len(), 1);

    let file = &dir[0];

    assert_eq!("drwxr-xr-x", file.permissions);
    assert_eq!(0o755, file.perms);
}

#[test]
fn row_fields_in_a_given_year() {
    let row = parse_long_list_line("drwxr-xr-x 2 root root 4096 Mar 3 23:27 bin", 2021).unwrap();
    assert_eq!(row.perms, 0o755);
    assert_eq!(row.file_size, 4096);
    assert_eq!(row.name, "bin");
    assert!(row.directory);
    assert_eq!(row.links, 2);
    assert_eq!(row.owner_name, "root");
    assert_eq!(row.owner_group, "root");
    assert_eq!(row.month, "Mar");
    assert_eq!(row.date, "3");
    assert_eq!(row.time_year, "23:27");
    assert_eq!(row.modified_since, 1614814020);
}

#[test]
fn clock_rows_fall_in_the_current_year() {
    let rows = parse_long_list("drwxr-xr-x 2 root root 4096 Mar 3 23:27 bin");
    assert_eq!(rows.len(), 1);
    let year = current_utc_year();
    assert!(year >= 2024);
    assert_eq!(rows[0].modified_since, civil_to_epoch(year, 3, 3, 23, 27));
}

#[test]
fn year_rows_are_at_midnight() {
    let row = parse_long_list_line("drwxr-xr-x 14 root root 3160 Dec 17  2020 dev", 1999).unwrap();
    assert_eq!(row.modified_since, 1608163200);
    let leap = parse_long_list_line("-rw-r--r-- 1 a b 1 Feb 29 2020 x", 1999).unwrap();
    assert_eq!(leap.modified_since, 1582934400);
}

#[test]
fn impossible_dates_skip_the_row() {
    assert!(parse_long_list_line("-rw-r--r-- 1 a b 1 Feb 29 2021 x", 2021).is_none());
    assert!(parse_long_list_line("-rw-r--r-- 1 a b 1 Feb 30 2020 x", 2021).is_none());
    assert!(parse_long_list_line("-rw-r--r-- 1 a b 1 Foo 3 2020 x", 2021).is_none());
    assert!(parse_long_list_line("-rw-r--r-- 1 a b 1 Mar 3 24:00 x", 2021).is_none());
    assert!(parse_long_list_line("-rw-r--r-- 1 a b 1 Mar 3 12:5 x", 2021).is_none());
    assert!(parse_long_list_line("-rw-r--r-- 1 a b 1 Mar 3 20200 x", 2021).is_none());
}

#[test]
fn bad_link_counts_skip_the_row() {
    assert!(parse_long_list_line("-rw-r--r-- x a b 1 Mar 3 2020 x", 2021).is_none());
    assert!(parse_long_list_line("-rw-r--r-- 65536 a b 1 Mar 3 2020 x", 2021).is_none());
    let max = parse_long_list_line("-rw-r--r-- 65535 a b 1 Mar 3 2020 x", 2021).unwrap();
    assert_eq!(max.links, 65535);
    assert!(parse_long_list_line("-rw-r--r-- 1 a b 1 Mar 3", 2021).is_none());
}

#[test]
fn symlink_name_and_perms() {
    let row = parse_long_list_line(
        "lrwxrwxrwx 1 root root 30 Jun 24 06:39 initrd.img -> boot/initrd.img-5.4.0-1051-aws",
        2021,
    )
    .unwrap();
    assert_eq!(row.name, "initrd.img");
    assert_eq!(row.perms, 0o7777);
    assert!(row.directory);
}

#[test]
fn names_with_spaces_are_joined() {
    let row = parse_long_list_line("-rw-r--r-- 1 a b 12 Mar 3 2020 my   file  name", 2021).unwrap();
    assert_eq!(row.name, "my file name");
    assert!(!row.directory);
    assert_eq!(row.perms, 0o644);
    assert_eq!(row.file_size, 12);
}

#[test]
fn day_first_dates_are_read() {
    let row = parse_long_list_line("-rw-r--r-- 1 zz85 staff 345B 26 Jun 19:08 Cargo.toml", 2021).unwrap();
    assert_eq!(row.month, "26");
    assert_eq!(row.date, "Jun");
    assert_eq!(row.modified_since, civil_to_epoch(2021, 6, 26, 19, 8));
    assert_eq!(row.file_size, 0);
}

#[test]
fn junk_input_yields_no_rows() {
    assert!(parse_long_list_in_year("", 2021).is_empty());
    assert!(parse_long_list_in_year("\n\n\n", 2021).is_empty());
    assert!(parse_long_list_in_year("a b c d e f g h i j\u{00e9}\u{3000}x", 2021).is_empty());
    assert!(parse_long_list_in_year("\u{0}\u{7f}\u{10ffff}", 2021).is_empty());
}

#[test]
fn listing_keeps_row_order() {
    let rows = parse_long_list_in_year(
        "-rw-r--r-- 1 a b 1 Mar 3 2020 first\r\nnoise\n-rw-r--r-- 1 a b 2 Mar 3 2020 second",
        2021,
    );
    assert_eq!(rows.len(), 2);
    assert_eq!(rows[0].name, "first");
    assert_eq!(rows[1].name, "second");
    assert_eq!(rows[1].file_size, 2);
}

#[test]
fn permission_triples_decode_as_octal() {
    let chars: Vec<char> = "-rwxr-xr-x".chars().collect();
    assert_eq!(permissions_octet(&chars, 1), 7);
    assert_eq!(permissions_octet(&chars, 4), 5);
    assert_eq!(decode_perms(&chars), 0o755);
    let chars: Vec<char> = "-rw-r--r--".chars().collect();
    assert_eq!(decode_perms(&chars), 0o644);
    let chars: Vec<char> = "d".chars().collect();
    assert_eq!(decode_perms(&chars), 0);
}

#[test]
fn epoch_year_boundaries() {
    assert_eq!(civil_to_epoch(1970, 1, 1, 0, 0), 0);
    assert_eq!(civil_to_epoch(1969, 12, 31, 23, 59), -60);
    assert_eq!(year_of_epoch_seconds(0), 1970);
    assert_eq!(year_of_epoch_seconds(1614814020), 2021);
    assert_eq!(year_of_epoch_seconds(1609459199), 2020);
    assert_eq!(year_of_epoch_seconds(1609459200), 2021);
}
