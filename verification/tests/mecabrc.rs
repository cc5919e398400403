use awabi::mecabrc::{find_mecabrc, get_dic_path, rc_map, RcMap};

fn lines(text: &[&str]) -> Vec<String> {
    text.iter().map(|l| l.to_string()).collect()
}

#[test]
fn test_mecabrc() {
    let rc_map = rc_map(&lines(&[
        ";",
        "; Configuration file of MeCab",
        ";",
        "dicdir = /var/lib/mecab/dic/debian",
        "",
        "; userdic = /home/foo/bar/user.dic",
    ]));
    assert_ne!(rc_map.get("dicdir"), None);
}

#[test]
fn settings_are_read_line_by_line() {
    let rc = rc_map(&lines(&[
        "dicdir = /var/lib/mecab/dic/ipadic",
        "userdic=/home/me/user.dic",
        "output-format-type   =   wakati   ; trailing words",
        "  indented = no",
        "nothing here",
        "= value",
        "key =",
        "a=b=c",
    ]));
    assert_eq!(rc.get("dicdir"), Some(&"/var/lib/mecab/dic/ipadic".to_string()));
    assert_eq!(rc.get("userdic"), Some(&"/home/me/user.dic".to_string()));
    assert_eq!(rc.get("output-format-type"), Some(&"wakati".to_string()));
    assert_eq!(rc.get("indented"), None);
    assert_eq!(rc.get("nothing"), None);
    assert_eq!(rc.get("key"), None);
    assert_eq!(rc.get(""), None);
    assert_eq!(rc.get("a=b"), Some(&"c".to_string()));
    assert_eq!(rc.pairs.len(), 4);
}

#[test]
fn a_key_set_again_takes_the_later_value() {
    let rc = rc_map(&lines(&["dicdir = /first", "other = 1", "dicdir = /second"]));
    assert_eq!(rc.get("dicdir"), Some(&"/second".to_string()));
    assert_eq!(rc.get("other"), Some(&"1".to_string()));

    let mut map = RcMap::new();
    assert_eq!(map.get("k"), None);
    map.insert("k".to_string(), "v".to_string());
    map.insert("l".to_string(), "w".to_string());
    map.insert("k".to_string(), "x".to_string());
    assert_eq!(map.get("k"), Some(&"x".to_string()));
    assert_eq!(map.get("l"), Some(&"w".to_string()));
    assert_eq!(map.get("m"), None);
}

#[test]
fn dictionary_paths_lie_in_the_dictionary_directory() {
    let rc = rc_map(&lines(&["dicdir = /var/lib/mecab/dic/ipadic"]));
    assert_eq!(get_dic_path(&rc, "sys.dic"), "/var/lib/mecab/dic/ipadic/sys.dic");
    assert_eq!(get_dic_path(&rc, "matrix.bin"), "/var/lib/mecab/dic/ipadic/matrix.bin");
    assert_eq!(get_dic_path(&rc, ""), "/var/lib/mecab/dic/ipadic/");
}

#[test]
fn the_first_configuration_file_that_exists_is_taken() {
    assert_eq!(find_mecabrc(true, true), Some("/usr/local/etc/mecabrc".to_string()));
    assert_eq!(find_mecabrc(true, false), Some("/usr/local/etc/mecabrc".to_string()));
    assert_eq!(find_mecabrc(false, true), Some("/etc/mecabrc".to_string()));
    assert_eq!(find_mecabrc(false, false), None);
}
