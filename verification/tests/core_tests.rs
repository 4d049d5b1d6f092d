use idfind::filter::{accept_path, extension_of, path_has_hidden_component, strip_dot_slash};
use idfind::idb::{trigram_set, Idb};
use idfind::persist::decode_idb;
use idfind::search::{check_text, contains, count_hits, display_line, render_match};
use idfind::tokenizer::{get_indices, tokenize};
use idfind::wire::{check_frame_prefix, frame_len, server_reply, u64_to_le, Request, Response};

fn no_filter() -> Vec<String> {
    Vec::new()
}

#[test]
fn tokenize_counts_and_windows() {
    let toks = tokenize("hello");
    assert_eq!(toks, vec!["hel", "ell", "llo"]);
    assert_eq!(tokenize("hello world\n").len(), 10);
    assert_eq!(tokenize("ab").len(), 0);
    assert_eq!(tokenize("").len(), 0);
    assert_eq!(tokenize("abc"), vec!["abc"]);
}

#[test]
fn tokenize_multibyte_windows() {
    let toks = tokenize("h\u{e9}llo");
    assert_eq!(toks, vec!["h\u{e9}l", "\u{e9}ll", "llo"]);
    for t in &toks {
        assert_eq!(t.chars().count(), 3);
    }
}

#[test]
fn get_indices_gives_byte_offsets() {
    assert_eq!(get_indices("h\u{e9}llo"), vec![0, 1, 3, 4, 5, 6]);
    assert_eq!(get_indices("abc"), vec![0, 1, 2, 3]);
    assert_eq!(get_indices(""), vec![0]);
}

#[test]
fn trigram_set_deduplicates_and_gates() {
    let keys = trigram_set("aaaa");
    assert_eq!(keys, vec!["aaa"]);
    assert_eq!(trigram_set("abc").len(), 0);
    let keys = trigram_set("abcd");
    assert_eq!(keys, vec!["abc", "bcd"]);
}

#[test]
fn tiny_index_has_one_file_and_ten_trigrams() {
    let mut db = Idb::new("/proj");
    db.index_text("a.txt", "hello world\n");
    assert_eq!(db.cur_id, 1);
    assert_eq!(db.idx_db, vec!["a.txt"]);
    assert_eq!(db.str_db.len(), 10);
    for tok in tokenize("hello world\n") {
        let j = db.lookup(&tok).expect("every trigram of the content is a key");
        assert_eq!(db.str_db[j].ids, vec![0]);
    }
}

#[test]
fn short_contents_are_not_indexed() {
    let mut db = Idb::new("/proj");
    db.index_text("tiny.txt", "abc");
    assert_eq!(db.cur_id, 0);
    assert_eq!(db.idx_db.len(), 0);
}

#[test]
fn candidate_intersection_picks_the_right_file() {
    let mut db = Idb::new("/proj");
    db.index_text("a.txt", "abcdef");
    db.index_text("b.txt", "abcxyz");
    assert_eq!(db.find_file_names("bcd"), vec!["a.txt"]);
    let hits = count_hits(&vec!["abcdef".to_string()], "bcd");
    assert_eq!(hits, 1);
    assert_eq!(db.find_file_names("abc"), vec!["a.txt", "b.txt"]);
}

#[test]
fn false_positive_is_filtered_by_verification() {
    let mut db = Idb::new("/proj");
    db.index_text("a.txt", "abcXdef");
    assert_eq!(db.find_file_names("abcdef").len(), 0);
    assert_eq!(check_text("abcXdef", "abcdef"), 0);
}

#[test]
fn needle_shorter_than_three_has_no_candidates() {
    let mut db = Idb::new("/proj");
    db.index_text("a.txt", "abcdef");
    assert_eq!(db.find_file_names("ab").len(), 0);
    assert_eq!(db.find_file_names("").len(), 0);
}

#[test]
fn hidden_paths_are_skipped() {
    assert!(path_has_hidden_component(".git/config"));
    assert!(!path_has_hidden_component("src/x.txt"));
    assert!(path_has_hidden_component("a/.hidden/b.txt"));
    assert!(!path_has_hidden_component("./x.txt"));
    assert!(!accept_path(".git/config", &no_filter()));
    assert!(accept_path("src/x.txt", &no_filter()));

    // only the visible file ends up in the index
    let mut db = Idb::new("/proj");
    for (path, content) in [(".git/config", "abcdef"), ("src/x.txt", "abcdef")] {
        if accept_path(path, &no_filter()) {
            db.index_text(path, content);
        }
    }
    assert_eq!(db.cur_id, 1);
    assert_eq!(db.idx_db, vec!["src/x.txt"]);
}

#[test]
fn include_filter_limits_extensions() {
    let inc = vec!["rs".to_string(), "txt".to_string()];
    assert!(accept_path("a.rs", &inc));
    assert!(accept_path("b.txt", &inc));
    assert!(!accept_path("c.md", &inc));
    assert!(accept_path("c.md", &no_filter()));
}

#[test]
fn skip_set_wins_over_everything() {
    assert!(!accept_path("img.png", &no_filter()));
    assert!(!accept_path("IMG.PNG", &no_filter()));
    assert!(!accept_path("x/y/lib.rlib", &no_filter()));
    // the skip set applies regardless of the include filter
    let inc = vec!["png".to_string()];
    assert!(!accept_path("img.png", &inc));
    assert!(accept_path("note.md", &no_filter()));
}

#[test]
fn extension_extraction() {
    assert_eq!(extension_of("a/b/c.txt"), "txt");
    assert_eq!(extension_of("noext"), "");
    assert_eq!(extension_of(".bashrc"), "");
    assert_eq!(extension_of("a.tar.gz"), "gz");
    assert_eq!(extension_of("dir.d/noext"), "");
}

#[test]
fn strip_leading_dot_slash() {
    assert_eq!(strip_dot_slash("./a.txt"), "a.txt");
    assert_eq!(strip_dot_slash("a.txt"), "a.txt");
    assert_eq!(strip_dot_slash("./"), "");
}

#[test]
fn encode_produces_the_documented_text() {
    let mut db = Idb::new("/p");
    db.index_text("a.txt", "abcd");
    let doc = db.encode();
    assert_eq!(
        doc,
        "cur_id 1\nproject_root 2 /p\nidx_db 1\n5 a.txt\nstr_db 2\n3 abc 1 0\n3 bcd 1 0\n"
    );
}

#[test]
fn round_trip_recovers_the_index() {
    let mut db = Idb::new("/root/proj");
    db.index_text("a.txt", "hello world");
    db.index_text("src/b.rs", "fn main() { }");
    let doc = db.encode();
    let back = decode_idb(&doc).expect("an encoded index decodes");
    assert_eq!(back.cur_id, db.cur_id);
    assert_eq!(back.project_root, db.project_root);
    assert_eq!(back.idx_db, db.idx_db);
    assert_eq!(back.str_db.len(), db.str_db.len());
    for (a, b) in back.str_db.iter().zip(db.str_db.iter()) {
        assert_eq!(a.key, b.key);
        assert_eq!(a.ids, b.ids);
    }
}

#[test]
fn decode_rejects_malformed_documents() {
    assert!(decode_idb("garbage").is_none());
    assert!(decode_idb("").is_none());
    // an id outside the id range breaks the invariant
    let bad = "cur_id 1\nproject_root 2 /p\nidx_db 1\n5 a.txt\nstr_db 1\n3 abc 1 1\n";
    assert!(decode_idb(bad).is_none());
    let good = "cur_id 1\nproject_root 2 /p\nidx_db 1\n5 a.txt\nstr_db 1\n3 abc 1 0\n";
    assert!(decode_idb(good).is_some());
    // the file count must match cur_id
    let off = "cur_id 2\nproject_root 2 /p\nidx_db 1\n5 a.txt\nstr_db 0\n";
    assert!(decode_idb(off).is_none());
    // trailing garbage is rejected
    let trailing = format!("{}x", good);
    assert!(decode_idb(&trailing).is_none());
}

#[test]
fn frame_gate_rejects_oversize_lengths() {
    let prefix = u64_to_le(0xFFFF_FFFF_0000_0000);
    assert!(check_frame_prefix(&prefix).is_none());
    let edge = u64_to_le(0x1000_0000);
    assert!(check_frame_prefix(&edge).is_none());
    let ok = u64_to_le(0x0FFF_FFFF);
    assert_eq!(check_frame_prefix(&ok), Some(0x0FFF_FFFF));
    assert_eq!(check_frame_prefix(&u64_to_le(12)), Some(12));
}

#[test]
fn length_prefix_is_little_endian() {
    assert_eq!(u64_to_le(1), vec![1, 0, 0, 0, 0, 0, 0, 0]);
    assert_eq!(u64_to_le(0x0102), vec![2, 1, 0, 0, 0, 0, 0, 0]);
    let v = 0x0102_0304_0506_0708u64;
    assert_eq!(frame_len(&u64_to_le(v)), v);
    assert_eq!(u64_to_le(v), v.to_le_bytes().to_vec());
}

#[test]
fn request_round_trip() {
    let q = Request { dbname: "sdb.json".to_string(), needle: "needle".to_string() };
    let doc = q.encode();
    assert_eq!(doc, "8 sdb.json6 needle");
    let back = Request::decode(&doc).expect("an encoded request decodes");
    assert_eq!(back.dbname, q.dbname);
    assert_eq!(back.needle, q.needle);
    assert!(Request::decode("junk").is_none());
}

#[test]
fn response_round_trip() {
    let r = Response::new("/root".to_string(), vec!["a.txt".to_string(), "b.rs".to_string()]);
    let doc = r.encode();
    assert_eq!(doc, "1 05 /root5 a.txt\n4 b.rs\n");
    let back = Response::decode(&doc).expect("an encoded response decodes");
    assert!(!back.error);
    assert_eq!(back.message, "/root");
    assert_eq!(back.files, vec!["a.txt", "b.rs"]);

    let e = Response::err("Input to short");
    let back = Response::decode(&e.encode()).expect("an encoded error decodes");
    assert!(back.error);
    assert_eq!(back.message, "Input to short");
    assert_eq!(back.files.len(), 0);
}

#[test]
fn server_rejects_short_needles() {
    let db = Idb::new("/proj");
    let r = server_reply(&db, "ab");
    assert!(r.error);
    assert_eq!(r.message, "Input to short");
    assert_eq!(r.files.len(), 0);
}

#[test]
fn server_answers_with_root_and_candidates() {
    let mut db = Idb::new("/proj");
    db.index_text("a.txt", "abcdef");
    db.index_text("b.txt", "abcxyz");
    let r = server_reply(&db, "cde");
    assert!(!r.error);
    assert_eq!(r.message, "/proj");
    assert_eq!(r.files, vec!["a.txt"]);
}

#[test]
fn line_counting_matches_literal_scan() {
    assert_eq!(check_text("foo\nbar foo\nbaz\nfoo", "foo"), 3);
    assert_eq!(check_text("", "foo"), 0);
    assert_eq!(check_text("foo\n", "foo"), 1);
    assert_eq!(check_text("one foo two foo\n", "foo"), 1);
    let total = count_hits(&vec!["foo\nfoo".to_string(), "xfoox".to_string()], "foo");
    assert_eq!(total, 3);
}

#[test]
fn substring_search() {
    assert!(contains("hello", "ell"));
    assert!(!contains("hello", "xyz"));
    assert!(contains("abc", "abc"));
    assert!(!contains("ab", "abc"));
}

#[test]
fn containing_file_is_always_a_candidate() {
    // the trigram filter may over-approximate but never misses a file
    // whose content holds the needle
    let mut db = Idb::new("/proj");
    db.index_text("a.txt", "abcdef");
    db.index_text("b.txt", "defabc");
    db.index_text("c.txt", "xxabcdefxx");
    let cands = db.find_file_names("abcdef");
    assert!(cands.contains(&"a.txt".to_string()));
    assert!(cands.contains(&"c.txt".to_string()));
    assert!(!cands.contains(&"b.txt".to_string()));
}

#[test]
fn rendered_hits_carry_path_and_line_number() {
    assert_eq!(render_match("src/a.rs", 12, "let x = 1;"), "src/a.rs:12:   let x = 1;\n");
    let long: String = std::iter::repeat('y').take(200).collect();
    assert_eq!(render_match("f", 3, &long), "f:3:   *[long matching line]*\n");
}

#[test]
fn long_matching_lines_are_replaced_by_the_sentinel() {
    let short = "a short line";
    assert_eq!(display_line(short), short);
    let long: String = std::iter::repeat('x').take(101).collect();
    assert_eq!(display_line(&long), "*[long matching line]*");
    let edge: String = std::iter::repeat('x').take(100).collect();
    assert_eq!(display_line(&edge), edge);
}
