use bract::classify::{dispatcher_for, file_name, format_from_evidence, interpreter_candidates_of, interpreter_in, GoDep};
use bract::fingerprint::{fingerprint, sample_size};
use bract::go_buildinfo::{deps_of_object, find_aligned_magic, parse_buildinfo, parse_mod_info, read_varint_bytes};
use bract::spec::InputFormat;

fn name_of(path: &str) -> Option<String> {
    let p: Vec<char> = path.chars().collect();
    file_name(&p).map(|n| n.iter().collect())
}

fn is_dispatcher(invoked: &str, target: &str) -> bool {
    dispatcher_for(&name_of(target).unwrap(), invoked).is_some()
}

#[test]
fn a_plain_binary_is_its_own_program() {
    assert!(!is_dispatcher("cargo-sweep", "/x/cargo-sweep"));
}

#[test]
fn a_known_dispatcher_reached_under_another_name_is_a_proxy() {
    assert!(is_dispatcher("cargo", "/x/rustup"));
    assert!(is_dispatcher("rust-gdb", "/x/rustup"));
}

#[test]
fn a_dispatcher_reached_under_its_own_name_is_not_a_proxy() {
    assert!(!is_dispatcher("rustup", "/x/rustup"));
}

#[test]
fn an_alias_to_a_differently_named_program_is_not_a_proxy() {
    assert!(!is_dispatcher("tar", "/x/bsdtar"));
    assert!(!is_dispatcher("slogin", "/x/ssh"));
    assert!(!is_dispatcher("python3", "/x/python3.11"));
    assert!(!is_dispatcher("helper", "/x/2.1.228"));
}

#[test]
fn an_unregistered_dispatcher_falls_back_to_its_target() {
    assert!(!is_dispatcher("mailq", "/x/sendmail"));
    assert!(!is_dispatcher("prlctl", "/x/parallels_wrapper"));
}

#[test]
fn rustup_is_asked_with_which() {
    let d = dispatcher_for("rustup", "cargo").unwrap();
    assert_eq!(d.binary, "rustup");
    assert_eq!(d.resolve_subcommand, "which");
}

#[test]
fn a_file_name_is_the_last_real_component() {
    assert_eq!(name_of("/usr/bin/python3"), Some("python3".into()));
    assert_eq!(name_of("/usr/bin/python3/"), Some("python3".into()));
    assert_eq!(name_of("/usr/bin/./"), Some("bin".into()));
    assert_eq!(name_of("/usr/bin/.."), None);
    assert_eq!(name_of("/"), None);
}

fn lines(text: &str) -> Vec<String> {
    text.lines().map(str::to_string).collect()
}

#[test]
fn an_interpreter_named_in_the_shebang_comes_first() {
    let head = lines("#!/opt/venv/bin/python\n# -*- coding: utf-8 -*-\n");
    assert_eq!(interpreter_candidates_of(&head), vec!["/opt/venv/bin/python".to_string()]);
}

#[test]
fn an_interpreter_named_in_a_wrapper_body_is_a_candidate() {
    let head = lines("#!/usr/bin/env bash\nAZ_INSTALLER=HOMEBREW \"/opt/az/libexec/bin/python\" -Im azure.cli \"$@\"\n");
    assert_eq!(interpreter_candidates_of(&head), vec!["/opt/az/libexec/bin/python".to_string()]);
}

#[test]
fn a_wrapper_naming_no_interpreter_path_names_none() {
    let head = lines("#!/usr/bin/env bash\npython3 -Im azure.cli \"$@\"\n");
    assert!(interpreter_candidates_of(&head).is_empty());
}

#[test]
fn a_native_binary_names_no_interpreter() {
    let head = lines("\u{7f}ELF\u{2}\u{1}\u{1}not a script at all");
    assert!(interpreter_candidates_of(&head).is_empty());
}

#[test]
fn only_the_first_lines_of_a_wrapper_are_searched() {
    let mut text = String::from("#!/bin/sh\n");
    for _ in 0..25 {
        text.push_str("echo\n");
    }
    text.push_str("/opt/venv/bin/python3 -m tool\n");
    assert!(interpreter_candidates_of(&lines(&text)).is_empty());
}

#[test]
fn a_token_is_an_interpreter_only_by_path_and_name() {
    let t: Vec<char> = "'/a/b/python3.12'".chars().collect();
    assert_eq!(interpreter_in(&t), Some("/a/b/python3.12".to_string()));
    let u: Vec<char> = "/a/b/ruby".chars().collect();
    assert_eq!(interpreter_in(&u), None);
}

fn dep(path: &str) -> GoDep {
    GoDep { path: path.to_string(), version: "v1".to_string() }
}

#[test]
fn the_format_follows_the_evidence_in_order() {
    let cobra = vec![dep("github.com/spf13/cobra")];
    let urfave = vec![dep("github.com/urfave/cli")];
    assert_eq!(format_from_evidence(Some(&cobra), true, None), Some(InputFormat::CobraHelptext));
    assert_eq!(format_from_evidence(Some(&urfave), true, None), Some(InputFormat::ClapHelptext));
    assert_eq!(format_from_evidence(None, false, Some(InputFormat::KnackHelptext)), Some(InputFormat::KnackHelptext));
    assert_eq!(format_from_evidence(Some(&urfave), false, None), None);
}

#[test]
fn the_same_bytes_fingerprint_the_same() {
    let a = b"identical contents";
    let b = b"identical contents".to_vec();
    assert_eq!(fingerprint(a.len() as u64, a, a), fingerprint(b.len() as u64, &b, &b));
}

#[test]
fn a_fingerprint_is_the_length_and_the_fnv_hash_in_hex() {
    let a = b"identical contents";
    assert_eq!(fingerprint(a.len() as u64, a, a), "12-db070aa855a314b7");
    assert_eq!(fingerprint(0, &[], &[]), "0-a8c7f832281a39c5");
}

#[test]
fn an_edit_that_preserves_length_still_changes_the_fingerprint() {
    let a = b"aaaaaaaaaaaaaaaa";
    let b = b"aaaaaaaaaaaaaaab";
    assert_eq!(fingerprint(16, a, a), "10-425d7ceebb8e4b35");
    assert_eq!(fingerprint(16, b, b), "10-839b4c8a409c8855");
    assert_ne!(fingerprint(16, a, a), fingerprint(16, b, b));
}

// A short program is sampled whole at both ends, so its fingerprint is that of
// its bytes taken twice.
fn fingerprint_of_small(bytes: &[u8]) -> String {
    let len = bytes.len() as u64;
    assert_eq!(sample_size(len), bytes.len());
    fingerprint(len, bytes, bytes)
}

#[test]
fn recomputing_for_an_untouched_program_is_stable() {
    let program = b"a program that nobody has replaced";
    assert_eq!(fingerprint_of_small(program), fingerprint_of_small(program));
    assert_eq!(fingerprint_of_small(program), "22-12909ce49083ecef");
}

#[test]
fn rewriting_a_program_changes_its_fingerprint() {
    let before = fingerprint_of_small(b"version one of the program");
    let after = fingerprint_of_small(b"version two of the program");
    assert_ne!(before, after);
    assert_eq!(before, "1a-677908d7da407837");
    assert_eq!(after, "1a-59d502fd9f882977");
}

#[test]
fn a_file_shorter_than_one_sample_is_fingerprintable() {
    let shim = b"#!/bin/sh\nexec real-tool \"$@\"\n";
    assert_eq!(fingerprint_of_small(shim), "1e-6e0e2bebe63463fb");
}

#[test]
fn a_file_shorter_than_one_sample_is_sampled_whole() {
    assert_eq!(sample_size(18), 18);
    assert_eq!(sample_size(1 << 20), 65536);
}

const MAGIC: [u8; 14] = [0xff, b' ', b'G', b'o', b' ', b'b', b'u', b'i', b'l', b'd', b'i', b'n', b'f', b':'];

fn prefixed(bytes: &[u8]) -> Vec<u8> {
    assert!(bytes.len() < 128 * 128);
    let mut out = Vec::new();
    let n = bytes.len();
    if n < 128 {
        out.push(n as u8);
    } else {
        out.push((n % 128) as u8 | 0x80);
        out.push((n / 128) as u8);
    }
    out.extend_from_slice(bytes);
    out
}

fn mod_info(text: &str) -> Vec<u8> {
    let mut raw = vec![0x30u8; 16];
    raw.extend_from_slice(text.as_bytes());
    raw.extend_from_slice(&[0x31u8; 16]);
    raw
}

fn section(flags: u8, text: &str) -> Vec<u8> {
    let mut s = vec![0u8; 16];
    s.extend_from_slice(&MAGIC);
    s.push(8);
    s.push(flags);
    s.extend_from_slice(&[0u8; 16]);
    s.extend(prefixed(b"go1.22.0"));
    s.extend(prefixed(&mod_info(text)));
    s
}

const INFO: &str = "path\texample.com/x\nmod\texample.com/x\t(devel)\t\ndep\tgithub.com/spf13/cobra\tv1.8.0\th1:abc=\ndep\tgithub.com/spf13/pflag\tv1.0.5\th1:def=\n";

#[test]
fn build_info_lists_the_modules_a_program_was_built_with() {
    let deps = parse_buildinfo(&section(0x2, INFO)).expect("parses");
    let paths: Vec<&str> = deps.iter().map(|d| d.path.as_str()).collect();
    assert_eq!(paths, vec!["github.com/spf13/cobra", "github.com/spf13/pflag"]);
    assert_eq!(deps[0].version, "v1.8.0");
}

#[test]
fn build_info_without_inline_strings_is_not_read() {
    assert!(parse_buildinfo(&section(0x0, INFO)).is_none());
}

#[test]
fn the_magic_is_found_only_on_a_sixteen_byte_boundary() {
    let s = section(0x2, INFO);
    assert_eq!(find_aligned_magic(&s), Some(16));
    let mut shifted = vec![0u8; 3];
    shifted.extend_from_slice(&s);
    assert_eq!(find_aligned_magic(&shifted), None);
}

#[test]
fn a_length_prefix_is_a_varint() {
    let mut data = vec![0x81u8, 0x01];
    data.extend(vec![7u8; 129]);
    assert_eq!(read_varint_bytes(&data, 0), Some((2, 129)));
    assert_eq!(read_varint_bytes(&[0x05, 1, 2], 0), None);
}

#[test]
fn module_info_must_be_framed() {
    assert!(parse_mod_info(b"short").is_none());
    let unframed = mod_info("dep\ta\tv1");
    assert!(parse_mod_info(&unframed).is_none());
    let framed = mod_info("dep\ta\tv1\n");
    assert_eq!(parse_mod_info(&framed).unwrap().len(), 1);
}

#[test]
fn returns_none_for_a_file_that_is_no_object() {
    assert!(deps_of_object(b"#!/bin/sh\necho hello\n").is_none());
}
