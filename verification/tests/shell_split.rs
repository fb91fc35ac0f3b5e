//! The command-line splitter, exercised over characters, bytes and 16-bit
//! units.

use loopdrv::shell_split::{Arg, Split};

fn chars(s: &str) -> Vec<u32> {
    s.chars().map(|c| c as u32).collect()
}

fn bytes(b: &[u8]) -> Vec<u32> {
    b.iter().map(|&x| x as u32).collect()
}

fn utf16(s: &str) -> Vec<u32> {
    s.encode_utf16().map(|x| x as u32).collect()
}

fn arg(s: &str) -> Arg {
    Arg { raw_arg: chars(s) }
}

fn next_raw(s: &mut Split) -> Option<Vec<u32>> {
    s.next().map(|a| a.raw_arg)
}

#[test]
fn split_str() {
    let mut s = Split::new(chars(""));
    assert_eq!(None, next_raw(&mut s));

    let mut s = Split::new(chars(" \0invalid"));
    assert_eq!(None, next_raw(&mut s));

    let mut s = Split::new(chars(" pos -h --help \"quote\" quote\"in\"middle esc^\"ape \"unclosed"));
    assert_eq!(Some(chars("pos")), next_raw(&mut s));
    assert_eq!(Some(chars("-h")), next_raw(&mut s));
    assert_eq!(Some(chars("--help")), next_raw(&mut s));
    assert_eq!(Some(chars("\"quote\"")), next_raw(&mut s));
    assert_eq!(Some(chars("quote\"in\"middle")), next_raw(&mut s));
    assert_eq!(Some(chars("esc^\"ape")), next_raw(&mut s));
    assert_eq!(None, next_raw(&mut s));
    assert_eq!(None, next_raw(&mut s));

    let mut s = Split::new(chars("--single"));
    assert_eq!(Some(chars("--single")), next_raw(&mut s));
    assert_eq!(None, next_raw(&mut s));

    let mut s = Split::new(chars("program command -o --option argument\0invalid"));
    assert_eq!(Some(chars("program")), next_raw(&mut s));
    assert_eq!(Some(chars("command")), next_raw(&mut s));
    assert_eq!(Some(chars("-o")), next_raw(&mut s));
    assert_eq!(Some(chars("--option")), next_raw(&mut s));
    assert_eq!(Some(chars("argument")), next_raw(&mut s));
    assert_eq!(None, next_raw(&mut s));
}

#[test]
fn split_unicode() {
    let mut s = Split::new(chars("早上好 hi 中国 现在我有冰淇淋"));
    assert_eq!(Some(chars("早上好")), next_raw(&mut s));
    assert_eq!(Some(chars("hi")), next_raw(&mut s));
    assert_eq!(Some(chars("中国")), next_raw(&mut s));
    assert_eq!(Some(chars("现在我有冰淇淋")), next_raw(&mut s));
    assert_eq!(None, next_raw(&mut s));
}

#[test]
fn arg_iter() {
    let a = arg("a^\"b^^c^d");
    let mut it = a.iter();
    assert_eq!(Some('a' as u32), it.next());
    assert_eq!(Some('\"' as u32), it.next());
    assert_eq!(Some('b' as u32), it.next());
    assert_eq!(Some('^' as u32), it.next());
    assert_eq!(Some('c' as u32), it.next());
    assert_eq!(Some('d' as u32), it.next());
    assert_eq!(None, it.next());

    let a = arg("l\"q\"r");
    let mut it = a.iter();
    assert_eq!(Some('l' as u32), it.next());
    assert_eq!(Some('q' as u32), it.next());
    assert_eq!(Some('r' as u32), it.next());
    assert_eq!(None, it.next());
}

#[test]
fn arg_format() {
    assert_eq!(chars("abc"), arg("abc").decode_to_owned());
    assert_eq!(chars("a^bc"), arg("\"a^^bc\"").decode_to_owned());
    assert_eq!(chars("a\"bc"), arg("a^\"bc").decode_to_owned());
}

#[test]
fn arg_decode() {
    let d = arg("a^b^c").decode();
    assert_eq!(chars("abc"), d.data);
    assert!(d.owned);
    let d = arg("a\"b\"c").decode();
    assert_eq!(chars("abc"), d.data);
    assert!(d.owned);
    let d = arg("a^b^\"c").decode();
    assert_eq!(chars("ab\"c"), d.data);
    assert!(d.owned);
    let d = arg("\"abc\"").decode();
    assert_eq!(chars("abc"), d.data);
    assert!(!d.owned);
}

#[test]
fn slice_with_nul_split() {
    let cstr = b"argument --option\0invalid";
    let mut it = Split::new(bytes(cstr));
    assert_eq!(Some(bytes(b"argument")), next_raw(&mut it));
    assert_eq!(Some(bytes(b"--option")), next_raw(&mut it));
    assert_eq!(None, next_raw(&mut it));
    assert_eq!(None, next_raw(&mut it));
}

#[test]
fn uefi_split() {
    let cstr = utf16("argument option\0");
    let mut it = Split::new(cstr.clone());
    assert_eq!(Some(utf16("argument")), next_raw(&mut it));
    assert_eq!(Some(utf16("option")), next_raw(&mut it));
    assert_eq!(None, next_raw(&mut it));
    assert_eq!(None, next_raw(&mut it));

    let mut it = Split::new(cstr);
    assert_eq!(Some(utf16("argument")), next_raw(&mut it));
    assert_eq!(Some(utf16("option")), next_raw(&mut it));
    assert_eq!(None, next_raw(&mut it));
    assert_eq!(None, next_raw(&mut it));

    let cstr = utf16("english 中文\0");
    let mut it = Split::new(cstr);
    assert_eq!(Some(utf16("english")), next_raw(&mut it));
    assert_eq!(Some(utf16("中文")), next_raw(&mut it));
    assert_eq!(None, next_raw(&mut it));
    assert_eq!(None, next_raw(&mut it));

    let cstr = bytes(b"argument option\0");
    let mut it = Split::new(cstr);
    assert_eq!(Some(bytes(b"argument")), next_raw(&mut it));
    assert_eq!(Some(bytes(b"option")), next_raw(&mut it));
    assert_eq!(None, next_raw(&mut it));
    assert_eq!(None, next_raw(&mut it));
}

#[test]
fn split_whole_line() {
    let r = loopdrv::shell_split::split(&chars("program run -o \"two words\" esc^\"ape"));
    assert_eq!(5, r.len());
    assert_eq!(chars("program"), r[0]);
    assert_eq!(chars("run"), r[1]);
    assert_eq!(chars("-o"), r[2]);
    assert_eq!(chars("two words"), r[3]);
    assert_eq!(chars("esc\"ape"), r[4]);
}
