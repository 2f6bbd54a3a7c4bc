//! The input record of the document generator: one file's decomposed path,
//! its size, and the captured content, if any. Content captured from raw
//! bytes is decoded as UTF-8, falling back to a spaced hex dump when the
//! bytes are not valid UTF-8.

use vstd::prelude::*;
use vstd::utf8::{decode_utf8, valid_utf8};

verus! {

/// The mathematical image of a `FileInfo`: plain sequences in place of the
/// executable strings.
pub ghost struct FileInfoView {
    pub path: Seq<Seq<char>>,
    pub size: u64,
    pub content: Option<Seq<char>>,
    pub is_content_complete: bool,
}

/// Metadata and captured content of one file, the unit of input to the tree
/// builder. `path` holds the file's path segments in root-to-leaf order.
/// `is_content_complete` is true exactly when `content` holds the whole file.
#[derive(Debug)]
pub struct FileInfo {
    pub path: Vec<String>,
    pub size: u64,
    pub content: Option<String>,
    pub is_content_complete: bool,
}

impl DeepView for FileInfo {
    type V = FileInfoView;

    open spec fn deep_view(&self) -> FileInfoView {
        self.view()
    }
}

impl View for FileInfo {
    type V = FileInfoView;

    open spec fn view(&self) -> FileInfoView {
        FileInfoView {
            path: self.path.deep_view(),
            size: self.size,
            content: match self.content {
                Some(s) => Some(s@),
                None => None,
            },
            is_content_complete: self.is_content_complete,
        }
    }
}

fn clone_strings(v: &Vec<String>) -> (r: Vec<String>)
    ensures
        r@ == v@,
{
    let mut r: Vec<String> = Vec::new();
    let mut i: usize = 0;
    while i < v.len()
        invariant
            i <= v.len(),
            r@ == v@.subrange(0, i as int),
        decreases v.len() - i,
    {
        r.push(v[i].clone());
        proof {
            assert(r@ =~= v@.subrange(0, i as int + 1));
        }
        i = i + 1;
    }
    proof {
        assert(v@.subrange(0, v@.len() as int) =~= v@);
    }
    r
}

impl Clone for FileInfo {
    fn clone(&self) -> (r: Self)
        ensures
            r@ == self@,
    {
        let r = FileInfo {
            path: clone_strings(&self.path),
            size: self.size,
            content: match &self.content {
                Some(s) => Some(s.clone()),
                None => None,
            },
            is_content_complete: self.is_content_complete,
        };
        proof {
            assert(r.path.deep_view() =~= self.path.deep_view());
        }
        r
    }
}

pub open spec fn hex_digit(d: int) -> char {
    if d == 0 {
        '0'
    } else if d == 1 {
        '1'
    } else if d == 2 {
        '2'
    } else if d == 3 {
        '3'
    } else if d == 4 {
        '4'
    } else if d == 5 {
        '5'
    } else if d == 6 {
        '6'
    } else if d == 7 {
        '7'
    } else if d == 8 {
        '8'
    } else if d == 9 {
        '9'
    } else if d == 10 {
        'a'
    } else if d == 11 {
        'b'
    } else if d == 12 {
        'c'
    } else if d == 13 {
        'd'
    } else if d == 14 {
        'e'
    } else {
        'f'
    }
}

/// One byte as two lowercase hex digits.
pub open spec fn hex_byte(b: u8) -> Seq<char> {
    seq![hex_digit(b as int / 16), hex_digit(b as int % 16)]
}

/// All bytes in hex, separated by single spaces.
pub open spec fn hex_dump(bytes: Seq<u8>) -> Seq<char>
    decreases bytes.len(),
{
    if bytes.len() == 0 {
        Seq::empty()
    } else if bytes.len() == 1 {
        hex_byte(bytes[0])
    } else {
        hex_byte(bytes[0]) + seq![' '] + hex_dump(bytes.drop_first())
    }
}

/// The text captured for a file: the UTF-8 decoding of its bytes when they
/// are valid UTF-8, and otherwise a spaced hex dump of the bytes.
pub open spec fn content_text(bytes: Seq<u8>) -> Seq<char> {
    if valid_utf8(bytes) {
        decode_utf8(bytes)
    } else {
        hex_dump(bytes)
    }
}

/// Relies on `String::from_utf8`: it succeeds exactly on valid UTF-8 input
/// and then returns the decoding of the bytes.
#[verifier::external_body]
fn string_from_utf8(bytes: &Vec<u8>) -> (r: Option<String>)
    ensures
        r is Some <==> valid_utf8(bytes@),
        r is Some ==> r->0@ == decode_utf8(bytes@),
{
    match String::from_utf8(bytes.clone()) {
        Ok(s) => Some(s),
        Err(_) => None,
    }
}

fn hex_digit_exec(d: u8) -> (c: char)
    requires
        d < 16,
    ensures
        c == hex_digit(d as int),
{
    if d == 0 {
        '0'
    } else if d == 1 {
        '1'
    } else if d == 2 {
        '2'
    } else if d == 3 {
        '3'
    } else if d == 4 {
        '4'
    } else if d == 5 {
        '5'
    } else if d == 6 {
        '6'
    } else if d == 7 {
        '7'
    } else if d == 8 {
        '8'
    } else if d == 9 {
        '9'
    } else if d == 10 {
        'a'
    } else if d == 11 {
        'b'
    } else if d == 12 {
        'c'
    } else if d == 13 {
        'd'
    } else if d == 14 {
        'e'
    } else {
        'f'
    }
}

proof fn lemma_hex_dump_push(s: Seq<u8>, b: u8)
    ensures
        hex_dump(s.push(b)) == if s.len() == 0 {
            hex_byte(b)
        } else {
            hex_dump(s) + seq![' '] + hex_byte(b)
        },
    decreases s.len(),
{
    if s.len() == 0 {
        assert(s.push(b).len() == 1);
        assert(s.push(b)[0] == b);
    } else {
        assert(s.push(b).drop_first() =~= s.drop_first().push(b));
        lemma_hex_dump_push(s.drop_first(), b);
        if s.len() == 1 {
            assert(hex_dump(s) == hex_byte(s[0]));
        }
    }
}

fn hex_dump_exec(bytes: &Vec<u8>) -> (r: String)
    ensures
        r@ == hex_dump(bytes@),
{
    let mut r = String::new();
    let mut i: usize = 0;
    while i < bytes.len()
        invariant
            i <= bytes.len(),
            r@ == hex_dump(bytes@.subrange(0, i as int)),
        decreases bytes.len() - i,
    {
        if i > 0 {
            push_sep(&mut r);
        }
        let b = bytes[i];
        push_hex(&mut r, b);
        proof {
            assert(bytes@.subrange(0, i as int).push(b) =~= bytes@.subrange(0, i as int + 1));
            lemma_hex_dump_push(bytes@.subrange(0, i as int), b);
            assert(r@ =~= hex_dump(bytes@.subrange(0, i as int + 1)));
        }
        i = i + 1;
    }
    proof {
        assert(bytes@.subrange(0, bytes@.len() as int) =~= bytes@);
    }
    r
}

fn push_sep(r: &mut String)
    ensures
        final(r)@ == old(r)@ + seq![' '],
{
    crate::strutil::push_char(r, ' ');
    proof {
        assert(old(r)@.push(' ') =~= old(r)@ + seq![' ']);
    }
}

fn push_hex(r: &mut String, b: u8)
    ensures
        final(r)@ == old(r)@ + hex_byte(b),
{
    let hi = hex_digit_exec(b / 16);
    let lo = hex_digit_exec(b % 16);
    crate::strutil::push_char(r, hi);
    crate::strutil::push_char(r, lo);
    proof {
        assert(old(r)@.push(hi).push(lo) =~= old(r)@ + hex_byte(b));
    }
}

/// Decodes captured bytes to text: UTF-8 when valid, a hex dump otherwise.
pub fn content_from_bytes(bytes: &Vec<u8>) -> (r: String)
    ensures
        r@ == content_text(bytes@),
{
    match string_from_utf8(bytes) {
        Some(s) => s,
        None => hex_dump_exec(bytes),
    }
}

impl FileInfo {
    /// Builds the record for a file whose first bytes were captured as a
    /// preview of at most `preview_length` bytes; a zero preview length
    /// records no content at all. The content is complete exactly when the
    /// preview length covers the whole file.
    pub fn with_preview_bytes(path: Vec<String>, size: u64, bytes: &Vec<u8>, preview_length: usize) -> (r:
        FileInfo)
        ensures
            r@.path == path.deep_view(),
            r@.size == size,
            preview_length == 0 ==> r@.content is None && !r@.is_content_complete,
            preview_length > 0 ==> r@.content == Some(content_text(bytes@)) && (r@.is_content_complete
                <==> preview_length as u64 >= size),
    {
        if preview_length > 0 {
            let content = content_from_bytes(bytes);
            let complete = preview_length as u64 >= size;
            FileInfo { path, size, content: Some(content), is_content_complete: complete }
        } else {
            FileInfo { path, size, content: None, is_content_complete: false }
        }
    }

    /// Builds the record for a file whose whole content was captured.
    pub fn with_full_bytes(path: Vec<String>, size: u64, bytes: &Vec<u8>) -> (r: FileInfo)
        ensures
            r@.path == path.deep_view(),
            r@.size == size,
            r@.content == Some(content_text(bytes@)),
            r@.is_content_complete,
    {
        let content = content_from_bytes(bytes);
        FileInfo { path, size, content: Some(content), is_content_complete: true }
    }
}

} // verus!
