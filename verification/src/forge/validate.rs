//! The token denylist.
//!
//! Each entry names a construct that reaches host I/O or escapes the fixed
//! skeleton at build time (constant evaluation and macro expansion run on the
//! build host). This is a conservative token scan, not a parser: its job is to
//! make the obvious abuse paths impossible, while the fixed dependencies and
//! the sandbox carry the real weight.

use crate::text::{contains, decimal, occurs_at};
use crate::text::{contains_text, decimal_text};
use vstd::prelude::*;
use vstd::string::*;
use vstd::utf8::*;

verus! {

/// Largest accepted app source. An app body is small; 16 KiB is generous for
/// hand-written logic.
pub const MAX_SOURCE_BYTES: usize = 16_384;

/// (needle, why it is denied). Matched case-sensitively against the source
/// with string and line-comment contents stripped first.
pub const DENYLIST: [(&'static str, &'static str); 16] = [
    ("unsafe", "raw memory / FFI — out of the safe app surface"),
    ("asm!", "inline assembly runs arbitrary instructions"),
    ("core::arch", "arch intrinsics / asm escape"),
    ("include!", "reads & compiles an arbitrary host file at expand time"),
    ("include_bytes!", "reads an arbitrary host file at expand time"),
    ("include_str!", "reads an arbitrary host file at expand time"),
    ("env!", "leaks a host env var into the binary at compile time"),
    ("option_env!", "leaks a host env var at compile time"),
    ("extern", "extern crate/block pulls beyond the fixed skeleton deps"),
    ("std::", "the skeleton is no_std; std implies a host-shaped escape"),
    ("::std", "the skeleton is no_std; std implies a host-shaped escape"),
    ("proc_macro", "proc-macro code executes on the host at expand time"),
    ("#[no_mangle]", "symbol games against the fixed linker layout"),
    ("#[unsafe(", "unsafe attribute (e.g. link_section) escapes the surface"),
    ("\\u{", "unicode path-escape that could defeat this token scan"),
    ("build_rs", "no user build scripts; deps are fixed"),
];

/// Place in [`DENYLIST`] of the entry that is looked for in the raw source.
pub const ESCAPE_ENTRY: usize = 14;

const NEWLINE: u8 = 10;

const QUOTE: u8 = 34;

const SLASH: u8 = 47;

const STAR: u8 = 42;

const BACKSLASH: u8 = 92;

const HASH: u8 = 35;

const APOSTROPHE: u8 = 39;

const LOWER_R: u8 = 114;

const LOWER_U: u8 = 117;

const LOWER_X: u8 = 120;

const BRACE: u8 = 123;

/// Where the line that holds place `i` ends: at its newline, or at the end of
/// the source.
pub open spec fn line_end(b: Seq<u8>, i: int) -> int
    decreases b.len() + 2 - i,
{
    if i >= b.len() || b[i] == 10 {
        i
    } else {
        line_end(b, i + 1)
    }
}

/// Whether the quote at `i` is followed by `h` hashes.
pub open spec fn closes(b: Seq<u8>, i: int, h: nat) -> bool {
    &&& b[i] == 34
    &&& i + h < b.len()
    &&& forall|k: int| i < k <= i + h ==> b[k] == 35
}

/// Where the string literal whose contents start at `i` has its closing quote;
/// past the end of the source where it has none. A backslash hides the byte
/// after it, except in a raw literal; a raw literal closes with as many hashes
/// as it opens with.
pub open spec fn string_end(b: Seq<u8>, i: int, raw: bool, h: nat) -> int
    decreases b.len() + 2 - i,
{
    if i >= b.len() || closes(b, i, h) {
        i
    } else if b[i] == 92 && !raw {
        string_end(b, i + 2, raw, h)
    } else {
        string_end(b, i + 1, raw, h)
    }
}

/// Whether a line comment opens at `i`.
pub open spec fn comment_at(b: Seq<u8>, i: int) -> bool {
    i + 1 < b.len() && b[i] == 47 && b[i + 1] == 47
}

/// Hashes that stand right before `i`.
pub open spec fn hashes(b: Seq<u8>, i: int) -> nat
    decreases i,
{
    if i > 0 && b[i - 1] == 35 {
        hashes(b, i - 1) + 1
    } else {
        0
    }
}

/// Whether the quote at `i` opens a raw literal: an `r` and hashes stand before
/// it.
pub open spec fn raw_at(b: Seq<u8>, i: int) -> bool {
    let r = i - hashes(b, i) - 1;
    r >= 0 && b[r] == 114
}

/// Hashes that the literal which opens at `i` closes with.
pub open spec fn guard(b: Seq<u8>, i: int) -> nat {
    if raw_at(b, i) {
        hashes(b, i)
    } else {
        0
    }
}

/// Where the string literal that opens at `i` ends; past the end of the source
/// where it does not.
pub open spec fn literal_end(b: Seq<u8>, i: int) -> int {
    let h = guard(b, i);
    let e = string_end(b, i + 1, raw_at(b, i), h);
    if e < b.len() {
        e + h + 1
    } else {
        e + 1
    }
}

/// Bytes of the UTF-8 character that begins with `x`.
pub open spec fn width(x: u8) -> int {
    if x < 0x80 {
        1
    } else if x < 0xe0 {
        2
    } else if x < 0xf0 {
        3
    } else {
        4
    }
}

/// What may stand between a backslash and the end of a character literal.
pub open spec fn is_escape(x: u8) -> bool {
    x == 110 || x == 114 || x == 116 || x == 48 || x == 92 || x == 39 || x == 34
}

pub open spec fn is_hex(x: u8) -> bool {
    48 <= x <= 57 || 65 <= x <= 70 || 97 <= x <= 102
}

/// Where the character literal that opens at `i` ends; `i` where none opens
/// there. An apostrophe opens one where another follows after one character,
/// after a backslash and what it escapes, or after `\x` and two digits.
pub open spec fn char_end(b: Seq<u8>, i: int) -> int {
    let n = b.len() as int;
    if i < 0 || i + 2 >= n || b[i] != 39 {
        i
    } else if b[i + 1] == 92 {
        if i + 3 < n && is_escape(b[i + 2]) && b[i + 3] == 39 {
            i + 4
        } else if i + 5 < n && b[i + 2] == 120 && is_hex(b[i + 3]) && is_hex(b[i + 4]) && b[i + 5]
            == 39 {
            i + 6
        } else {
            i
        }
    } else {
        let w = width(b[i + 1]);
        if b[i + 1] != 39 && b[i + 1] != 10 && i + 1 + w < n && b[i + 1 + w] == 39 && (w < 2
            || b[i + 2] >= 128) && (w < 3 || b[i + 3] >= 128) && (w < 4 || b[i + 4] >= 128) {
            i + 2 + w
        } else {
            i
        }
    }
}

/// Whether a character literal opens at `i`.
pub open spec fn char_at(b: Seq<u8>, i: int) -> bool {
    char_end(b, i) > i
}

/// Whether a block comment opens at `i`.
pub open spec fn block_at(b: Seq<u8>, i: int) -> bool {
    i + 1 < b.len() && b[i] == 47 && b[i + 1] == 42
}

/// Whether a block comment closes at `i`.
pub open spec fn block_closes_at(b: Seq<u8>, i: int) -> bool {
    i + 1 < b.len() && b[i] == 42 && b[i + 1] == 47
}

/// Where `depth` block comments that are open at `i` have all been closed; the
/// end of the source where they are not. Block comments nest.
pub open spec fn block_end(b: Seq<u8>, i: int, depth: nat) -> int
    decreases b.len() - i,
{
    if depth == 0 || i >= b.len() {
        i
    } else if block_at(b, i) {
        block_end(b, i + 2, depth + 1)
    } else if block_closes_at(b, i) {
        block_end(b, i + 2, (depth - 1) as nat)
    } else {
        block_end(b, i + 1, depth)
    }
}

/// Whether `depth` block comments that are open at `i` are all closed.
pub open spec fn block_closed(b: Seq<u8>, i: int, depth: nat) -> bool
    decreases b.len() - i,
{
    if depth == 0 || i >= b.len() {
        depth == 0
    } else if block_at(b, i) {
        block_closed(b, i + 2, depth + 1)
    } else if block_closes_at(b, i) {
        block_closed(b, i + 2, (depth - 1) as nat)
    } else {
        block_closed(b, i + 1, depth)
    }
}

/// Where the scan stands after the piece of source that begins at `i`: past a
/// whole comment, a whole literal, or one byte of code.
pub open spec fn piece_end(b: Seq<u8>, i: int) -> int {
    if comment_at(b, i) {
        line_end(b, i + 2)
    } else if block_at(b, i) {
        block_end(b, i + 2, 1)
    } else if b[i] == 34 {
        literal_end(b, i)
    } else if char_at(b, i) {
        char_end(b, i)
    } else {
        i + 1
    }
}

/// What the piece of source that begins at `i` leaves for the scan: nothing of
/// a line comment, all of a block comment and of a character literal, two
/// spaces of a string literal, a byte of code itself.
pub open spec fn piece_kept(b: Seq<u8>, i: int) -> Seq<u8> {
    if comment_at(b, i) {
        Seq::empty()
    } else if block_at(b, i) {
        b.subrange(i, block_end(b, i + 2, 1))
    } else if b[i] == 34 {
        seq![32u8, 32u8]
    } else if char_at(b, i) {
        b.subrange(i, char_end(b, i))
    } else {
        seq![b[i]]
    }
}

/// The live code of the source from `i` on, as bytes.
pub open spec fn live_bytes(b: Seq<u8>, i: int) -> Seq<u8>
    decreases b.len() + 2 - i,
{
    if i >= b.len() {
        Seq::empty()
    } else {
        proof {
            lemma_piece_advances(b, i);
        }
        piece_kept(b, i) + live_bytes(b, piece_end(b, i))
    }
}

/// The characters that the scan sees: one per byte.
pub open spec fn characters(b: Seq<u8>) -> Seq<char> {
    b.map_values(|x: u8| x as char)
}

/// The live code of a source.
pub open spec fn live_code(b: Seq<u8>) -> Seq<char> {
    characters(live_bytes(b, 0))
}

pub proof fn lemma_line_end(b: Seq<u8>, i: int)
    ensures
        i <= line_end(b, i),
        i <= b.len() ==> line_end(b, i) <= b.len(),
        forall|k: int| i <= k < line_end(b, i) ==> b[k] != 10,
    decreases b.len() + 2 - i,
{
    if i < b.len() && b[i] != 10 {
        lemma_line_end(b, i + 1);
    }
}

pub proof fn lemma_string_end(b: Seq<u8>, i: int, raw: bool, h: nat)
    ensures
        i <= string_end(b, i, raw, h),
        i <= b.len() ==> string_end(b, i, raw, h) <= b.len() + 1,
        string_end(b, i, raw, h) < b.len() ==> closes(b, string_end(b, i, raw, h), h),
    decreases b.len() + 2 - i,
{
    if i < b.len() && !closes(b, i, h) {
        if b[i] == 92 && !raw {
            lemma_string_end(b, i + 2, raw, h);
        } else {
            lemma_string_end(b, i + 1, raw, h);
        }
    }
}

pub proof fn lemma_literal_end(b: Seq<u8>, i: int)
    ensures
        i < literal_end(b, i),
        i < b.len() ==> literal_end(b, i) <= b.len() + 2,
{
    lemma_string_end(b, i + 1, raw_at(b, i), guard(b, i));
}

pub proof fn lemma_block_end(b: Seq<u8>, i: int, depth: nat)
    ensures
        i <= block_end(b, i, depth),
        i <= b.len() ==> block_end(b, i, depth) <= b.len(),
        !block_closed(b, i, depth) ==> block_end(b, i, depth) >= b.len(),
    decreases b.len() - i,
{
    if depth > 0 && i < b.len() {
        if block_at(b, i) {
            lemma_block_end(b, i + 2, depth + 1);
        } else if block_closes_at(b, i) {
            lemma_block_end(b, i + 2, (depth - 1) as nat);
        } else {
            lemma_block_end(b, i + 1, depth);
        }
    }
}

/// What [`validate`] finds wrong with a source first.
pub enum Violation {
    /// More bytes than [`MAX_SOURCE_BYTES`].
    Oversize(nat),
    /// The raw source holds a unicode escape.
    Escape,
    /// The live code holds the needle at this place of [`DENYLIST`].
    Denied(int),
}

/// Whether the live code of `bytes` holds the needle at place `k` of
/// [`DENYLIST`]; the entry for the raw source is never looked for there.
pub open spec fn denied_by(bytes: Seq<u8>, k: int) -> bool {
    k != ESCAPE_ENTRY && contains(live_code(bytes), DENYLIST@[k].0@)
}

/// Whether entry `k` of [`DENYLIST`] is the first that denies the source.
pub open spec fn first_denied_by(bytes: Seq<u8>, k: int) -> bool {
    &&& 0 <= k < DENYLIST@.len()
    &&& denied_by(bytes, k)
    &&& forall|m: int| 0 <= m < k ==> !denied_by(bytes, m)
}

/// Whether the raw source holds `\u{` at place `i`.
pub open spec fn escape_at(bytes: Seq<u8>, i: int) -> bool {
    0 <= i && i + 2 < bytes.len() && bytes[i] == 92 && bytes[i + 1] == 117 && bytes[i + 2] == 123
}

/// Whether the raw source holds `\u{`, which would be invisible once string
/// contents are stripped.
pub open spec fn escapes(bytes: Seq<u8>) -> bool {
    exists|i: int| escape_at(bytes, i)
}

/// The first violation of a source: size, then the raw escape, then the
/// denylist in its order.
pub open spec fn violates(bytes: Seq<u8>, v: Violation) -> bool {
    match v {
        Violation::Oversize(n) => n == bytes.len() && n > MAX_SOURCE_BYTES,
        Violation::Escape => bytes.len() <= MAX_SOURCE_BYTES && escapes(bytes),
        Violation::Denied(k) => {
            &&& bytes.len() <= MAX_SOURCE_BYTES
            &&& !escapes(bytes)
            &&& first_denied_by(bytes, k)
        },
    }
}

/// Whether a source has no violation at all.
pub open spec fn accepted(bytes: Seq<u8>) -> bool {
    &&& bytes.len() <= MAX_SOURCE_BYTES
    &&& !escapes(bytes)
    &&& forall|k: int| 0 <= k < DENYLIST@.len() ==> !denied_by(bytes, k)
}

/// What the user is told of a violation.
pub open spec fn complaint(v: Violation) -> Seq<char> {
    match v {
        Violation::Oversize(n) => "app source is "@ + decimal(n) + " bytes; the limit is "@
            + decimal(MAX_SOURCE_BYTES as nat) + " bytes"@,
        Violation::Escape =>
            "`\\u{…}` escapes are not allowed (they can defeat the safety scan)"@,
        Violation::Denied(k) => "`"@ + DENYLIST@[k].0@ + "` is not allowed: "@ + DENYLIST@[k].1@,
    }
}

/// The source without the contents of string literals (`"..."`, raw `r"..."`
/// and `r#"..."#`) and line comments, so that the denylist scans only live code.
/// The delimiters of a literal become spaces, so that token boundaries survive.
/// Block comments and character literals stay in place, and nothing inside one
/// opens a literal or a line comment: they can only cause a conservative reject.
pub fn strip_strings_and_line_comments(src: &str) -> (r: String)
    ensures
        r@ == live_code(src.spec_bytes()),
{
    let b = src.as_bytes();
    let mut out = String::new();
    let mut i: usize = 0;
    let ghost mut done: Seq<u8> = Seq::empty();
    assert(done + live_bytes(b@, 0) =~= live_bytes(b@, 0));
    assert(out@ =~= characters(done));
    while i < b.len()
        invariant
            b@ == src.spec_bytes(),
            out@ == characters(done),
            done + live_bytes(b@, i as int) == live_bytes(b@, 0),
        decreases b@.len() - i,
    {
        let ghost at = i as int;
        let ghost before = out@;
        if b[i] == SLASH && i < b.len() - 1 && b[i + 1] == SLASH {
            i = skip_line(b, i + 2);
        } else if b[i] == SLASH && i < b.len() - 1 && b[i + 1] == STAR {
            let end: usize = skip_block(b, i + 2);
            copy_bytes(&mut out, b, i, end);
            i = end;
        } else if b[i] == QUOTE {
            let h: usize = count_hashes(b, i);
            let raw = i > h && b[i - h - 1] == LOWER_R;
            let guards: usize = if raw {
                h
            } else {
                0
            };
            out.push(' ');
            let close: usize = skip_string(b, i + 1, raw, guards);
            out.push(' ');
            proof {
                lemma_string_end(b@, i + 1, raw, guards as nat);
            }
            if close >= b.len() {
                i = b.len();
            } else {
                i = close + guards + 1;
            }
        } else {
            let end: usize = skip_char(b, i);
            if end > i {
                copy_bytes(&mut out, b, i, end);
                i = end;
            } else {
                out.push(b[i] as char);
                i += 1;
            }
        }
        proof {
            let kept = piece_kept(b@, at);
            assert(out@ =~= before + characters(kept));
            assert(live_bytes(b@, piece_end(b@, at)) == live_bytes(b@, i as int));
            assert(live_bytes(b@, at) == kept + live_bytes(b@, i as int));
            assert(done + (kept + live_bytes(b@, i as int)) =~= (done + kept) + live_bytes(
                b@,
                i as int,
            ));
            assert(characters(done + kept) =~= characters(done) + characters(kept));
            done = done + kept;
        }
    }
    assert(done + live_bytes(b@, i as int) =~= done);
    out
}

/// Appends the bytes from `from` up to `to`, one character each.
fn copy_bytes(out: &mut String, b: &[u8], from: usize, to: usize)
    requires
        from <= to <= b@.len(),
    ensures
        final(out)@ == old(out)@ + characters(b@.subrange(from as int, to as int)),
{
    let mut i: usize = from;
    assert(out@ =~= old(out)@ + characters(b@.subrange(from as int, from as int)));
    while i < to
        invariant
            from <= i <= to <= b@.len(),
            out@ == old(out)@ + characters(b@.subrange(from as int, i as int)),
        decreases to - i,
    {
        out.push(b[i] as char);
        i += 1;
        assert(out@ =~= old(out)@ + characters(b@.subrange(from as int, i as int)));
    }
}

/// Hashes that stand right before `at`.
fn count_hashes(b: &[u8], at: usize) -> (h: usize)
    requires
        at <= b@.len(),
    ensures
        h == hashes(b@, at as int),
        h <= at,
{
    let mut h: usize = 0;
    while h < at && b[at - h - 1] == HASH
        invariant
            h <= at <= b@.len(),
            hashes(b@, at as int) == h + hashes(b@, at - h),
        decreases at - h,
    {
        h += 1;
    }
    h
}

fn hex_digit(x: u8) -> (r: bool)
    ensures
        r == is_hex(x),
{
    (48 <= x && x <= 57) || (65 <= x && x <= 70) || (97 <= x && x <= 102)
}

fn escaped(x: u8) -> (r: bool)
    ensures
        r == is_escape(x),
{
    x == 110 || x == 114 || x == 116 || x == 48 || x == BACKSLASH || x == APOSTROPHE || x == QUOTE
}

/// Place after the character literal that opens at `at`, or `at`.
fn skip_char(b: &[u8], at: usize) -> (r: usize)
    requires
        at < b@.len(),
    ensures
        r == char_end(b@, at as int),
        at <= r <= b@.len(),
{
    let left: usize = b.len() - at;
    if left < 3 || b[at] != APOSTROPHE {
        return at;
    }
    if b[at + 1] == BACKSLASH {
        if left > 3 && escaped(b[at + 2]) && b[at + 3] == APOSTROPHE {
            return at + 4;
        }
        if left > 5 && b[at + 2] == LOWER_X && hex_digit(b[at + 3]) && hex_digit(b[at + 4]) && b[at
            + 5] == APOSTROPHE {
            return at + 6;
        }
        return at;
    }
    let x: u8 = b[at + 1];
    let w: usize = if x < 0x80 {
        1
    } else if x < 0xe0 {
        2
    } else if x < 0xf0 {
        3
    } else {
        4
    };
    if x != APOSTROPHE && x != NEWLINE && left > w + 1 && b[at + 1 + w] == APOSTROPHE && (w < 2
        || b[at + 2] >= 128) && (w < 3 || b[at + 3] >= 128) && (w < 4 || b[at + 4] >= 128) {
        at + 2 + w
    } else {
        at
    }
}

/// Whether the quote at `at` is followed by `h` hashes.
fn is_close(b: &[u8], at: usize, h: usize) -> (r: bool)
    requires
        at < b@.len(),
    ensures
        r == closes(b@, at as int, h as nat),
{
    let n: usize = b.len();
    if b[at] != QUOTE || h >= n - at {
        return false;
    }
    let mut k: usize = 0;
    while k < h
        invariant
            n == b@.len(),
            k <= h < n - at,
            forall|q: int| at < q <= at + k ==> b@[q] == 35,
        decreases h - k,
    {
        if b[at + 1 + k] != HASH {
            return false;
        }
        k += 1;
    }
    true
}

/// Place after the end of the block comment whose contents start at `from`, or
/// the end of the source.
fn skip_block(b: &[u8], from: usize) -> (r: usize)
    requires
        from <= b@.len(),
    ensures
        r == block_end(b@, from as int, 1),
        from <= r <= b@.len(),
{
    let n: usize = b.len();
    let mut i: usize = from;
    let mut depth: usize = 1;
    while i < n && depth > 0
        invariant
            from <= i <= n,
            n == b@.len(),
            depth <= i - from + 1,
            block_end(b@, i as int, depth as nat) == block_end(b@, from as int, 1),
        decreases n - i,
    {
        if b[i] == SLASH && i < n - 1 && b[i + 1] == STAR {
            depth += 1;
            i += 2;
        } else if b[i] == STAR && i < n - 1 && b[i + 1] == SLASH {
            depth -= 1;
            i += 2;
        } else {
            i += 1;
        }
    }
    i
}

/// Whether the raw source holds `\u{`.
fn holds_escape(b: &[u8]) -> (r: bool)
    ensures
        r == escapes(b@),
{
    let n: usize = b.len();
    if n < 3 {
        return false;
    }
    let mut i: usize = 0;
    while i < n - 2
        invariant
            3 <= n == b@.len(),
            i <= n - 2,
            forall|k: int| 0 <= k < i ==> !escape_at(b@, k),
        decreases n - i,
    {
        if b[i] == BACKSLASH && b[i + 1] == LOWER_U && b[i + 2] == BRACE {
            assert(escape_at(b@, i as int));
            return true;
        }
        i += 1;
    }
    false
}

/// Place of the newline that ends the line, or the end of the source.
fn skip_line(b: &[u8], from: usize) -> (r: usize)
    requires
        from <= b@.len(),
    ensures
        r == line_end(b@, from as int),
        from <= r <= b@.len(),
{
    let mut i: usize = from;
    while i < b.len() && b[i] != NEWLINE
        invariant
            from <= i <= b@.len(),
            line_end(b@, i as int) == line_end(b@, from as int),
        decreases b@.len() - i,
    {
        i += 1;
    }
    i
}

/// Place of the closing quote of a literal, or the end of the source.
fn skip_string(b: &[u8], from: usize, raw: bool, h: usize) -> (r: usize)
    requires
        from <= b@.len(),
    ensures
        from <= r <= b@.len(),
        r < b@.len() ==> r == string_end(b@, from as int, raw, h as nat),
        r == b@.len() ==> string_end(b@, from as int, raw, h as nat) >= b@.len(),
{
    let n: usize = b.len();
    let mut i: usize = from;
    while i < n && !is_close(b, i, h)
        invariant
            from <= i <= n,
            n == b@.len(),
            i < n ==> string_end(b@, i as int, raw, h as nat) == string_end(
                b@,
                from as int,
                raw,
                h as nat,
            ),
            i == n ==> string_end(b@, from as int, raw, h as nat) >= n,
        decreases n - i,
    {
        if b[i] == BACKSLASH && !raw {
            proof {
                lemma_string_end(b@, i + 2, raw, h as nat);
            }
            if i >= n - 1 {
                i = n;
            } else {
                i += 2;
            }
        } else {
            proof {
                lemma_string_end(b@, i + 1, raw, h as nat);
            }
            i += 1;
        }
    }
    i
}

/// Validates a user app body. `Ok(())` means it is safe to splice and build;
/// `Err` carries the first violation for the user.
pub fn validate(app_source: &str) -> (r: Result<(), String>)
    ensures
        match r {
            Ok(_) => accepted(app_source.spec_bytes()),
            Err(m) => exists|v: Violation|
                #[trigger] violates(app_source.spec_bytes(), v) && m@ == complaint(v),
        },
{
    let ghost bytes = app_source.spec_bytes();
    let n: usize = app_source.as_bytes().len();
    if n > MAX_SOURCE_BYTES {
        let mut m = "app source is ".to_owned();
        m.append(decimal_text(n as u64).as_str());
        m.append(" bytes; the limit is ");
        m.append(decimal_text(MAX_SOURCE_BYTES as u64).as_str());
        m.append(" bytes");
        proof {
            assert(violates(bytes, Violation::Oversize(bytes.len())));
        }
        return Err(m);
    }
    if holds_escape(app_source.as_bytes()) {
        proof {
            assert(violates(bytes, Violation::Escape));
        }
        return Err(
            "`\\u{…}` escapes are not allowed (they can defeat the safety scan)".to_owned(),
        );
    }
    let code = strip_strings_and_line_comments(app_source);
    let mut k: usize = 0;
    while k < DENYLIST.len()
        invariant
            k <= DENYLIST@.len(),
            bytes == app_source.spec_bytes(),
            bytes.len() <= MAX_SOURCE_BYTES,
            !escapes(bytes),
            code@ == live_code(bytes),
            forall|m: int| 0 <= m < k ==> !denied_by(bytes, m),
        decreases DENYLIST@.len() - k,
    {
        let (needle, why) = DENYLIST[k];
        if k != ESCAPE_ENTRY && contains_text(code.as_str(), needle) {
            let mut m = "`".to_owned();
            m.append(needle);
            m.append("` is not allowed: ");
            m.append(why);
            proof {
                assert(violates(bytes, Violation::Denied(k as int)));
            }
            return Err(m);
        }
        k += 1;
    }
    Ok(())
}

/// A source is told one thing: it has at most one first violation, and an
/// accepted source has none.
pub proof fn verdict_is_unique(bytes: Seq<u8>, v: Violation, w: Violation)
    requires
        violates(bytes, v),
    ensures
        !accepted(bytes),
        violates(bytes, w) ==> v == w,
{
    if violates(bytes, w) {
        match (v, w) {
            (Violation::Denied(j), Violation::Denied(k)) => {
                if j < k {
                    assert(!denied_by(bytes, j));
                }
                if k < j {
                    assert(!denied_by(bytes, k));
                }
            },
            _ => {},
        }
    }
}

/// A piece of source has at least one byte.
pub proof fn lemma_piece_advances(b: Seq<u8>, i: int)
    ensures
        i < piece_end(b, i),
        i < b.len() ==> piece_end(b, i) <= b.len() + 2,
        block_at(b, i) ==> i + 2 <= piece_end(b, i) <= b.len(),
{
    lemma_line_end(b, i + 2);
    lemma_literal_end(b, i);
    lemma_block_end(b, i + 2, 1);
}

/// Whether the scan that stands at `i` comes to stand at `n`: no comment or
/// string literal that opens before `n` runs across it.
pub open spec fn reaches(b: Seq<u8>, i: int, n: int) -> bool
    decreases n - i,
{
    i == n || (i < piece_end(b, i) <= n && reaches(b, piece_end(b, i), n))
}

/// What the scan keeps between `i` and `n`.
spec fn kept(b: Seq<u8>, i: int, n: int) -> Seq<u8>
    decreases n - i,
{
    if i < piece_end(b, i) <= n {
        piece_kept(b, i) + kept(b, piece_end(b, i), n)
    } else {
        Seq::empty()
    }
}

proof fn lemma_split(b: Seq<u8>, i: int, n: int)
    requires
        reaches(b, i, n),
        n <= b.len(),
    ensures
        live_bytes(b, i) == kept(b, i, n) + live_bytes(b, n),
    decreases n - i,
{
    if i == n {
        lemma_piece_advances(b, i);
        assert(kept(b, i, n) + live_bytes(b, n) =~= live_bytes(b, n));
    } else {
        let e = piece_end(b, i);
        lemma_split(b, e, n);
        assert(piece_kept(b, i) + (kept(b, e, n) + live_bytes(b, n)) =~= kept(b, i, n) + live_bytes(
            b,
            n,
        ));
    }
}

proof fn lemma_line_end_agrees(b: Seq<u8>, c: Seq<u8>, i: int, n: int)
    requires
        n < b.len(),
        n < c.len(),
        forall|k: int| 0 <= k <= n ==> b[k] == c[k],
        0 <= i,
        line_end(b, i) <= n,
    ensures
        line_end(c, i) == line_end(b, i),
    decreases n - i,
{
    lemma_line_end(b, i);
    if b[i] != 10 {
        lemma_line_end(b, i + 1);
        lemma_line_end_agrees(b, c, i + 1, n);
    }
}

/// What stands before `i` decides how a literal that opens there closes.
proof fn lemma_hashes_agree(b: Seq<u8>, c: Seq<u8>, i: int)
    requires
        forall|k: int| 0 <= k < i ==> b[k] == c[k],
    ensures
        hashes(b, i) == hashes(c, i),
        hashes(b, i) <= i || i < 0,
    decreases i,
{
    if i > 0 {
        lemma_hashes_agree(b, c, i - 1);
    }
}

proof fn lemma_string_end_agrees(b: Seq<u8>, c: Seq<u8>, i: int, n: int, raw: bool, h: nat)
    requires
        n < b.len(),
        n < c.len(),
        forall|k: int| 0 <= k <= n ==> b[k] == c[k],
        0 <= i,
        string_end(b, i, raw, h) + h <= n,
    ensures
        string_end(c, i, raw, h) == string_end(b, i, raw, h),
    decreases n - i,
{
    lemma_string_end(b, i, raw, h);
    if closes(b, i, h) {
        assert(closes(c, i, h));
    } else {
        assert(!closes(c, i, h)) by {
            if closes(c, i, h) {
                lemma_string_end(b, i + 1, raw, h);
                lemma_string_end(b, i + 2, raw, h);
                assert(closes(b, i, h));
            }
        }
        if b[i] == 92 && !raw {
            lemma_string_end(b, i + 2, raw, h);
            lemma_string_end_agrees(b, c, i + 2, n, raw, h);
        } else {
            lemma_string_end(b, i + 1, raw, h);
            lemma_string_end_agrees(b, c, i + 1, n, raw, h);
        }
    }
}

/// A block comment that is closed in `b` ends at the same distance in any
/// source that holds the same bytes from `j` on.
proof fn lemma_block_end_follows(b: Seq<u8>, i: int, c: Seq<u8>, j: int, depth: nat)
    requires
        0 <= i,
        0 <= j,
        ({
            let e = block_end(b, i, depth);
            &&& if block_closed(b, i, depth) {
                j + (e - i) <= c.len()
            } else {
                c.len() - j == b.len() - i
            }
            &&& forall|k: int| i <= k < e ==> #[trigger] b[k] == c[k - i + j]
        }),
        i <= b.len(),
    ensures
        block_end(c, j, depth) - j == block_end(b, i, depth) - i,
        block_closed(c, j, depth) == block_closed(b, i, depth),
    decreases b.len() - i,
{
    lemma_block_end(b, i, depth);
    if depth > 0 && i < b.len() {
        let e = block_end(b, i, depth);
        let (step, next): (int, nat) = if block_at(b, i) {
            (2, depth + 1)
        } else if block_closes_at(b, i) {
            (2, (depth - 1) as nat)
        } else {
            (1, depth)
        };
        lemma_block_end(b, i + step, next);
        assert(e == block_end(b, i + step, next));
        if block_closed(b, i, depth) {
            lemma_closing_takes_two(b, i, depth);
        }
        assert(b[i] == c[i - i + j]);
        if i + 1 < e {
            assert(b[i + 1] == c[i + 1 - i + j]);
        }
        assert(block_at(c, j) == block_at(b, i));
        assert(block_closes_at(c, j) == block_closes_at(b, i));
        assert forall|k: int| i + step <= k < e implies #[trigger] b[k] == c[k - (i + step) + (j
            + step)] by {
            assert(b[k] == c[k - i + j]);
        }
        lemma_block_end_follows(b, i + step, c, j + step, next);
    }
}

/// Whatever is still open at `i` takes two more bytes to close.
proof fn lemma_closing_takes_two(b: Seq<u8>, i: int, depth: nat)
    requires
        depth > 0,
        block_closed(b, i, depth),
    ensures
        i + 2 <= block_end(b, i, depth) <= b.len(),
    decreases b.len() - i,
{
    if block_at(b, i) {
        lemma_closing_takes_two(b, i + 2, depth + 1);
    } else if block_closes_at(b, i) {
        lemma_block_end(b, i + 2, (depth - 1) as nat);
    } else {
        lemma_closing_takes_two(b, i + 1, depth);
    }
}

proof fn lemma_literal_end_agrees(b: Seq<u8>, c: Seq<u8>, i: int, n: int)
    requires
        n < b.len(),
        n < c.len(),
        forall|k: int| 0 <= k <= n ==> b[k] == c[k],
        0 <= i < n,
        literal_end(b, i) <= n,
    ensures
        literal_end(c, i) == literal_end(b, i),
{
    lemma_hashes_agree(b, c, i);
    let (raw, h) = (raw_at(b, i), guard(b, i));
    assert(raw_at(c, i) == raw && guard(c, i) == h);
    lemma_string_end(b, i + 1, raw, h);
    lemma_string_end_agrees(b, c, i + 1, n, raw, h);
}

proof fn lemma_prefix_agrees(b: Seq<u8>, c: Seq<u8>, i: int, n: int)
    requires
        n < b.len(),
        n < c.len(),
        forall|k: int| 0 <= k <= n ==> b[k] == c[k],
        0 <= i <= n,
        reaches(b, i, n),
        reaches(c, i, n),
    ensures
        kept(c, i, n) == kept(b, i, n),
    decreases n - i,
{
    lemma_piece_advances(b, i);
    lemma_piece_advances(c, i);
    if i < n {
        let e = piece_end(b, i);
        if comment_at(b, i) {
            lemma_line_end_agrees(b, c, i + 2, n);
        } else if block_at(b, i) {
            lemma_block_end(b, i + 2, 1);
            lemma_block_end_follows(b, i + 2, c, i + 2, 1);
            assert(piece_kept(c, i) =~= piece_kept(b, i));
        } else if b[i] == 34 {
            lemma_literal_end_agrees(b, c, i, n);
        } else if char_at(b, i) || char_at(c, i) {
            assert(char_end(b, i) == char_end(c, i));
            assert(piece_kept(c, i) =~= piece_kept(b, i));
        }
        assert(piece_end(c, i) == e);
        assert(piece_kept(c, i) == piece_kept(b, i));
        lemma_prefix_agrees(b, c, e, n);
    }
}

/// Hashes before `i`, counted back to a byte at `s` that is none.
proof fn lemma_hashes_shift(b: Seq<u8>, c: Seq<u8>, i: int, j: int, s: int)
    requires
        0 <= s < i,
        i - s <= j,
        b[s] != 35,
        forall|k: int| s <= k < i ==> #[trigger] b[k] == c[k - i + j],
    ensures
        hashes(b, i) == hashes(c, j),
        hashes(b, i) < i - s,
    decreases i - s,
{
    assert(b[i - 1] == c[i - 1 - i + j]);
    if b[i - 1] == 35 {
        assert(s < i - 1);
        assert forall|k: int| s <= k < i - 1 implies #[trigger] b[k] == c[k - (i - 1) + (j - 1)] by {
            assert(b[k] == c[k - i + j]);
        }
        lemma_hashes_shift(b, c, i - 1, j - 1, s);
    }
}

/// Two sources that end alike scan alike from there. `s` is a place before `i`
/// from which on they are alike, and at which there is no hash.
proof fn lemma_suffix_agrees(b: Seq<u8>, c: Seq<u8>, i: int, j: int, s: int)
    requires
        0 <= s < i <= b.len() + 2,
        i - s <= j,
        s < b.len() ==> b[s] != 35,
        b.len() - i == c.len() - j,
        forall|k: int| s <= k < b.len() ==> #[trigger] b[k] == c[k - i + j],
    ensures
        live_bytes(b, i) == live_bytes(c, j),
    decreases b.len() + 2 - i,
{
    if i < b.len() {
        lemma_piece_advances(b, i);
        let d = j - i;
        assert forall|k: int| s <= k < b.len() implies b[k] == #[trigger] c[k + d] by {
            assert(b[k] == c[k - i + j]);
        }
        assert forall|k: int| s <= k < b.len() implies #[trigger] b[k] == c[k + d] by {
            assert(b[k] == c[k - i + j]);
        }
        assert(b[i] == c[i + d]);
        assert(comment_at(b, i) == comment_at(c, j)) by {
            if i + 1 < b.len() {
                assert(b[i + 1] == c[i + 1 + d]);
            }
        }
        assert(block_at(b, i) == block_at(c, j)) by {
            if i + 1 < b.len() {
                assert(b[i + 1] == c[i + 1 + d]);
            }
        }
        if comment_at(b, i) {
            lemma_line_end_shifts(b, c, i + 2, j + 2);
            lemma_line_end(b, i + 2);
        } else if block_at(b, i) {
            lemma_block_end(b, i + 2, 1);
            lemma_block_end_follows(b, i + 2, c, j + 2, 1);
            assert(piece_kept(c, j) =~= piece_kept(b, i)) by {
                assert forall|m: int| 0 <= m < piece_kept(b, i).len() implies piece_kept(b, i)[m]
                    == piece_kept(c, j)[m] by {
                    assert(b[i + m] == c[i + m + d]);
                }
            }
        } else if b[i] == 34 {
            lemma_literal_end_shifts(b, c, i, j, s);
            lemma_literal_end(b, i);
        } else {
            lemma_char_end_shifts(b, c, i, j);
            assert(piece_kept(c, j) =~= piece_kept(b, i)) by {
                assert forall|m: int| 0 <= m < piece_kept(b, i).len() implies piece_kept(b, i)[m]
                    == piece_kept(c, j)[m] by {
                    assert(b[i + m] == c[i + m + d]);
                }
            }
        }
        assert(piece_end(c, j) - j == piece_end(b, i) - i);
        assert(piece_kept(c, j) == piece_kept(b, i));
        let (e, f) = (piece_end(b, i), piece_end(c, j));
        assert forall|k: int| s <= k < b.len() implies #[trigger] b[k] == c[k - e + f] by {
            assert(b[k] == c[k + d]);
        }
        lemma_suffix_agrees(b, c, e, f, s);
    }
}

/// A character literal is decided by what follows it.
proof fn lemma_char_end_shifts(b: Seq<u8>, c: Seq<u8>, i: int, j: int)
    requires
        0 <= i < b.len(),
        0 <= j,
        b.len() - i == c.len() - j,
        forall|k: int| i <= k < b.len() ==> #[trigger] b[k] == c[k - i + j],
    ensures
        char_end(b, i) - i == char_end(c, j) - j,
{
    assert(b[i] == c[i - i + j]);
    if i + 1 < b.len() {
        assert(b[i + 1] == c[i + 1 - i + j]);
    }
    if i + 2 < b.len() {
        assert(b[i + 2] == c[i + 2 - i + j]);
    }
    if i + 3 < b.len() {
        assert(b[i + 3] == c[i + 3 - i + j]);
    }
    if i + 4 < b.len() {
        assert(b[i + 4] == c[i + 4 - i + j]);
    }
    if i + 5 < b.len() {
        assert(b[i + 5] == c[i + 5 - i + j]);
    }
}

proof fn lemma_literal_end_shifts(b: Seq<u8>, c: Seq<u8>, i: int, j: int, s: int)
    requires
        0 <= s < i < b.len(),
        i - s <= j,
        b[s] != 35,
        b.len() - i == c.len() - j,
        forall|k: int| s <= k < b.len() ==> #[trigger] b[k] == c[k - i + j],
    ensures
        literal_end(b, i) - i == literal_end(c, j) - j,
{
    lemma_hashes_shift(b, c, i, j, s);
    let r = i - hashes(b, i) - 1;
    assert(b[r] == c[r - i + j]);
    let (raw, h) = (raw_at(b, i), guard(b, i));
    assert(raw_at(c, j) == raw && guard(c, j) == h);
    assert forall|k: int| i + 1 <= k < b.len() implies #[trigger] b[k] == c[k - (i + 1) + (j + 1)] by {
        assert(b[k] == c[k - i + j]);
    }
    lemma_string_end_shifts(b, c, i + 1, j + 1, raw, h);
}

proof fn lemma_line_end_shifts(b: Seq<u8>, c: Seq<u8>, i: int, j: int)
    requires
        0 <= i,
        0 <= j,
        b.len() - i == c.len() - j,
        forall|k: int| i <= k < b.len() ==> #[trigger] b[k] == c[k - i + j],
    ensures
        line_end(b, i) - i == line_end(c, j) - j,
    decreases b.len() - i,
{
    if i < b.len() {
        assert(b[i] == c[i - i + j]);
        if b[i] != 10 {
            assert forall|k: int| i + 1 <= k < b.len() implies #[trigger] b[k] == c[k - (i + 1) + (j
                + 1)] by {
                assert(b[k] == c[k - i + j]);
            }
            lemma_line_end_shifts(b, c, i + 1, j + 1);
        }
    }
}

proof fn lemma_string_end_shifts(b: Seq<u8>, c: Seq<u8>, i: int, j: int, raw: bool, h: nat)
    requires
        0 <= i,
        0 <= j,
        b.len() - i == c.len() - j,
        forall|k: int| i <= k < b.len() ==> #[trigger] b[k] == c[k - i + j],
    ensures
        string_end(b, i, raw, h) - i == string_end(c, j, raw, h) - j,
    decreases b.len() + 2 - i,
{
    if i < b.len() {
        assert(b[i] == c[i - i + j]);
        assert(closes(b, i, h) == closes(c, j, h)) by {
            if closes(b, i, h) {
                assert forall|k: int| j < k <= j + h implies c[k] == 35 by {
                    assert(b[k - j + i] == c[k - j + i - i + j]);
                }
            }
            if closes(c, j, h) {
                assert forall|k: int| i < k <= i + h implies b[k] == 35 by {
                    assert(b[k] == c[k - i + j]);
                }
            }
        }
        let step: int = if b[i] == 92 && !raw {
            2
        } else {
            1
        };
        assert forall|k: int| i + step <= k < b.len() implies #[trigger] b[k] == c[k - (i + step) + (
        j + step)] by {
            assert(b[k] == c[k - i + j]);
        }
        if !closes(b, i, h) {
            lemma_string_end_shifts(b, c, i + step, j + step, raw, h);
        }
    }
}

proof fn lemma_line_end_at(b: Seq<u8>, i: int, e: int)
    requires
        0 <= i <= e <= b.len(),
        e < b.len() ==> b[e] == 10,
        forall|k: int| i <= k < e ==> b[k] != 10,
    ensures
        line_end(b, i) == e,
    decreases e - i,
{
    if i < e {
        lemma_line_end_at(b, i + 1, e);
    }
}

/// What holds no quote and no backslash does not end a literal.
proof fn lemma_string_end_skips(b: Seq<u8>, i: int, e: int, raw: bool, h: nat)
    requires
        0 <= i <= e <= b.len(),
        forall|k: int| i <= k < e ==> b[k] != 34 && b[k] != 92,
    ensures
        string_end(b, i, raw, h) == string_end(b, e, raw, h),
    decreases e - i,
{
    if i < e {
        lemma_string_end_skips(b, i + 1, e, raw, h);
    }
}

/// A source with the comment `// text` on a line of its own end, between `pre`
/// and `post`.
pub open spec fn with_comment(pre: Seq<u8>, text: Seq<u8>, post: Seq<u8>) -> Seq<u8> {
    pre + seq![47u8, 47u8] + text + seq![10u8] + post
}

/// What comes after the mark of a line comment does not decide whether the scan
/// reaches it.
proof fn lemma_reaches_comment(b: Seq<u8>, c: Seq<u8>, i: int, n: int)
    requires
        n + 1 < b.len(),
        n + 1 < c.len(),
        forall|k: int| 0 <= k <= n + 1 ==> b[k] == c[k],
        b[n] == 47,
        b[n + 1] == 47,
        0 <= i <= n,
        reaches(b, i, n),
    ensures
        reaches(c, i, n),
    decreases n - i,
{
    if i < n {
        lemma_piece_advances(b, i);
        let e = piece_end(b, i);
        if comment_at(b, i) {
            lemma_line_end_agrees(b, c, i + 2, n);
        } else if block_at(b, i) {
            lemma_block_end(b, i + 2, 1);
            lemma_block_end_follows(b, i + 2, c, i + 2, 1);
        } else if b[i] == 34 {
            lemma_literal_end_agrees(b, c, i, n);
        } else {
            lemma_char_before_slashes(b, c, i, n);
        }
        assert(piece_end(c, i) == e);
        lemma_reaches_comment(b, c, e, n);
    }
}

/// No character literal runs across two slashes.
proof fn lemma_char_before_slashes(b: Seq<u8>, c: Seq<u8>, i: int, n: int)
    requires
        0 <= i < n <= b.len(),
        n + 1 < c.len(),
        forall|k: int| 0 <= k < n ==> b[k] == c[k],
        c[n] == 47,
        c[n + 1] == 47,
        n < b.len() ==> n + 1 < b.len() && b[n] == 47 && b[n + 1] == 47,
    ensures
        char_end(c, i) == char_end(b, i),
{
    if i + 1 < n {
        assert(b[i + 1] == c[i + 1]);
    }
    if i + 2 < n {
        assert(b[i + 2] == c[i + 2]);
    }
    if i + 3 < n {
        assert(b[i + 3] == c[i + 3]);
    }
    if i + 4 < n {
        assert(b[i + 4] == c[i + 4]);
    }
    if i + 5 < n {
        assert(b[i + 5] == c[i + 5]);
    }
}

/// What a line comment says is never scanned: where the scan of `pre` ends
/// clear of any literal or comment, the words after `//` make no difference to
/// the live code.
pub proof fn comment_text_is_invisible(pre: Seq<u8>, one: Seq<u8>, two: Seq<u8>, post: Seq<u8>)
    requires
        reaches(with_comment(pre, one, post), 0, pre.len() as int),
        forall|k: int| 0 <= k < one.len() ==> one[k] != 10,
        forall|k: int| 0 <= k < two.len() ==> two[k] != 10,
    ensures
        live_code(with_comment(pre, one, post)) == live_code(with_comment(pre, two, post)),
{
    let b = with_comment(pre, one, post);
    let c = with_comment(pre, two, post);
    let n = pre.len() as int;
    let (e, f) = (n + 2 + one.len(), n + 2 + two.len());
    lemma_reaches_comment(b, c, 0, n);
    lemma_prefix_agrees(b, c, 0, n);
    lemma_split(b, 0, n);
    lemma_split(c, 0, n);
    lemma_line_end_at(b, n + 2, e);
    lemma_line_end_at(c, n + 2, f);
    assert(comment_at(b, n) && comment_at(c, n));
    assert(live_bytes(b, n) =~= live_bytes(b, e));
    assert(live_bytes(c, n) =~= live_bytes(c, f));
    assert(b[e] == 10 && c[f] == 10);
    assert forall|k: int| e <= k < b.len() implies #[trigger] b[k] == c[k - (e + 1) + (f + 1)] by {
        if k > e {
            assert(b[k] == post[k - e - 1]);
            assert(c[k - e + f] == post[k - e - 1]);
        }
    }
    lemma_suffix_agrees(b, c, e + 1, f + 1, e);
    assert(live_bytes(b, e) == piece_kept(b, e) + live_bytes(b, e + 1));
    assert(live_bytes(c, f) == piece_kept(c, f) + live_bytes(c, f + 1));
}

/// A source with the string literal `"text"` between `pre` and `post`.
pub open spec fn with_literal(pre: Seq<u8>, text: Seq<u8>, post: Seq<u8>) -> Seq<u8> {
    pre + seq![34u8] + text + seq![34u8] + post
}

/// No byte is a quote or a backslash.
pub open spec fn unquoted(text: Seq<u8>) -> bool {
    forall|k: int| 0 <= k < text.len() ==> text[k] != 34 && text[k] != 92
}

/// What a string literal holds is never scanned: where the quote after `pre`
/// opens a literal in both sources, its contents make no difference to the live
/// code.
pub proof fn literal_text_is_invisible(pre: Seq<u8>, one: Seq<u8>, two: Seq<u8>, post: Seq<u8>)
    requires
        reaches(with_literal(pre, one, post), 0, pre.len() as int),
        reaches(with_literal(pre, two, post), 0, pre.len() as int),
        unquoted(one),
        unquoted(two),
    ensures
        live_code(with_literal(pre, one, post)) == live_code(with_literal(pre, two, post)),
{
    let b = with_literal(pre, one, post);
    let c = with_literal(pre, two, post);
    let n = pre.len() as int;
    let (e, f) = (n + 1 + one.len(), n + 1 + two.len());
    lemma_prefix_agrees(b, c, 0, n);
    lemma_split(b, 0, n);
    lemma_split(c, 0, n);
    lemma_hashes_agree(b, c, n);
    let (raw, h) = (raw_at(b, n), guard(b, n));
    assert(raw_at(c, n) == raw && guard(c, n) == h);
    lemma_string_end_skips(b, n + 1, e, raw, h);
    lemma_string_end_skips(c, n + 1, f, raw, h);
    assert(b[n] == 34 && c[n] == 34 && b[e] == 34 && c[f] == 34);
    assert forall|k: int| e <= k < b.len() implies #[trigger] b[k] == c[k - e + f] by {
        if k > e {
            assert(b[k] == post[k - e - 1]);
            assert(c[k - e + f] == post[k - e - 1]);
        }
    }
    lemma_string_end_shifts(b, c, e, f, raw, h);
    lemma_string_end(b, e, raw, h);
    let (x, y) = (literal_end(b, n), literal_end(c, n));
    assert(x - e == y - f && x > e);
    assert forall|k: int| e <= k < b.len() implies #[trigger] b[k] == c[k - x + y] by {
        assert(b[k] == c[k - e + f]);
    }
    lemma_literal_end(b, n);
    lemma_suffix_agrees(b, c, x, y, e);
    assert(live_bytes(b, n) == piece_kept(b, n) + live_bytes(b, x));
    assert(live_bytes(c, n) == piece_kept(c, n) + live_bytes(c, y));
}

/// [`validate`] says the same of two sources.
pub open spec fn judged_alike(one: Seq<u8>, two: Seq<u8>) -> bool {
    &&& accepted(one) == accepted(two)
    &&& forall|v: Violation| #[trigger] violates(one, v) == violates(two, v)
}

/// The scan from `i` on meets a block comment that is never closed.
pub open spec fn left_open(b: Seq<u8>, i: int) -> bool
    decreases b.len() + 2 - i,
{
    if i >= b.len() {
        false
    } else if block_at(b, i) && !block_closed(b, i + 2, 1) {
        true
    } else {
        proof {
            lemma_piece_advances(b, i);
        }
        left_open(b, piece_end(b, i))
    }
}

/// The scan from `i` on ends with an apostrophe, or with one and a backslash,
/// that opens nothing.
pub open spec fn hangs(b: Seq<u8>, i: int) -> bool
    decreases b.len() + 2 - i,
{
    if i >= b.len() {
        false
    } else if b[i] == 39 && (i + 1 == b.len() || i + 2 == b.len() && b[i + 1] == 92) {
        true
    } else {
        proof {
            lemma_piece_advances(b, i);
        }
        hangs(b, piece_end(b, i))
    }
}

/// No quote and no line comment mark.
pub open spec fn unmarked(b: Seq<u8>) -> bool {
    &&& forall|k: int| 0 <= k < b.len() ==> b[k] != 34
    &&& forall|k: int| 0 <= k ==> !#[trigger] comment_at(b, k)
}

/// Text without quotes and line comment marks, and with every block comment
/// closed, is scanned to its end before a quote.
proof fn lemma_reaches_quote(pre: Seq<u8>, b: Seq<u8>, i: int)
    requires
        unmarked(pre),
        !left_open(pre, i),
        0 <= i <= pre.len() < b.len(),
        forall|k: int| 0 <= k < pre.len() ==> b[k] == pre[k],
        b[pre.len() as int] == 34,
        pre.len() + 1 < b.len() && b[pre.len() as int + 1] == 39 ==> !hangs(pre, i),
    ensures
        reaches(b, i, pre.len() as int),
    decreases pre.len() - i,
{
    let n = pre.len() as int;
    if i < n {
        assert(!comment_at(pre, i));
        assert(b[i] == pre[i]);
        if i + 1 < n {
            assert(b[i + 1] == pre[i + 1]);
        }
        assert(!comment_at(b, i));
        assert(block_at(b, i) == block_at(pre, i));
        lemma_piece_advances(pre, i);
        if block_at(pre, i) {
            lemma_closing_takes_two(pre, i + 2, 1);
            lemma_block_end_follows(pre, i + 2, b, i + 2, 1);
        } else {
            lemma_char_before_quote(pre, b, i);
        }
        assert(piece_end(b, i) == piece_end(pre, i));
        lemma_reaches_quote(pre, b, piece_end(pre, i));
    }
}

/// A character literal holds a quote only where nothing else stands in it.
proof fn lemma_char_before_quote(pre: Seq<u8>, b: Seq<u8>, i: int)
    requires
        0 <= i < pre.len() < b.len(),
        forall|k: int| 0 <= k < pre.len() ==> b[k] == pre[k],
        b[pre.len() as int] == 34,
        pre.len() + 1 < b.len() && b[pre.len() as int + 1] == 39 && pre[i] == 39 ==> !(i + 1 == pre.len()
            || i + 2 == pre.len() && pre[i + 1] == 92),
    ensures
        char_end(b, i) == char_end(pre, i),
{
    let n = pre.len() as int;
    if i + 1 < n {
        assert(b[i + 1] == pre[i + 1]);
    }
    if i + 2 < n {
        assert(b[i + 2] == pre[i + 2]);
    }
    if i + 3 < n {
        assert(b[i + 3] == pre[i + 3]);
    }
    if i + 4 < n {
        assert(b[i + 4] == pre[i + 4]);
    }
    if i + 5 < n {
        assert(b[i + 5] == pre[i + 5]);
    }
}

/// What a string literal says never decides: where it follows text without
/// quotes and line comment marks, all of whose block comments are closed, two
/// literals of one length get one verdict and one message. A literal that
/// begins with an apostrophe does not follow one that opens nothing: the two
/// would hold its quote between them.
pub proof fn literal_text_never_decides(pre: Seq<u8>, one: Seq<u8>, two: Seq<u8>, post: Seq<u8>)
    requires
        unmarked(pre),
        !left_open(pre, 0),
        unquoted(one),
        unquoted(two),
        one.len() == two.len(),
        one.len() > 0 && (one[0] == 39 || two[0] == 39) ==> !hangs(pre, 0),
    ensures
        judged_alike(with_literal(pre, one, post), with_literal(pre, two, post)),
{
    let b = with_literal(pre, one, post);
    let c = with_literal(pre, two, post);
    let n = pre.len() as int;
    if one.len() > 0 {
        assert(b[n + 1] == one[0] && c[n + 1] == two[0]);
    } else {
        assert(b[n + 1] == 34 && c[n + 1] == 34);
    }
    lemma_reaches_quote(pre, b, 0);
    lemma_reaches_quote(pre, c, 0);
    literal_text_is_invisible(pre, one, two, post);
    lemma_escape_stays(pre, one, two, post);
    lemma_escape_stays(pre, two, one, post);
    lemma_judged_by_live_code(b, c);
}

/// An escape outside a literal stays, whatever the literal says.
proof fn lemma_escape_stays(pre: Seq<u8>, one: Seq<u8>, two: Seq<u8>, post: Seq<u8>)
    requires
        unquoted(one),
        one.len() == two.len(),
    ensures
        escapes(with_literal(pre, one, post)) ==> escapes(with_literal(pre, two, post)),
{
    let b = with_literal(pre, one, post);
    let c = with_literal(pre, two, post);
    if escapes(b) {
        let i = choose|i: int| escape_at(b, i);
        let (n, e) = (pre.len() as int, (pre.len() + 1 + one.len()) as int);
        assert(b[n] == 34 && b[e] == 34);
        if n < i < e {
            assert(b[i] == one[i - n - 1]);
        }
        assert forall|k: int| i <= k <= i + 2 implies b[k] == c[k] by {}
        assert(escape_at(c, i));
    }
}

/// Size, escape and live code are all that the verdict goes by.
proof fn lemma_judged_by_live_code(b: Seq<u8>, c: Seq<u8>)
    requires
        b.len() <= MAX_SOURCE_BYTES && c.len() <= MAX_SOURCE_BYTES || b.len() == c.len(),
        escapes(b) == escapes(c),
        forall|k: int| 0 <= k < DENYLIST@.len() ==> denied_by(b, k) == denied_by(c, k)
            || live_code(b) == live_code(c),
    ensures
        judged_alike(b, c),
{
    assert forall|k: int| 0 <= k < DENYLIST@.len() implies denied_by(b, k) == denied_by(c, k) by {}
    assert forall|v: Violation| #[trigger] violates(b, v) == violates(c, v) by {
        match v {
            Violation::Denied(k) => {
                assert(first_denied_by(b, k) == first_denied_by(c, k));
            },
            _ => {},
        }
    }
}

/// A source with the comment `// text` at its very end.
pub open spec fn with_last_comment(s: Seq<u8>, text: Seq<u8>) -> Seq<u8> {
    s + seq![47u8, 47u8] + text
}

/// Two slashes after `s` close nothing that `s` leaves open.
proof fn lemma_closes_alike(s: Seq<u8>, c: Seq<u8>, i: int, h: nat)
    requires
        0 <= i < s.len() < c.len(),
        forall|k: int| 0 <= k < s.len() ==> c[k] == s[k],
        c[s.len() as int] == 47,
    ensures
        closes(c, i, h) == closes(s, i, h),
{
    if closes(c, i, h) && i + h >= s.len() {
        assert(c[s.len() as int] == 35);
    }
}

/// Where the string literal that is open at `i` does not end in `s`, it does
/// not end in what follows without quotes and backslashes either.
proof fn lemma_string_runs_on(s: Seq<u8>, c: Seq<u8>, i: int, raw: bool, h: nat)
    requires
        0 <= i,
        s.len() < c.len(),
        forall|k: int| 0 <= k < s.len() ==> c[k] == s[k],
        forall|k: int| s.len() <= k < c.len() ==> c[k] != 34 && c[k] != 92,
        c[s.len() as int] == 47,
        string_end(s, i, raw, h) >= s.len(),
    ensures
        string_end(c, i, raw, h) >= c.len(),
    decreases c.len() + 2 - i,
{
    if i < c.len() {
        if i < s.len() {
            assert(c[i] == s[i]);
            lemma_closes_alike(s, c, i, h);
        }
        if c[i] == 92 && !raw {
            lemma_string_runs_on(s, c, i + 2, raw, h);
        } else {
            if i >= s.len() {
                lemma_string_end(s, i + 1, raw, h);
            }
            lemma_string_runs_on(s, c, i + 1, raw, h);
        }
    }
}

/// A last line comment costs at most a slash that stood right before it.
proof fn lemma_last_comment(s: Seq<u8>, text: Seq<u8>, i: int)
    requires
        unquoted(text),
        forall|k: int| 0 <= k < text.len() ==> text[k] != 10,
        !left_open(s, i),
        0 <= i,
    ensures
        ({
            let c = with_last_comment(s, text);
            i <= s.len() ==> live_bytes(s, i) == live_bytes(c, i) || live_bytes(s, i)
                == live_bytes(c, i).push(47u8)
        }),
    decreases s.len() + 2 - i,
{
    reveal_with_fuel(live_bytes, 2);
    let c = with_last_comment(s, text);
    let n = s.len() as int;
    assert(forall|k: int| 0 <= k < n ==> c[k] == s[k]);
    assert(c[n] == 47 && c[n + 1] == 47);
    assert forall|k: int| n <= k < c.len() implies c[k] != 10 && c[k] != 34 && c[k] != 92 by {
        if k >= n + 2 {
            assert(c[k] == text[k - n - 2]);
        }
    }
    if i == n {
        lemma_line_end_at(c, n + 2, c.len() as int);
        assert(comment_at(c, n));
        assert(live_bytes(c, n) =~= Seq::<u8>::empty());
    } else if i < n {
        lemma_piece_advances(s, i);
        lemma_piece_advances(c, i);
        let e = piece_end(s, i);
        assert(c[i] == s[i]);
        if i + 1 < n {
            assert(c[i + 1] == s[i + 1]);
            assert(comment_at(c, i) == comment_at(s, i));
        }
        assert(block_at(c, i) == block_at(s, i));
        if comment_at(s, i) {
            lemma_line_end(s, i + 2);
            if e < n {
                assert(s[e] == 10) by {
                    lemma_line_end_stops(s, i + 2);
                }
                lemma_line_end_at(c, i + 2, e);
                lemma_last_comment(s, text, e);
                assert(live_bytes(s, i) =~= live_bytes(s, e));
                assert(live_bytes(c, i) =~= live_bytes(c, e));
            } else {
                lemma_line_end_at(c, i + 2, c.len() as int);
                assert(live_bytes(s, i) =~= Seq::<u8>::empty());
                assert(live_bytes(c, i) =~= Seq::<u8>::empty());
            }
        } else if comment_at(c, i) {
            assert(i == n - 1);
            lemma_line_end_at(c, i + 2, c.len() as int);
            assert(live_bytes(c, i) =~= Seq::<u8>::empty());
            assert(live_bytes(s, i) =~= seq![47u8]);
            assert(seq![47u8] =~= Seq::<u8>::empty().push(47u8));
        } else if s[i] == 34 && string_end(s, i + 1, raw_at(s, i), guard(s, i)) >= n {
            lemma_hashes_agree(s, c, i);
            assert(raw_at(c, i) == raw_at(s, i) && guard(c, i) == guard(s, i));
            lemma_string_runs_on(s, c, i + 1, raw_at(s, i), guard(s, i));
            assert(live_bytes(s, i) =~= seq![32u8, 32u8]);
            assert(live_bytes(c, i) =~= seq![32u8, 32u8]);
        } else {
            if block_at(s, i) {
                lemma_closing_takes_two(s, i + 2, 1);
                lemma_block_end_follows(s, i + 2, c, i + 2, 1);
                assert(piece_kept(c, i) =~= piece_kept(s, i));
            } else if s[i] == 34 {
                lemma_hashes_agree(s, c, i);
                assert(raw_at(c, i) == raw_at(s, i) && guard(c, i) == guard(s, i));
                lemma_string_end_found(s, c, i + 1, raw_at(s, i), guard(s, i));
                lemma_string_end(s, i + 1, raw_at(s, i), guard(s, i));
            } else {
                lemma_char_before_slashes(s, c, i, n);
                assert(piece_kept(c, i) =~= piece_kept(s, i));
            }
            assert(piece_end(c, i) == e);
            assert(piece_kept(c, i) == piece_kept(s, i));
            lemma_last_comment(s, text, e);
            let (k, l) = (piece_kept(s, i), live_bytes(c, e));
            assert(k + l.push(47u8) =~= (k + l).push(47u8));
        }
    }
}

proof fn lemma_line_end_stops(b: Seq<u8>, i: int)
    ensures
        line_end(b, i) < b.len() ==> b[line_end(b, i)] == 10,
    decreases b.len() - i,
{
    if i < b.len() && b[i] != 10 {
        lemma_line_end_stops(b, i + 1);
    }
}

/// A literal that ends in `s` ends there in whatever begins with `s`.
proof fn lemma_string_end_found(s: Seq<u8>, c: Seq<u8>, i: int, raw: bool, h: nat)
    requires
        0 <= i,
        s.len() < c.len(),
        forall|k: int| 0 <= k < s.len() ==> c[k] == s[k],
        c[s.len() as int] == 47,
        string_end(s, i, raw, h) < s.len(),
    ensures
        string_end(c, i, raw, h) == string_end(s, i, raw, h),
    decreases s.len() + 2 - i,
{
    lemma_string_end(s, i, raw, h);
    assert(c[i] == s[i]);
    lemma_closes_alike(s, c, i, h);
    if !closes(s, i, h) {
        if s[i] == 92 && !raw {
            lemma_string_end_found(s, c, i + 2, raw, h);
        } else {
            lemma_string_end_found(s, c, i + 1, raw, h);
        }
    }
}

/// No needle of the denylist holds a slash.
proof fn lemma_needles_hold_no_slash(k: int)
    requires
        0 <= k < DENYLIST@.len(),
    ensures
        DENYLIST@[k].0@.len() > 0,
        DENYLIST@[k].0@.last() != '/',
{
    reveal_strlit("unsafe");
    reveal_strlit("asm!");
    reveal_strlit("core::arch");
    reveal_strlit("include!");
    reveal_strlit("include_bytes!");
    reveal_strlit("include_str!");
    reveal_strlit("env!");
    reveal_strlit("option_env!");
    reveal_strlit("extern");
    reveal_strlit("std::");
    reveal_strlit("::std");
    reveal_strlit("proc_macro");
    reveal_strlit("#[no_mangle]");
    reveal_strlit("#[unsafe(");
    reveal_strlit("\\u{");
    reveal_strlit("build_rs");
}

/// A slash at the end makes no difference to a needle that does not end in
/// one.
proof fn lemma_last_slash(hay: Seq<char>, needle: Seq<char>)
    requires
        needle.len() > 0,
        needle.last() != '/',
    ensures
        contains(hay.push('/'), needle) == contains(hay, needle),
{
    let more = hay.push('/');
    if contains(hay, needle) {
        let i = choose|i: int| occurs_at(hay, needle, i);
        assert(more.subrange(i, i + needle.len()) =~= hay.subrange(i, i + needle.len()));
        assert(occurs_at(more, needle, i));
    }
    if contains(more, needle) {
        let i = choose|i: int| occurs_at(more, needle, i);
        let w = more.subrange(i, i + needle.len());
        if i + needle.len() == more.len() {
            assert(w.last() == '/');
        }
        assert(hay.subrange(i, i + needle.len()) =~= w);
        assert(occurs_at(hay, needle, i));
    }
}

/// A line comment at the end changes neither the verdict nor the message, if
/// the source stays within its size and no block comment is left open before
/// it.
pub proof fn last_comment_never_decides(s: Seq<u8>, text: Seq<u8>)
    requires
        !left_open(s, 0),
        unquoted(text),
        forall|k: int| 0 <= k < text.len() ==> text[k] != 10,
        s.len() + 2 + text.len() <= MAX_SOURCE_BYTES,
    ensures
        judged_alike(with_last_comment(s, text), s),
{
    let c = with_last_comment(s, text);
    let n = s.len() as int;
    lemma_last_comment(s, text, 0);
    assert(escapes(c) == escapes(s)) by {
        if escapes(s) {
            let i = choose|i: int| escape_at(s, i);
            assert(escape_at(c, i));
        }
        if escapes(c) {
            let i = choose|i: int| escape_at(c, i);
            assert(c[n] == 47 && c[n + 1] == 47);
            if i >= n + 2 {
                assert(c[i] == text[i - n - 2]);
            }
            assert(escape_at(s, i));
        }
    }
    assert forall|k: int| 0 <= k < DENYLIST@.len() implies denied_by(c, k) == denied_by(s, k) by {
        if live_bytes(s, 0) != live_bytes(c, 0) {
            assert(live_code(s) =~= live_code(c).push('/'));
            lemma_needles_hold_no_slash(k);
            lemma_last_slash(live_code(c), DENYLIST@[k].0@);
        }
    }
    lemma_judged_by_live_code(c, s);
}

/// Live code is live code throughout: scanned again, after whatever `p` is, it
/// stays as it is.
proof fn lemma_settles(b: Seq<u8>, i: int, p: Seq<u8>)
    requires
        0 <= i,
    ensures
        live_bytes(p + live_bytes(b, i), p.len() as int) == live_bytes(b, i),
    decreases b.len() + 2 - i,
{
    let rest = live_bytes(b, i);
    let o = p + rest;
    let n = p.len() as int;
    if i < b.len() {
        lemma_piece_advances(b, i);
        let e = piece_end(b, i);
        let k = piece_kept(b, i);
        let after = live_bytes(b, e);
        assert(rest == k + after);
        if comment_at(b, i) {
            assert(rest =~= after);
            lemma_settles(b, e, p);
        } else {
            assert(o =~= (p + k) + after);
            lemma_settles(b, e, p + k);
            assert forall|m: int| 0 <= m < k.len() implies o[n + m] == k[m] by {}
            if block_at(b, i) {
                assert(o[n] == 47 && o[n + 1] == 42);
                lemma_block_end(b, i + 2, 1);
                assert(!block_closed(b, i + 2, 1) ==> after.len() == 0);
                assert(o.len() == n + k.len() + after.len());
                assert forall|q: int| i + 2 <= q < e implies #[trigger] b[q] == o[q - (i + 2) + (n
                    + 2)] by {
                    assert(o[n + (q - i)] == k[q - i]);
                }
                lemma_block_end_follows(b, i + 2, o, n + 2, 1);
                assert(piece_kept(o, n) =~= k);
                assert(piece_end(o, n) == n + k.len());
            } else if b[i] == 34 {
                assert(o[n] == 32 && o[n + 1] == 32);
                assert(live_bytes(o, n) == seq![32u8] + live_bytes(o, n + 1));
                assert(live_bytes(o, n + 1) == seq![32u8] + live_bytes(o, n + 2));
                assert(seq![32u8] + (seq![32u8] + live_bytes(o, n + 2)) =~= k + live_bytes(
                    o,
                    n + 2,
                ));
            } else if char_at(b, i) {
                assert forall|q: int| i <= q < e implies #[trigger] b[q] == o[q - i + n] by {
                    assert(o[n + (q - i)] == k[q - i]);
                }
                assert(b[i] == o[i - i + n] && b[i + 1] == o[i + 1 - i + n] && b[i + 2] == o[i + 2
                    - i + n]);
                if e > i + 3 {
                    assert(b[i + 3] == o[i + 3 - i + n]);
                }
                if e > i + 4 {
                    assert(b[i + 4] == o[i + 4 - i + n]);
                }
                if e > i + 5 {
                    assert(b[i + 5] == o[i + 5 - i + n]);
                }
                assert(char_end(o, n) == n + k.len());
                assert(piece_kept(o, n) =~= k);
            } else {
                assert(o[n] == b[i]);
                if b[i] == 39 {
                    assert(o.skip(n) =~= seq![39u8] + after);
                    lemma_stays_alone(b, i, o, n);
                }
                if b[i] == 47 {
                    lemma_first_kept(b, i + 1);
                    if after.len() > 0 {
                        assert(o[n + 1] == after[0]);
                    }
                }
                assert(!comment_at(o, n) && !block_at(o, n));
            }
        }
    }
}

/// The first byte that is kept from `j` on: a newline after a comment, a space
/// of a literal, or the byte at `j`.
proof fn lemma_first_byte(b: Seq<u8>, j: int)
    requires
        0 <= j,
        live_bytes(b, j).len() > 0,
    ensures
        j < b.len(),
        ({
            let a = live_bytes(b, j);
            ||| a[0] == 10
            ||| a[0] == 32 && b[j] == 34 && a.len() > 1 && a[1] == 32
            ||| a[0] == 47 && block_at(b, j) && a.len() > 1 && a[1] == 42
            ||| a[0] == 39 && char_at(b, j) && a.len() > 2 && a[1] == b[j + 1]
            ||| a[0] == b[j] && a == seq![b[j]] + live_bytes(b, j + 1)
        }),
{
    lemma_piece_advances(b, j);
    let a = live_bytes(b, j);
    if comment_at(b, j) {
        let e = line_end(b, j + 2);
        lemma_line_end(b, j + 2);
        lemma_line_end_stops(b, j + 2);
        assert(a =~= live_bytes(b, e));
        if e < b.len() {
            lemma_piece_advances(b, e);
            assert(live_bytes(b, e)[0] == piece_kept(b, e)[0]);
        }
    } else {
        let k = piece_kept(b, j);
        assert(a == k + live_bytes(b, piece_end(b, j)));
        assert(a[0] == k[0]);
        if k.len() > 1 {
            assert(a[1] == k[1]);
        }
    }
}

/// An apostrophe that opens nothing still opens nothing in what is kept.
proof fn lemma_stays_alone(b: Seq<u8>, i: int, o: Seq<u8>, n: int)
    requires
        0 <= i < b.len(),
        0 <= n < o.len(),
        b[i] == 39,
        !char_at(b, i),
        o.skip(n) == seq![39u8] + live_bytes(b, i + 1),
    ensures
        !char_at(o, n),
{
    let a = live_bytes(b, i + 1);
    let t = o.skip(n);
    assert(t.len() == a.len() + 1);
    assert forall|k: int| 0 <= k < a.len() implies #[trigger] o[n + 1 + k] == a[k] by {
        assert(t[k + 1] == a[k]);
        assert(t[k + 1] == o[n + (k + 1)]);
    }
    if char_at(o, n) {
        assert(a.len() >= 2);
        assert(o[n + 1 + 0] == a[0] && o[n + 1 + 1] == a[1]);
        lemma_first_byte(b, i + 1);
        let a1 = live_bytes(b, i + 2);
        assert(a == seq![b[i + 1]] + a1) by {
            assert(a[0] != 10 && a[0] != 39);
            if a[0] == 32 && b[i + 1] == 34 || a[0] == 47 && block_at(b, i + 1) {
                assert(a[1] != 39);
            }
        }
        assert(a[1] == a1[0]);
        lemma_first_byte(b, i + 2);
        if a[0] == 92 {
            assert(a.len() >= 3);
            assert(o[n + 1 + 2] == a[2] && a[2] == a1[1]);
            assert(a1[0] == b[i + 2]);
            if char_at(b, i + 2) {
                assert(a1[1] == b[i + 3]);
                assert(false);
            }
            let a2 = live_bytes(b, i + 3);
            assert(a1 == seq![b[i + 2]] + a2);
            assert(a1[1] == a2[0]);
            lemma_first_byte(b, i + 3);
            if a[1] == 120 && !(is_escape(a[1])) {
                assert(a.len() >= 5);
                assert(o[n + 1 + 3] == a[3] && o[n + 1 + 4] == a[4]);
                assert(a2[0] == b[i + 3]);
                let a3 = live_bytes(b, i + 4);
                assert(a2 == seq![b[i + 3]] + a3);
                assert(a[3] == a3[0]);
                lemma_first_byte(b, i + 4);
                let a4 = live_bytes(b, i + 5);
                assert(a3 == seq![b[i + 4]] + a4);
                assert(a[4] == a4[0]);
                lemma_first_byte(b, i + 5);
                assert(b[i + 5] == 39);
            } else {
                assert(b[i + 3] == 39);
            }
        } else {
            let w = width(a[0]);
            if w == 1 {
                assert(b[i + 2] == 39);
            } else {
                assert(o[n + 1 + 2] == a[2]);
                assert(a1[0] == b[i + 2]);
                let a2 = live_bytes(b, i + 3);
                assert(a1 == seq![b[i + 2]] + a2);
                assert(a[2] == a2[0]);
                lemma_first_byte(b, i + 3);
                if w == 2 {
                    assert(b[i + 3] == 39);
                } else {
                    assert(o[n + 1 + 3] == a[3]);
                    assert(a2[0] == b[i + 3]);
                    let a3 = live_bytes(b, i + 4);
                    assert(a2 == seq![b[i + 3]] + a3);
                    assert(a[3] == a3[0]);
                    lemma_first_byte(b, i + 4);
                    if w == 3 {
                        assert(b[i + 4] == 39);
                    } else {
                        assert(o[n + 1 + 4] == a[4]);
                        assert(a3[0] == b[i + 4]);
                        let a4 = live_bytes(b, i + 5);
                        assert(a3 == seq![b[i + 4]] + a4);
                        assert(a[4] == a4[0]);
                        lemma_first_byte(b, i + 5);
                        assert(b[i + 5] == 39);
                    }
                }
            }
        }
    }
}

/// Where no comment opens at the slash before `i`, what is kept from there on
/// begins with neither a slash nor a star.
proof fn lemma_first_kept(b: Seq<u8>, i: int)
    requires
        1 <= i,
        i < b.len() ==> b[i] != 47 && b[i] != 42,
    ensures
        live_bytes(b, i).len() > 0 ==> live_bytes(b, i)[0] != 47 && live_bytes(b, i)[0] != 42,
{
    if i < b.len() {
        assert(live_bytes(b, i)[0] == piece_kept(b, i)[0]);
    }
}

/// Every block comment and every character literal that the scan from `i` on
/// meets holds no quote and no line comment mark, and a block comment ends
/// before no slash that stays.
pub open spec fn plain_blocks(b: Seq<u8>, i: int) -> bool
    decreases b.len() + 2 - i,
{
    if i >= b.len() {
        true
    } else {
        let e = piece_end(b, i);
        proof {
            lemma_piece_advances(b, i);
        }
        &&& char_at(b, i) ==> unmarked(b.subrange(i, e))
        &&& block_at(b, i) ==> {
            &&& unmarked(b.subrange(i, e))
            &&& e < b.len() && b[e] == 47 && b[e - 1] == 47 ==> comment_at(b, e)
        }
        &&& plain_blocks(b, e)
    }
}

proof fn lemma_unmarked(b: Seq<u8>, i: int)
    requires
        0 <= i,
        plain_blocks(b, i),
    ensures
        unmarked(live_bytes(b, i)),
    decreases b.len() + 2 - i,
{
    if i < b.len() {
        lemma_piece_advances(b, i);
        let e = piece_end(b, i);
        let (k, after) = (piece_kept(b, i), live_bytes(b, e));
        let o = k + after;
        lemma_unmarked(b, e);
        assert forall|q: int| 0 <= q < o.len() implies o[q] != 34 by {
            if q >= k.len() {
                assert(o[q] == after[q - k.len()]);
            }
        }
        assert forall|q: int| 0 <= q implies !#[trigger] comment_at(o, q) by {
            if comment_at(o, q) {
                if q >= k.len() {
                    assert(comment_at(after, q - k.len()));
                } else if q + 1 < k.len() {
                    assert(comment_at(k, q));
                } else {
                    assert(after[0] == 47 && k[q] == 47);
                    if block_at(b, i) {
                        assert(k[q] == b[e - 1]);
                        lemma_begins_with_slash(b, e);
                    } else {
                        lemma_first_kept(b, i + 1);
                    }
                }
            }
        }
    }
}

/// What is kept begins with a slash only where the source does, and no line
/// comment opens there.
proof fn lemma_begins_with_slash(b: Seq<u8>, i: int)
    requires
        0 <= i,
        live_bytes(b, i).len() > 0,
        live_bytes(b, i)[0] == 47,
    ensures
        i < b.len(),
        b[i] == 47,
        !comment_at(b, i),
{
    lemma_piece_advances(b, i);
    if comment_at(b, i) {
        let e = line_end(b, i + 2);
        lemma_line_end(b, i + 2);
        lemma_line_end_stops(b, i + 2);
        assert(live_bytes(b, i) =~= live_bytes(b, e));
        if e < b.len() {
            assert(live_bytes(b, e)[0] == piece_kept(b, e)[0]);
        }
    } else {
        assert(live_bytes(b, i)[0] == piece_kept(b, i)[0]);
    }
}

proof fn lemma_untouched(b: Seq<u8>, i: int)
    requires
        0 <= i <= b.len(),
        unmarked(b),
    ensures
        live_bytes(b, i) == b.skip(i),
    decreases b.len() - i,
{
    if i < b.len() {
        assert(!comment_at(b, i));
        lemma_piece_advances(b, i);
        let e = piece_end(b, i);
        lemma_untouched(b, e);
        assert(piece_kept(b, i) + b.skip(e) =~= b.skip(i));
    } else {
        assert(b.skip(i) =~= Seq::<u8>::empty());
    }
}

/// Stripping twice is stripping once; text without quotes and line comment
/// marks is kept as it is; and what is kept holds neither, unless a block
/// comment or a character literal brings one.
pub proof fn stripping_settles(b: Seq<u8>)
    ensures
        live_bytes(live_bytes(b, 0), 0) == live_bytes(b, 0),
        unmarked(b) ==> live_bytes(b, 0) == b,
        plain_blocks(b, 0) ==> unmarked(live_bytes(b, 0)),
{
    lemma_settles(b, 0, Seq::empty());
    assert(Seq::<u8>::empty() + live_bytes(b, 0) =~= live_bytes(b, 0));
    if unmarked(b) {
        lemma_untouched(b, 0);
        assert(b.skip(0) =~= b);
    }
    if plain_blocks(b, 0) {
        lemma_unmarked(b, 0);
    }
}

/// The live code of a source of ASCII characters is its own live code: the
/// string that is left is left again.
pub proof fn ascii_stripping_settles(text: Seq<char>)
    requires
        is_ascii_chars(text),
    ensures
        ({
            let out = live_code(encode_utf8(text));
            live_code(encode_utf8(out)) == out
        }),
{
    let b = encode_utf8(text);
    is_ascii_chars_encode_utf8(text);
    let l = live_bytes(b, 0);
    lemma_small_bytes(b, 0);
    let out = live_code(b);
    assert(is_ascii_chars(out)) by {
        assert forall|k: int| 0 <= k < out.len() implies 0 <= #[trigger] out[k] as nat && (out[k] as nat) < 128 by {
            assert(l[k] < 128);
        }
    }
    is_ascii_chars_encode_utf8(out);
    assert(encode_utf8(out) =~= l) by {
        assert forall|k: int| 0 <= k < l.len() implies encode_utf8(out)[k] == l[k] by {
            assert(l[k] < 128);
        }
    }
    stripping_settles(b);
}

proof fn lemma_small_bytes(b: Seq<u8>, i: int)
    requires
        0 <= i,
        forall|k: int| 0 <= k < b.len() ==> #[trigger] b[k] < 128,
    ensures
        forall|k: int| 0 <= k < live_bytes(b, i).len() ==> #[trigger] live_bytes(b, i)[k] < 128,
    decreases b.len() + 2 - i,
{
    if i < b.len() {
        lemma_piece_advances(b, i);
        let e = piece_end(b, i);
        lemma_small_bytes(b, e);
        let (k, after) = (piece_kept(b, i), live_bytes(b, e));
        assert forall|q: int| 0 <= q < (k + after).len() implies #[trigger] (k + after)[q] < 128 by {
            if q >= k.len() {
                assert((k + after)[q] == after[q - k.len()]);
            } else {
                assert(k[q] < 128);
            }
        }
    }
}

} // verus!
