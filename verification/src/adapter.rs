//! Format adapters: bytes in, display lines out.
//!
//! Every adapter decodes the raw bytes of a file (lossily where they are not
//! valid UTF-8), normalizes line endings and splits the result into lines.
//! The dispatch from a file extension to an adapter is a fixed registry in
//! the order `[TxtAdapter, MdAdapter]`, matched case-insensitively, with the
//! first entry as the default for unclaimed extensions.

use vstd::prelude::*;
use vstd::utf8::decode_utf8;
use vstd::utf8::valid_utf8;

use crate::text::norm;
use crate::text::split_lines;
use crate::text::to_lines;

verus! {

/// What `String::from_utf8_lossy` makes of a byte sequence: a function of
/// the bytes alone.
pub uninterp spec fn lossy_decode(bytes: Seq<u8>) -> Seq<char>;

/// Relies on `String::from_utf8_lossy`: the result depends on the bytes
/// alone, and valid UTF-8 bytes decode exactly to their character sequence.
#[verifier::external_body]
fn utf8_lossy(bytes: &[u8]) -> (r: String)
    ensures
        r@ == lossy_decode(bytes@),
        valid_utf8(bytes@) ==> r@ == decode_utf8(bytes@),
{
    String::from_utf8_lossy(bytes).into_owned()
}

/// A format adapter: turns the raw bytes of a document into displayable
/// lines, never mutating the source.
pub trait TextAdapter: Send + Sync {
    /// The adapter's short name, as a character sequence.
    spec fn spec_name(&self) -> Seq<char>;

    /// The extensions the adapter claims, as character sequences.
    spec fn spec_extensions(&self) -> Seq<Seq<char>>;

    /// Short name of the adapter.
    fn name(&self) -> (r: &'static str)
        ensures
            r@ == self.spec_name(),
    ;

    /// File extensions this adapter claims.
    fn extensions(&self) -> (r: &'static [&'static str])
        ensures
            r@.map_values(|e: &'static str| e@) == self.spec_extensions(),
    ;

    /// Decode `bytes` (lossily where invalid), normalize line endings and
    /// split into lines.
    fn render_lines(&self, bytes: &[u8]) -> (r: Vec<String>)
        ensures
            r.deep_view() == split_lines(norm(lossy_decode(bytes@))),
    ;
}

/// Adapter for plain-text files.
pub struct TxtAdapter;

impl TextAdapter for TxtAdapter {
    open spec fn spec_name(&self) -> Seq<char> {
        "txt"@
    }

    open spec fn spec_extensions(&self) -> Seq<Seq<char>> {
        seq!["txt"@, "text"@, "log"@]
    }

    fn name(&self) -> (r: &'static str) {
        "txt"
    }

    fn extensions(&self) -> (r: &'static [&'static str]) {
        let r: &'static [&'static str] = &["txt", "text", "log"];
        proof {
            assert(r@.map_values(|e: &'static str| e@) =~= self.spec_extensions());
        }
        r
    }

    fn render_lines(&self, bytes: &[u8]) -> (r: Vec<String>) {
        let s = utf8_lossy(bytes);
        to_lines(s.as_str())
    }
}

/// Adapter for Markdown files. For now Markdown is displayed as plain text:
/// the same decoding and line splitting, under its own name and extensions.
pub struct MdAdapter;

impl TextAdapter for MdAdapter {
    open spec fn spec_name(&self) -> Seq<char> {
        "md"@
    }

    open spec fn spec_extensions(&self) -> Seq<Seq<char>> {
        seq!["md"@, "markdown"@]
    }

    fn name(&self) -> (r: &'static str) {
        "md"
    }

    fn extensions(&self) -> (r: &'static [&'static str]) {
        let r: &'static [&'static str] = &["md", "markdown"];
        proof {
            assert(r@.map_values(|e: &'static str| e@) =~= self.spec_extensions());
        }
        r
    }

    fn render_lines(&self, bytes: &[u8]) -> (r: Vec<String>) {
        let s = utf8_lossy(bytes);
        to_lines(s.as_str())
    }
}

/// The character code of `c` with an ASCII capital letter folded to its
/// small form.
pub open spec fn fold_code(c: char) -> u32 {
    if 65 <= c as u32 && c as u32 <= 90 {
        (c as u32 + 32) as u32
    } else {
        c as u32
    }
}

/// `a` and `b` are equal up to ASCII case.
pub open spec fn eq_ignore_ascii(a: Seq<char>, b: Seq<char>) -> bool {
    a.len() == b.len() && (forall|i: int| 0 <= i < a.len() ==> fold_code(a[i]) == fold_code(b[i]))
}

/// Compare two strings for equality up to ASCII case.
fn eq_fold(a: &str, b: &str) -> (r: bool)
    ensures
        r == eq_ignore_ascii(a@, b@),
{
    let alen = a.unicode_len();
    let blen = b.unicode_len();
    if alen != blen {
        return false;
    }
    let mut i: usize = 0;
    while i < alen
        invariant
            0 <= i <= alen,
            alen == a@.len(),
            alen == b@.len(),
            forall|k: int| 0 <= k < i ==> fold_code(a@[k]) == fold_code(b@[k]),
        decreases alen - i,
    {
        let ca = a.get_char(i);
        let cb = b.get_char(i);
        let fa: u32 = if 65 <= ca as u32 && ca as u32 <= 90 {
            ca as u32 + 32
        } else {
            ca as u32
        };
        let fb: u32 = if 65 <= cb as u32 && cb as u32 <= 90 {
            cb as u32 + 32
        } else {
            cb as u32
        };
        if fa != fb {
            return false;
        }
        i = i + 1;
    }
    true
}

/// The registry slot an extension selects: the Markdown adapter for its two
/// extensions, the plain-text adapter for everything else.
pub open spec fn spec_pick(ext: Seq<char>) -> int {
    if eq_ignore_ascii(ext, "md"@) || eq_ignore_ascii(ext, "markdown"@) {
        1
    } else {
        0
    }
}

/// Index of the adapter claiming `ext` in the fixed registry order
/// `[TxtAdapter, MdAdapter]`, matched case-insensitively. An extension no
/// adapter claims falls back to the plain-text adapter at index zero.
pub fn pick_adapter(ext: &str) -> (i: usize)
    ensures
        i as int == spec_pick(ext@),
        i < 2,
{
    if eq_fold(ext, "md") || eq_fold(ext, "markdown") {
        1
    } else {
        0
    }
}

} // verus!
