//! Context-bearing anchors: self-contained pointers to a span of text that
//! can be located again after the surrounding document has been edited.
//!
//! An anchor records the selected text (`target`) together with up to
//! [`CONTEXT`] characters of surrounding text on each side. Resolution scans
//! the (normalized) document for successive non-overlapping occurrences of
//! `target`, returns the first occurrence whose surrounding text matches the
//! recorded context exactly, and otherwise falls back to the first occurrence
//! found, if any.
//!
//! All positions count characters of the normalized text (see [`crate::text`]),
//! so a clamped position can never split a character of the underlying buffer.

use vstd::prelude::*;

use crate::range::Range;
use crate::text::norm;
use crate::text::normalize_eol;

verus! {

/// Number of characters of context captured on each side of the target at
/// creation time. Only a bound on what is recorded, never on what is compared:
/// near a buffer edge less than this may be captured.
pub const CONTEXT: usize = 48;

/// A resilient pointer to a span of text. Immutable after creation, owns its
/// three fragments, and holds no reference to the document it came from.
#[derive(Debug, Clone, PartialEq, Eq)]
pub struct Anchor {
    /// Text immediately preceding the selection, at most [`CONTEXT`] characters.
    pub before: String,
    /// The selected text itself, exact and unbounded.
    pub target: String,
    /// Text immediately following the selection, at most [`CONTEXT`] characters.
    pub after: String,
}

/// The mathematical content of an [`Anchor`]: its three fragments as
/// character sequences.
#[verifier::ext_equal]
pub ghost struct AnchorView {
    pub before: Seq<char>,
    pub target: Seq<char>,
    pub after: Seq<char>,
}

impl View for Anchor {
    type V = AnchorView;

    open spec fn view(&self) -> AnchorView {
        AnchorView { before: self.before@, target: self.target@, after: self.after@ }
    }
}

/// The anchor captured from text `t` and requested range `r`: `r` is clamped
/// to the normalized text, inverted pairs are repaired to an empty range, and
/// the three fragments are cut out around the clamped span.
pub open spec fn spec_create(t: Seq<char>, r: Range) -> AnchorView {
    let n = norm(t);
    let s = if r.start <= n.len() {
        r.start as int
    } else {
        n.len() as int
    };
    let e0 = if r.end <= n.len() {
        r.end as int
    } else {
        n.len() as int
    };
    let e = if e0 >= s {
        e0
    } else {
        s
    };
    let b0 = if s >= CONTEXT as int {
        s - CONTEXT as int
    } else {
        0
    };
    let a1 = if e + CONTEXT as int <= n.len() {
        e + CONTEXT as int
    } else {
        n.len() as int
    };
    AnchorView { before: n.subrange(b0, s), target: n.subrange(s, e), after: n.subrange(e, a1) }
}

/// `pat` occurs in `t` at position `i`.
pub open spec fn occurs_at(t: Seq<char>, pat: Seq<char>, i: int) -> bool {
    0 <= i && i + pat.len() <= t.len() && t.subrange(i, i + pat.len()) == pat
}

/// The earliest occurrence of a nonempty `pat` in `t` at or after `from`;
/// `None` when there is none (or when `pat` is empty, which no caller asks
/// about).
pub open spec fn find_from(t: Seq<char>, pat: Seq<char>, from: int) -> Option<int>
    decreases t.len() - from,
{
    if pat.len() == 0 || from < 0 || from + pat.len() > t.len() {
        None
    } else if occurs_at(t, pat, from) {
        Some(from)
    } else {
        find_from(t, pat, from + 1)
    }
}

/// What `find_from` returns: the least occurrence position at or after
/// `from`, or a guarantee that there is none.
pub proof fn lemma_find_from(t: Seq<char>, pat: Seq<char>, from: int)
    requires
        pat.len() > 0,
        0 <= from,
    ensures
        match find_from(t, pat, from) {
            Some(p) => from <= p && occurs_at(t, pat, p) && (forall|q: int|
                from <= q < p ==> !occurs_at(t, pat, q)),
            None => forall|q: int| from <= q ==> !occurs_at(t, pat, q),
        },
    decreases t.len() - from,
{
    if from + pat.len() > t.len() {
        assert forall|q: int| from <= q implies !occurs_at(t, pat, q) by {}
    } else if occurs_at(t, pat, from) {
    } else {
        lemma_find_from(t, pat, from + 1);
    }
}

/// The recorded context matches around an occurrence of the target at `i`:
/// the `before` fragment ends exactly at `i` and the `after` fragment begins
/// exactly at the end of the occurrence, both inside the text.
pub open spec fn ctx_match(t: Seq<char>, a: AnchorView, i: int) -> bool {
    &&& occurs_at(t, a.target, i)
    &&& a.before.len() <= i
    &&& t.subrange(i - a.before.len(), i) == a.before
    &&& i + a.target.len() + a.after.len() <= t.len()
    &&& t.subrange(i + a.target.len(), i + a.target.len() + a.after.len()) == a.after
}

/// The position returned by the scan phase of resolution: walk successive,
/// non-overlapping occurrences of the target from `from` on, and keep the
/// first one whose whole context matches.
pub open spec fn scan_from(t: Seq<char>, a: AnchorView, from: int) -> Option<int>
    decreases t.len() - from,
{
    if a.target.len() == 0 || from < 0 || from + a.target.len() > t.len() {
        None
    } else if occurs_at(t, a.target, from) {
        if ctx_match(t, a, from) {
            Some(from)
        } else {
            scan_from(t, a, from + a.target.len())
        }
    } else {
        scan_from(t, a, from + 1)
    }
}

/// The scan advances occurrence by occurrence: from any position it behaves
/// as a jump to the next occurrence, a context check there, and on failure a
/// restart just past that occurrence.
pub proof fn lemma_scan_step(t: Seq<char>, a: AnchorView, from: int)
    requires
        a.target.len() > 0,
        0 <= from,
    ensures
        scan_from(t, a, from) == match find_from(t, a.target, from) {
            None => None::<int>,
            Some(p) => if ctx_match(t, a, p) {
                Some(p)
            } else {
                scan_from(t, a, p + a.target.len())
            },
        },
    decreases t.len() - from,
{
    if from + a.target.len() > t.len() {
    } else if occurs_at(t, a.target, from) {
    } else {
        lemma_scan_step(t, a, from + 1);
    }
}

/// A successful scan lands on a full context match.
pub proof fn lemma_scan_hit(t: Seq<char>, a: AnchorView, from: int)
    requires
        scan_from(t, a, from) is Some,
    ensures
        ctx_match(t, a, scan_from(t, a, from)->Some_0),
    decreases t.len() - from,
{
    if a.target.len() == 0 || from < 0 || from + a.target.len() > t.len() {
    } else if occurs_at(t, a.target, from) {
        if !ctx_match(t, a, from) {
            lemma_scan_hit(t, a, from + a.target.len());
        }
    } else {
        lemma_scan_hit(t, a, from + 1);
    }
}

/// The outcome of resolving anchor `a` against (possibly edited) text `t0`,
/// as a pair of positions into the normalized text: an empty target never
/// resolves; a full-context occurrence found by the non-overlapping scan wins;
/// otherwise the first occurrence of the target is the fallback; and when the
/// target no longer occurs at all, resolution fails.
pub open spec fn spec_resolve(a: AnchorView, t0: Seq<char>) -> Option<(int, int)> {
    let t = norm(t0);
    if a.target.len() == 0 {
        None
    } else {
        match scan_from(t, a, 0) {
            Some(p) => Some((p, p + a.target.len())),
            None => match find_from(t, a.target, 0) {
                Some(f) => Some((f, f + a.target.len())),
                None => None,
            },
        }
    }
}

/// True when the characters of `pat` appear in `t` starting at `i`.
fn match_at(t: &str, pat: &str, i: usize) -> (r: bool)
    requires
        0 <= i as int,
        i as int + pat@.len() <= t@.len(),
    ensures
        r == (t@.subrange(i as int, i as int + pat@.len()) == pat@),
{
    let tlen = t.unicode_len();
    let plen = pat.unicode_len();
    let mut j: usize = 0;
    while j < plen
        invariant
            0 <= j <= plen,
            plen == pat@.len(),
            tlen == t@.len(),
            i as int + plen <= tlen,
            forall|k: int| 0 <= k < j ==> t@[i + k] == pat@[k],
        decreases plen - j,
    {
        if t.get_char(i + j) != pat.get_char(j) {
            proof {
                assert(t@.subrange(i as int, i as int + pat@.len())[j as int] == t@[i + j]);
            }
            return false;
        }
        j = j + 1;
    }
    proof {
        assert(t@.subrange(i as int, i as int + pat@.len()) =~= pat@);
    }
    true
}

/// The earliest occurrence of `pat` in `t` at or after `from`, by a linear
/// scan; `None` when the rest of `t` holds none.
fn find_at_or_after(t: &str, pat: &str, from: usize) -> (r: Option<usize>)
    requires
        pat@.len() > 0,
    ensures
        match r {
            Some(p) => {
                &&& find_from(t@, pat@, from as int) == Some(p as int)
                &&& from <= p
                &&& occurs_at(t@, pat@, p as int)
            },
            None => find_from(t@, pat@, from as int) is None,
        },
{
    let tlen = t.unicode_len();
    let plen = pat.unicode_len();
    if plen > tlen || from > tlen - plen {
        return None;
    }
    let mut i: usize = from;
    while i <= tlen - plen
        invariant
            from <= i,
            i <= tlen - plen + 1,
            plen == pat@.len(),
            tlen == t@.len(),
            plen >= 1,
            plen <= tlen,
            find_from(t@, pat@, from as int) == find_from(t@, pat@, i as int),
        decreases tlen - i,
    {
        if match_at(t, pat, i) {
            proof {
                assert(occurs_at(t@, pat@, i as int));
            }
            return Some(i);
        }
        proof {
            assert(!occurs_at(t@, pat@, i as int));
        }
        i = i + 1;
    }
    proof {
        assert(find_from(t@, pat@, i as int) is None);
    }
    None
}

impl Anchor {
    /// Capture an anchor for the span `range` of `text`. The range is
    /// understood in positions of the normalized form of `text`; positions
    /// out of bounds are clamped and an inverted pair is repaired to an empty
    /// span, so creation never fails.
    pub fn create(text: &str, range: Range) -> (a: Anchor)
        ensures
            a@ == spec_create(text@, range),
            a@.before.len() <= CONTEXT,
            a@.after.len() <= CONTEXT,
    {
        let t = normalize_eol(text);
        let ts = t.as_str();
        let n = ts.unicode_len();
        let start = if range.start <= n {
            range.start
        } else {
            n
        };
        let end0 = if range.end <= n {
            range.end
        } else {
            n
        };
        let end = if end0 >= start {
            end0
        } else {
            start
        };
        let b0 = if start >= CONTEXT {
            start - CONTEXT
        } else {
            0
        };
        let a1 = if n - end >= CONTEXT {
            end + CONTEXT
        } else {
            n
        };
        let before = String::from_str(ts.substring_char(b0, start));
        let target = String::from_str(ts.substring_char(start, end));
        let after = String::from_str(ts.substring_char(end, a1));
        let a = Anchor { before, target, after };
        proof {
            assert(a@ =~= spec_create(text@, range));
        }
        a
    }

    /// Locate this anchor in `text`, a possibly edited version of the
    /// document it was created from. Succeeds exactly when the target is
    /// nonempty and still occurs in the normalized text; the returned range
    /// covers the occurrence the resolution policy picks, and its content is
    /// always exactly the target.
    pub fn resolve(&self, text: &str) -> (r: Option<Range>)
        ensures
            (match r {
                Some(rr) => spec_resolve(self@, text@) == Some((rr.start as int, rr.end as int)),
                None => spec_resolve(self@, text@) is None,
            }),
            (r is Some) <==> (self@.target.len() > 0 && (exists|i: int|
                occurs_at(norm(text@), self@.target, i))),
            (match r {
                Some(rr) => occurs_at(norm(text@), self@.target, rr.start as int) && rr.end
                    == rr.start + self@.target.len(),
                None => true,
            }),
    {
        let tgt = self.target.as_str();
        let tgt_len = tgt.unicode_len();
        if tgt_len == 0 {
            return None;
        }
        let t = normalize_eol(text);
        let ts = t.as_str();
        let t_len = ts.unicode_len();
        let bef = self.before.as_str();
        let bef_len = bef.unicode_len();
        let aft = self.after.as_str();
        let aft_len = aft.unicode_len();
        let mut idx: usize = 0;
        let mut fallback: Option<Range> = None;
        loop
            invariant
                ts@ == norm(text@),
                tgt@ == self@.target,
                bef@ == self@.before,
                aft@ == self@.after,
                tgt_len == tgt@.len(),
                t_len == ts@.len(),
                bef_len == bef@.len(),
                aft_len == aft@.len(),
                tgt_len > 0,
                idx <= t_len,
                scan_from(ts@, self@, 0) == scan_from(ts@, self@, idx as int),
                match fallback {
                    None => idx == 0,
                    Some(fb) => find_from(ts@, self@.target, 0) == Some(fb.start as int)
                        && fb.end as int == fb.start as int + tgt_len as int,
                },
            decreases t_len - idx,
        {
            match find_at_or_after(ts, tgt, idx) {
                None => {
                    proof {
                        lemma_scan_step(ts@, self@, idx as int);
                        lemma_find_from(ts@, tgt@, 0);
                    }
                    return fallback;
                },
                Some(p) => {
                    let end = p + tgt_len;
                    let before_ok = bef_len <= p && match_at(ts, bef, p - bef_len);
                    let after_ok = t_len - end >= aft_len && match_at(ts, aft, end);
                    proof {
                        lemma_scan_step(ts@, self@, idx as int);
                    }
                    if before_ok && after_ok {
                        proof {
                            assert(ctx_match(ts@, self@, p as int));
                            assert(scan_from(ts@, self@, 0) == Some(p as int));
                        }
                        return Some(Range { start: p, end });
                    }
                    proof {
                        assert(!ctx_match(ts@, self@, p as int));
                        assert(scan_from(ts@, self@, 0) == scan_from(
                            ts@,
                            self@,
                            p as int + tgt_len as int,
                        ));
                    }
                    if fallback.is_none() {
                        fallback = Some(Range { start: p, end });
                    }
                    idx = end;
                },
            }
        }
    }
}

/// Resolving an anchor against the unmodified text it was created from
/// succeeds and reproduces the selected span exactly, for any nonempty
/// in-bounds range. (An empty range records an empty target, which by design
/// never resolves.)
pub proof fn lemma_resolve_after_create(t: Seq<char>, r: Range)
    requires
        r.start < r.end,
        r.end <= norm(t).len(),
    ensures
        spec_resolve(spec_create(t, r), t) matches Some(p) && p.1 - p.0 == r.end - r.start
            && norm(t).subrange(p.0, p.1) == norm(t).subrange(r.start as int, r.end as int),
{
    let n = norm(t);
    let a = spec_create(t, r);
    let s = r.start as int;
    let e = r.end as int;
    assert(a.target == n.subrange(s, e));
    assert(a.target.len() == e - s);
    assert(n.subrange(s, s + a.target.len()) == a.target);
    assert(occurs_at(n, a.target, s));
    lemma_find_from(n, a.target, 0);
    if find_from(n, a.target, 0) is None {
        assert(!occurs_at(n, a.target, s));
        assert(false);
    }
    let f = find_from(n, a.target, 0)->Some_0;
    match scan_from(n, a, 0) {
        Some(p) => {
            lemma_scan_hit(n, a, 0);
            assert(occurs_at(n, a.target, p));
            assert(n.subrange(p, p + a.target.len()) == a.target);
        },
        None => {
            assert(occurs_at(n, a.target, f));
            assert(n.subrange(f, f + a.target.len()) == a.target);
        },
    }
}

/// Creation clamps instead of failing: whatever the requested range, the
/// recorded target is a well-formed span of the normalized text.
pub proof fn lemma_create_clamps(t: Seq<char>, r: Range)
    ensures
        exists|s: int, e: int|
            0 <= s <= e <= norm(t).len() && spec_create(t, r).target == norm(t).subrange(s, e),
{
    let n = norm(t);
    let s = if r.start <= n.len() {
        r.start as int
    } else {
        n.len() as int
    };
    let e0 = if r.end <= n.len() {
        r.end as int
    } else {
        n.len() as int
    };
    let e = if e0 >= s {
        e0
    } else {
        s
    };
    assert(0 <= s <= e <= n.len() && spec_create(t, r).target == n.subrange(s, e));
}

/// The context window is a hard bound on what creation records on each side.
pub proof fn lemma_context_window_bound(t: Seq<char>, r: Range)
    ensures
        spec_create(t, r).before.len() <= CONTEXT,
        spec_create(t, r).after.len() <= CONTEXT,
{
}

/// An anchor whose target is empty resolves against nothing.
pub proof fn lemma_empty_target_never_resolves(a: AnchorView, t: Seq<char>)
    requires
        a.target.len() == 0,
    ensures
        spec_resolve(a, t) is None,
{
}

} // verus!
