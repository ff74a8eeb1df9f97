//! Line-ending normalization and line splitting.
//!
//! All position arithmetic in this crate is done on the normalized form of a
//! text, in which every two-character CR LF terminator has been collapsed to
//! a single LF. A lone CR is deliberately left untouched: only the two-byte
//! sequence is rewritten, and a CR that is not followed by LF is neither a
//! line terminator nor rewritten anywhere in this crate.

use vstd::prelude::*;

verus! {

/// True when a CR LF pair begins at position `i` of `s`.
pub open spec fn crlf_at(s: Seq<char>, i: int) -> bool {
    0 <= i && i + 1 < s.len() && s[i] == '\r' && s[i + 1] == '\n'
}

/// The canonical form of `s`: every CR LF pair collapsed to a single LF,
/// scanning left to right; all other characters, lone CR included, kept.
pub open spec fn norm(s: Seq<char>) -> Seq<char>
    decreases s.len(),
{
    if s.len() == 0 {
        Seq::empty()
    } else if crlf_at(s, 0) {
        seq!['\n'] + norm(s.skip(2))
    } else {
        seq![s[0]] + norm(s.skip(1))
    }
}

/// Dropping the CR of a CR LF pair leaves the normal form unchanged.
proof fn lemma_norm_skip_crlf(s: Seq<char>, i: int)
    requires
        crlf_at(s, i),
    ensures
        norm(s.skip(i)) == norm(s.skip(i + 1)),
{
    let u = s.skip(i);
    let v = s.skip(i + 1);
    assert(u[0] == s[i] && u[1] == s[i + 1]);
    assert(crlf_at(u, 0));
    assert(v[0] == s[i + 1]);
    assert(!crlf_at(v, 0));
    assert(u.skip(2) =~= s.skip(i + 2));
    assert(v.skip(1) =~= s.skip(i + 2));
    assert(norm(u) == seq!['\n'] + norm(s.skip(i + 2)));
    assert(norm(v) == seq![s[i + 1]] + norm(s.skip(i + 2)));
    assert(seq![s[i + 1]] =~= seq!['\n']);
}

/// The normal form splits at any cut that no CR LF pair crosses or precedes.
proof fn lemma_norm_split(s: Seq<char>, k: int)
    requires
        0 <= k <= s.len(),
        forall|j: int| 0 <= j < k ==> !crlf_at(s, j),
    ensures
        norm(s) == s.take(k) + norm(s.skip(k)),
    decreases k,
{
    if k == 0 {
        assert(s.skip(0) =~= s);
        assert(s.take(0) + norm(s) =~= norm(s));
    } else {
        assert(!crlf_at(s, 0));
        assert(s.len() > 0);
        let t = s.skip(1);
        assert forall|j: int| 0 <= j < k - 1 implies !crlf_at(t, j) by {
            assert(t[j] == s[j + 1]);
            if j + 1 < t.len() {
                assert(t[j + 1] == s[j + 2]);
            }
            assert(!crlf_at(s, j + 1));
        }
        lemma_norm_split(t, k - 1);
        assert(norm(s) == seq![s[0]] + norm(t));
        assert(t.take(k - 1) =~= s.subrange(1, k));
        assert(t.skip(k - 1) =~= s.skip(k));
        assert(seq![s[0]] + (s.subrange(1, k) + norm(s.skip(k))) =~= s.take(k) + norm(s.skip(k)));
    }
}

/// Normalize line endings: collapse every CR LF pair to a single LF.
/// Lone CRs and lone LFs are left as they are.
pub fn normalize_eol(s: &str) -> (r: String)
    ensures
        r@ == norm(s@),
{
    let n = s.unicode_len();
    let mut out = String::new();
    let mut seg: usize = 0;
    let mut i: usize = 0;
    proof {
        assert(s@.skip(0) =~= s@);
        assert(out@ + norm(s@) =~= norm(s@));
    }
    while i < n
        invariant
            seg <= i <= n,
            n == s@.len(),
            forall|j: int| seg <= j < i ==> !crlf_at(s@, j),
            norm(s@) == out@ + norm(s@.skip(seg as int)),
        decreases n - i,
    {
        if s.get_char(i) == '\r' && i + 1 < n && s.get_char(i + 1) == '\n' {
            let piece = s.substring_char(seg, i);
            proof {
                let tail = s@.skip(seg as int);
                assert forall|j: int| 0 <= j < i - seg implies !crlf_at(tail, j) by {
                    assert(tail[j] == s@[j + seg]);
                    if j + 1 < tail.len() {
                        assert(tail[j + 1] == s@[j + seg + 1]);
                    }
                    assert(!crlf_at(s@, j + seg));
                }
                lemma_norm_split(tail, i - seg);
                assert(tail.take(i - seg) =~= s@.subrange(seg as int, i as int));
                assert(tail.skip(i - seg) =~= s@.skip(i as int));
                assert(crlf_at(s@, i as int));
                lemma_norm_skip_crlf(s@, i as int);
                assert(norm(s@) == (out@ + piece@) + norm(s@.skip(i + 1)));
            }
            out.append(piece);
            seg = i + 1;
            i = i + 2;
        } else {
            i = i + 1;
        }
    }
    let piece = s.substring_char(seg, n);
    proof {
        let tail = s@.skip(seg as int);
        assert forall|j: int| 0 <= j < n - seg implies !crlf_at(tail, j) by {
            assert(tail[j] == s@[j + seg]);
            if j + 1 < tail.len() {
                assert(tail[j + 1] == s@[j + seg + 1]);
            }
            assert(!crlf_at(s@, j + seg));
        }
        lemma_norm_split(tail, n - seg);
        assert(tail.take(n - seg) =~= s@.subrange(seg as int, n as int));
        assert(tail.skip(n - seg).len() == 0);
        assert(tail.skip(n - seg) =~= Seq::<char>::empty());
        assert(norm(Seq::<char>::empty()) == Seq::<char>::empty());
        assert(norm(s@) == out@ + piece@);
    }
    out.append(piece);
    out
}

/// Position of the first LF in `s`, or `s.len()` when there is none.
pub open spec fn first_nl(s: Seq<char>) -> nat
    decreases s.len(),
{
    if s.len() == 0 {
        0
    } else if s[0] == '\n' {
        0
    } else {
        (1 + first_nl(s.skip(1))) as nat
    }
}

/// What `first_nl` points at: the earliest LF, or the end of the sequence.
proof fn lemma_first_nl(s: Seq<char>)
    ensures
        first_nl(s) <= s.len(),
        first_nl(s) < s.len() ==> s[first_nl(s) as int] == '\n',
        forall|j: int| 0 <= j < first_nl(s) ==> s[j] != '\n',
    decreases s.len(),
{
    if s.len() == 0 || s[0] == '\n' {
    } else {
        lemma_first_nl(s.skip(1));
        let k = first_nl(s);
        assert(k == 1 + first_nl(s.skip(1)));
        assert forall|j: int| 0 <= j < k implies s[j] != '\n' by {
            if j > 0 {
                assert(s.skip(1)[j - 1] == s[j]);
            }
        }
        if k < s.len() {
            assert(s[k as int] == s.skip(1)[k - 1]);
        }
    }
}

/// `first_nl` is pinned down by its characterization.
proof fn lemma_first_nl_is(s: Seq<char>, k: int)
    requires
        0 <= k <= s.len(),
        k < s.len() ==> s[k] == '\n',
        forall|j: int| 0 <= j < k ==> s[j] != '\n',
    ensures
        first_nl(s) == k,
{
    lemma_first_nl(s);
    let f = first_nl(s) as int;
    if f < k {
        assert(s[f] != '\n');
    } else if k < f {
        assert(s[k] != '\n');
    }
}

/// The line decomposition of `s`: the pieces between LF delimiters, the
/// delimiters themselves dropped. A trailing LF does not produce an empty
/// final line; an empty text has no lines.
pub open spec fn split_lines(s: Seq<char>) -> Seq<Seq<char>>
    decreases s.len(),
{
    if s.len() == 0 {
        Seq::empty()
    } else {
        let k = first_nl(s);
        if k < s.len() {
            seq![s.take(k as int)] + split_lines(s.skip(k as int + 1))
        } else {
            seq![s]
        }
    }
}

/// Splitting off the first line at a known earliest LF.
proof fn lemma_split_lines_cons(s: Seq<char>, k: int)
    requires
        0 <= k < s.len(),
        s[k] == '\n',
        forall|j: int| 0 <= j < k ==> s[j] != '\n',
    ensures
        split_lines(s) == seq![s.take(k)] + split_lines(s.skip(k + 1)),
{
    lemma_first_nl_is(s, k);
}

/// A nonempty text without any LF is a single line.
proof fn lemma_split_lines_whole(s: Seq<char>)
    requires
        s.len() > 0,
        forall|j: int| 0 <= j < s.len() ==> s[j] != '\n',
    ensures
        split_lines(s) == seq![s],
{
    lemma_first_nl_is(s, s.len() as int);
}

/// Split a text into its lines after normalizing line endings: the pieces of
/// the normal form between LFs, without the LFs themselves and without a
/// trailing empty line when the text ends with a line terminator.
pub fn to_lines(s: &str) -> (r: Vec<String>)
    ensures
        r.deep_view() == split_lines(norm(s@)),
{
    let t = normalize_eol(s);
    let ts = t.as_str();
    let n = ts.unicode_len();
    let mut out: Vec<String> = Vec::new();
    let mut seg: usize = 0;
    let mut i: usize = 0;
    proof {
        assert(ts@.skip(0) =~= ts@);
        assert(out.deep_view() + split_lines(ts@) =~= split_lines(ts@));
    }
    while i < n
        invariant
            seg <= i <= n,
            n == ts@.len(),
            ts@ == norm(s@),
            forall|j: int| seg <= j < i ==> ts@[j] != '\n',
            split_lines(norm(s@)) == out.deep_view() + split_lines(ts@.skip(seg as int)),
        decreases n - i,
    {
        if ts.get_char(i) == '\n' {
            let piece = String::from_str(ts.substring_char(seg, i));
            proof {
                let tail = ts@.skip(seg as int);
                assert forall|j: int| 0 <= j < i - seg implies tail[j] != '\n' by {
                    assert(tail[j] == ts@[j + seg]);
                }
                assert(tail[i - seg] == ts@[i as int]);
                lemma_split_lines_cons(tail, i - seg);
                assert(tail.take(i - seg) =~= ts@.subrange(seg as int, i as int));
                assert(tail.skip(i - seg + 1) =~= ts@.skip(i + 1));
                assert((out.deep_view() + seq![piece.deep_view()]) + split_lines(ts@.skip(i + 1))
                    =~= out.deep_view() + (seq![piece@] + split_lines(ts@.skip(i + 1))));
            }
            let ghost prev = out.deep_view();
            out.push(piece);
            proof {
                assert(out.deep_view() =~= prev + seq![piece.deep_view()]);
            }
            seg = i + 1;
        }
        i = i + 1;
    }
    if seg < n {
        let piece = String::from_str(ts.substring_char(seg, n));
        proof {
            let tail = ts@.skip(seg as int);
            assert forall|j: int| 0 <= j < tail.len() implies tail[j] != '\n' by {
                assert(tail[j] == ts@[j + seg]);
            }
            lemma_split_lines_whole(tail);
            assert(tail =~= ts@.subrange(seg as int, n as int));
            assert(out.deep_view() + seq![piece.deep_view()] =~= out.deep_view() + seq![piece@]);
        }
        let ghost prev = out.deep_view();
        out.push(piece);
        proof {
            assert(out.deep_view() =~= prev + seq![piece.deep_view()]);
        }
    } else {
        proof {
            assert(ts@.skip(seg as int).len() == 0);
            assert(ts@.skip(seg as int) =~= Seq::<char>::empty());
            assert(split_lines(Seq::<char>::empty()) == Seq::<Seq<char>>::empty());
            assert(out.deep_view() + Seq::<Seq<char>>::empty() =~= out.deep_view());
        }
    }
    out
}

} // verus!
