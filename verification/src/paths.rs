//! The path codec: keys are slash-delimited strings; resolution splits a
//! path into its non-empty segments and truncates each segment
//! independently to an optional maximum length.
//!
//! Truncation counts characters, so a segment is never cut inside a
//! multi-byte character; on ASCII names this agrees with byte-boundary
//! truncation.

use vstd::prelude::*;
use vstd::string::*;

verus! {

/// The name truncated to at most `max` characters, or unchanged when no
/// maximum is set.
pub open spec fn truncated(name: Seq<char>, max: Option<usize>) -> Seq<char> {
    match max {
        Option::None => name,
        Option::Some(m) => if name.len() <= m {
            name
        } else {
            name.take(m as int)
        },
    }
}

/// The non-empty `/`-separated segments of `s` from position `i` on,
/// given that `cur` is the partial segment read so far.
pub open spec fn split_from(s: Seq<char>, i: int, cur: Seq<char>) -> Seq<Seq<char>>
    decreases s.len() - i,
{
    if i < 0 || i >= s.len() {
        if cur.len() > 0 {
            seq![cur]
        } else {
            Seq::empty()
        }
    } else if s[i] == '/' {
        if cur.len() > 0 {
            seq![cur] + split_from(s, i + 1, Seq::empty())
        } else {
            split_from(s, i + 1, Seq::empty())
        }
    } else {
        split_from(s, i + 1, cur.push(s[i]))
    }
}

/// The non-empty `/`-separated segments of a path string: leading,
/// doubled and trailing separators contribute no segment.
pub open spec fn segments_of(s: Seq<char>) -> Seq<Seq<char>> {
    split_from(s, 0, Seq::empty())
}

/// The segments of a path, each independently truncated.
pub open spec fn resolved(s: Seq<char>, max: Option<usize>) -> Seq<Seq<char>> {
    segments_of(s).map(|i: int, t: Seq<char>| truncated(t, max))
}

/// Whether the raw path ends in a separator (or is empty). Resolution
/// then treats even its final segment as an intermediate directory.
pub open spec fn ends_in_sep(s: Seq<char>) -> bool {
    s.len() == 0 || s[s.len() - 1] == '/'
}

/// Truncate a name to at most `max_file_name` characters; the name is
/// returned unchanged when no maximum is set.
pub fn maxify(name: &str, max_file_name: Option<usize>) -> (r: String)
    ensures
        r@ == truncated(name@, max_file_name),
{
    match max_file_name {
        Option::None => name.to_owned(),
        Option::Some(m) => {
            let n = name.unicode_len();
            if n <= m {
                name.to_owned()
            } else {
                String::from_str(name.substring_char(0, m))
            }
        },
    }
}

/// Split a path string into its non-empty `/`-separated segments.
pub fn split_segments(s: &str) -> (r: Vec<String>)
    ensures
        r.deep_view() == segments_of(s@),
{
    let n = s.unicode_len();
    let mut r: Vec<String> = Vec::new();
    let mut start: usize = 0;
    let mut i: usize = 0;
    proof {
        assert(s@.subrange(0, 0) =~= Seq::<char>::empty());
        assert(r.deep_view() =~= Seq::<Seq<char>>::empty());
        assert(Seq::<Seq<char>>::empty() + segments_of(s@) =~= segments_of(s@));
    }
    while i < n
        invariant
            n == s@.len(),
            start <= i <= n,
            r.deep_view() + split_from(s@, i as int, s@.subrange(start as int, i as int))
                == segments_of(s@),
        decreases n - i,
    {
        let ghost prev = r.deep_view();
        let ghost cur = s@.subrange(start as int, i as int);
        let c = s.get_char(i);
        if c == '/' {
            if i > start {
                r.push(String::from_str(s.substring_char(start, i)));
                proof {
                    assert(r.deep_view() =~= prev + seq![cur]);
                }
            }
            start = i + 1;
        }
        i = i + 1;
        proof {
            if c == '/' {
                assert(s@.subrange(start as int, i as int) =~= Seq::<char>::empty());
            } else {
                assert(s@.subrange(start as int, i as int) =~= cur.push(s@[i - 1]));
            }
        }
    }
    if n > start {
        let ghost prev = r.deep_view();
        let ghost cur = s@.subrange(start as int, n as int);
        r.push(String::from_str(s.substring_char(start, n)));
        proof {
            assert(r.deep_view() =~= prev + seq![cur]);
            assert(r.deep_view() =~= segments_of(s@));
        }
    } else {
        proof {
            assert(s@.subrange(start as int, n as int) =~= Seq::<char>::empty());
            assert(r.deep_view() =~= segments_of(s@));
        }
    }
    r
}

/// Split a path string into segments and truncate each one.
pub fn resolve_segments(path: &str, max_file_name: Option<usize>) -> (r: Vec<String>)
    ensures
        r.deep_view() == resolved(path@, max_file_name),
{
    let raw = split_segments(path);
    let mut r: Vec<String> = Vec::new();
    let mut i: usize = 0;
    while i < raw.len()
        invariant
            i <= raw.len(),
            raw.deep_view() == segments_of(path@),
            r.deep_view().len() == i,
            forall|k: int|
                0 <= k < i ==> r.deep_view()[k] == truncated(raw.deep_view()[k], max_file_name),
        decreases raw.len() - i,
    {
        let ghost prev = r.deep_view();
        let seg = maxify(raw[i].as_str(), max_file_name);
        proof {
            assert(raw.deep_view()[i as int] == raw@[i as int].deep_view());
        }
        r.push(seg);
        proof {
            assert(r.deep_view() =~= prev.push(seg@));
        }
        i = i + 1;
    }
    proof {
        assert(r.deep_view() =~= resolved(path@, max_file_name));
    }
    r
}

/// Whether the path string ends in a separator or is empty.
pub fn path_ends_in_sep(s: &str) -> (r: bool)
    ensures
        r == ends_in_sep(s@),
{
    let n = s.unicode_len();
    if n == 0 {
        true
    } else {
        s.get_char(n - 1) == '/'
    }
}


/// No separator occurs in the string.
pub open spec fn sep_free(s: Seq<char>) -> bool {
    forall|i: int| 0 <= i < s.len() ==> s[i] != '/'
}

/// Splitting from `i` with `cur` read so far, within the left part of a
/// concatenation around a separator, splits the left part and then the
/// right part.
proof fn lemma_split_from_concat(a: Seq<char>, b: Seq<char>, i: int, cur: Seq<char>)
    requires
        0 <= i <= a.len(),
    ensures
        split_from(a + seq!['/'] + b, i, cur) == split_from(a, i, cur) + segments_of(b),
    decreases a.len() - i,
{
    let full = a + seq!['/'] + b;
    assert(full.len() == a.len() + 1 + b.len());
    if i < a.len() {
        assert(full[i] == a[i]);
        lemma_split_from_concat(a, b, i + 1, if a[i] == '/' {
            Seq::empty()
        } else {
            cur.push(a[i])
        });
        if a[i] == '/' && cur.len() > 0 {
            assert((seq![cur] + split_from(a, i + 1, Seq::empty())) + segments_of(b) =~= seq![cur]
                + (split_from(a, i + 1, Seq::empty()) + segments_of(b)));
        }
    } else {
        assert(full[i] == '/');
        lemma_split_from_tail(a, b, 0, Seq::empty());
        if cur.len() > 0 {
            assert((seq![cur] + segments_of(b)) =~= seq![cur] + split_from(b, 0, Seq::empty()));
        }
    }
}

/// Splitting from a position inside the right part of a concatenation
/// around a separator splits the right part alone.
proof fn lemma_split_from_tail(a: Seq<char>, b: Seq<char>, j: int, cur: Seq<char>)
    requires
        0 <= j,
    ensures
        split_from(a + seq!['/'] + b, a.len() + 1 + j, cur) == split_from(b, j, cur),
    decreases b.len() - j,
{
    let full = a + seq!['/'] + b;
    assert(full.len() == a.len() + 1 + b.len());
    if j < b.len() {
        assert(full[a.len() + 1 + j] == b[j]);
        lemma_split_from_tail(a, b, j + 1, if b[j] == '/' {
            Seq::empty()
        } else {
            cur.push(b[j])
        });
    }
}

/// Splitting a concatenation around a separator is the concatenation of
/// the splits.
pub proof fn lemma_segments_concat(a: Seq<char>, b: Seq<char>)
    ensures
        segments_of(a + seq!['/'] + b) == segments_of(a) + segments_of(b),
{
    lemma_split_from_concat(a, b, 0, Seq::empty());
}

/// Resolving a concatenation around a separator resolves each part.
pub proof fn lemma_resolved_concat(a: Seq<char>, b: Seq<char>, max: Option<usize>)
    ensures
        resolved(a + seq!['/'] + b, max) == resolved(a, max) + resolved(b, max),
{
    lemma_segments_concat(a, b);
    assert(resolved(a + seq!['/'] + b, max) =~= resolved(a, max) + resolved(b, max));
}

/// A separator-free string splits into itself alone (or nothing, when
/// empty).
pub proof fn lemma_segments_of_sep_free(s: Seq<char>)
    requires
        sep_free(s),
    ensures
        s.len() > 0 ==> segments_of(s) == seq![s],
        s.len() == 0 ==> segments_of(s) == Seq::<Seq<char>>::empty(),
{
    lemma_split_from_sep_free(s, 0, Seq::empty());
    if s.len() > 0 {
        assert(Seq::<char>::empty() + s.skip(0) =~= s);
        assert(segments_of(s) =~= seq![s]);
    }
}

/// Splitting a separator-free remainder accumulates it into one segment.
proof fn lemma_split_from_sep_free(s: Seq<char>, i: int, cur: Seq<char>)
    requires
        sep_free(s),
        0 <= i <= s.len(),
    ensures
        split_from(s, i, cur) == (if cur.len() + s.len() - i > 0 {
            seq![cur + s.skip(i)]
        } else {
            Seq::<Seq<char>>::empty()
        }),
    decreases s.len() - i,
{
    if i < s.len() {
        lemma_split_from_sep_free(s, i + 1, cur.push(s[i]));
        assert(cur.push(s[i]) + s.skip(i + 1) =~= cur + s.skip(i));
    } else {
        assert(cur + s.skip(i) =~= cur);
    }
}

} // verus!
