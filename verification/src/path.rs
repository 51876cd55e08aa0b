//! Splitting a `/`-separated path into its components.
//!
//! A path is read the way a Unix filesystem reads it: a leading `/` is the
//! root component, repeated separators and a trailing separator count for
//! nothing, and `.` is skipped everywhere but at the very start of a relative
//! path.

use vstd::prelude::*;
use vstd::std_specs::iter::IteratorSpec;

verus! {

/// Position of the first `/` at or after `from`, or the length of `s`.
pub open spec fn next_sep(s: Seq<char>, from: int) -> int
    decreases s.len() - from,
{
    if from < 0 || from >= s.len() {
        s.len() as int
    } else if s[from] == '/' {
        from
    } else {
        next_sep(s, from + 1)
    }
}

/// Whether a separator-free run of characters names something: it is
/// neither empty nor the single dot.
pub open spec fn is_named(seg: Seq<char>) -> bool {
    seg.len() > 0 && seg != seq!['.']
}

/// The named segments of `s` that start at or after `from`, in order.
pub open spec fn named_segments(s: Seq<char>, from: int) -> Seq<Seq<char>>
    decreases s.len() - from + 1,
{
    if from < 0 || from >= s.len() {
        Seq::empty()
    } else {
        proof {
            lemma_next_sep_bounds(s, from);
        }
        let end = next_sep(s, from);
        let seg = s.subrange(from, end);
        let rest = named_segments(s, end + 1);
        if is_named(seg) {
            seq![seg] + rest
        } else {
            rest
        }
    }
}

/// `next_sep` stays between `from` and the end, stops at a separator, and
/// passes over none.
pub proof fn lemma_next_sep_bounds(s: Seq<char>, from: int)
    requires
        0 <= from <= s.len(),
    ensures
        from <= next_sep(s, from) <= s.len(),
        next_sep(s, from) < s.len() ==> s[next_sep(s, from)] == '/',
        forall|k: int| from <= k < next_sep(s, from) ==> s[k] != '/',
    decreases s.len() - from,
{
    if from < s.len() && s[from] != '/' {
        lemma_next_sep_bounds(s, from + 1);
    }
}

/// Whether `s` starts at the filesystem root.
pub open spec fn has_root(s: Seq<char>) -> bool {
    s.len() > 0 && s[0] == '/'
}

/// Whether `s` is a relative path that starts with the current directory:
/// a dot that ends the path or is followed by a separator.
pub open spec fn starts_with_cur_dir(s: Seq<char>) -> bool {
    s.len() > 0 && s[0] == '.' && (s.len() == 1 || s[1] == '/')
}

/// The components of the path `s`: `/` for the root if the path is
/// absolute, `.` if it starts with the current directory, then every named
/// segment.
pub open spec fn components_of(s: Seq<char>) -> Seq<Seq<char>> {
    let head = if has_root(s) {
        seq![seq!['/']]
    } else if starts_with_cur_dir(s) {
        seq![seq!['.']]
    } else {
        Seq::empty()
    };
    head + named_segments(s, 0)
}

/// The text of each string of `v`.
pub open spec fn texts(v: Seq<String>) -> Seq<Seq<char>> {
    Seq::new(v.len(), |i: int| v[i]@)
}

/// The characters of `s`, in order.
fn chars_of(s: &str) -> (out: Vec<char>)
    ensures
        out@ == s@,
{
    let mut out: Vec<char> = Vec::new();
    let mut it = s.chars();
    proof {
        vstd::string::axiom_spec_iter(s);
    }
    loop
        invariant
            it.obeys_prophetic_iter_laws(),
            out@ + it.remaining() == s@,
            it.decrease() is Some,
        decreases it.decrease()->0,
    {
        let ghost before = it;
        let next = it.next();
        proof {
            vstd::string::next_postcondition(&before, &it, next);
        }
        match next {
            Some(c) => {
                out.push(c);
                assert(out@ + it.remaining() == s@) by {
                    assert(before.remaining() == seq![c] + it.remaining());
                }
            },
            None => {
                assert(it.remaining().len() == 0);
                assert(out@ == s@);
                return out;
            },
        }
    }
}

/// Splits `path` into its components.
///
/// `"/var//log/./x"` gives `["/", "var", "log", "x"]`, `"./a/b/"` gives
/// `[".", "a", "b"]`, and the empty path gives nothing.
pub fn components(path: &str) -> (out: Vec<String>)
    ensures
        texts(out@) == components_of(path@),
{
    let chars = chars_of(path);
    let n = chars.len();
    let ghost s = path@;
    let mut out: Vec<String> = Vec::new();
    if n > 0 && chars[0] == '/' {
        proof {
            reveal_strlit("/");
        }
        out.push("/".to_owned());
        assert(out@[0]@ == seq!['/']);
        assert(texts(out@) == seq![seq!['/']]);
    } else if n > 0 && chars[0] == '.' && (n == 1 || chars[1] == '/') {
        proof {
            reveal_strlit(".");
        }
        out.push(".".to_owned());
        assert(out@[0]@ == seq!['.']);
        assert(texts(out@) == seq![seq!['.']]);
    } else {
        assert(texts(out@) == Seq::<Seq<char>>::empty());
    }
    let mut from: usize = 0;
    while from < n
        invariant
            chars@ == s,
            s == path@,
            n == s.len(),
            from <= n,
            components_of(s) == texts(out@) + named_segments(s, from as int),
        decreases n - from,
    {
        let mut end = from;
        while end < n && chars[end] != '/'
            invariant
                chars@ == s,
                n == s.len(),
                from <= end <= n,
                next_sep(s, from as int) == next_sep(s, end as int),
            decreases n - end,
        {
            end += 1;
        }
        let ghost seg = s.subrange(from as int, end as int);
        let ghost before = texts(out@);
        assert(next_sep(s, from as int) == end);
        if end > from && !(end - from == 1 && chars[from] == '.') {
            assert(is_named(seg)) by {
                if seg == seq!['.'] {
                    assert(seg.len() == 1 && seg[0] == '.');
                }
            }
            out.push(path.substring_char(from, end).to_owned());
            assert(texts(out@) == before + seq![seg]);
        } else {
            assert(!is_named(seg)) by {
                if end > from {
                    assert(seg == seq!['.']);
                }
            }
        }
        proof {
            assert(named_segments(s, from as int) == if is_named(seg) {
                seq![seg] + named_segments(s, end + 1)
            } else {
                named_segments(s, end + 1)
            });
            assert(before + (seq![seg] + named_segments(s, end + 1)) == (before + seq![seg])
                + named_segments(s, end + 1));
        }
        if end == n {
            assert(named_segments(s, end + 1) == named_segments(s, n as int));
            from = n;
        } else {
            from = end + 1;
        }
    }
    assert(named_segments(s, from as int) == Seq::<Seq<char>>::empty());
    out
}

/// Whether a component names a file or directory: it is not the root,
/// `.` or `..`.
pub open spec fn names_entry(comp: Seq<char>) -> bool {
    comp != seq!['/'] && comp != seq!['.'] && comp != seq!['.', '.']
}

} // verus!
