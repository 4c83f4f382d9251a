//! Re-wrapping selected text to a column width: the joined text has its
//! continuation-line prefixes stripped back to spaces, and the filling
//! itself is delegated to the textwrap crate.

use vstd::prelude::*;

verus! {

/// What `textwrap::fill` returns for a given text, width and
/// subsequent-indent: a pure function of those three values.
pub uninterp spec fn wrap_of(text: Seq<char>, width: int, indent: Seq<char>) -> Seq<char>;

/// Relies on `textwrap::fill` with `Options::new(width).subsequent_indent(indent)`:
/// the filled text depends only on the text, the width and the indent.
#[verifier::external_body]
fn fill_wrapped(text: &str, width: usize, indent: &str) -> (r: String)
    ensures
        r@ == wrap_of(text@, width as int, indent@),
{
    textwrap::fill(text, textwrap::Options::new(width).subsequent_indent(indent))
}

/// The text with every occurrence of a newline followed by the prefix
/// collapsed to a single space, scanning left to right.
pub open spec fn strip_joined_spec(s: Seq<char>, pat: Seq<char>) -> Seq<char>
    decreases s.len(),
{
    if s.len() == 0 {
        Seq::<char>::empty()
    } else if pat.len() > 0 && s.len() >= pat.len() && s.take(pat.len() as int) == pat {
        seq![' '] + strip_joined_spec(s.skip(pat.len() as int), pat)
    } else {
        seq![s[0]] + strip_joined_spec(s.skip(1), pat)
    }
}

/// Collapse `pat` occurrences in `s` to single spaces.
fn strip_joined(s: &Vec<char>, pat: &Vec<char>) -> (r: Vec<char>)
    ensures
        r@ == strip_joined_spec(s@, pat@),
{
    let mut out: Vec<char> = Vec::new();
    let n = s.len();
    let m = pat.len();
    let mut i: usize = 0;
    proof {
        assert(s@.skip(0) =~= s@);
    }
    while i < n
        invariant
            i <= n,
            n == s@.len(),
            m == pat@.len(),
            strip_joined_spec(s@, pat@) == out@ + strip_joined_spec(s@.skip(i as int), pat@),
        decreases n - i,
    {
        let ghost rem = s@.skip(i as int);
        let mut matches_here = m > 0 && n - i >= m;
        let mut j: usize = 0;
        while j < m && matches_here
            invariant
                j <= m,
                m == pat@.len(),
                n == s@.len(),
                i <= n,
                rem == s@.skip(i as int),
                matches_here ==> m > 0 && n - i >= m && (forall|t: int|
                    0 <= t < j ==> rem[t] == pat@[t]),
                !matches_here ==> !(m > 0 && rem.len() >= m && rem.take(m as int) == pat@),
            decreases m - j + (if matches_here {
                1int
            } else {
                0int
            }),
        {
            proof {
                assert(rem[j as int] == s@[i + j]);
            }
            if s[i + j] != pat[j] {
                proof {
                    if m > 0 && rem.len() >= m && rem.take(m as int) == pat@ {
                        assert(rem.take(m as int)[j as int] == rem[j as int]);
                    }
                }
                matches_here = false;
            } else {
                j += 1;
            }
        }
        if matches_here {
            proof {
                assert(rem.take(m as int) =~= pat@);
                assert(rem.skip(m as int) =~= s@.skip(i + m));
                assert(strip_joined_spec(rem, pat@) == seq![' '] + strip_joined_spec(
                    s@.skip(i + m),
                    pat@,
                ));
                assert((out@ + seq![' ']) + strip_joined_spec(s@.skip(i + m), pat@) =~= out@ + (
                seq![' '] + strip_joined_spec(s@.skip(i + m), pat@)));
            }
            out.push(' ');
            i = i + m;
        } else {
            proof {
                assert(rem[0] == s@[i as int]);
                assert(rem.skip(1) =~= s@.skip(i + 1));
                assert(strip_joined_spec(rem, pat@) == seq![s@[i as int]] + strip_joined_spec(
                    s@.skip(i + 1),
                    pat@,
                ));
                assert((out@ + seq![s@[i as int]]) + strip_joined_spec(s@.skip(i + 1), pat@)
                    =~= out@ + (seq![s@[i as int]] + strip_joined_spec(s@.skip(i + 1), pat@)));
            }
            out.push(s[i]);
            i += 1;
        }
        proof {
            assert(out@ + strip_joined_spec(s@.skip(i as int), pat@) == strip_joined_spec(
                s@,
                pat@,
            ));
        }
    }
    proof {
        assert(s@.skip(n as int) =~= Seq::<char>::empty());
        assert(out@ + Seq::<char>::empty() =~= out@);
    }
    out
}

/// Re-wrap joined text to the given width: continuation-line prefixes are
/// collapsed to spaces and the result is filled with the prefix as the
/// subsequent indent. The result's rows are a pure function of the
/// remainder, the prefix and the width.
pub fn reflow(remainder: &Vec<char>, prefix: &Vec<char>, width: usize) -> (r: Vec<char>)
    ensures
        r@ == reflow_spec(remainder@, prefix@, width as int),
{
    let mut pat: Vec<char> = Vec::new();
    pat.push('\n');
    let mut p: usize = 0;
    while p < prefix.len()
        invariant
            p <= prefix@.len(),
            pat@ == seq!['\n'] + prefix@.take(p as int),
        decreases prefix@.len() - p,
    {
        pat.push(prefix[p]);
        proof {
            assert(seq!['\n'] + prefix@.take(p + 1 as int) =~= (seq!['\n'] + prefix@.take(
                p as int,
            )).push(prefix@[p as int]));
        }
        p += 1;
    }
    proof {
        assert(prefix@.take(prefix@.len() as int) =~= prefix@);
    }
    let stripped = strip_joined(remainder, &pat);
    let stripped_str = crate::text_buffer::string_from_chars(&stripped);
    let prefix_str = crate::text_buffer::string_from_chars(prefix);
    let wrapped = fill_wrapped(stripped_str.as_str(), width, prefix_str.as_str());
    let mut out: Vec<char> = Vec::new();
    let n = wrapped.as_str().unicode_len();
    let mut i: usize = 0;
    while i < n
        invariant
            i <= n,
            n == wrapped@.len(),
            out@ == wrapped@.take(i as int),
        decreases n - i,
    {
        out.push(wrapped.as_str().get_char(i));
        proof {
            assert(wrapped@.take(i + 1 as int) =~= wrapped@.take(i as int).push(
                wrapped@[i as int],
            ));
        }
        i += 1;
    }
    proof {
        assert(wrapped@.take(n as int) =~= wrapped@);
    }
    out
}

/// The characters of a string, in order.
pub fn str_chars(s: &str) -> (r: Vec<char>)
    ensures
        r@ == s@,
{
    let mut out: Vec<char> = Vec::new();
    let n = s.unicode_len();
    let mut i: usize = 0;
    while i < n
        invariant
            i <= n,
            n == s@.len(),
            out@ == s@.take(i as int),
        decreases n - i,
    {
        out.push(s.get_char(i));
        proof {
            assert(s@.take(i + 1 as int) =~= s@.take(i as int).push(s@[i as int]));
        }
        i += 1;
    }
    proof {
        assert(s@.take(n as int) =~= s@);
    }
    out
}

/// The characters of the re-wrapped text.
pub open spec fn reflow_spec(remainder: Seq<char>, prefix: Seq<char>, width: int) -> Seq<char> {
    wrap_of(strip_joined_spec(remainder, seq!['\n'] + prefix), width, prefix)
}

} // verus!
