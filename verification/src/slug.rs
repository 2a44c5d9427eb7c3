//! URL-safe slugs: transliterate to ASCII, lower-case, normalise
//! separators to single hyphens, and trim hyphens at the ends.

use vstd::prelude::*;
use vstd::string::*;
use crate::strutil::lower_char;
use crate::strutil::push_char;

verus! {

/// An ASCII letter or digit.
pub open spec fn is_ascii_alnum(c: char) -> bool {
    (48 <= c as u32 && c as u32 <= 57) || (65 <= c as u32 && c as u32 <= 90) || (97 <= c as u32
        && c as u32 <= 122)
}

/// A character the finished slug may contain: lower-case letter, digit,
/// period or hyphen.
pub open spec fn is_slug_char(c: char) -> bool {
    (48 <= c as u32 && c as u32 <= 57) || (97 <= c as u32 && c as u32 <= 122) || c == '.' || c
        == '-'
}

/// The slug state machine over already-transliterated text.
///
/// `prev_hyphen` records whether the previous kept character was a hyphen
/// (or nothing has been kept yet), so that separator runs collapse and
/// leading hyphens vanish.  Returns the output together with the final
/// state.
pub open spec fn slug_run(s: Seq<char>, prev_hyphen: bool) -> (Seq<char>, bool)
    decreases s.len(),
{
    if s.len() == 0 {
        (Seq::empty(), prev_hyphen)
    } else {
        let c = s[0];
        if is_ascii_alnum(c) {
            let r = slug_run(s.drop_first(), false);
            (seq![lower_char(c)] + r.0, r.1)
        } else if c == '.' {
            let r = slug_run(s.drop_first(), false);
            (seq!['.'] + r.0, r.1)
        } else if c == ' ' || c == '_' || c == '-' {
            if prev_hyphen {
                slug_run(s.drop_first(), true)
            } else {
                let r = slug_run(s.drop_first(), true);
                (seq!['-'] + r.0, r.1)
            }
        } else {
            slug_run(s.drop_first(), prev_hyphen)
        }
    }
}

/// Remove a single trailing hyphen, if there is one.
pub open spec fn trim_trailing_hyphen(t: Seq<char>) -> Seq<char> {
    if t.len() > 0 && t[t.len() - 1] == '-' {
        t.drop_last()
    } else {
        t
    }
}

/// The slug of already-transliterated text.
pub open spec fn slug_seq(s: Seq<char>) -> Seq<char> {
    trim_trailing_hyphen(slug_run(s, true).0)
}

/// The ASCII transliteration of one non-ASCII character, as the
/// transliteration table used by `translit_char` gives it.
pub uninterp spec fn ascii_of(c: char) -> Seq<char>;

/// Transliteration of a whole sequence: ASCII characters stand unchanged,
/// every other character is replaced by its table entry.
pub open spec fn translit_seq(s: Seq<char>) -> Seq<char>
    decreases s.len(),
{
    if s.len() == 0 {
        Seq::empty()
    } else {
        (if (s[0] as u32) < 128 {
            seq![s[0]]
        } else {
            ascii_of(s[0])
        }) + translit_seq(s.drop_first())
    }
}

/// What `slugify` returns.
pub open spec fn slug_spec(s: Seq<char>) -> Seq<char> {
    slug_seq(translit_seq(s))
}

/// Relies on `unidecode::unidecode_char`: the ASCII transliteration of a
/// character, a fixed table lookup that depends on the character alone.
#[verifier::external_body]
fn translit_char(c: char) -> (r: String)
    ensures
        r@ == ascii_of(c),
{
    unidecode::unidecode_char(c).to_owned()
}

pub proof fn lemma_translit_concat(a: Seq<char>, b: Seq<char>)
    ensures
        translit_seq(a + b) =~= translit_seq(a) + translit_seq(b),
    decreases a.len(),
{
    if a.len() == 0 {
        assert(a + b =~= b);
        assert(translit_seq(a) =~= Seq::empty());
    } else {
        assert((a + b).drop_first() =~= a.drop_first() + b);
        lemma_translit_concat(a.drop_first(), b);
    }
}

/// Transliteration leaves all-ASCII text unchanged.
pub proof fn lemma_translit_ascii_id(s: Seq<char>)
    requires
        forall|i: int| 0 <= i < s.len() ==> (s[i] as u32) < 128,
    ensures
        translit_seq(s) =~= s,
    decreases s.len(),
{
    if s.len() > 0 {
        lemma_translit_ascii_id(s.drop_first());
        assert(translit_seq(s) =~= seq![s[0]] + s.drop_first());
        assert(seq![s[0]] + s.drop_first() =~= s);
    }
}

/// Shape of the state machine's output: only slug characters, no two
/// hyphens in a row, no leading hyphen when the state starts as `true`,
/// and the final state is `true` exactly when the output ends with a
/// hyphen or is empty with the state already `true`.
pub proof fn lemma_slug_run_shape(s: Seq<char>, p: bool)
    ensures
        forall|i: int| 0 <= i < slug_run(s, p).0.len() ==> is_slug_char(#[trigger] slug_run(
            s,
            p,
        ).0[i]),
        forall|i: int|
            0 <= i < slug_run(s, p).0.len() - 1 ==> !(#[trigger] slug_run(s, p).0[i] == '-'
                && slug_run(s, p).0[i + 1] == '-'),
        p && slug_run(s, p).0.len() > 0 ==> slug_run(s, p).0[0] != '-',
    decreases s.len(),
{
    if s.len() == 0 {
    } else {
        let c = s[0];
        if is_ascii_alnum(c) {
            lemma_slug_run_shape(s.drop_first(), false);
            let r = slug_run(s.drop_first(), false);
            let o = slug_run(s, p).0;
            assert(o =~= seq![lower_char(c)] + r.0);
            assert(is_slug_char(lower_char(c)));
            assert(lower_char(c) != '-');
            assert(o[0] == lower_char(c));
            assert(forall|i: int| 0 <= i < r.0.len() ==> o[i + 1] == r.0[i]);
        } else if c == '.' {
            lemma_slug_run_shape(s.drop_first(), false);
            let r = slug_run(s.drop_first(), false);
            let o = slug_run(s, p).0;
            assert(o =~= seq!['.'] + r.0);
            assert(o[0] == '.');
            assert(forall|i: int| 0 <= i < r.0.len() ==> o[i + 1] == r.0[i]);
        } else if c == ' ' || c == '_' || c == '-' {
            lemma_slug_run_shape(s.drop_first(), true);
            let r = slug_run(s.drop_first(), true);
            if p {
                assert(slug_run(s, p) == r);
            } else {
                let o = slug_run(s, p).0;
                assert(o =~= seq!['-'] + r.0);
                assert(o[0] == '-');
                assert(forall|i: int| 0 <= i < r.0.len() ==> o[i + 1] == r.0[i]);
                // the recursive run starts in the hyphen state, so it cannot
                // begin with another hyphen
                assert(r.0.len() > 0 ==> r.0[0] != '-');
            }
        } else {
            lemma_slug_run_shape(s.drop_first(), p);
        }
    }
}

/// The state machine leaves already-normalised text unchanged.
pub proof fn lemma_slug_run_fixed(t: Seq<char>, p: bool)
    requires
        forall|i: int| 0 <= i < t.len() ==> is_slug_char(#[trigger] t[i]),
        forall|i: int| 0 <= i < t.len() - 1 ==> !(#[trigger] t[i] == '-' && t[i + 1] == '-'),
        p ==> (t.len() == 0 || t[0] != '-'),
        t.len() > 0 ==> t.last() != '-',
    ensures
        slug_run(t, p).0 =~= t,
    decreases t.len(),
{
    if t.len() == 0 {
    } else {
        let c = t[0];
        let rest = t.drop_first();
        assert(forall|i: int| 0 <= i < rest.len() ==> rest[i] == t[i + 1]);
        if is_ascii_alnum(c) {
            assert(!(65 <= c as u32 && c as u32 <= 90));
            assert(lower_char(c) == c);
            lemma_slug_run_fixed(rest, false);
            assert(seq![c] + rest =~= t);
        } else if c == '.' {
            lemma_slug_run_fixed(rest, false);
            assert(seq![c] + rest =~= t);
        } else if c == '-' {
            assert(!p);
            assert(rest.len() > 0 ==> rest[0] != '-');
            lemma_slug_run_fixed(rest, true);
            assert(seq![c] + rest =~= t);
        } else {
            assert(false);
        }
    }
}

/// A slug never has a hyphen at either end, nor two hyphens in a row,
/// and every character of it is a lower-case letter, digit, period or
/// hyphen.
pub proof fn lemma_slug_hyphens(s: Seq<char>)
    ensures
        forall|i: int| 0 <= i < slug_spec(s).len() ==> is_slug_char(#[trigger] slug_spec(s)[i]),
        slug_spec(s).len() > 0 ==> slug_spec(s)[0] != '-',
        slug_spec(s).len() > 0 ==> slug_spec(s).last() != '-',
        forall|i: int|
            0 <= i < slug_spec(s).len() - 1 ==> !(#[trigger] slug_spec(s)[i] == '-' && slug_spec(
                s,
            )[i + 1] == '-'),
{
    let u = translit_seq(s);
    let o = slug_run(u, true).0;
    lemma_slug_run_shape(u, true);
    if o.len() > 0 && o.last() == '-' {
        assert(slug_spec(s) =~= o.drop_last());
        if o.len() >= 2 {
            assert(o[o.len() - 2] != '-');
        }
    } else {
        assert(slug_spec(s) =~= o);
    }
}

/// Slugs are idempotent: slugifying a slug changes nothing.
pub proof fn lemma_slug_idempotent(s: Seq<char>)
    ensures
        slug_spec(slug_spec(s)) =~= slug_spec(s),
{
    let o = slug_spec(s);
    lemma_slug_hyphens(s);
    assert(forall|i: int| 0 <= i < o.len() ==> (#[trigger] o[i] as u32) < 128) by {
        assert(forall|i: int| 0 <= i < o.len() ==> is_slug_char(#[trigger] o[i]));
    }
    lemma_translit_ascii_id(o);
    lemma_slug_run_fixed(o, true);
    assert(trim_trailing_hyphen(o) =~= o);
}

/// Convert text into a URL-safe slug: transliterate to ASCII, keep
/// letters and digits (lower-cased) and periods, turn spaces,
/// underscores and hyphen runs into single hyphens, drop everything
/// else, and trim hyphens at both ends.
pub fn slugify(s: &str) -> (r: String)
    ensures
        r@ == slug_spec(s@),
{
    let len = s.unicode_len();
    // transliterate
    let mut t = String::new();
    let mut i: usize = 0;
    while i < len
        invariant
            len == s@.len(),
            i <= len,
            t@ =~= translit_seq(s@.take(i as int)),
        decreases len - i,
    {
        let c = s.get_char(i);
        proof {
            assert(s@.take(i as int + 1) =~= s@.take(i as int) + seq![c]);
            lemma_translit_concat(s@.take(i as int), seq![c]);
            assert(seq![c].drop_first() =~= Seq::<char>::empty());
            assert(translit_seq(Seq::<char>::empty()) =~= Seq::<char>::empty());
            assert(translit_seq(seq![c]) =~= (if (c as u32) < 128 {
                seq![c]
            } else {
                ascii_of(c)
            }));
        }
        if (c as u32) < 128 {
            push_char(&mut t, c);
        } else {
            let piece = translit_char(c);
            t.append(piece.as_str());
        }
        i = i + 1;
    }
    proof {
        assert(s@.take(len as int) =~= s@);
    }
    // run the state machine
    let tlen = t.unicode_len();
    let mut out = String::new();
    let mut prev_hyphen = true;
    let mut j: usize = 0;
    proof {
        assert(t@.skip(0) =~= t@);
    }
    while j < tlen
        invariant
            tlen == t@.len(),
            j <= tlen,
            t@ == translit_seq(s@),
            slug_run(t@, true).0 =~= out@ + slug_run(t@.skip(j as int), prev_hyphen).0,
        decreases tlen - j,
    {
        let c = t.as_str().get_char(j);
        proof {
            assert(t@.skip(j as int)[0] == t@[j as int]);
            assert(t@.skip(j as int).drop_first() =~= t@.skip(j as int + 1));
        }
        if ((48 <= c as u32 && c as u32 <= 57) || (65 <= c as u32 && c as u32 <= 90) || (97 <= c
            as u32 && c as u32 <= 122)) {
            let lc = crate::strutil::lower_char_exec(c);
            push_char(&mut out, lc);
            prev_hyphen = false;
        } else if c == '.' {
            push_char(&mut out, '.');
            prev_hyphen = false;
        } else if c == ' ' || c == '_' || c == '-' {
            if !prev_hyphen {
                push_char(&mut out, '-');
                prev_hyphen = true;
            }
        } else {
            // dropped
        }
        j = j + 1;
    }
    proof {
        assert(t@.skip(tlen as int).len() == 0);
        assert(slug_run(t@, true).0 =~= out@);
    }
    // trim a trailing hyphen
    let olen = out.as_str().unicode_len();
    if olen > 0 && out.as_str().get_char(olen - 1) == '-' {
        let trimmed = out.as_str().substring_char(0, olen - 1).to_owned();
        proof {
            assert(trimmed@ =~= trim_trailing_hyphen(out@));
        }
        trimmed
    } else {
        proof {
            assert(trim_trailing_hyphen(out@) =~= out@);
        }
        out
    }
}

/// The first index at or after `i` holding `/`, or the length if none.
pub open spec fn next_slash(s: Seq<char>, i: int) -> int
    decreases s.len() - i,
{
    if i < 0 || i >= s.len() {
        s.len() as int
    } else if s[i] == '/' {
        i
    } else {
        next_slash(s, i + 1)
    }
}

pub proof fn lemma_next_slash_range(s: Seq<char>, i: int)
    requires
        0 <= i <= s.len(),
    ensures
        i <= next_slash(s, i) <= s.len(),
        next_slash(s, i) < s.len() ==> s[next_slash(s, i)] == '/',
        forall|k: int| i <= k < next_slash(s, i) ==> s[k] != '/',
    decreases s.len() - i,
{
    if i < s.len() && s[i] != '/' {
        lemma_next_slash_range(s, i + 1);
    }
}

/// What `slugify_path` returns, from position `i` on: each
/// slash-separated segment slugified, the separators kept.
pub open spec fn slug_path_from(s: Seq<char>, i: int) -> Seq<char>
    decreases s.len() - i
    via slug_path_from_decreases
{
    if i < 0 || i > s.len() {
        Seq::empty()
    } else {
        let e = next_slash(s, i);
        if e < s.len() {
            slug_spec(s.subrange(i, e)) + seq!['/'] + slug_path_from(s, e + 1)
        } else {
            slug_spec(s.subrange(i, s.len() as int))
        }
    }
}

#[via_fn]
proof fn slug_path_from_decreases(s: Seq<char>, i: int) {
    if 0 <= i <= s.len() {
        lemma_next_slash_range(s, i);
    }
}

pub open spec fn slug_path_spec(s: Seq<char>) -> Seq<char> {
    slug_path_from(s, 0)
}

/// Slugify each `/`-separated segment of a path, preserving the
/// segment boundaries.
pub fn slugify_path(path: &str) -> (r: String)
    ensures
        r@ == slug_path_spec(path@),
{
    let len = path.unicode_len();
    let mut out = String::new();
    let mut i: usize = 0;
    loop
        invariant
            len == path@.len(),
            i <= len,
            slug_path_spec(path@) =~= out@ + slug_path_from(path@, i as int),
        decreases len - i,
    {
        // find the end of the current segment
        let mut e: usize = i;
        while e < len && path.get_char(e) != '/'
            invariant
                len == path@.len(),
                i <= e <= len,
                forall|k: int| i <= k < e ==> path@[k] != '/',
            decreases len - e,
        {
            e = e + 1;
        }
        proof {
            lemma_next_slash_range(path@, i as int);
            assert(next_slash(path@, i as int) == e) by {
                if e < len {
                    assert(path@[e as int] == '/');
                }
                let n = next_slash(path@, i as int);
                if n < e {
                    assert(path@[n] != '/');
                }
                if e < n {
                    assert(path@[e as int] != '/');
                }
            }
        }
        let seg = path.substring_char(i, e);
        let sl = slugify(seg);
        out.append(sl.as_str());
        if e == len {
            proof {
                assert(slug_path_from(path@, i as int) =~= slug_spec(
                    path@.subrange(i as int, len as int),
                ));
            }
            return out;
        }
        push_char(&mut out, '/');
        proof {
            assert(slug_path_from(path@, i as int) =~= slug_spec(path@.subrange(i as int, e as int))
                + seq!['/'] + slug_path_from(path@, e as int + 1));
        }
        i = e + 1;
    }
}

} // verus!
