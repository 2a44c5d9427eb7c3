//! The content index: one walk over the document tree's files yields
//! every page and static asset, with lookup buckets by name, by tag and
//! by containing folder, each bucket sorted newest-first.
//!
//! Paths are `/`-separated strings relative to no particular root; the
//! index keeps the content root it was built against.

use vstd::prelude::*;
use vstd::string::*;
use vstd::seq_lib::*;
use crate::strutil::str_eq;
use crate::strutil::str_lex_le;
use crate::strutil::lex_le;
use crate::strutil::lemma_lex_le_total;
use crate::strutil::lemma_lex_le_trans;
use crate::strutil::push_char;
use crate::frontmatter::FrontMatter;
use crate::frontmatter::GFrontMatter;
use crate::frontmatter::ParseError;

verus! {

// ---------------------------------------------------------------------
// path arithmetic over `/`-separated strings
// ---------------------------------------------------------------------
/// The last index at or before `i` holding `/`, or `-1` if none.
pub open spec fn last_slash_at(s: Seq<char>, i: int) -> int
    decreases i + 1,
{
    if i < 0 || i >= s.len() {
        -1
    } else if s[i] == '/' {
        i
    } else {
        last_slash_at(s, i - 1)
    }
}

/// The last `/` of a path, or `-1`.
pub open spec fn last_slash(s: Seq<char>) -> int {
    last_slash_at(s, s.len() - 1)
}

/// The last `.` of a file name at or before `i`, or `-1`.
pub open spec fn last_dot_at(s: Seq<char>, i: int) -> int
    decreases i + 1,
{
    if i < 0 || i >= s.len() {
        -1
    } else if s[i] == '.' {
        i
    } else {
        last_dot_at(s, i - 1)
    }
}

/// The file-name part of a path: everything after the last `/`.
pub open spec fn file_name_spec(p: Seq<char>) -> Seq<char> {
    p.skip(last_slash(p) + 1)
}

/// The directory part of a path: everything before the last `/`, empty
/// when there is none.
pub open spec fn parent_spec(p: Seq<char>) -> Seq<char> {
    if last_slash(p) < 0 {
        Seq::empty()
    } else {
        p.take(last_slash(p))
    }
}

/// The stem of a file name: what stands before the last `.`, the whole
/// name when the name has no `.` past its first character.
pub open spec fn stem_of(seg: Seq<char>) -> Seq<char> {
    let d = last_dot_at(seg, seg.len() - 1);
    if d <= 0 {
        seg
    } else {
        seg.take(d)
    }
}

/// The extension of a file name: what stands after the last `.`, absent
/// when the name has no `.` past its first character.
pub open spec fn ext_of(seg: Seq<char>) -> Option<Seq<char>> {
    let d = last_dot_at(seg, seg.len() - 1);
    if d <= 0 {
        None
    } else {
        Some(seg.skip(d + 1))
    }
}

/// A path relative to `base`: strip `base` and its separator off the
/// front, or nothing when `path` does not lie under `base`.
pub open spec fn strip_prefix_spec(base: Seq<char>, path: Seq<char>) -> Option<Seq<char>> {
    if base.len() == 0 {
        Some(path)
    } else if path == base {
        Some(Seq::empty())
    } else if path.len() > base.len() && path.take(base.len() as int) == base && path[base.len() as int]
        == '/' {
        Some(path.skip(base.len() as int + 1))
    } else {
        None
    }
}

/// Re-root `path` from under `in_path` to under `out_path`.
pub open spec fn translate_spec(in_path: Seq<char>, out_path: Seq<char>, path: Seq<char>) -> Option<
    Seq<char>,
> {
    match strip_prefix_spec(in_path, path) {
        Some(rel) => if rel.len() == 0 {
            Some(out_path)
        } else {
            Some(out_path + seq!['/'] + rel)
        },
        None => None,
    }
}

/// The same path with its extension replaced by `.html`.
pub open spec fn with_html_ext(p: Seq<char>) -> Seq<char> {
    p.take(last_slash(p) + 1) + stem_of(file_name_spec(p)) + seq!['.', 'h', 't', 'm', 'l']
}

pub proof fn lemma_last_slash_at_range(s: Seq<char>, i: int)
    requires
        -1 <= i < s.len(),
    ensures
        -1 <= last_slash_at(s, i) <= i,
        last_slash_at(s, i) >= 0 ==> s[last_slash_at(s, i)] == '/',
        forall|k: int| last_slash_at(s, i) < k <= i ==> s[k] != '/',
    decreases i + 1,
{
    if i >= 0 && s[i] != '/' {
        lemma_last_slash_at_range(s, i - 1);
    }
}

pub proof fn lemma_last_dot_at_range(s: Seq<char>, i: int)
    requires
        -1 <= i < s.len(),
    ensures
        -1 <= last_dot_at(s, i) <= i,
        last_dot_at(s, i) >= 0 ==> s[last_dot_at(s, i)] == '.',
        forall|k: int| last_dot_at(s, i) < k <= i ==> s[k] != '.',
    decreases i + 1,
{
    if i >= 0 && s[i] != '.' {
        lemma_last_dot_at_range(s, i - 1);
    }
}

// ---------------------------------------------------------------------
// executable path helpers
// ---------------------------------------------------------------------
/// The index just past the last `/`, or `0` when there is none.
fn after_last_slash(p: &str) -> (r: usize)
    ensures
        r == last_slash(p@) + 1,
        r <= p@.len(),
{
    let len = p.unicode_len();
    let mut i: usize = len;
    while i > 0
        invariant
            len == p@.len(),
            i <= len,
            forall|k: int| i <= k < len ==> p@[k] != '/',
        decreases i,
    {
        if p.get_char(i - 1) == '/' {
            proof {
                lemma_last_slash_at_range(p@, p@.len() - 1);
                let n = last_slash(p@);
                if n < i - 1 {
                    assert(p@[i - 1] != '/');
                }
                if n > i - 1 {
                    assert(p@[n] != '/');
                }
            }
            return i;
        }
        i = i - 1;
    }
    proof {
        lemma_last_slash_at_range(p@, p@.len() - 1);
        let n = last_slash(p@);
        if n >= 0 {
            assert(p@[n] != '/');
        }
    }
    0
}

/// The index of the last `.` of a file name, or its length when there
/// is none (so that `seg[..r]` is the stem for `r > 0`).
fn last_dot_index(seg: &str) -> (r: Option<usize>)
    ensures
        (match r {
            Some(d) => last_dot_at(seg@, seg@.len() - 1) == d && d < seg@.len(),
            None => last_dot_at(seg@, seg@.len() - 1) == -1,
        }),
{
    let len = seg.unicode_len();
    let mut i: usize = len;
    while i > 0
        invariant
            len == seg@.len(),
            i <= len,
            forall|k: int| i <= k < len ==> seg@[k] != '.',
        decreases i,
    {
        if seg.get_char(i - 1) == '.' {
            proof {
                lemma_last_dot_at_range(seg@, seg@.len() - 1);
                let n = last_dot_at(seg@, seg@.len() - 1);
                if n < i - 1 {
                    assert(seg@[i - 1] != '.');
                }
                if n > i - 1 {
                    assert(seg@[n] != '.');
                }
            }
            return Some(i - 1);
        }
        i = i - 1;
    }
    proof {
        lemma_last_dot_at_range(seg@, seg@.len() - 1);
        let n = last_dot_at(seg@, seg@.len() - 1);
        if n >= 0 {
            assert(seg@[n] != '.');
        }
    }
    None
}

/// The file-name part of a path.
pub fn file_name(p: &str) -> (r: String)
    ensures
        r@ == file_name_spec(p@),
{
    let len = p.unicode_len();
    let s = after_last_slash(p);
    p.substring_char(s, len).to_owned()
}

/// The stem of a path's file name.
pub fn file_stem(p: &str) -> (r: String)
    ensures
        r@ == stem_of(file_name_spec(p@)),
{
    let name = file_name(p);
    let nlen = name.as_str().unicode_len();
    match last_dot_index(name.as_str()) {
        Some(d) => {
            if d == 0 {
                name.as_str().to_owned()
            } else {
                name.as_str().substring_char(0, d).to_owned()
            }
        },
        None => name.as_str().to_owned(),
    }
}

/// The extension of a path's file name, absent when it has none.
pub fn extension(p: &str) -> (r: Option<String>)
    ensures
        (match r {
            Some(e) => ext_of(file_name_spec(p@)) == Some(e@),
            None => ext_of(file_name_spec(p@)) is None,
        }),
{
    let name = file_name(p);
    let nlen = name.as_str().unicode_len();
    match last_dot_index(name.as_str()) {
        Some(d) => {
            if d == 0 {
                None
            } else {
                Some(name.as_str().substring_char(d + 1, nlen).to_owned())
            }
        },
        None => None,
    }
}

/// Strip `base` (and its trailing separator) off the front of `path`.
pub fn strip_prefix(base: &str, path: &str) -> (r: Option<String>)
    ensures
        (match r {
            Some(rel) => strip_prefix_spec(base@, path@) == Some(rel@),
            None => strip_prefix_spec(base@, path@) is None,
        }),
{
    let blen = base.unicode_len();
    let plen = path.unicode_len();
    if blen == 0 {
        return Some(path.to_owned());
    }
    if plen == blen {
        if str_eq(base, path) {
            return Some(String::new());
        }
        return None;
    }
    if plen > blen {
        let head = path.substring_char(0, blen);
        if str_eq(base, head) && path.get_char(blen) == '/' {
            proof {
                assert(path@ != base@);
            }
            return Some(path.substring_char(blen + 1, plen).to_owned());
        }
        return None;
    }
    None
}

/// Translate a path, moving it from having `in_path` as parent, to
/// `out_path`; nothing when the path does not lie under `in_path`.
pub fn translate(in_path: &str, out_path: &str, path: &str) -> (r: Option<String>)
    ensures
        (match r {
            Some(t) => translate_spec(in_path@, out_path@, path@) == Some(t@),
            None => translate_spec(in_path@, out_path@, path@) is None,
        }),
{
    let rel = match strip_prefix(in_path, path) {
        Some(rel) => rel,
        None => {
            return None;
        },
    };
    if rel.as_str().unicode_len() == 0 {
        return Some(out_path.to_owned());
    }
    let mut out = out_path.to_owned();
    push_char(&mut out, '/');
    out.append(rel.as_str());
    proof {
        assert(out@ =~= out_path@ + seq!['/'] + rel@);
    }
    Some(out)
}

/// The same path with its extension replaced by `.html`.
pub fn to_html_path(p: &str) -> (r: String)
    ensures
        r@ == with_html_ext(p@),
{
    let len = p.unicode_len();
    let s = after_last_slash(p);
    let mut out = p.substring_char(0, s).to_owned();
    let st = file_stem(p);
    out.append(st.as_str());
    out.append(".html");
    proof {
        reveal_strlit(".html");
        assert(".html"@ =~= seq!['.', 'h', 't', 'm', 'l']);
        assert(out@ =~= with_html_ext(p@));
    }
    out
}

// ---------------------------------------------------------------------
// classification
// ---------------------------------------------------------------------
/// What one file in the content tree is to the index.
#[derive(PartialEq, Eq, Structural, Clone, Copy, Debug)]
pub enum FileKind {
    /// Copied through verbatim (a recognised image extension).
    Asset,
    /// A markup document that becomes a page.
    Document,
    /// Anything else; skipped.
    Skipped,
}

/// A recognised static-asset extension.
pub open spec fn is_static_ext(e: Seq<char>) -> bool {
    e == seq!['p', 'n', 'g'] || e == seq!['j', 'p', 'g']
}

pub open spec fn md_chars() -> Seq<char> {
    seq!['m', 'd']
}

/// How the index classifies a path, by its extension alone.
pub open spec fn classify_spec(p: Seq<char>) -> FileKind {
    match ext_of(file_name_spec(p)) {
        None => FileKind::Skipped,
        Some(e) => if is_static_ext(e) {
            FileKind::Asset
        } else if e == md_chars() {
            FileKind::Document
        } else {
            FileKind::Skipped
        },
    }
}

/// Whether an extension marks a static asset.
pub fn is_static_extension(e: &str) -> (r: bool)
    ensures
        r == is_static_ext(e@),
{
    let png = str_eq(e, "png");
    let jpg = str_eq(e, "jpg");
    proof {
        reveal_strlit("png");
        reveal_strlit("jpg");
        assert("png"@ =~= seq!['p', 'n', 'g']);
        assert("jpg"@ =~= seq!['j', 'p', 'g']);
    }
    png || jpg
}

/// Classify one path as asset, document or skipped.
pub fn classify(p: &str) -> (r: FileKind)
    ensures
        r == classify_spec(p@),
{
    match extension(p) {
        None => FileKind::Skipped,
        Some(e) => {
            if is_static_extension(e.as_str()) {
                FileKind::Asset
            } else {
                let md = str_eq(e.as_str(), "md");
                proof {
                    reveal_strlit("md");
                    assert("md"@ =~= md_chars());
                }
                if md {
                    FileKind::Document
                } else {
                    FileKind::Skipped
                }
            }
        },
    }
}

// ---------------------------------------------------------------------
// pages, assets, buckets
// ---------------------------------------------------------------------
/// Mathematical image of a static asset.
pub struct GStatic {
    pub in_path: Seq<char>,
    pub out_path: Seq<char>,
}

/// A static file, like an image, found inside the content folder.
#[derive(Debug)]
pub struct Static {
    pub in_path: String,
    pub out_path: String,
}

impl View for Static {
    type V = GStatic;

    open spec fn view(&self) -> GStatic {
        GStatic { in_path: self.in_path@, out_path: self.out_path@ }
    }
}

/// Mathematical image of a page.
pub struct GPage {
    pub name: Seq<char>,
    pub link: Seq<char>,
    pub front_matter: GFrontMatter,
    pub in_path: Seq<char>,
    pub out_path: Seq<char>,
}

/// A page with actual markup content.
#[derive(Debug)]
pub struct Page {
    pub name: String,
    pub link: String,
    pub front_matter: FrontMatter,
    pub in_path: String,
    pub out_path: String,
}

impl View for Page {
    type V = GPage;

    open spec fn view(&self) -> GPage {
        GPage {
            name: self.name@,
            link: self.link@,
            front_matter: self.front_matter@,
            in_path: self.in_path@,
            out_path: self.out_path@,
        }
    }
}

/// The views of a list of pages.
pub open spec fn pviews(ps: Seq<Page>) -> Seq<GPage> {
    ps.map_values(|p: Page| p@)
}

/// The views of a list of assets.
pub open spec fn sviews(ss: Seq<Static>) -> Seq<GStatic> {
    ss.map_values(|s: Static| s@)
}

impl Page {
    /// The folder that holds this page, relative to `base`; absent for
    /// a page with no parent at all.
    pub fn folder(&self, base: &str) -> (r: Result<Option<String>, PathError>)
        ensures
            self.in_path@.len() == 0 ==> (r matches Ok(o) && o is None),
            self.in_path@.len() > 0 ==> (match strip_prefix_spec(
                base@,
                parent_spec(self.in_path@),
            ) {
                Some(rel) => r matches Ok(o) && o matches Some(f) && f@ == rel,
                None => r is Err,
            }),
            r matches Err(pe) ==> pe.path@ == self.in_path@,
    {
        let len = self.in_path.as_str().unicode_len();
        if len == 0 {
            return Ok(None);
        }
        let s = after_last_slash(self.in_path.as_str());
        let parent = if s == 0 {
            String::new()
        } else {
            self.in_path.as_str().substring_char(0, s - 1).to_owned()
        };
        proof {
            assert(parent@ =~= parent_spec(self.in_path@));
        }
        match strip_prefix(base, parent.as_str()) {
            Some(rel) => Ok(Some(rel)),
            None => Err(PathError { path: self.in_path.as_str().to_owned() }),
        }
    }
}

/// A path that could not be expressed relative to its expected root.
#[derive(Debug, PartialEq, Eq)]
pub struct PathError {
    pub path: String,
}

// ---------------------------------------------------------------------
// the listing order: date descending, then title descending
// ---------------------------------------------------------------------
/// `p` sorts at or before `q` in a listing: a later date first, and for
/// one date the lexicographically later title first.
pub open spec fn page_before(p: GPage, q: GPage) -> bool {
    if p.front_matter.date == q.front_matter.date {
        lex_le(q.front_matter.title, p.front_matter.title)
    } else {
        lex_le(q.front_matter.date, p.front_matter.date)
    }
}

pub proof fn lemma_page_before_total(p: GPage, q: GPage)
    ensures
        page_before(p, q) || page_before(q, p),
{
    lemma_lex_le_total(p.front_matter.date, q.front_matter.date);
    lemma_lex_le_total(p.front_matter.title, q.front_matter.title);
}

pub proof fn lemma_page_before_trans(p: GPage, q: GPage, r: GPage)
    requires
        page_before(p, q),
        page_before(q, r),
    ensures
        page_before(p, r),
{
    let pd = p.front_matter.date;
    let qd = q.front_matter.date;
    let rd = r.front_matter.date;
    if pd == qd && qd == rd {
        lemma_lex_le_trans(r.front_matter.title, q.front_matter.title, p.front_matter.title);
    } else if pd == qd {
        assert(lex_le(rd, qd));
    } else if qd == rd {
        assert(lex_le(qd, pd));
    } else {
        lemma_lex_le_trans(rd, qd, pd);
        if pd == rd {
            crate::strutil::lemma_lex_le_antisym(rd, qd);
        }
    }
}

/// A list of page indices sorted for a listing: newest first, ties by
/// title descending.
pub open spec fn sorted_desc(pages: Seq<GPage>, idxs: Seq<usize>) -> bool {
    forall|k1: int, k2: int|
        0 <= k1 < k2 < idxs.len() ==> page_before(
            pages[#[trigger] idxs[k1] as int],
            pages[#[trigger] idxs[k2] as int],
        )
}

/// All indices in range.
pub open spec fn idxs_valid(idxs: Seq<usize>, n: int) -> bool {
    forall|k: int| 0 <= k < idxs.len() ==> (#[trigger] idxs[k] as int) < n
}

proof fn lemma_sorted_insert(gp: Seq<GPage>, s: Seq<usize>, p: int, x: usize)
    requires
        idxs_valid(s, gp.len() as int),
        x < gp.len(),
        sorted_desc(gp, s),
        0 <= p <= s.len(),
        forall|q: int| 0 <= q < p ==> page_before(gp[#[trigger] s[q] as int], gp[x as int]),
        p < s.len() ==> page_before(gp[x as int], gp[s[p] as int]),
    ensures
        sorted_desc(gp, s.insert(p, x)),
{
    let t = s.insert(p, x);
    s.insert_ensures(p, x);
    assert forall|k1: int, k2: int| 0 <= k1 < k2 < t.len() implies page_before(
        gp[#[trigger] t[k1] as int],
        gp[#[trigger] t[k2] as int],
    ) by {
        if k1 < p {
            assert(t[k1] == s[k1]);
        } else if k1 == p {
            assert(t[k1] == x);
        } else {
            assert(t[k1] == s[k1 - 1]);
        }
        if k2 < p {
            assert(t[k2] == s[k2]);
        } else if k2 == p {
            assert(t[k2] == x);
        } else {
            assert(t[k2] == s[k2 - 1]);
        }
        if k2 < p {
            // both in the old prefix
        } else if k2 == p {
            // s[k1] comes before x by choice of p
        } else if k1 == p {
            // x before s[k2 - 1]
            if k2 - 1 > p {
                lemma_page_before_trans(gp[x as int], gp[s[p] as int], gp[s[k2 - 1] as int]);
            }
        } else if k1 < p {
            // s[k1] and s[k2 - 1]: k1 < p <= k2 - 1
            if k1 < k2 - 1 {
            } else {
                assert(false);
            }
        } else {
            // both in the old suffix
        }
    }
}

/// Whether `p` sorts at or before `q` among the given pages.
fn page_before_exec(pages: &Vec<Page>, a: usize, b: usize) -> (r: bool)
    requires
        a < pages@.len(),
        b < pages@.len(),
    ensures
        r == page_before(pviews(pages@)[a as int], pviews(pages@)[b as int]),
{
    let pa = &pages[a];
    let pb = &pages[b];
    proof {
        assert(pviews(pages@)[a as int] == pages@[a as int]@);
        assert(pviews(pages@)[b as int] == pages@[b as int]@);
    }
    if str_eq(pa.front_matter.date.as_str(), pb.front_matter.date.as_str()) {
        str_lex_le(pb.front_matter.title.as_str(), pa.front_matter.title.as_str())
    } else {
        str_lex_le(pb.front_matter.date.as_str(), pa.front_matter.date.as_str())
    }
}

/// Sort a list of page indices for a listing: date descending, title
/// descending as the tiebreak.  The result holds the same indices.
pub fn sort_page_indices(pages: &Vec<Page>, idxs: &mut Vec<usize>)
    requires
        idxs_valid(old(idxs)@, pages@.len() as int),
    ensures
        final(idxs)@.to_multiset() == old(idxs)@.to_multiset(),
        sorted_desc(pviews(pages@), final(idxs)@),
        idxs_valid(final(idxs)@, pages@.len() as int),
{
    broadcast use vstd::seq_lib::group_to_multiset_ensures;

    let ghost gp = pviews(pages@);
    let n = idxs.len();
    let mut out: Vec<usize> = Vec::new();
    let mut k: usize = 0;
    while k < n
        invariant
            n == old(idxs)@.len(),
            idxs@ == old(idxs)@,
            k <= n,
            gp == pviews(pages@),
            idxs_valid(old(idxs)@, pages@.len() as int),
            idxs_valid(out@, pages@.len() as int),
            out@.to_multiset() == old(idxs)@.take(k as int).to_multiset(),
            sorted_desc(gp, out@),
        decreases n - k,
    {
        let x = idxs[k];
        // find the first position whose element does not sort at or
        // before x; inserting there keeps equal keys in arrival order
        let mut p: usize = 0;
        while p < out.len() && page_before_exec(pages, out[p], x)
            invariant
                k < n,
                x == old(idxs)@[k as int],
                x < pages@.len(),
                gp == pviews(pages@),
                idxs_valid(out@, pages@.len() as int),
                p <= out@.len(),
                forall|q: int| 0 <= q < p ==> page_before(gp[#[trigger] out@[q] as int], gp[x as int]),
            decreases out@.len() - p,
        {
            p = p + 1;
        }
        proof {
            if p < out@.len() {
                lemma_page_before_total(gp[out@[p as int] as int], gp[x as int]);
            }
        }
        let ghost old_out = out@;
        proof {
            lemma_sorted_insert(gp, old_out, p as int, x);
        }
        out.insert(p, x);
        proof {
            assert(out@ == old_out.insert(p as int, x));
            // multiset bookkeeping
            to_multiset_insert(old_out, p as int, x);
            assert(old(idxs)@.take(k as int + 1) =~= old(idxs)@.take(k as int).push(x));
            to_multiset_build(old(idxs)@.take(k as int), x);
            // the new indices are still in range
            old_out.insert_ensures(p as int, x);
        }
        k = k + 1;
    }
    proof {
        assert(old(idxs)@.take(n as int) =~= old(idxs)@);
    }
    *idxs = out;
}

// ---------------------------------------------------------------------
// buckets and the index itself
// ---------------------------------------------------------------------
/// Mathematical image of one lookup bucket.
pub struct GBucket {
    pub key: Seq<char>,
    pub idxs: Seq<usize>,
}

/// One lookup bucket: a key (a name, a tag, a folder path) and the
/// indices of the pages under it.
#[derive(Debug)]
pub struct Bucket {
    pub key: String,
    pub idxs: Vec<usize>,
}

impl View for Bucket {
    type V = GBucket;

    open spec fn view(&self) -> GBucket {
        GBucket { key: self.key@, idxs: self.idxs@ }
    }
}

/// The views of a list of buckets.
pub open spec fn bviews(bs: Seq<Bucket>) -> Seq<GBucket> {
    bs.map_values(|b: Bucket| b@)
}

/// Whether page index `i` occurs in an index list.
pub open spec fn idx_in(idxs: Seq<usize>, i: usize) -> bool {
    idxs.contains(i)
}

/// A family of buckets partitions the pages matching a key relation:
/// indices valid and unduplicated, keys distinct, and a bucket holds
/// exactly the pages its key matches.
pub open spec fn buckets_partition(
    pages: Seq<GPage>,
    bs: Seq<GBucket>,
    key_match: spec_fn(GPage, Seq<char>) -> bool,
) -> bool {
    &&& forall|b: int| 0 <= b < bs.len() ==> idxs_valid(#[trigger] bs[b].idxs, pages.len() as int)
    &&& forall|b: int| 0 <= b < bs.len() ==> (#[trigger] bs[b].idxs).no_duplicates()
    &&& forall|b: int, i: usize|
        0 <= b < bs.len() && (i as int) < pages.len() ==> ((#[trigger] idx_in(bs[b].idxs, i))
            <==> key_match(pages[i as int], bs[b].key))
    &&& forall|b1: int, b2: int| 0 <= b1 < b2 < bs.len() ==> bs[b1].key != bs[b2].key
}

/// Every bucket sorted for a listing.
pub open spec fn buckets_sorted(pages: Seq<GPage>, bs: Seq<GBucket>) -> bool {
    forall|b: int| 0 <= b < bs.len() ==> sorted_desc(pages, (#[trigger] bs[b]).idxs)
}

/// A page's name matches a name bucket's key.
pub open spec fn name_matches(p: GPage, key: Seq<char>) -> bool {
    p.name == key
}

/// A page carries the tag a tag bucket is keyed by.
pub open spec fn tag_matches(p: GPage, key: Seq<char>) -> bool {
    p.front_matter.tags.contains(key)
}

/// The folder a page lies in, relative to the content root.
pub open spec fn folder_key(root: Seq<char>, p: GPage) -> Option<Seq<char>> {
    if p.in_path.len() == 0 {
        None
    } else {
        strip_prefix_spec(root, parent_spec(p.in_path))
    }
}

/// The index of the first page with this name, in walk order.
pub open spec fn first_with_name(pages: Seq<GPage>, name: Seq<char>) -> Option<int>
    decreases pages.len(),
{
    if pages.len() == 0 {
        None
    } else if pages[0].name == name {
        Some(0)
    } else {
        match first_with_name(pages.drop_first(), name) {
            Some(i) => Some(i + 1),
            None => None,
        }
    }
}

pub proof fn lemma_first_with_name_range(pages: Seq<GPage>, name: Seq<char>)
    ensures
        first_with_name(pages, name) matches Some(i) ==> 0 <= i < pages.len() && pages[i].name
            == name,
    decreases pages.len(),
{
    if pages.len() > 0 && pages[0].name != name {
        lemma_first_with_name_range(pages.drop_first(), name);
    }
}

pub proof fn lemma_first_with_name(pages: Seq<GPage>, name: Seq<char>, j: int)
    requires
        0 <= j < pages.len(),
        pages[j].name == name,
        forall|t: int| 0 <= t < j ==> pages[t].name != name,
    ensures
        first_with_name(pages, name) == Some(j),
    decreases j,
{
    if j > 0 {
        lemma_first_with_name(pages.drop_first(), name, j - 1);
    }
}

pub proof fn lemma_no_page_with_name(pages: Seq<GPage>, name: Seq<char>)
    requires
        forall|t: int| 0 <= t < pages.len() ==> pages[t].name != name,
    ensures
        first_with_name(pages, name) is None,
    decreases pages.len(),
{
    if pages.len() > 0 {
        assert(forall|t: int|
            0 <= t < pages.drop_first().len() ==> pages.drop_first()[t] == pages[t + 1]);
        lemma_no_page_with_name(pages.drop_first(), name);
    }
}

/// A list of page indices in strictly increasing (walk) order.
pub open spec fn strictly_increasing(idxs: Seq<usize>) -> bool {
    forall|k1: int, k2: int| 0 <= k1 < k2 < idxs.len() ==> idxs[k1] < idxs[k2]
}

pub proof fn lemma_increasing_no_duplicates(idxs: Seq<usize>)
    requires
        strictly_increasing(idxs),
    ensures
        idxs.no_duplicates(),
{
}

/// The first bucket keyed by `key`.
pub open spec fn find_bucket(bs: Seq<GBucket>, key: Seq<char>) -> Option<int>
    decreases bs.len(),
{
    if bs.len() == 0 {
        None
    } else if bs[0].key == key {
        Some(0)
    } else {
        match find_bucket(bs.drop_first(), key) {
            Some(b) => Some(b + 1),
            None => None,
        }
    }
}

pub proof fn lemma_find_bucket_at(bs: Seq<GBucket>, key: Seq<char>, j: int)
    requires
        0 <= j < bs.len(),
        bs[j].key == key,
        forall|t: int| 0 <= t < j ==> bs[t].key != key,
    ensures
        find_bucket(bs, key) == Some(j),
    decreases j,
{
    if j > 0 {
        lemma_find_bucket_at(bs.drop_first(), key, j - 1);
    }
}

pub proof fn lemma_find_bucket_none(bs: Seq<GBucket>, key: Seq<char>)
    requires
        forall|t: int| 0 <= t < bs.len() ==> bs[t].key != key,
    ensures
        find_bucket(bs, key) is None,
    decreases bs.len(),
{
    if bs.len() > 0 {
        assert(forall|t: int|
            0 <= t < bs.drop_first().len() ==> bs.drop_first()[t] == bs[t + 1]);
        lemma_find_bucket_none(bs.drop_first(), key);
    }
}

pub proof fn lemma_find_bucket_range(bs: Seq<GBucket>, key: Seq<char>)
    ensures
        find_bucket(bs, key) matches Some(b) ==> 0 <= b < bs.len() && bs[b].key == key,
    decreases bs.len(),
{
    if bs.len() > 0 && bs[0].key != key {
        lemma_find_bucket_range(bs.drop_first(), key);
    }
}

/// Adding page `i` under `key`: grow the bucket so keyed, if `i` is not
/// already there, or start a new bucket at the end.
pub open spec fn bucket_add(bs: Seq<GBucket>, key: Seq<char>, i: usize) -> Seq<GBucket> {
    match find_bucket(bs, key) {
        Some(b) => if bs[b].idxs.contains(i) {
            bs
        } else {
            bs.update(b, GBucket { key: key, idxs: bs[b].idxs.push(i) })
        },
        None => bs.push(GBucket { key: key, idxs: seq![i] }),
    }
}

/// Whether a list holds a given index.
fn idxs_contains(v: &Vec<usize>, i: usize) -> (r: bool)
    ensures
        r == v@.contains(i),
{
    let mut k: usize = 0;
    while k < v.len()
        invariant
            k <= v@.len(),
            forall|t: int| 0 <= t < k ==> v@[t] != i,
        decreases v@.len() - k,
    {
        if v[k] == i {
            return true;
        }
        k = k + 1;
    }
    proof {
        if v@.contains(i) {
            let t = choose|t: int| 0 <= t < v@.len() && v@[t] == i;
            assert(v@[t] != i);
        }
    }
    false
}

/// Copy a list of indices.
fn copy_idxs(v: &Vec<usize>) -> (r: Vec<usize>)
    ensures
        r@ =~= v@,
{
    let mut out: Vec<usize> = Vec::new();
    let mut k: usize = 0;
    while k < v.len()
        invariant
            k <= v@.len(),
            out@ =~= v@.take(k as int),
        decreases v@.len() - k,
    {
        out.push(v[k]);
        proof {
            assert(v@.take(k as int + 1) =~= v@.take(k as int).push(v@[k as int]));
        }
        k = k + 1;
    }
    proof {
        assert(v@.take(v@.len() as int) =~= v@);
    }
    out
}

/// File page `i` under `key`, as `bucket_add` describes.
fn add_to_bucket(bs: &mut Vec<Bucket>, key: &str, i: usize)
    ensures
        bviews(final(bs)@) =~= bucket_add(bviews(old(bs)@), key@, i),
{
    let ghost gbs = bviews(bs@);
    let n = bs.len();
    let mut b: usize = 0;
    while b < n
        invariant
            n == bs@.len(),
            b <= n,
            bs@ == old(bs)@,
            gbs == bviews(bs@),
            forall|t: int| 0 <= t < b ==> gbs[t].key != key@,
        decreases n - b,
    {
        proof {
            assert(gbs[b as int] == bs@[b as int]@);
        }
        if str_eq(bs[b].key.as_str(), key) {
            proof {
                lemma_find_bucket_at(gbs, key@, b as int);
            }
            if idxs_contains(&bs[b].idxs, i) {
                return ;
            }
            let mut bucket = bs.remove(b);
            bucket.idxs.push(i);
            let ghost gb2 = bucket@;
            bs.insert(b, bucket);
            proof {
                assert(bviews(bs@) =~= gbs.update(
                    b as int,
                    GBucket { key: key@, idxs: gbs[b as int].idxs.push(i) },
                ));
            }
            return ;
        }
        b = b + 1;
    }
    proof {
        lemma_find_bucket_none(gbs, key@);
    }
    let mut fresh: Vec<usize> = Vec::new();
    fresh.push(i);
    let nb = Bucket { key: key.to_owned(), idxs: fresh };
    bs.push(nb);
    proof {
        assert(bviews(bs@) =~= gbs.push(GBucket { key: key@, idxs: seq![i] }));
    }
}

/// What one `bucket_add` step does, stated positionally: old buckets
/// keep their place and key, at most one new bucket appears at the
/// end, and only the bucket keyed by `key` gains the index.
#[verifier::rlimit(60)]
pub proof fn lemma_bucket_add(bs: Seq<GBucket>, key: Seq<char>, i: usize)
    requires
        forall|b1: int, b2: int| 0 <= b1 < b2 < bs.len() ==> bs[b1].key != bs[b2].key,
        forall|b: int| 0 <= b < bs.len() ==> strictly_increasing(#[trigger] bs[b].idxs),
        forall|b: int, k: int|
            0 <= b < bs.len() && 0 <= k < bs[b].idxs.len() ==> (#[trigger] bs[b].idxs[k]) <= i,
    ensures
        ({
            let t = bucket_add(bs, key, i);
            &&& bs.len() <= t.len() <= bs.len() + 1
            &&& forall|b: int| 0 <= b < bs.len() ==> (#[trigger] t[b]).key == bs[b].key
            &&& t.len() > bs.len() ==> t[bs.len() as int].key == key && t[bs.len() as int].idxs
                =~= seq![i] && (forall|b: int| 0 <= b < bs.len() ==> (#[trigger] bs[b]).key != key)
            &&& t.len() == bs.len() ==> exists|b: int|
                0 <= b < bs.len() && (#[trigger] t[b]).key == key
            &&& forall|b: int|
                0 <= b < bs.len() && bs[b].key != key ==> (#[trigger] t[b]) == bs[b]
            &&& forall|b: int, x: usize|
                0 <= b < t.len() ==> ((#[trigger] idx_in(t[b].idxs, x)) <==> (b < bs.len()
                    && idx_in(bs[b].idxs, x)) || (t[b].key == key && x == i))
            &&& forall|b1: int, b2: int| 0 <= b1 < b2 < t.len() ==> t[b1].key != t[b2].key
            &&& forall|b: int| 0 <= b < t.len() ==> strictly_increasing(#[trigger] t[b].idxs)
            &&& forall|b: int, k: int|
                0 <= b < t.len() && 0 <= k < t[b].idxs.len() ==> (#[trigger] t[b].idxs[k]) <= i
            &&& find_bucket(t, key) is Some
        }),
{
    lemma_find_bucket_range(bs, key);
    let t = bucket_add(bs, key, i);
    match find_bucket(bs, key) {
        Some(fb) => {
            assert(forall|b: int| 0 <= b < bs.len() && b != fb ==> (#[trigger] bs[b]).key != key);
            assert(t[fb].key == key);
            if bs[fb].idxs.contains(i) {
                assert(forall|b: int, x: usize|
                    0 <= b < t.len() ==> ((#[trigger] idx_in(t[b].idxs, x)) <==> (b < bs.len()
                        && idx_in(bs[b].idxs, x)) || (t[b].key == key && x == i))) by {
                    assert(idx_in(bs[fb].idxs, i));
                }
            } else {
                let newidxs = bs[fb].idxs.push(i);
                assert forall|b: int, x: usize| 0 <= b < t.len() implies ((#[trigger] idx_in(
                    t[b].idxs,
                    x,
                )) <==> (b < bs.len() && idx_in(bs[b].idxs, x)) || (t[b].key == key && x == i)) by {
                    if b == fb {
                        assert forall|x2: usize| idx_in(newidxs, x2) implies idx_in(bs[fb].idxs, x2)
                            || x2 == i by {
                            let k = choose|k: int|
                                0 <= k < newidxs.len() && newidxs[k] == x2;
                            if k < bs[fb].idxs.len() {
                                assert(idx_in(bs[fb].idxs, x2));
                            }
                        }
                        assert(idx_in(newidxs, i)) by {
                            assert(newidxs[newidxs.len() - 1] == i);
                        }
                        assert forall|x2: usize| idx_in(bs[fb].idxs, x2) implies idx_in(
                            newidxs,
                            x2,
                        ) by {
                            let k = choose|k: int|
                                0 <= k < bs[fb].idxs.len() && bs[fb].idxs[k] == x2;
                            assert(newidxs[k] == x2);
                        }
                    }
                }
                assert forall|b: int| 0 <= b < t.len() implies strictly_increasing(
                    #[trigger] t[b].idxs,
                ) by {
                    if b == fb {
                        assert forall|k1: int, k2: int|
                            0 <= k1 < k2 < newidxs.len() implies newidxs[k1] < newidxs[k2] by {
                            if k2 == newidxs.len() - 1 {
                                assert(newidxs[k1] == bs[fb].idxs[k1]);
                                assert(bs[fb].idxs[k1] <= i);
                                if newidxs[k1] == i {
                                    assert(idx_in(bs[fb].idxs, i));
                                }
                            }
                        }
                    }
                }
            }
        },
        None => {
            assert forall|b: int| 0 <= b < bs.len() implies (#[trigger] bs[b]).key != key by {
                if bs[b].key == key {
                    lemma_find_bucket_some_if(bs, key, b);
                }
            }
            assert forall|b: int, x: usize| 0 <= b < t.len() implies ((#[trigger] idx_in(
                t[b].idxs,
                x,
            )) <==> (b < bs.len() && idx_in(bs[b].idxs, x)) || (t[b].key == key && x == i)) by {
                if b == bs.len() {
                    assert(t[b].idxs =~= seq![i]);
                    assert(idx_in(seq![i], i)) by {
                        assert(seq![i][0] == i);
                    }
                    assert forall|x2: usize| idx_in(seq![i], x2) implies x2 == i by {
                        let k = choose|k: int| 0 <= k < seq![i].len() && seq![i][k] == x2;
                    }
                }
            }
            assert forall|b: int| 0 <= b < t.len() implies strictly_increasing(
                #[trigger] t[b].idxs,
            ) by {
                if b == bs.len() {
                    assert(t[b].idxs =~= seq![i]);
                }
            }
        },
    }
    assert(bs.len() <= t.len() <= bs.len() + 1);
    assert(forall|b: int| 0 <= b < bs.len() ==> (#[trigger] t[b]).key == bs[b].key);
    assert(t.len() > bs.len() ==> t[bs.len() as int].key == key && t[bs.len() as int].idxs
        =~= seq![i] && (forall|b: int| 0 <= b < bs.len() ==> (#[trigger] bs[b]).key != key));
    assert(t.len() == bs.len() ==> exists|b: int| 0 <= b < bs.len() && (#[trigger] t[b]).key
        == key);
    assert(forall|b: int| 0 <= b < bs.len() && bs[b].key != key ==> (#[trigger] t[b]) == bs[b]);
    assert(forall|b: int, x: usize|
        0 <= b < t.len() ==> ((#[trigger] idx_in(t[b].idxs, x)) <==> (b < bs.len() && idx_in(
            bs[b].idxs,
            x,
        )) || (t[b].key == key && x == i)));
    assert(forall|b1: int, b2: int| 0 <= b1 < b2 < t.len() ==> t[b1].key != t[b2].key);
    assert(forall|b: int| 0 <= b < t.len() ==> strictly_increasing(#[trigger] t[b].idxs));
    assert(forall|b: int, k: int|
        0 <= b < t.len() && 0 <= k < t[b].idxs.len() ==> (#[trigger] t[b].idxs[k]) <= i);
    assert(find_bucket(t, key) is Some) by {
        match find_bucket(bs, key) {
            Some(fb) => {
                lemma_find_bucket_some_if(t, key, fb);
            },
            None => {
                lemma_find_bucket_some_if(t, key, bs.len() as int);
            },
        }
    }
}

/// If some bucket is keyed by `key`, `find_bucket` finds one.
pub proof fn lemma_find_bucket_some_if(bs: Seq<GBucket>, key: Seq<char>, j: int)
    requires
        0 <= j < bs.len(),
        bs[j].key == key,
    ensures
        find_bucket(bs, key) is Some,
    decreases j,
{
    if bs[0].key == key {
    } else {
        lemma_find_bucket_some_if(bs.drop_first(), key, j - 1);
    }
}

/// Two lists holding the same multiset hold the same values.
pub proof fn lemma_same_multiset_membership(a: Seq<usize>, b: Seq<usize>)
    requires
        a.to_multiset() == b.to_multiset(),
    ensures
        forall|x: usize| a.contains(x) <==> b.contains(x),
        a.no_duplicates() ==> b.no_duplicates(),
{
    broadcast use vstd::seq_lib::group_to_multiset_ensures;

    assert forall|x: usize| a.contains(x) implies b.contains(x) by {
        assert(a.to_multiset().count(x) > 0);
        assert(b.to_multiset().count(x) > 0);
    }
    assert forall|x: usize| b.contains(x) implies a.contains(x) by {
        assert(b.to_multiset().count(x) > 0);
        assert(a.to_multiset().count(x) > 0);
    }
    if a.no_duplicates() {
        a.lemma_multiset_has_no_duplicates();
        b.lemma_multiset_has_no_duplicates_conv();
    }
}

// ---------------------------------------------------------------------
// the input of a build, and what the build makes of it
// ---------------------------------------------------------------------
/// Why an index build failed.
#[derive(Debug, PartialEq, Eq)]
pub enum BuildError {
    /// A path could not be expressed relative to its expected root;
    /// carries the path.
    Path(String),
    /// A document's header was rejected; carries the document's path
    /// and the reason.
    Parse(String, ParseError),
}

/// Mathematical image of one scanned file.
pub struct GScanFile {
    pub path: Seq<char>,
    pub yaml: Option<Seq<char>>,
    pub mtime_epoch: i64,
}

/// One file the directory walk found: its full path, the text of its
/// header block when it is a document that has one, and its
/// modification time in epoch seconds.
pub struct ScanFile {
    pub path: String,
    pub yaml: Option<String>,
    pub mtime_epoch: i64,
}

impl View for ScanFile {
    type V = GScanFile;

    open spec fn view(&self) -> GScanFile {
        GScanFile {
            path: self.path@,
            yaml: crate::frontmatter::opt_view(self.yaml),
            mtime_epoch: self.mtime_epoch,
        }
    }
}

/// The views of a list of scanned files.
pub open spec fn fviews(fs: Seq<ScanFile>) -> Seq<GScanFile> {
    fs.map_values(|f: ScanFile| f@)
}

/// Joining a root and a relative path.
pub open spec fn join_spec(a: Seq<char>, b: Seq<char>) -> Seq<char> {
    if b.len() == 0 {
        a
    } else {
        a + seq!['/'] + b
    }
}

/// Join a root and a relative path.
fn join_path(a: &str, b: &str) -> (r: String)
    ensures
        r@ == join_spec(a@, b@),
{
    if b.unicode_len() == 0 {
        a.to_owned()
    } else {
        let mut out = a.to_owned();
        push_char(&mut out, '/');
        out.append(b);
        proof {
            assert(out@ =~= a@ + seq!['/'] + b@);
        }
        out
    }
}

/// Whether a root-relative file path lies inside an ignored folder:
/// some directory prefix of it (the root itself included) is
/// configured as ignored.
pub open spec fn under_ignored(cfg: crate::config::GConfig, rel: Seq<char>) -> bool {
    exists|j: int|
        0 <= j < rel.len() && (j == 0 || rel[j] == '/') && crate::config::contains_str(
            cfg.ignored_folders,
            #[trigger] rel.take(j),
        )
}

/// Decide `under_ignored`.
fn rel_under_ignored(config: &crate::config::Config, rel: &str) -> (r: bool)
    ensures
        r == under_ignored(config@, rel@),
{
    let len = rel.unicode_len();
    let mut j: usize = 0;
    while j < len
        invariant
            len == rel@.len(),
            j <= len,
            forall|t: int|
                0 <= t < j && (t == 0 || rel@[t] == '/') ==> !crate::config::contains_str(
                    config@.ignored_folders,
                    #[trigger] rel@.take(t),
                ),
        decreases len - j,
    {
        if j == 0 || rel.get_char(j) == '/' {
            let prefix = rel.substring_char(0, j);
            proof {
                assert(prefix@ =~= rel@.take(j as int));
            }
            let hit = config.is_ignored(prefix);
            proof {
                assert(hit == crate::config::contains_str(
                    config@.ignored_folders,
                    rel@.take(j as int),
                ));
            }
            if hit {
                proof {
                    assert(0 <= j < rel@.len() && (j == 0 || rel@[j as int] == '/')
                        && crate::config::contains_str(
                        config@.ignored_folders,
                        rel@.take(j as int),
                    ));
                    assert(under_ignored(config@, rel@));
                }
                return true;
            }
        }
        j = j + 1;
    }
    proof {
        if under_ignored(config@, rel@) {
            let t = choose|t: int|
                0 <= t < rel@.len() && (t == 0 || rel@[t] == '/') && crate::config::contains_str(
                    config@.ignored_folders,
                    #[trigger] rel@.take(t),
                );
            assert(!crate::config::contains_str(config@.ignored_folders, rel@.take(t)));
        }
    }
    false
}

/// A file the build keeps: it lies under the root and no ignored
/// folder covers it.
pub open spec fn is_kept_file(cfg: crate::config::GConfig, root: Seq<char>, f: GScanFile) -> bool {
    match strip_prefix_spec(root, f.path) {
        Some(rel) => !under_ignored(cfg, rel),
        None => false,
    }
}

/// A kept file with a static-asset extension.
pub open spec fn is_asset_file(cfg: crate::config::GConfig, root: Seq<char>, f: GScanFile) -> bool {
    is_kept_file(cfg, root, f) && classify_spec(f.path) == FileKind::Asset
}

/// A kept file with the markup extension.
pub open spec fn is_doc_file(cfg: crate::config::GConfig, root: Seq<char>, f: GScanFile) -> bool {
    is_kept_file(cfg, root, f) && classify_spec(f.path) == FileKind::Document
}

/// The asset files among the scanned files, in order.
pub open spec fn assets_of(
    cfg: crate::config::GConfig,
    root: Seq<char>,
    fs: Seq<GScanFile>,
) -> Seq<GScanFile>
    decreases fs.len(),
{
    if fs.len() == 0 {
        Seq::empty()
    } else {
        (if is_asset_file(cfg, root, fs[0]) {
            seq![fs[0]]
        } else {
            Seq::empty()
        }) + assets_of(cfg, root, fs.drop_first())
    }
}

/// The document files among the scanned files, in order.
pub open spec fn docs_of(
    cfg: crate::config::GConfig,
    root: Seq<char>,
    fs: Seq<GScanFile>,
) -> Seq<GScanFile>
    decreases fs.len(),
{
    if fs.len() == 0 {
        Seq::empty()
    } else {
        (if is_doc_file(cfg, root, fs[0]) {
            seq![fs[0]]
        } else {
            Seq::empty()
        }) + docs_of(cfg, root, fs.drop_first())
    }
}

pub proof fn lemma_assets_of_app(
    cfg: crate::config::GConfig,
    root: Seq<char>,
    a: Seq<GScanFile>,
    b: Seq<GScanFile>,
)
    ensures
        assets_of(cfg, root, a + b) =~= assets_of(cfg, root, a) + assets_of(cfg, root, b),
    decreases a.len(),
{
    if a.len() == 0 {
        assert(a + b =~= b);
    } else {
        assert((a + b).drop_first() =~= a.drop_first() + b);
        lemma_assets_of_app(cfg, root, a.drop_first(), b);
    }
}

pub proof fn lemma_docs_of_app(
    cfg: crate::config::GConfig,
    root: Seq<char>,
    a: Seq<GScanFile>,
    b: Seq<GScanFile>,
)
    ensures
        docs_of(cfg, root, a + b) =~= docs_of(cfg, root, a) + docs_of(cfg, root, b),
    decreases a.len(),
{
    if a.len() == 0 {
        assert(a + b =~= b);
    } else {
        assert((a + b).drop_first() =~= a.drop_first() + b);
        lemma_docs_of_app(cfg, root, a.drop_first(), b);
    }
}

/// Each document file is one of the scanned files, and really is a
/// document file.
pub proof fn lemma_docs_of_sub(cfg: crate::config::GConfig, root: Seq<char>, fs: Seq<GScanFile>)
    ensures
        forall|m: int|
            0 <= m < docs_of(cfg, root, fs).len() ==> exists|k: int|
                0 <= k < fs.len() && fs[k] == #[trigger] docs_of(cfg, root, fs)[m],
        forall|m: int|
            0 <= m < docs_of(cfg, root, fs).len() ==> is_doc_file(
                cfg,
                root,
                #[trigger] docs_of(cfg, root, fs)[m],
            ),
    decreases fs.len(),
{
    if fs.len() > 0 {
        lemma_docs_of_sub(cfg, root, fs.drop_first());
        assert forall|m: int| 0 <= m < docs_of(cfg, root, fs).len() implies exists|k: int|
            0 <= k < fs.len() && fs[k] == #[trigger] docs_of(cfg, root, fs)[m] by {
            let d = docs_of(cfg, root, fs);
            let dr = docs_of(cfg, root, fs.drop_first());
            if is_doc_file(cfg, root, fs[0]) {
                if m == 0 {
                    assert(fs[0] == d[0]);
                } else {
                    assert(d[m] == dr[m - 1]);
                    let k = choose|k: int|
                        0 <= k < fs.drop_first().len() && fs.drop_first()[k] == dr[m - 1];
                    assert(fs[k + 1] == d[m]);
                }
            } else {
                assert(d[m] == dr[m]);
                let k = choose|k: int|
                    0 <= k < fs.drop_first().len() && fs.drop_first()[k] == dr[m];
                assert(fs[k + 1] == d[m]);
            }
        }
        assert forall|m: int| 0 <= m < docs_of(cfg, root, fs).len() implies is_doc_file(
            cfg,
            root,
            #[trigger] docs_of(cfg, root, fs)[m],
        ) by {
            let d = docs_of(cfg, root, fs);
            let dr = docs_of(cfg, root, fs.drop_first());
            if is_doc_file(cfg, root, fs[0]) {
                if m > 0 {
                    assert(d[m] == dr[m - 1]);
                }
            } else {
                assert(d[m] == dr[m]);
            }
        }
    }
}

/// The static asset one kept asset file becomes.
pub open spec fn asset_spec(root: Seq<char>, out_root: Seq<char>, f: GScanFile) -> GStatic {
    GStatic {
        in_path: f.path,
        out_path: join_spec(out_root, strip_prefix_spec(root, f.path)->Some_0),
    }
}

/// The path-derived fields of the page one document file becomes.
pub open spec fn page_path_ok(
    root: Seq<char>,
    out_root: Seq<char>,
    f: GScanFile,
    p: GPage,
) -> bool {
    match strip_prefix_spec(root, f.path) {
        Some(rel) => {
            &&& p.in_path == f.path
            &&& p.name == stem_of(file_name_spec(f.path))
            &&& p.link == seq!['/'] + with_html_ext(rel)
            &&& p.out_path == join_spec(out_root, with_html_ext(rel))
        },
        None => false,
    }
}

/// The metadata of the page one document file becomes: with no header
/// text the record is exactly the all-fallback one; with a header it
/// is the record of some raw header under the fallback rules.
pub open spec fn page_fm_ok(f: GScanFile, p: GPage) -> bool {
    &&& f.yaml is None ==> p.front_matter == crate::frontmatter::from_raw_spec(
        crate::frontmatter::empty_raw(),
        p.name,
        crate::frontmatter::date_of_epoch(f.mtime_epoch),
    )
    &&& f.yaml matches Some(t) ==> p.front_matter == crate::frontmatter::from_raw_spec(
        crate::frontmatter::raw_of(t),
        p.name,
        crate::frontmatter::date_of_epoch(f.mtime_epoch),
    )
}

/// The duplicate-name diagnostics of a build: one bucket per name in
/// conflict, holding every page of that name in walk order.
pub open spec fn dup_warnings_ok(pages: Seq<GPage>, warns: Seq<GBucket>) -> bool {
    &&& forall|w: int|
        0 <= w < warns.len() ==> (#[trigger] warns[w]).idxs.len() >= 2 && strictly_increasing(
            warns[w].idxs,
        ) && idxs_valid(warns[w].idxs, pages.len() as int)
    &&& forall|w: int, i: usize|
        0 <= w < warns.len() && (i as int) < pages.len() ==> ((#[trigger] idx_in(
            warns[w].idxs,
            i,
        )) <==> pages[i as int].name == warns[w].key)
    &&& forall|i: int, j: int|
        #![trigger pages[i].name, pages[j].name]
        0 <= i < j < pages.len() && pages[i].name == pages[j].name ==> find_bucket(
            warns,
            pages[i].name,
        ) is Some
}

/// Everything a successful build promises.
pub open spec fn build_ok(
    cfg: crate::config::GConfig,
    root: Seq<char>,
    out_root: Seq<char>,
    files: Seq<GScanFile>,
    sm: GSiteMap,
    warns: Seq<GBucket>,
) -> bool {
    let docs = docs_of(cfg, root, files);
    &&& sm.root == root
    &&& sm.out_root == out_root
    &&& sm.statics =~= assets_of(cfg, root, files).map_values(
        |f: GScanFile| asset_spec(root, out_root, f),
    )
    &&& sm.pages.len() == docs.len()
    &&& forall|k: int|
        0 <= k < docs.len() ==> page_path_ok(root, out_root, docs[k], #[trigger] sm.pages[k])
    &&& forall|k: int| 0 <= k < docs.len() ==> page_fm_ok(docs[k], #[trigger] sm.pages[k])
    &&& buckets_partition(sm.pages, sm.by_name, |p: GPage, k: Seq<char>| name_matches(p, k))
    &&& buckets_sorted(sm.pages, sm.by_name)
    &&& names_covered(sm.pages, sm.by_name, sm.pages.len() as int)
    &&& buckets_partition(sm.pages, sm.by_tag, |p: GPage, k: Seq<char>| tag_matches(p, k))
    &&& buckets_sorted(sm.pages, sm.by_tag)
    &&& tags_covered(sm.pages, sm.by_tag, sm.pages.len() as int)
    &&& buckets_partition(
        sm.pages,
        sm.folders,
        |p: GPage, k: Seq<char>| folder_key(root, p) == Some(k),
    )
    &&& buckets_sorted(sm.pages, sm.folders)
    &&& folders_covered(root, sm.pages, sm.folders, sm.pages.len() as int)
    &&& sm.edges =~= Seq::<(usize, usize)>::empty()
    &&& dup_warnings_ok(sm.pages, warns)
}

/// Every name among the first `n` pages is some bucket's key.
pub open spec fn names_covered(pages: Seq<GPage>, bs: Seq<GBucket>, n: int) -> bool {
    forall|t: int|
        #![trigger pages[t].name]
        0 <= t < n ==> find_bucket(bs, pages[t].name) is Some
}

/// Every tag among the first `n` pages is some bucket's key.
pub open spec fn tags_covered(pages: Seq<GPage>, bs: Seq<GBucket>, n: int) -> bool {
    forall|t: int, tt: int|
        #![trigger pages[t].front_matter.tags[tt]]
        0 <= t < n && 0 <= tt < pages[t].front_matter.tags.len() ==> find_bucket(
            bs,
            pages[t].front_matter.tags[tt],
        ) is Some
}

/// Every one of the first `n` keys is some bucket's key.
pub open spec fn keys_covered(keys: Seq<Seq<char>>, bs: Seq<GBucket>, n: int) -> bool {
    forall|t: int|
        #![trigger keys[t]]
        0 <= t < n ==> find_bucket(bs, keys[t]) is Some
}

/// Every name bucket in conflict among the first `n` has a warning.
pub open spec fn dups_warned(bs: Seq<GBucket>, warns: Seq<GBucket>, n: int) -> bool {
    forall|t: int|
        #![trigger bs[t].idxs]
        0 <= t < n && bs[t].idxs.len() >= 2 ==> find_bucket(warns, bs[t].key) is Some
}

/// Every folder among the first `n` pages is some bucket's key.
pub open spec fn folders_covered(
    root: Seq<char>,
    pages: Seq<GPage>,
    bs: Seq<GBucket>,
    n: int,
) -> bool {
    forall|t: int|
        #![trigger folder_key(root, pages[t])]
        0 <= t < n && folder_key(root, pages[t]) is Some ==> find_bucket(
            bs,
            folder_key(root, pages[t])->Some_0,
        ) is Some
}

/// Bucket families with the same keys in the same places are searched
/// alike.
pub proof fn lemma_find_bucket_same_keys(a: Seq<GBucket>, b: Seq<GBucket>, key: Seq<char>)
    requires
        a.len() == b.len(),
        forall|k: int| 0 <= k < a.len() ==> (#[trigger] b[k]).key == a[k].key,
    ensures
        find_bucket(a, key) == find_bucket(b, key),
    decreases a.len(),
{
    if a.len() > 0 {
        assert(forall|k: int|
            0 <= k < a.drop_first().len() ==> (#[trigger] b.drop_first()[k]).key
                == a.drop_first()[k].key) by {
            assert(forall|k: int|
                0 <= k < a.drop_first().len() ==> a.drop_first()[k] == a[k + 1] && b.drop_first()[k]
                    == b[k + 1]);
        }
        lemma_find_bucket_same_keys(a.drop_first(), b.drop_first(), key);
    }
}

/// Resolving a run of references against the pages: each one that
/// resolves adds its target once, in first-mention order.
pub open spec fn link_targets(
    pages: Seq<GPage>,
    ls: Seq<crate::wikilink::GLink>,
    acc: Seq<usize>,
) -> Seq<usize>
    decreases ls.len(),
{
    if ls.len() == 0 {
        acc
    } else {
        let acc2 = match first_with_name(pages, ls[0].name) {
            Some(i) => if acc.contains(i as usize) {
                acc
            } else {
                acc.push(i as usize)
            },
            None => acc,
        };
        link_targets(pages, ls.drop_first(), acc2)
    }
}

/// The distinct pages a text's references resolve to, in order.
pub open spec fn targets_spec(pages: Seq<GPage>, text: Seq<char>) -> Seq<usize> {
    link_targets(
        pages,
        crate::wikilink::links_of(crate::wikilink::segments_spec(text)),
        Seq::empty(),
    )
}

/// The sources of every registered edge into `target`, in order.
pub open spec fn back_sources(edges: Seq<(usize, usize)>, target: usize) -> Seq<usize>
    decreases edges.len(),
{
    if edges.len() == 0 {
        Seq::empty()
    } else {
        (if edges[0].1 == target {
            seq![edges[0].0]
        } else {
            Seq::empty()
        }) + back_sources(edges.drop_first(), target)
    }
}

/// Mathematical image of the whole index.
pub struct GSiteMap {
    pub root: Seq<char>,
    pub out_root: Seq<char>,
    pub statics: Seq<GStatic>,
    pub pages: Seq<GPage>,
    pub by_name: Seq<GBucket>,
    pub by_tag: Seq<GBucket>,
    pub folders: Seq<GBucket>,
    pub edges: Seq<(usize, usize)>,
}

/// The content index: every page and asset found under the content
/// root, lookup buckets over them, and the cross-reference edges
/// registered after the scan.
#[derive(Debug)]
pub struct SiteMap {
    root: String,
    out_root: String,
    statics: Vec<Static>,
    pages: Vec<Page>,
    pages_by_name: Vec<Bucket>,
    pages_by_tag: Vec<Bucket>,
    folders: Vec<Bucket>,
    edges: Vec<(usize, usize)>,
}

impl View for SiteMap {
    type V = GSiteMap;

    closed spec fn view(&self) -> GSiteMap {
        GSiteMap {
            root: self.root@,
            out_root: self.out_root@,
            statics: sviews(self.statics@),
            pages: pviews(self.pages@),
            by_name: bviews(self.pages_by_name@),
            by_tag: bviews(self.pages_by_tag@),
            folders: bviews(self.folders@),
            edges: self.edges@,
        }
    }
}

/// The non-draft indices of a listing, order kept.
pub open spec fn non_draft_spec(pages: Seq<GPage>, idxs: Seq<usize>) -> Seq<usize>
    decreases idxs.len(),
{
    if idxs.len() == 0 {
        Seq::empty()
    } else {
        (if !pages[idxs[0] as int].front_matter.draft {
            seq![idxs[0]]
        } else {
            Seq::empty()
        }) + non_draft_spec(pages, idxs.drop_first())
    }
}

pub proof fn lemma_non_draft_app(pages: Seq<GPage>, a: Seq<usize>, b: Seq<usize>)
    ensures
        non_draft_spec(pages, a + b) =~= non_draft_spec(pages, a) + non_draft_spec(pages, b),
    decreases a.len(),
{
    if a.len() == 0 {
        assert(a + b =~= b);
    } else {
        assert((a + b).drop_first() =~= a.drop_first() + b);
        lemma_non_draft_app(pages, a.drop_first(), b);
    }
}

/// Sorting the buckets' lists does not disturb what they partition.
proof fn lemma_partition_transfer(
    gp: Seq<GPage>,
    a: Seq<GBucket>,
    b: Seq<GBucket>,
    key_match: spec_fn(GPage, Seq<char>) -> bool,
)
    requires
        a.len() == b.len(),
        forall|k: int| 0 <= k < a.len() ==> (#[trigger] b[k]).key == a[k].key,
        forall|k: int|
            0 <= k < a.len() ==> (#[trigger] b[k]).idxs.to_multiset() == a[k].idxs.to_multiset(),
        forall|k: int| 0 <= k < a.len() ==> idxs_valid((#[trigger] b[k]).idxs, gp.len() as int),
        buckets_partition(gp, a, key_match),
    ensures
        buckets_partition(gp, b, key_match),
{
    assert forall|k: int| 0 <= k < b.len() implies (#[trigger] b[k].idxs).no_duplicates() by {
        lemma_same_multiset_membership(a[k].idxs, b[k].idxs);
        assert(idxs_valid(a[k].idxs, gp.len() as int));
        assert(a[k].idxs.no_duplicates());
    }
    assert forall|k: int, i: usize|
        0 <= k < b.len() && (i as int) < gp.len() implies ((#[trigger] idx_in(b[k].idxs, i))
        <==> key_match(gp[i as int], b[k].key)) by {
        lemma_same_multiset_membership(a[k].idxs, b[k].idxs);
        assert(idx_in(a[k].idxs, i) <==> key_match(gp[i as int], a[k].key));
    }
}

/// Sort every bucket's page list for a listing, keys and contents
/// untouched.
fn sort_buckets(pages: &Vec<Page>, bs: Vec<Bucket>) -> (r: Vec<Bucket>)
    requires
        forall|b: int|
            0 <= b < bs@.len() ==> idxs_valid(
                (#[trigger] bviews(bs@)[b]).idxs,
                pviews(pages@).len() as int,
            ),
    ensures
        bviews(r@).len() == bviews(bs@).len(),
        forall|b: int|
            0 <= b < bs@.len() ==> (#[trigger] bviews(r@)[b]).key == bviews(bs@)[b].key,
        forall|b: int|
            0 <= b < bs@.len() ==> (#[trigger] bviews(r@)[b]).idxs.to_multiset() == bviews(
                bs@,
            )[b].idxs.to_multiset(),
        forall|b: int|
            0 <= b < bs@.len() ==> sorted_desc(pviews(pages@), (#[trigger] bviews(r@)[b]).idxs),
        forall|b: int|
            0 <= b < bs@.len() ==> idxs_valid(
                (#[trigger] bviews(r@)[b]).idxs,
                pviews(pages@).len() as int,
            ),
{
    let ghost orig = bviews(bs@);
    let ghost gp = pviews(pages@);
    let mut rest = bs;
    let mut out: Vec<Bucket> = Vec::new();
    while rest.len() > 0
        invariant
            gp == pviews(pages@),
            out@.len() + rest@.len() == orig.len(),
            forall|k: int| 0 <= k < rest@.len() ==> (#[trigger] rest@[k])@ == orig[out@.len() + k],
            forall|b: int|
                0 <= b < out@.len() ==> (#[trigger] bviews(out@)[b]).key == orig[b].key,
            forall|b: int|
                0 <= b < out@.len() ==> (#[trigger] bviews(out@)[b]).idxs.to_multiset()
                    == orig[b].idxs.to_multiset(),
            forall|b: int|
                0 <= b < out@.len() ==> sorted_desc(gp, (#[trigger] bviews(out@)[b]).idxs),
            forall|b: int|
                0 <= b < out@.len() ==> idxs_valid((#[trigger] bviews(out@)[b]).idxs, gp.len() as int),
            forall|b: int| 0 <= b < orig.len() ==> idxs_valid((#[trigger] orig[b]).idxs, gp.len() as int),
        decreases rest@.len(),
    {
        let ghost pos = out@.len() as int;
        let mut bucket = rest.remove(0);
        proof {
            assert(bucket@ == orig[pos]);
        }
        let ghost pre_idxs = bucket.idxs@;
        sort_page_indices(pages, &mut bucket.idxs);
        let ghost gb = bucket@;
        proof {
            assert(gb.key == orig[pos].key);
            assert(gb.idxs.to_multiset() == orig[pos].idxs.to_multiset());
            assert(sorted_desc(gp, gb.idxs));
            assert(idxs_valid(gb.idxs, gp.len() as int));
        }
        let ghost pre_out = out@;
        out.push(bucket);
        proof {
            assert(out@ == pre_out.push(bucket));
            assert(bviews(out@) =~= bviews(pre_out).push(gb));
            assert forall|b: int| 0 <= b < out@.len() implies (#[trigger] bviews(out@)[b]).key
                == orig[b].key && bviews(out@)[b].idxs.to_multiset() == orig[b].idxs.to_multiset()
                && sorted_desc(gp, bviews(out@)[b].idxs) && idxs_valid(
                bviews(out@)[b].idxs,
                gp.len() as int,
            ) by {
                if b < pre_out.len() {
                    assert(bviews(out@)[b] == bviews(pre_out)[b]);
                } else {
                    assert(bviews(out@)[b] == gb);
                }
            }
            assert(forall|k: int|
                0 <= k < rest@.len() ==> (#[trigger] rest@[k])@ == orig[out@.len() + k]);
        }
    }
    out
}

impl SiteMap {
    /// All the static files found in the content directory, in walk
    /// order.
    pub fn statics(&self) -> (r: &Vec<Static>)
        ensures
            sviews(r@) == self@.statics,
    {
        &self.statics
    }

    /// All of the pages, in walk order.
    pub fn pages(&self) -> (r: &Vec<Page>)
        ensures
            pviews(r@) == self@.pages,
    {
        &self.pages
    }

    /// The content root this index was built against.
    pub fn root(&self) -> (r: &String)
        ensures
            r@ == self@.root,
    {
        &self.root
    }

    /// Fetch a page by name.  Of several pages sharing the name this
    /// returns the first one encountered in walk order.
    pub fn page_by_name(&self, name: &str) -> (r: Option<&Page>)
        ensures
            (match first_with_name(self@.pages, name@) {
                Some(i) => r matches Some(p) && p@ == self@.pages[i],
                None => r is None,
            }),
    {
        let ghost gp = self@.pages;
        let n = self.pages.len();
        let mut j: usize = 0;
        while j < n
            invariant
                n == self.pages@.len(),
                j <= n,
                gp == pviews(self.pages@),
                forall|t: int| 0 <= t < j ==> gp[t].name != name@,
            decreases n - j,
        {
            proof {
                assert(gp[j as int] == self.pages@[j as int]@);
            }
            if str_eq(self.pages[j].name.as_str(), name) {
                proof {
                    lemma_first_with_name(gp, name@, j as int);
                }
                return Some(&self.pages[j]);
            }
            j = j + 1;
        }
        proof {
            lemma_no_page_with_name(gp, name@);
        }
        None
    }

    /// The index of the page `page_by_name` would return.
    pub fn page_index_by_name(&self, name: &str) -> (r: Option<usize>)
        ensures
            (match first_with_name(self@.pages, name@) {
                Some(i) => r matches Some(k) && k as int == i,
                None => r is None,
            }),
    {
        let ghost gp = self@.pages;
        let n = self.pages.len();
        let mut j: usize = 0;
        while j < n
            invariant
                n == self.pages@.len(),
                j <= n,
                gp == pviews(self.pages@),
                forall|t: int| 0 <= t < j ==> gp[t].name != name@,
            decreases n - j,
        {
            proof {
                assert(gp[j as int] == self.pages@[j as int]@);
            }
            if str_eq(self.pages[j].name.as_str(), name) {
                proof {
                    lemma_first_with_name(gp, name@, j as int);
                }
                return Some(j);
            }
            j = j + 1;
        }
        proof {
            lemma_no_page_with_name(gp, name@);
        }
        None
    }

    /// The folder buckets: each folder that directly holds pages, with
    /// its pages sorted newest-first.
    pub fn folders(&self) -> (r: &Vec<Bucket>)
        ensures
            bviews(r@) == self@.folders,
    {
        &self.folders
    }

    /// The tag buckets: each tag in use, with its pages sorted
    /// newest-first.
    pub fn pages_by_tag(&self) -> (r: &Vec<Bucket>)
        ensures
            bviews(r@) == self@.by_tag,
    {
        &self.pages_by_tag
    }

    /// Filter a listing down to its non-draft pages, keeping the
    /// order: drafts never appear on listing pages.
    pub fn non_draft(&self, idxs: &Vec<usize>) -> (r: Vec<usize>)
        requires
            idxs_valid(idxs@, self@.pages.len() as int),
        ensures
            r@ == non_draft_spec(self@.pages, idxs@),
    {
        let ghost gp = self@.pages;
        let mut out: Vec<usize> = Vec::new();
        let mut k: usize = 0;
        while k < idxs.len()
            invariant
                k <= idxs@.len(),
                gp == self@.pages,
                idxs_valid(idxs@, gp.len() as int),
                out@ =~= non_draft_spec(gp, idxs@.take(k as int)),
            decreases idxs@.len() - k,
        {
            let i = idxs[k];
            proof {
                assert(idxs@.take(k as int + 1) =~= idxs@.take(k as int) + seq![i]);
                lemma_non_draft_app(gp, idxs@.take(k as int), seq![i]);
                assert(seq![i].drop_first() =~= Seq::<usize>::empty());
                assert(non_draft_spec(gp, Seq::<usize>::empty()) =~= Seq::<usize>::empty());
                assert(gp[i as int] == self.pages@[i as int]@);
            }
            if !self.pages[i].front_matter.draft {
                out.push(i);
            }
            k = k + 1;
        }
        proof {
            assert(idxs@.take(idxs@.len() as int) =~= idxs@);
        }
        out
    }

    /// The pages a text's references resolve to: each distinct target,
    /// first mention first.
    pub fn resolve_targets(&self, text: &str) -> (r: Vec<usize>)
        ensures
            r@ =~= targets_spec(self@.pages, text@),
            idxs_valid(r@, self@.pages.len() as int),
    {
        let ghost gp = self@.pages;
        let links = crate::wikilink::WikiLink::extract(text);
        let ghost gls = crate::wikilink::links_of(crate::wikilink::segments_spec(text@));
        proof {
            assert(links@.map_values(|w: crate::wikilink::WikiLink| w@) =~= gls);
            assert(gls.skip(0) =~= gls);
        }
        let mut out: Vec<usize> = Vec::new();
        let nl = links.len();
        let mut j: usize = 0;
        while j < nl
            invariant
                gp == self@.pages,
                nl == links@.len(),
                j <= nl,
                links@.map_values(|w: crate::wikilink::WikiLink| w@) =~= gls,
                targets_spec(gp, text@) =~= link_targets(gp, gls.skip(j as int), out@),
                idxs_valid(out@, gp.len() as int),
            decreases nl - j,
        {
            proof {
                assert(gls[j as int] == links@[j as int]@);
                assert(gls.skip(j as int)[0] == gls[j as int]);
                assert(gls.skip(j as int).drop_first() =~= gls.skip(j as int + 1));
                lemma_first_with_name_range(gp, links@[j as int].name@);
            }
            match self.page_index_by_name(links[j].name.as_str()) {
                Some(k) => {
                    proof {
                        let i = first_with_name(gp, gls[j as int].name)->Some_0;
                        assert(k as int == i);
                        assert(i as usize == k);
                    }
                    if !idxs_contains(&out, k) {
                        out.push(k);
                    }
                },
                None => {},
            }
            j = j + 1;
        }
        proof {
            assert(gls.skip(nl as int).len() == 0);
        }
        out
    }

    /// Record, after a page's text has been resolved, which pages it
    /// links to; the index itself stays as built.
    pub fn register_links(&mut self, source: usize, targets: &Vec<usize>)
        ensures
            final(self)@.edges =~= old(self)@.edges + Seq::new(
                targets@.len(),
                |i: int| (source, targets@[i]),
            ),
            final(self)@.root == old(self)@.root,
            final(self)@.out_root == old(self)@.out_root,
            final(self)@.statics == old(self)@.statics,
            final(self)@.pages == old(self)@.pages,
            final(self)@.by_name == old(self)@.by_name,
            final(self)@.by_tag == old(self)@.by_tag,
            final(self)@.folders == old(self)@.folders,
    {
        let nt = targets.len();
        let mut j: usize = 0;
        while j < nt
            invariant
                nt == targets@.len(),
                j <= nt,
                self.edges@ =~= old(self).edges@ + Seq::new(
                    j as nat,
                    |i: int| (source, targets@[i]),
                ),
                self.root == old(self).root,
                self.out_root == old(self).out_root,
                self.statics == old(self).statics,
                self.pages == old(self).pages,
                self.pages_by_name == old(self).pages_by_name,
                self.pages_by_tag == old(self).pages_by_tag,
                self.folders == old(self).folders,
            decreases nt - j,
        {
            self.edges.push((source, targets[j]));
            proof {
                assert(self.edges@ =~= old(self).edges@ + Seq::new(
                    (j + 1) as nat,
                    |i: int| (source, targets@[i]),
                ));
            }
            j = j + 1;
        }
    }

    /// Every page that registered a link to `target`, in registration
    /// order: the backlinks of `target`.
    pub fn backlinks(&self, target: usize) -> (r: Vec<usize>)
        ensures
            r@ =~= back_sources(self@.edges, target),
    {
        let ghost ge = self@.edges;
        let mut out: Vec<usize> = Vec::new();
        let ne = self.edges.len();
        let mut j: usize = 0;
        proof {
            assert(ge.skip(0) =~= ge);
        }
        while j < ne
            invariant
                ge == self@.edges,
                ne == ge.len(),
                j <= ne,
                back_sources(ge, target) =~= out@ + back_sources(ge.skip(j as int), target),
            decreases ne - j,
        {
            proof {
                assert(ge.skip(j as int)[0] == ge[j as int]);
                assert(ge.skip(j as int).drop_first() =~= ge.skip(j as int + 1));
            }
            let (s, t) = self.edges[j];
            if t == target {
                out.push(s);
            }
            proof {
                assert(back_sources(ge, target) =~= out@ + back_sources(
                    ge.skip(j as int + 1),
                    target,
                ));
            }
            j = j + 1;
        }
        proof {
            assert(ge.skip(ne as int).len() == 0);
            assert(ge.skip(0) =~= ge);
        }
        out
    }

    /// Build the index from the files a walk of the content tree
    /// found: classify each one, extract every document's metadata
    /// with the fallback rules, derive the by-name, by-tag and
    /// by-folder buckets, and sort each bucket newest-first.  Returns
    /// the index together with the duplicate-name diagnostics.
    #[verifier::rlimit(100)]
    pub fn build(
        config: &crate::config::Config,
        in_path: &str,
        out_path: &str,
        files: &Vec<ScanFile>,
    ) -> (r: Result<(SiteMap, Vec<Bucket>), BuildError>)
        requires
            forall|k: int|
                0 <= k < files@.len() ==> 0 <= (#[trigger] files@[k]).mtime_epoch
                    <= crate::frontmatter::MAX_FORMATTABLE_EPOCH,
        ensures
            r matches Ok(pair) ==> build_ok(
                config@,
                in_path@,
                out_path@,
                fviews(files@),
                pair.0@,
                bviews(pair.1@),
            ),
            r matches Err(BuildError::Path(p)) ==> exists|k: int|
                0 <= k < files@.len() && (#[trigger] fviews(files@)[k]).path == p@ && (
                strip_prefix_spec(in_path@, fviews(files@)[k].path) is None || strip_prefix_spec(
                    in_path@,
                    parent_spec(fviews(files@)[k].path),
                ) is None),
            r matches Err(BuildError::Parse(p, e)) ==> exists|k: int|
                0 <= k < files@.len() && (#[trigger] fviews(files@)[k]).path == p@ && is_doc_file(
                    config@,
                    in_path@,
                    fviews(files@)[k],
                ) && !crate::frontmatter::header_opt_ok(fviews(files@)[k].yaml),
            ((forall|k: int|
                0 <= k < files@.len() ==> (match strip_prefix_spec(
                    in_path@,
                    (#[trigger] fviews(files@)[k]).path,
                ) {
                    Some(rel) => rel.len() > 0,
                    None => false,
                })) && (forall|k: int|
                0 <= k < files@.len() && is_doc_file(config@, in_path@, #[trigger] fviews(
                    files@,
                )[k]) ==> crate::frontmatter::header_opt_ok(fviews(files@)[k].yaml)
                    && strip_prefix_spec(
                    in_path@,
                    parent_spec(fviews(files@)[k].path),
                ) is Some)) ==> r is Ok,
    {
        let ghost gfiles = fviews(files@);
        let ghost cfg = config@;
        let ghost root = in_path@;
        let ghost oroot = out_path@;
        let mut statics: Vec<Static> = Vec::new();
        let mut pages: Vec<Page> = Vec::new();
        let n = files.len();
        let mut i: usize = 0;
        while i < n
            invariant
                n == files@.len(),
                i <= n,
                gfiles == fviews(files@),
                cfg == config@,
                root == in_path@,
                oroot == out_path@,
                forall|k: int|
                    0 <= k < files@.len() ==> 0 <= (#[trigger] files@[k]).mtime_epoch
                        <= crate::frontmatter::MAX_FORMATTABLE_EPOCH,
                sviews(statics@) =~= assets_of(cfg, root, gfiles.take(i as int)).map_values(
                    |f: GScanFile| asset_spec(root, oroot, f),
                ),
                pviews(pages@).len() == docs_of(cfg, root, gfiles.take(i as int)).len(),
                forall|k: int|
                    0 <= k < pviews(pages@).len() ==> page_path_ok(
                        root,
                        oroot,
                        docs_of(cfg, root, gfiles.take(i as int))[k],
                        #[trigger] pviews(pages@)[k],
                    ),
                forall|k: int|
                    0 <= k < pviews(pages@).len() ==> page_fm_ok(
                        docs_of(cfg, root, gfiles.take(i as int))[k],
                        #[trigger] pviews(pages@)[k],
                    ),
            decreases n - i,
        {
            let ghost f = gfiles[i as int];
            proof {
                assert(f == files@[i as int]@);
                assert(gfiles.take(i as int + 1) =~= gfiles.take(i as int) + seq![f]);
                lemma_assets_of_app(cfg, root, gfiles.take(i as int), seq![f]);
                lemma_docs_of_app(cfg, root, gfiles.take(i as int), seq![f]);
                assert(seq![f][0] == f);
                assert(seq![f].drop_first() =~= Seq::<GScanFile>::empty());
                assert(assets_of(cfg, root, Seq::<GScanFile>::empty()) =~= Seq::<
                    GScanFile,
                >::empty());
                assert(docs_of(cfg, root, Seq::<GScanFile>::empty()) =~= Seq::<GScanFile>::empty());
            }
            let path = files[i].path.as_str();
            let rel = match strip_prefix(in_path, path) {
                Some(rel) => rel,
                None => {
                    proof {
                        assert(strip_prefix_spec(root, fviews(files@)[i as int].path) is None);
                    }
                    return Err(BuildError::Path(path.to_owned()));
                },
            };
            if rel_under_ignored(config, rel.as_str()) {
                proof {
                    assert(!is_asset_file(cfg, root, f));
                    assert(!is_doc_file(cfg, root, f));
                    assert(assets_of(cfg, root, seq![f]) =~= Seq::<GScanFile>::empty());
                    assert(docs_of(cfg, root, seq![f]) =~= Seq::<GScanFile>::empty());
                    assert(assets_of(cfg, root, gfiles.take(i as int + 1)) =~= assets_of(
                        cfg,
                        root,
                        gfiles.take(i as int),
                    ));
                    assert(docs_of(cfg, root, gfiles.take(i as int + 1)) =~= docs_of(
                        cfg,
                        root,
                        gfiles.take(i as int),
                    ));
                }
            } else {
                match classify(path) {
                    FileKind::Asset => {
                        let st = Static {
                            in_path: path.to_owned(),
                            out_path: join_path(out_path, rel.as_str()),
                        };
                        proof {
                            assert(is_asset_file(cfg, root, f));
                            assert(!is_doc_file(cfg, root, f));
                            assert(st@ == asset_spec(root, oroot, f));
                            assert(assets_of(cfg, root, seq![f]) =~= seq![f]);
                            assert(docs_of(cfg, root, seq![f]) =~= Seq::<GScanFile>::empty());
                            assert(sviews(statics@.push(st)) =~= sviews(statics@).push(st@));
                            assert(assets_of(cfg, root, gfiles.take(i as int + 1)) =~= assets_of(
                                cfg,
                                root,
                                gfiles.take(i as int),
                            ).push(f));
                            assert(assets_of(cfg, root, gfiles.take(i as int + 1)).map_values(
                                |f2: GScanFile| asset_spec(root, oroot, f2),
                            ) =~= assets_of(cfg, root, gfiles.take(i as int)).map_values(
                                |f2: GScanFile| asset_spec(root, oroot, f2),
                            ).push(asset_spec(root, oroot, f)));
                            assert(docs_of(cfg, root, gfiles.take(i as int + 1)) =~= docs_of(
                                cfg,
                                root,
                                gfiles.take(i as int),
                            ));
                        }
                        statics.push(st);
                    },
                    FileKind::Document => {
                        proof {
                            assert(is_doc_file(cfg, root, f));
                            assert(!is_asset_file(cfg, root, f));
                            assert(assets_of(cfg, root, seq![f]) =~= Seq::<GScanFile>::empty());
                            assert(docs_of(cfg, root, seq![f]) =~= seq![f]);
                        }
                        let stem = file_stem(path);
                        let yaml_ref: Option<&str> = match &files[i].yaml {
                            Some(y) => Some(y.as_str()),
                            None => None,
                        };
                        let fm = match crate::frontmatter::FrontMatter::try_from_yaml(
                            stem.as_str(),
                            files[i].mtime_epoch,
                            yaml_ref,
                        ) {
                            Ok(fm) => fm,
                            Err(e) => {
                                proof {
                                    assert(fviews(files@)[i as int].yaml is Some);
                                    assert(is_doc_file(cfg, root, fviews(files@)[i as int]));
                                    let t = fviews(files@)[i as int].yaml->Some_0;
                                    assert(!crate::frontmatter::header_ok(t)) by {
                                        if crate::frontmatter::header_ok(t) {
                                            assert(false);
                                        }
                                    }
                                    assert(!crate::frontmatter::header_opt_ok(
                                        fviews(files@)[i as int].yaml,
                                    ));
                                }
                                return Err(BuildError::Parse(path.to_owned(), e));
                            },
                        };
                        let html_rel = to_html_path(rel.as_str());
                        let mut link = String::new();
                        push_char(&mut link, '/');
                        link.append(html_rel.as_str());
                        let out_p = join_path(out_path, html_rel.as_str());
                        let page = Page {
                            name: stem,
                            link,
                            front_matter: fm,
                            in_path: path.to_owned(),
                            out_path: out_p,
                        };
                        proof {
                            assert(link@ =~= seq!['/'] + with_html_ext(rel@));
                            assert(page_path_ok(root, oroot, f, page@));
                            if f.yaml is Some {
                                // no error came back, so the header passed
                                // every named check and the record is the
                                // named field reads
                                let t = f.yaml->Some_0;
                                assert(crate::yamlval::yaml_wf(t));
                                assert(crate::yamlval::ymapping_of(t));
                                assert(crate::frontmatter::first_bad_field(t) is None);
                            }
                            assert(page_fm_ok(f, page@));
                            assert(pviews(pages@.push(page)) =~= pviews(pages@).push(page@));
                            assert(docs_of(cfg, root, gfiles.take(i as int + 1)) =~= docs_of(
                                cfg,
                                root,
                                gfiles.take(i as int),
                            ).push(f));
                            assert(assets_of(cfg, root, gfiles.take(i as int + 1)) =~= assets_of(
                                cfg,
                                root,
                                gfiles.take(i as int),
                            ));
                        }
                        pages.push(page);
                    },
                    FileKind::Skipped => {
                        proof {
                            assert(!is_asset_file(cfg, root, f));
                            assert(!is_doc_file(cfg, root, f));
                            assert(assets_of(cfg, root, seq![f]) =~= Seq::<GScanFile>::empty());
                            assert(docs_of(cfg, root, seq![f]) =~= Seq::<GScanFile>::empty());
                            assert(assets_of(cfg, root, gfiles.take(i as int + 1)) =~= assets_of(
                                cfg,
                                root,
                                gfiles.take(i as int),
                            ));
                            assert(docs_of(cfg, root, gfiles.take(i as int + 1)) =~= docs_of(
                                cfg,
                                root,
                                gfiles.take(i as int),
                            ));
                        }
                    },
                }
            }
            i = i + 1;
        }
        proof {
            assert(gfiles.take(n as int) =~= gfiles);
        }
        let ghost docs = docs_of(cfg, root, gfiles);
        let ghost gp = pviews(pages@);
        let np = pages.len();
        proof {
            assert(gp.len() == docs.len());
        }
        // group by name
        let mut by_name: Vec<Bucket> = Vec::new();
        let mut m: usize = 0;
        while m < np
            invariant
                np == pages@.len(),
                m <= np,
                gp == pviews(pages@),
                forall|b1: int, b2: int|
                    0 <= b1 < b2 < bviews(by_name@).len() ==> bviews(by_name@)[b1].key != bviews(
                        by_name@,
                    )[b2].key,
                forall|b: int|
                    0 <= b < bviews(by_name@).len() ==> strictly_increasing(
                        (#[trigger] bviews(by_name@)[b]).idxs,
                    ),
                forall|b: int, k: int|
                    0 <= b < bviews(by_name@).len() && 0 <= k < bviews(by_name@)[b].idxs.len()
                        ==> (#[trigger] bviews(by_name@)[b].idxs[k]) < m,
                forall|b: int, x: usize|
                    0 <= b < bviews(by_name@).len() && (x as int) < gp.len() ==> ((
                    #[trigger] idx_in(bviews(by_name@)[b].idxs, x)) <==> ((x as int) < m && gp[
                        x as int
                    ].name == bviews(by_name@)[b].key)),
                names_covered(gp, bviews(by_name@), m as int),
            decreases np - m,
        {
            let ghost gbs = bviews(by_name@);
            let ghost key = gp[m as int].name;
            proof {
                assert(gp[m as int] == pages@[m as int]@);
                assert forall|b: int, k: int|
                    0 <= b < gbs.len() && 0 <= k < gbs[b].idxs.len() implies (#[trigger] gbs[b].idxs[k])
                    <= m by {
                    assert(gbs[b].idxs[k] < m);
                }
                lemma_bucket_add(gbs, key, m);
            }
            add_to_bucket(&mut by_name, pages[m].name.as_str(), m);
            proof {
                let t = bucket_add(gbs, key, m);
                assert(bviews(by_name@) =~= t);
                // a fresh bucket's key names no earlier page
                assert forall|b: int, x: usize|
                    0 <= b < t.len() && (x as int) < gp.len() implies ((#[trigger] idx_in(
                    t[b].idxs,
                    x,
                )) <==> ((x as int) < m + 1 && gp[x as int].name == t[b].key)) by {
                    if b < gbs.len() {
                        if (x as int) < gp.len() {
                            assert(idx_in(gbs[b].idxs, x) <==> ((x as int) < m && gp[x as int].name
                                == gbs[b].key));
                        }
                    } else {
                        // the appended bucket: only `m` inside, and no earlier
                        // page bears the key, else its bucket would exist
                        if (x as int) < m && gp[x as int].name == key {
                            assert(find_bucket(gbs, gp[x as int].name) is Some);
                            lemma_find_bucket_range(gbs, gp[x as int].name);
                            let b0 = find_bucket(gbs, gp[x as int].name)->Some_0;
                            assert(gbs[b0].key != key);
                        }
                    }
                }
                // every processed page's name has a bucket
                assert(names_covered(gp, bviews(by_name@), m as int + 1)) by {
                    assert forall|t2: int| 0 <= t2 < m + 1 implies find_bucket(
                        bviews(by_name@),
                        (#[trigger] gp[t2]).name,
                    ) is Some by {
                        if t2 < m {
                            assert(find_bucket(gbs, gp[t2].name) is Some);
                            lemma_find_bucket_range(gbs, gp[t2].name);
                            let b0 = find_bucket(gbs, gp[t2].name)->Some_0;
                            lemma_find_bucket_some_if(t, gp[t2].name, b0);
                        } else {
                            assert(find_bucket(t, key) is Some);
                        }
                    }
                }
            }
            m = m + 1;
        }
        // duplicate-name diagnostics, in walk order, before sorting
        let mut warnings: Vec<Bucket> = Vec::new();
        let mut w: usize = 0;
        while w < by_name.len()
            invariant
                gp == pviews(pages@),
                w <= by_name@.len(),
                forall|b1: int, b2: int|
                    0 <= b1 < b2 < bviews(by_name@).len() ==> bviews(by_name@)[b1].key != bviews(
                        by_name@,
                    )[b2].key,
                forall|b: int|
                    0 <= b < bviews(by_name@).len() ==> strictly_increasing(
                        (#[trigger] bviews(by_name@)[b]).idxs,
                    ),
                forall|b: int, k: int|
                    0 <= b < bviews(by_name@).len() && 0 <= k < bviews(by_name@)[b].idxs.len()
                        ==> (#[trigger] bviews(by_name@)[b].idxs[k]) < gp.len(),
                forall|b: int, x: usize|
                    0 <= b < bviews(by_name@).len() && (x as int) < gp.len() ==> ((
                    #[trigger] idx_in(bviews(by_name@)[b].idxs, x)) <==> gp[x as int].name
                        == bviews(by_name@)[b].key),
                forall|v: int|
                    0 <= v < bviews(warnings@).len() ==> (#[trigger] bviews(
                        warnings@,
                    )[v]).idxs.len() >= 2 && strictly_increasing(bviews(warnings@)[v].idxs)
                        && idxs_valid(bviews(warnings@)[v].idxs, gp.len() as int),
                forall|v: int, x: usize|
                    0 <= v < bviews(warnings@).len() && (x as int) < gp.len() ==> ((
                    #[trigger] idx_in(bviews(warnings@)[v].idxs, x)) <==> gp[x as int].name
                        == bviews(warnings@)[v].key),
                dups_warned(bviews(by_name@), bviews(warnings@), w as int),
            decreases by_name@.len() - w,
        {
            proof {
                assert(bviews(by_name@)[w as int] == by_name@[w as int]@);
            }
            if by_name[w].idxs.len() >= 2 {
                let wkey = by_name[w].key.as_str().to_owned();
                let widxs = copy_idxs(&by_name[w].idxs);
                let wb = Bucket { key: wkey, idxs: widxs };
                let ghost gwarns = bviews(warnings@);
                proof {
                    assert(wb@.key == bviews(by_name@)[w as int].key);
                    assert(wb@.idxs =~= bviews(by_name@)[w as int].idxs);
                    assert(bviews(warnings@.push(wb)) =~= bviews(warnings@).push(wb@));
                }
                warnings.push(wb);
                proof {
                    assert(bviews(warnings@) =~= gwarns.push(wb@));
                    assert(dups_warned(bviews(by_name@), bviews(warnings@), w as int + 1)) by {
                        assert forall|t2: int|
                            0 <= t2 < w + 1 && (#[trigger] bviews(by_name@)[t2].idxs).len() >= 2
                            implies find_bucket(bviews(warnings@), bviews(by_name@)[t2].key)
                            is Some by {
                            if t2 < w {
                                assert(find_bucket(gwarns, bviews(by_name@)[t2].key) is Some);
                                lemma_find_bucket_range(gwarns, bviews(by_name@)[t2].key);
                                let v0 = find_bucket(gwarns, bviews(by_name@)[t2].key)->Some_0;
                                lemma_find_bucket_some_if(
                                    bviews(warnings@),
                                    bviews(by_name@)[t2].key,
                                    v0,
                                );
                            } else {
                                assert(bviews(warnings@)[gwarns.len() as int].key == bviews(
                                    by_name@,
                                )[t2].key);
                                lemma_find_bucket_some_if(
                                    bviews(warnings@),
                                    bviews(by_name@)[t2].key,
                                    gwarns.len() as int,
                                );
                            }
                        }
                    }
                }
            } else {
                proof {
                    assert(dups_warned(bviews(by_name@), bviews(warnings@), w as int + 1)) by {
                        assert(bviews(by_name@)[w as int].idxs.len() < 2);
                    }
                }
            }
            w = w + 1;
        }
        // group by tag
        let mut by_tag: Vec<Bucket> = Vec::new();
        let mut m2: usize = 0;
        while m2 < np
            invariant
                np == pages@.len(),
                m2 <= np,
                gp == pviews(pages@),
                forall|b1: int, b2: int|
                    0 <= b1 < b2 < bviews(by_tag@).len() ==> bviews(by_tag@)[b1].key != bviews(
                        by_tag@,
                    )[b2].key,
                forall|b: int|
                    0 <= b < bviews(by_tag@).len() ==> strictly_increasing(
                        (#[trigger] bviews(by_tag@)[b]).idxs,
                    ),
                forall|b: int, k: int|
                    0 <= b < bviews(by_tag@).len() && 0 <= k < bviews(by_tag@)[b].idxs.len() ==> (
                    #[trigger] bviews(by_tag@)[b].idxs[k]) < m2,
                forall|b: int, x: usize|
                    0 <= b < bviews(by_tag@).len() && (x as int) < gp.len() ==> ((#[trigger] idx_in(
                        bviews(by_tag@)[b].idxs,
                        x,
                    )) <==> ((x as int) < m2 && tag_matches(gp[x as int], bviews(by_tag@)[b].key))),
                tags_covered(gp, bviews(by_tag@), m2 as int),
            decreases np - m2,
        {
            let ghost gtags = gp[m2 as int].front_matter.tags;
            proof {
                assert(gp[m2 as int] == pages@[m2 as int]@);
                assert(gtags == pages@[m2 as int].front_matter.tags.deep_view());
            }
            let ntags = pages[m2].front_matter.tags.len();
            proof {
                assert(gtags.take(0) =~= Seq::<Seq<char>>::empty());
                assert forall|b: int| 0 <= b < bviews(by_tag@).len() implies !(#[trigger] idx_in(
                    bviews(by_tag@)[b].idxs,
                    m2,
                )) by {
                    if idx_in(bviews(by_tag@)[b].idxs, m2) {
                        let k = choose|k: int|
                            0 <= k < bviews(by_tag@)[b].idxs.len() && bviews(by_tag@)[b].idxs[k]
                                == m2;
                        assert(bviews(by_tag@)[b].idxs[k] < m2);
                    }
                }
            }
            let mut tt: usize = 0;
            while tt < ntags
                invariant
                    np == pages@.len(),
                    m2 < np,
                    gp == pviews(pages@),
                    gtags == gp[m2 as int].front_matter.tags,
                    ntags == gtags.len(),
                    tt <= ntags,
                    gp[m2 as int] == pages@[m2 as int]@,
                    forall|b1: int, b2: int|
                        0 <= b1 < b2 < bviews(by_tag@).len() ==> bviews(by_tag@)[b1].key != bviews(
                            by_tag@,
                        )[b2].key,
                    forall|b: int|
                        0 <= b < bviews(by_tag@).len() ==> strictly_increasing(
                            (#[trigger] bviews(by_tag@)[b]).idxs,
                        ),
                    forall|b: int, k: int|
                        0 <= b < bviews(by_tag@).len() && 0 <= k < bviews(by_tag@)[b].idxs.len()
                            ==> (#[trigger] bviews(by_tag@)[b].idxs[k]) <= m2,
                    forall|b: int, x: usize|
                        0 <= b < bviews(by_tag@).len() && (x as int) < gp.len() && (x as int) != (
                        m2 as int) ==> ((#[trigger] idx_in(bviews(by_tag@)[b].idxs, x)) <==> ((
                        x as int) < m2 && tag_matches(gp[x as int], bviews(by_tag@)[b].key))),
                    forall|b: int|
                        0 <= b < bviews(by_tag@).len() ==> ((#[trigger] idx_in(
                            bviews(by_tag@)[b].idxs,
                            m2,
                        )) <==> gtags.take(tt as int).contains(bviews(by_tag@)[b].key)),
                    tags_covered(gp, bviews(by_tag@), m2 as int),
                    keys_covered(gtags, bviews(by_tag@), tt as int),
                decreases ntags - tt,
            {
                let ghost gbs = bviews(by_tag@);
                let ghost key = gtags[tt as int];
                proof {
                    assert(pages@[m2 as int].front_matter.tags.deep_view()[tt as int] == pages@[
                        m2 as int
                    ].front_matter.tags@[tt as int]@);
                    lemma_bucket_add(gbs, key, m2);
                }
                add_to_bucket(&mut by_tag, pages[m2].front_matter.tags[tt].as_str(), m2);
                proof {
                    let t = bucket_add(gbs, key, m2);
                    assert(bviews(by_tag@) =~= t);
                    assert(gtags.take(tt as int + 1) =~= gtags.take(tt as int).push(key));
                    assert forall|b: int, x: usize|
                        0 <= b < t.len() && (x as int) < gp.len() && (x as int) != (m2 as int)
                            implies ((#[trigger] idx_in(t[b].idxs, x)) <==> ((x as int) < m2
                            && tag_matches(gp[x as int], t[b].key))) by {
                        if b < gbs.len() {
                            assert(idx_in(gbs[b].idxs, x) <==> ((x as int) < m2 && tag_matches(
                                gp[x as int],
                                gbs[b].key,
                            )));
                        } else {
                            if (x as int) < m2 && tag_matches(gp[x as int], key) {
                                let t2 = choose|t2: int|
                                    0 <= t2 < gp[x as int].front_matter.tags.len() && gp[
                                        x as int
                                    ].front_matter.tags[t2] == key;
                                assert(find_bucket(gbs, gp[x as int].front_matter.tags[t2])
                                    is Some);
                                lemma_find_bucket_range(
                                    gbs,
                                    gp[x as int].front_matter.tags[t2],
                                );
                                let b0 = find_bucket(
                                    gbs,
                                    gp[x as int].front_matter.tags[t2],
                                )->Some_0;
                                assert(gbs[b0].key != key);
                            }
                        }
                    }
                    assert forall|b: int| 0 <= b < t.len() implies ((#[trigger] idx_in(
                        t[b].idxs,
                        m2,
                    )) <==> gtags.take(tt as int + 1).contains(t[b].key)) by {
                        if b < gbs.len() {
                            assert(idx_in(gbs[b].idxs, m2) <==> gtags.take(tt as int).contains(
                                gbs[b].key,
                            ));
                            if t[b].key == key {
                                assert(gtags.take(tt as int + 1)[tt as int] == key);
                            } else {
                                assert(gtags.take(tt as int + 1).contains(t[b].key)
                                    ==> gtags.take(tt as int).contains(t[b].key)) by {
                                    if gtags.take(tt as int + 1).contains(t[b].key) {
                                        let q = choose|q: int|
                                            0 <= q < gtags.take(tt as int + 1).len() && (
                                            #[trigger] gtags.take(tt as int + 1)[q]) == t[b].key;
                                        assert(q < tt as int);
                                        assert(gtags.take(tt as int)[q] == t[b].key);
                                    }
                                }
                                assert(gtags.take(tt as int).contains(t[b].key) ==> gtags.take(
                                    tt as int + 1,
                                ).contains(t[b].key)) by {
                                    if gtags.take(tt as int).contains(t[b].key) {
                                        let q = choose|q: int|
                                            0 <= q < gtags.take(tt as int).len() && (
                                            #[trigger] gtags.take(tt as int)[q]) == t[b].key;
                                        assert(gtags.take(tt as int + 1)[q] == t[b].key);
                                    }
                                }
                            }
                        } else {
                            assert(t[b].key == key);
                            assert(gtags.take(tt as int + 1)[tt as int] == key);
                        }
                    }
                    // tag completeness for earlier pages carries over
                    assert(tags_covered(gp, bviews(by_tag@), m2 as int)) by {
                        assert forall|t2: int, t3: int|
                            0 <= t2 < m2 && 0 <= t3 < gp[t2].front_matter.tags.len() implies
                        find_bucket(bviews(by_tag@), #[trigger] gp[t2].front_matter.tags[t3])
                            is Some by {
                            assert(find_bucket(gbs, gp[t2].front_matter.tags[t3]) is Some);
                            lemma_find_bucket_range(gbs, gp[t2].front_matter.tags[t3]);
                            let b0 = find_bucket(gbs, gp[t2].front_matter.tags[t3])->Some_0;
                            lemma_find_bucket_some_if(t, gp[t2].front_matter.tags[t3], b0);
                        }
                    }
                    // and for this page's tags seen so far, the new one too
                    assert(keys_covered(gtags, bviews(by_tag@), tt as int + 1)) by {
                        assert forall|t2: int| 0 <= t2 < tt + 1 implies find_bucket(
                            bviews(by_tag@),
                            #[trigger] gtags[t2],
                        ) is Some by {
                            if t2 < tt {
                                assert(find_bucket(gbs, gtags[t2]) is Some);
                                lemma_find_bucket_range(gbs, gtags[t2]);
                                let b0 = find_bucket(gbs, gtags[t2])->Some_0;
                                lemma_find_bucket_some_if(t, gtags[t2], b0);
                            } else {
                                assert(find_bucket(t, key) is Some);
                            }
                        }
                    }
                }
                tt = tt + 1;
            }
            proof {
                assert(keys_covered(gtags, bviews(by_tag@), ntags as int));
                assert(gtags.take(ntags as int) =~= gtags);
                assert forall|b: int, x: usize|
                    0 <= b < bviews(by_tag@).len() && (x as int) < gp.len() implies ((
                #[trigger] idx_in(bviews(by_tag@)[b].idxs, x)) <==> ((x as int) < m2 + 1
                    && tag_matches(gp[x as int], bviews(by_tag@)[b].key))) by {
                    if (x as int) == (m2 as int) {
                        assert(idx_in(bviews(by_tag@)[b].idxs, x) <==> gtags.take(
                            ntags as int,
                        ).contains(bviews(by_tag@)[b].key));
                    }
                }
                assert forall|b: int, k: int|
                    0 <= b < bviews(by_tag@).len() && 0 <= k < bviews(by_tag@)[b].idxs.len()
                        implies (#[trigger] bviews(by_tag@)[b].idxs[k]) < m2 + 1 by {
                    assert(bviews(by_tag@)[b].idxs[k] <= m2);
                }
                assert(tags_covered(gp, bviews(by_tag@), m2 as int + 1)) by {
                    assert forall|t2: int, t3: int|
                        0 <= t2 < m2 + 1 && 0 <= t3 < gp[t2].front_matter.tags.len() implies
                    find_bucket(bviews(by_tag@), #[trigger] gp[t2].front_matter.tags[t3])
                        is Some by {
                        if t2 == m2 as int {
                            assert(gp[t2].front_matter.tags[t3] == gtags[t3]);
                            assert(0 <= t3 < ntags as int);
                            assert(keys_covered(gtags, bviews(by_tag@), ntags as int));
                            assert(find_bucket(bviews(by_tag@), gtags[t3]) is Some);
                        } else {
                            assert(0 <= t2 < m2 as int);
                            assert(tags_covered(gp, bviews(by_tag@), m2 as int));
                        }
                    }
                }
            }
            m2 = m2 + 1;
        }
        // group by folder
        let mut folders: Vec<Bucket> = Vec::new();
        let mut m3: usize = 0;
        while m3 < np
            invariant
                np == pages@.len(),
                m3 <= np,
                gp == pviews(pages@),
                gfiles == fviews(files@),
                cfg == config@,
                root == in_path@,
                docs == docs_of(cfg, root, gfiles),
                gp.len() == docs.len(),
                forall|k: int|
                    0 <= k < gp.len() ==> page_path_ok(root, oroot, docs[k], #[trigger] gp[k]),
                forall|b1: int, b2: int|
                    0 <= b1 < b2 < bviews(folders@).len() ==> bviews(folders@)[b1].key != bviews(
                        folders@,
                    )[b2].key,
                forall|b: int|
                    0 <= b < bviews(folders@).len() ==> strictly_increasing(
                        (#[trigger] bviews(folders@)[b]).idxs,
                    ),
                forall|b: int, k: int|
                    0 <= b < bviews(folders@).len() && 0 <= k < bviews(folders@)[b].idxs.len()
                        ==> (#[trigger] bviews(folders@)[b].idxs[k]) < m3,
                forall|b: int, x: usize|
                    0 <= b < bviews(folders@).len() && (x as int) < gp.len() ==> ((
                    #[trigger] idx_in(bviews(folders@)[b].idxs, x)) <==> ((x as int) < m3
                        && folder_key(root, gp[x as int]) == Some(bviews(folders@)[b].key))),
                folders_covered(root, gp, bviews(folders@), m3 as int),
            decreases np - m3,
        {
            proof {
                assert(gp[m3 as int] == pages@[m3 as int]@);
            }
            let fopt = match pages[m3].folder(in_path) {
                Ok(fopt) => fopt,
                Err(pe) => {
                    proof {
                        lemma_docs_of_sub(cfg, root, gfiles);
                        assert(page_path_ok(root, oroot, docs[m3 as int], gp[m3 as int]));
                        assert(docs[m3 as int] == docs_of(cfg, root, gfiles)[m3 as int]);
                        let k = choose|k: int|
                            0 <= k < gfiles.len() && gfiles[k] == docs[m3 as int];
                        assert(fviews(files@)[k].path == pe.path@);
                        assert(is_doc_file(cfg, root, fviews(files@)[k]));
                        // a folder error means the page has a parent that
                        // does not lie under the root
                        assert(gp[m3 as int].in_path == fviews(files@)[k].path);
                        assert(gp[m3 as int].in_path.len() > 0);
                        assert(strip_prefix_spec(
                            root,
                            parent_spec(gp[m3 as int].in_path),
                        ) is None);
                    }
                    return Err(BuildError::Path(pe.path));
                },
            };
            match fopt {
                Some(fkey) => {
                    let ghost gbs = bviews(folders@);
                    let ghost key = fkey@;
                    proof {
                        assert(folder_key(root, gp[m3 as int]) == Some(key));
                        assert forall|b: int, k: int|
                            0 <= b < gbs.len() && 0 <= k < gbs[b].idxs.len() implies (
                        #[trigger] gbs[b].idxs[k]) <= m3 by {
                            assert(gbs[b].idxs[k] < m3);
                        }
                        lemma_bucket_add(gbs, key, m3);
                    }
                    add_to_bucket(&mut folders, fkey.as_str(), m3);
                    proof {
                        let t = bucket_add(gbs, key, m3);
                        assert(bviews(folders@) =~= t);
                        assert forall|b: int, x: usize|
                            0 <= b < t.len() && (x as int) < gp.len() implies ((#[trigger] idx_in(
                            t[b].idxs,
                            x,
                        )) <==> ((x as int) < m3 + 1 && folder_key(root, gp[x as int]) == Some(
                            t[b].key,
                        ))) by {
                            if b < gbs.len() {
                                assert(idx_in(gbs[b].idxs, x) <==> ((x as int) < m3 && folder_key(
                                    root,
                                    gp[x as int],
                                ) == Some(gbs[b].key)));
                            } else {
                                if (x as int) < m3 && folder_key(root, gp[x as int]) == Some(key) {
                                    assert(find_bucket(gbs, folder_key(root, gp[x as int])->Some_0)
                                        is Some);
                                    lemma_find_bucket_range(
                                        gbs,
                                        folder_key(root, gp[x as int])->Some_0,
                                    );
                                    let b0 = find_bucket(
                                        gbs,
                                        folder_key(root, gp[x as int])->Some_0,
                                    )->Some_0;
                                    assert(gbs[b0].key != key);
                                }
                            }
                        }
                        assert(folders_covered(root, gp, bviews(folders@), m3 as int + 1)) by {
                            assert forall|t2: int|
                                0 <= t2 < m3 + 1 && (#[trigger] folder_key(root, gp[t2])) is Some
                                implies find_bucket(
                                bviews(folders@),
                                folder_key(root, gp[t2])->Some_0,
                            ) is Some by {
                                if t2 < m3 {
                                    assert(find_bucket(gbs, folder_key(root, gp[t2])->Some_0)
                                        is Some);
                                    lemma_find_bucket_range(gbs, folder_key(root, gp[t2])->Some_0);
                                    let b0 = find_bucket(
                                        gbs,
                                        folder_key(root, gp[t2])->Some_0,
                                    )->Some_0;
                                    lemma_find_bucket_some_if(
                                        t,
                                        folder_key(root, gp[t2])->Some_0,
                                        b0,
                                    );
                                } else {
                                    assert(find_bucket(t, key) is Some);
                                }
                            }
                        }
                    }
                },
                None => {
                    proof {
                        assert(gp[m3 as int].in_path.len() == 0);
                        assert(folder_key(root, gp[m3 as int]) is None);
                        assert(folders_covered(root, gp, bviews(folders@), m3 as int + 1)) by {
                            assert forall|t2: int|
                                0 <= t2 < m3 + 1 && (#[trigger] folder_key(root, gp[t2])) is Some
                                implies find_bucket(
                                bviews(folders@),
                                folder_key(root, gp[t2])->Some_0,
                            ) is Some by {
                                assert(t2 < m3);
                                assert(folders_covered(root, gp, bviews(folders@), m3 as int));
                            }
                        }
                    }
                },
            }
            m3 = m3 + 1;
        }
        // sort every bucket for its listing
        proof {
            assert forall|b: int| 0 <= b < by_name@.len() implies idxs_valid(
                (#[trigger] bviews(by_name@)[b]).idxs,
                gp.len() as int,
            ) by {
                assert forall|k: int|
                    0 <= k < bviews(by_name@)[b].idxs.len() implies (#[trigger] bviews(
                    by_name@,
                )[b].idxs[k] as int) < gp.len() by {
                    assert(bviews(by_name@)[b].idxs[k] < gp.len());
                }
            }
            assert forall|b: int| 0 <= b < by_tag@.len() implies idxs_valid(
                (#[trigger] bviews(by_tag@)[b]).idxs,
                gp.len() as int,
            ) by {
                assert forall|k: int|
                    0 <= k < bviews(by_tag@)[b].idxs.len() implies (#[trigger] bviews(
                    by_tag@,
                )[b].idxs[k] as int) < gp.len() by {
                    assert(bviews(by_tag@)[b].idxs[k] < np);
                }
            }
            assert forall|b: int| 0 <= b < folders@.len() implies idxs_valid(
                (#[trigger] bviews(folders@)[b]).idxs,
                gp.len() as int,
            ) by {
                assert forall|k: int|
                    0 <= k < bviews(folders@)[b].idxs.len() implies (#[trigger] bviews(
                    folders@,
                )[b].idxs[k] as int) < gp.len() by {
                    assert(bviews(folders@)[b].idxs[k] < np);
                }
            }
        }
        let ghost pre_name = bviews(by_name@);
        let ghost pre_tag = bviews(by_tag@);
        let ghost pre_folders = bviews(folders@);
        proof {
            assert forall|b: int| 0 <= b < pre_name.len() implies (#[trigger] pre_name[b].idxs).no_duplicates() by {
                lemma_increasing_no_duplicates(pre_name[b].idxs);
            }
            assert(buckets_partition(gp, pre_name, |p: GPage, k: Seq<char>| name_matches(p, k)));
            assert forall|b: int| 0 <= b < pre_tag.len() implies (#[trigger] pre_tag[b].idxs).no_duplicates() by {
                lemma_increasing_no_duplicates(pre_tag[b].idxs);
            }
            assert(buckets_partition(gp, pre_tag, |p: GPage, k: Seq<char>| tag_matches(p, k)));
            assert forall|b: int| 0 <= b < pre_folders.len() implies (#[trigger] pre_folders[b].idxs).no_duplicates() by {
                lemma_increasing_no_duplicates(pre_folders[b].idxs);
            }
            assert(buckets_partition(
                gp,
                pre_folders,
                |p: GPage, k: Seq<char>| folder_key(root, p) == Some(k),
            ));
        }
        let by_name = sort_buckets(&pages, by_name);
        let by_tag = sort_buckets(&pages, by_tag);
        let folders = sort_buckets(&pages, folders);
        proof {
            lemma_partition_transfer(
                gp,
                pre_name,
                bviews(by_name@),
                |p: GPage, k: Seq<char>| name_matches(p, k),
            );
            lemma_partition_transfer(
                gp,
                pre_tag,
                bviews(by_tag@),
                |p: GPage, k: Seq<char>| tag_matches(p, k),
            );
            lemma_partition_transfer(
                gp,
                pre_folders,
                bviews(folders@),
                |p: GPage, k: Seq<char>| folder_key(root, p) == Some(k),
            );
            // the covered keys survive sorting, which keeps every key in place
            assert(names_covered(gp, bviews(by_name@), gp.len() as int)) by {
                assert forall|t2: int| 0 <= t2 < gp.len() implies find_bucket(
                    bviews(by_name@),
                    (#[trigger] gp[t2]).name,
                ) is Some by {
                    lemma_find_bucket_same_keys(pre_name, bviews(by_name@), gp[t2].name);
                }
            }
            assert(tags_covered(gp, bviews(by_tag@), gp.len() as int)) by {
                assert forall|t2: int, t3: int|
                    0 <= t2 < gp.len() && 0 <= t3 < gp[t2].front_matter.tags.len() implies
                find_bucket(bviews(by_tag@), #[trigger] gp[t2].front_matter.tags[t3]) is Some by {
                    lemma_find_bucket_same_keys(
                        pre_tag,
                        bviews(by_tag@),
                        gp[t2].front_matter.tags[t3],
                    );
                }
            }
            assert(folders_covered(root, gp, bviews(folders@), gp.len() as int)) by {
                assert forall|t2: int|
                    0 <= t2 < gp.len() && (#[trigger] folder_key(root, gp[t2])) is Some implies
                find_bucket(bviews(folders@), folder_key(root, gp[t2])->Some_0) is Some by {
                    lemma_find_bucket_same_keys(
                        pre_folders,
                        bviews(folders@),
                        folder_key(root, gp[t2])->Some_0,
                    );
                }
            }
        }
        let sm = SiteMap {
            root: in_path.to_owned(),
            out_root: out_path.to_owned(),
            statics,
            pages,
            pages_by_name: by_name,
            pages_by_tag: by_tag,
            folders,
            edges: Vec::new(),
        };
        proof {
            // completeness of the warning list over duplicate names
            assert forall|a: int, b: int|
                #![trigger gp[a].name, gp[b].name]
                0 <= a < b < gp.len() && gp[a].name == gp[b].name implies find_bucket(
                bviews(warnings@),
                gp[a].name,
            ) is Some by {
                assert(names_covered(gp, pre_name, gp.len() as int));
                assert(find_bucket(pre_name, gp[a].name) is Some);
                lemma_find_bucket_range(pre_name, gp[a].name);
                let bkt = find_bucket(pre_name, gp[a].name)->Some_0;
                assert(idx_in(pre_name[bkt].idxs, a as usize));
                assert(idx_in(pre_name[bkt].idxs, b as usize));
                let k1 = choose|k: int|
                    0 <= k < pre_name[bkt].idxs.len() && pre_name[bkt].idxs[k] == a as usize;
                let k2 = choose|k: int|
                    0 <= k < pre_name[bkt].idxs.len() && pre_name[bkt].idxs[k] == b as usize;
                assert(k1 != k2);
                assert(pre_name[bkt].idxs.len() >= 2);
                assert(dups_warned(pre_name, bviews(warnings@), pre_name.len() as int));
                assert(find_bucket(bviews(warnings@), pre_name[bkt].key) is Some);
            }
            assert(dup_warnings_ok(gp, bviews(warnings@)));
            assert(build_ok(cfg, root, oroot, gfiles, sm@, bviews(warnings@)));
        }
        Ok((sm, warnings))
    }
}

} // verus!
